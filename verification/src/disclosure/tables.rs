//! The tables of native and ledger operations.
//!
//! A native operation is a conduit: the witnesses of each flagged argument
//! flow into its result with the exposure that the flag names, and an argument
//! without a flag is hidden. A ledger operation is a sink: each flagged
//! argument leaks.

use vstd::prelude::*;

use crate::text::same_text;

verus! {

/// One flag per argument, in order: the exposure, or `None` where the argument
/// discloses nothing.
pub type ArgFlags = Vec<Option<&'static str>>;

/// The flags of all arguments as values.
pub type FlagsView = Seq<Option<Seq<char>>>;

/// The value of a flag.
pub open spec fn flag_view(f: Option<&'static str>) -> Option<Seq<char>> {
    match f {
        Some(s) => Some(s@),
        None => None,
    }
}

/// The values of a list of flags.
pub open spec fn flags_view(s: Seq<Option<&'static str>>) -> FlagsView {
    s.map_values(|f: Option<&'static str>| flag_view(f))
}

/// What a known ledger operation discloses.
#[derive(Debug, PartialEq, Eq)]
pub enum LedgerOp {
    /// Every argument leaks, with an empty exposure.
    AllArgsLeak,
    /// Each argument as its flag says.
    PerArg(ArgFlags),
}

/// The value of a [`LedgerOp`].
pub enum LedgerOpView {
    AllArgsLeak,
    PerArg(FlagsView),
}

impl View for LedgerOp {
    type V = LedgerOpView;

    open spec fn view(&self) -> LedgerOpView {
        match self {
            LedgerOp::AllArgsLeak => LedgerOpView::AllArgsLeak,
            LedgerOp::PerArg(f) => LedgerOpView::PerArg(flags_view(f@)),
        }
    }
}

/// The flags of a native operation.
pub open spec fn native_flags(name: Seq<char>) -> Option<FlagsView> {
    if name == "transientHash"@ {
        Some(
            seq![
                Some("a hash of"@),
            ],
        )
    } else if name == "transientCommit"@ {
        Some(
            seq![
                None,
                None,
            ],
        )
    } else if name == "persistentHash"@ {
        Some(
            seq![
                Some("a hash of"@),
            ],
        )
    } else if name == "persistentCommit"@ {
        Some(
            seq![
                None,
                None,
            ],
        )
    } else if name == "degradeToTransient"@ {
        Some(
            seq![
                Some("a modulus of"@),
            ],
        )
    } else if name == "upgradeFromTransient"@ {
        Some(
            seq![
                Some("a converted form of"@),
            ],
        )
    } else if name == "jubjubPointX"@ {
        Some(
            seq![
                Some("the X coordinate of"@),
            ],
        )
    } else if name == "jubjubPointY"@ {
        Some(
            seq![
                Some("the Y coordinate of"@),
            ],
        )
    } else if name == "ecAdd"@ {
        Some(
            seq![
                Some("an elliptic curve sum including"@),
                Some("an elliptic curve sum including"@),
            ],
        )
    } else if name == "ecMul"@ {
        Some(
            seq![
                Some("an elliptic curve product including"@),
                Some("an elliptic curve product including"@),
            ],
        )
    } else if name == "ecMulGenerator"@ {
        Some(
            seq![
                Some("the product of the embedded group generator with"@),
            ],
        )
    } else if name == "hashToCurve"@ {
        Some(
            seq![
                Some("a hash of"@),
            ],
        )
    } else if name == "constructJubjubPoint"@ {
        Some(
            seq![
                Some("a JubjubPoint containing x coordinate"@),
                Some("a JubjubPoint containing y coordinate"@),
            ],
        )
    } else if name == "ownPublicKey"@ {
        Some(
            Seq::empty(),
        )
    } else if name == "createZswapInput"@ {
        Some(
            seq![
                None,
            ],
        )
    } else if name == "createZswapOutput"@ {
        Some(
            seq![
                None,
                None,
            ],
        )
    } else {
        None
    }
}

/// Whether every argument of the ledger operation leaks.
pub open spec fn all_args_leak(name: Seq<char>) -> bool {
    name == "write"@
        || name == "writeCoin"@
        || name == "increment"@
        || name == "decrement"@
        || name == "lessThan"@
        || name == "member"@
        || name == "lookup"@
        || name == "insert"@
        || name == "insertDefault"@
        || name == "remove"@
        || name == "insertCoin"@
        || name == "pushFront"@
        || name == "pushFrontCoin"@
        || name == "checkRoot"@
}

/// What a ledger operation discloses.
pub open spec fn ledger_flags(name: Seq<char>) -> Option<LedgerOpView> {
    if all_args_leak(name) {
        Some(LedgerOpView::AllArgsLeak)
    } else if name == "claimZswapNullifier"@ {
        Some(
            LedgerOpView::PerArg(seq![
                Some("a link between a claim of nullifier and the coin with the nullifier given by"@),
            ]),
        )
    } else if name == "claimZswapCoinSpend"@ {
        Some(
            LedgerOpView::PerArg(seq![
                Some("a link between a coin spend and the coin with the commitment given by"@),
            ]),
        )
    } else if name == "claimZswapCoinReceive"@ {
        Some(
            LedgerOpView::PerArg(seq![
                Some("a link between a coin receive and the coin with the commitment given by"@),
            ]),
        )
    } else if name == "claimContractCall"@ {
        Some(
            LedgerOpView::PerArg(seq![
                Some("the address of a contract being called given by"@),
                Some("the hash of the contract's circuit being called given by"@),
                None,
            ]),
        )
    } else if name == "mintShielded"@ {
        Some(
            LedgerOpView::PerArg(seq![
                Some("the domain separator of the token being minted given by"@),
                Some("the value of a token mint given by"@),
            ]),
        )
    } else if name == "mintUnshielded"@ {
        Some(
            LedgerOpView::PerArg(seq![
                Some("the domain separator of the unshielded token being minted given by"@),
                Some("the amount of the unshielded token being minted given by"@),
            ]),
        )
    } else if name == "claimUnshieldedCoinSpend"@ {
        Some(
            LedgerOpView::PerArg(seq![
                Some("the type of the unshielded token being transferred given by"@),
                Some("the recipient of the unshielded token being transferred given by"@),
                Some("the amount of the unshielded token being transferred given by"@),
            ]),
        )
    } else if name == "incUnshieldedOutputs"@ {
        Some(
            LedgerOpView::PerArg(seq![
                Some("the type of the unshielded token being spent given by"@),
                Some("the amount of the unshielded token being spent given by"@),
            ]),
        )
    } else if name == "incUnshieldedInputs"@ {
        Some(
            LedgerOpView::PerArg(seq![
                Some("the type of the unshielded token being received given by"@),
                Some("the amount of the unshielded token being received given by"@),
            ]),
        )
    } else if name == "balance"@ {
        Some(
            LedgerOpView::PerArg(seq![
                Some("the type of the unshielded token having its balanced checked given by"@),
            ]),
        )
    } else if name == "balanceLessThan"@ {
        Some(
            LedgerOpView::PerArg(seq![
                Some("the type of the unshielded token having its balanced checked given by"@),
                Some("the upper bound of the balance of the unshielded token being checked"@),
            ]),
        )
    } else if name == "balanceGreaterThan"@ {
        Some(
            LedgerOpView::PerArg(seq![
                Some("the type of the unshielded token having its balanced checked given by"@),
                Some("the lower bound of the balance of the unshielded token being checked"@),
            ]),
        )
    } else if name == "blockTimeLessThan"@ {
        Some(
            LedgerOpView::PerArg(seq![
                Some("the lower bound of the time being checked"@),
            ]),
        )
    } else if name == "blockTimeGreaterThan"@ {
        Some(
            LedgerOpView::PerArg(seq![
                Some("the upper bound of the time being checked"@),
            ]),
        )
    } else {
        None
    }
}

fn flags0() -> (r: ArgFlags)
    ensures
        flags_view(r@) == Seq::<Option<Seq<char>>>::empty(),
{
    let r: ArgFlags = Vec::new();
    assert(flags_view(r@) =~= Seq::<Option<Seq<char>>>::empty());
    r
}

fn flags1(a: Option<&'static str>) -> (r: ArgFlags)
    ensures
        flags_view(r@) == seq![flag_view(a)],
{
    let mut r: ArgFlags = Vec::new();
    r.push(a);
    assert(flags_view(r@) =~= seq![flag_view(a)]);
    r
}

fn flags2(a: Option<&'static str>, b: Option<&'static str>) -> (r: ArgFlags)
    ensures
        flags_view(r@) == seq![flag_view(a), flag_view(b)],
{
    let mut r: ArgFlags = Vec::new();
    r.push(a);
    r.push(b);
    assert(flags_view(r@) =~= seq![flag_view(a), flag_view(b)]);
    r
}

fn flags3(a: Option<&'static str>, b: Option<&'static str>, c: Option<&'static str>) -> (r: ArgFlags)
    ensures
        flags_view(r@) == seq![flag_view(a), flag_view(b), flag_view(c)],
{
    let mut r: ArgFlags = Vec::new();
    r.push(a);
    r.push(b);
    r.push(c);
    assert(flags_view(r@) =~= seq![flag_view(a), flag_view(b), flag_view(c)]);
    r
}

/// The flags of a native operation, or `None` for a name that is not one.
pub fn native_conduit(name: &str) -> (r: Option<ArgFlags>)
    ensures
        match r {
            Some(f) => native_flags(name@) == Some(flags_view(f@)),
            None => native_flags(name@) is None,
        },
{
    if same_text(name, "transientHash") {
        return Some(flags1(
            Some("a hash of"),
        ));
    }
    if same_text(name, "transientCommit") {
        return Some(flags2(
            None,
            None,
        ));
    }
    if same_text(name, "persistentHash") {
        return Some(flags1(
            Some("a hash of"),
        ));
    }
    if same_text(name, "persistentCommit") {
        return Some(flags2(
            None,
            None,
        ));
    }
    if same_text(name, "degradeToTransient") {
        return Some(flags1(
            Some("a modulus of"),
        ));
    }
    if same_text(name, "upgradeFromTransient") {
        return Some(flags1(
            Some("a converted form of"),
        ));
    }
    if same_text(name, "jubjubPointX") {
        return Some(flags1(
            Some("the X coordinate of"),
        ));
    }
    if same_text(name, "jubjubPointY") {
        return Some(flags1(
            Some("the Y coordinate of"),
        ));
    }
    if same_text(name, "ecAdd") {
        return Some(flags2(
            Some("an elliptic curve sum including"),
            Some("an elliptic curve sum including"),
        ));
    }
    if same_text(name, "ecMul") {
        return Some(flags2(
            Some("an elliptic curve product including"),
            Some("an elliptic curve product including"),
        ));
    }
    if same_text(name, "ecMulGenerator") {
        return Some(flags1(
            Some("the product of the embedded group generator with"),
        ));
    }
    if same_text(name, "hashToCurve") {
        return Some(flags1(
            Some("a hash of"),
        ));
    }
    if same_text(name, "constructJubjubPoint") {
        return Some(flags2(
            Some("a JubjubPoint containing x coordinate"),
            Some("a JubjubPoint containing y coordinate"),
        ));
    }
    if same_text(name, "ownPublicKey") {
        return Some(flags0());
    }
    if same_text(name, "createZswapInput") {
        return Some(flags1(
            None,
        ));
    }
    if same_text(name, "createZswapOutput") {
        return Some(flags2(
            None,
            None,
        ));
    }
    None
}

/// What a ledger operation discloses, or `None` for a name that is not one.
pub fn ledger_op(name: &str) -> (r: Option<LedgerOp>)
    ensures
        match r {
            Some(op) => ledger_flags(name@) == Some(op@),
            None => ledger_flags(name@) is None,
        },
{
    if same_text(name, "write")
        || same_text(name, "writeCoin")
        || same_text(name, "increment")
        || same_text(name, "decrement")
        || same_text(name, "lessThan")
        || same_text(name, "member")
        || same_text(name, "lookup")
        || same_text(name, "insert")
        || same_text(name, "insertDefault")
        || same_text(name, "remove")
        || same_text(name, "insertCoin")
        || same_text(name, "pushFront")
        || same_text(name, "pushFrontCoin")
        || same_text(name, "checkRoot") {
        return Some(LedgerOp::AllArgsLeak);
    }
    if same_text(name, "claimZswapNullifier") {
        return Some(LedgerOp::PerArg(flags1(
            Some("a link between a claim of nullifier and the coin with the nullifier given by"),
        )));
    }
    if same_text(name, "claimZswapCoinSpend") {
        return Some(LedgerOp::PerArg(flags1(
            Some("a link between a coin spend and the coin with the commitment given by"),
        )));
    }
    if same_text(name, "claimZswapCoinReceive") {
        return Some(LedgerOp::PerArg(flags1(
            Some("a link between a coin receive and the coin with the commitment given by"),
        )));
    }
    if same_text(name, "claimContractCall") {
        return Some(LedgerOp::PerArg(flags3(
            Some("the address of a contract being called given by"),
            Some("the hash of the contract's circuit being called given by"),
            None,
        )));
    }
    if same_text(name, "mintShielded") {
        return Some(LedgerOp::PerArg(flags2(
            Some("the domain separator of the token being minted given by"),
            Some("the value of a token mint given by"),
        )));
    }
    if same_text(name, "mintUnshielded") {
        return Some(LedgerOp::PerArg(flags2(
            Some("the domain separator of the unshielded token being minted given by"),
            Some("the amount of the unshielded token being minted given by"),
        )));
    }
    if same_text(name, "claimUnshieldedCoinSpend") {
        return Some(LedgerOp::PerArg(flags3(
            Some("the type of the unshielded token being transferred given by"),
            Some("the recipient of the unshielded token being transferred given by"),
            Some("the amount of the unshielded token being transferred given by"),
        )));
    }
    if same_text(name, "incUnshieldedOutputs") {
        return Some(LedgerOp::PerArg(flags2(
            Some("the type of the unshielded token being spent given by"),
            Some("the amount of the unshielded token being spent given by"),
        )));
    }
    if same_text(name, "incUnshieldedInputs") {
        return Some(LedgerOp::PerArg(flags2(
            Some("the type of the unshielded token being received given by"),
            Some("the amount of the unshielded token being received given by"),
        )));
    }
    if same_text(name, "balance") {
        return Some(LedgerOp::PerArg(flags1(
            Some("the type of the unshielded token having its balanced checked given by"),
        )));
    }
    if same_text(name, "balanceLessThan") {
        return Some(LedgerOp::PerArg(flags2(
            Some("the type of the unshielded token having its balanced checked given by"),
            Some("the upper bound of the balance of the unshielded token being checked"),
        )));
    }
    if same_text(name, "balanceGreaterThan") {
        return Some(LedgerOp::PerArg(flags2(
            Some("the type of the unshielded token having its balanced checked given by"),
            Some("the lower bound of the balance of the unshielded token being checked"),
        )));
    }
    if same_text(name, "blockTimeLessThan") {
        return Some(LedgerOp::PerArg(flags1(
            Some("the lower bound of the time being checked"),
        )));
    }
    if same_text(name, "blockTimeGreaterThan") {
        return Some(LedgerOp::PerArg(flags1(
            Some("the upper bound of the time being checked"),
        )));
    }
    None
}

/// The third argument of `claimContractCall` is the only argument of a ledger
/// operation that discloses nothing.
pub proof fn law_only_contract_commitment_is_hidden(name: Seq<char>, flags: FlagsView, i: int)
    requires
        ledger_flags(name) == Some(LedgerOpView::PerArg(flags)),
        0 <= i < flags.len(),
        flags[i] is None,
    ensures
        name == "claimContractCall"@,
        i == 2,
{
}

/// The commitments hide both of their arguments.
pub proof fn law_commitments_hide_everything()
    ensures
        native_flags("transientCommit"@) == Some(seq![None::<Seq<char>>, None]),
        native_flags("persistentCommit"@) == Some(seq![None::<Seq<char>>, None]),
{
    reveal_strlit("transientHash");
    reveal_strlit("transientCommit");
    reveal_strlit("persistentHash");
    reveal_strlit("persistentCommit");
    assert("transientCommit"@.len() != "transientHash"@.len());
    assert("persistentCommit"@.len() != "transientHash"@.len());
    assert("persistentCommit"@.len() != "transientCommit"@.len());
    assert("persistentCommit"@.len() != "persistentHash"@.len());
}

} // verus!
