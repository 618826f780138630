//! Laws of the tables of native and ledger operations.

use vstd::prelude::*;

use crate::disclosure::tables::{ledger_flags, native_flags, LedgerOpView};

verus! {

/// Whether a native operation of this name exists.
pub open spec fn native_name(name: Seq<char>) -> bool {
    ||| commits(name)
    ||| digests(name)
    ||| on_the_curve(name)
    ||| name == "degradeToTransient"@ || name == "upgradeFromTransient"@ || name == "ownPublicKey"@
}

/// Whether a native operation of this name hides what it is given.
pub open spec fn commits(name: Seq<char>) -> bool {
    name == "transientCommit"@ || name == "persistentCommit"@ || name == "createZswapInput"@ || name
        == "createZswapOutput"@
}

/// Whether a native operation of this name is a hash.
pub open spec fn digests(name: Seq<char>) -> bool {
    name == "transientHash"@ || name == "persistentHash"@ || name == "hashToCurve"@
}

/// Whether a native operation of this name works on points of the curve.
pub open spec fn on_the_curve(name: Seq<char>) -> bool {
    name == "ecAdd"@ || name == "ecMul"@ || name == "ecMulGenerator"@ || name
        == "constructJubjubPoint"@ || name == "jubjubPointX"@ || name == "jubjubPointY"@
}

/// Whether a native operation of this name takes two arguments.
pub open spec fn takes_two(name: Seq<char>) -> bool {
    name == "transientCommit"@ || name == "persistentCommit"@ || name == "createZswapOutput"@ || name
        == "ecAdd"@ || name == "ecMul"@ || name == "constructJubjubPoint"@
}

/// The native operations are the hashes, the commitments, the operations on
/// points of the curve and three more. A commitment hides each of its
/// arguments, every other one discloses each of its arguments; a hash says that
/// it is one.
#[verifier::spinoff_prover]
pub proof fn law_native_operations(name: Seq<char>, i: int)
    ensures
        native_flags(name) is Some <==> native_name(name),
        native_flags(name) matches Some(flags) ==> {
            &&& 0 <= i < flags.len() ==> (flags[i] is None <==> commits(name))
            &&& digests(name) && 0 <= i < flags.len() ==> flags[i] == Some("a hash of"@)
            &&& flags.len() == (if name == "ownPublicKey"@ {
                0nat
            } else if takes_two(name) {
                2
            } else {
                1
            })
        },
{
    lemma_native_names();
}

proof fn lemma_native_names()
    ensures
        "hashToCurve"@.len() == 11,
        "transientHash"@.len() == 13,
        "persistentHash"@.len() == 14,
        "transientCommit"@.len() == 15,
        "persistentCommit"@.len() == 16,
        "createZswapInput"@.len() == 16,
        "createZswapOutput"@.len() == 17,
        "ownPublicKey"@.len() == 12,
        "ecAdd"@.len() == 5,
        "ecMul"@.len() == 5,
        "ecAdd"@[2] != "ecMul"@[2],
        "ecMulGenerator"@.len() == 14,
        "persistentHash"@[0] != "ecMulGenerator"@[0],
        "persistentCommit"@[0] != "createZswapInput"@[0],
        "constructJubjubPoint"@.len() == 20,
        "upgradeFromTransient"@.len() == 20,
        "constructJubjubPoint"@[0] != "upgradeFromTransient"@[0],
        "degradeToTransient"@.len() == 18,
        "jubjubPointX"@.len() == 12,
        "jubjubPointY"@.len() == 12,
        "jubjubPointX"@[11] != "jubjubPointY"@[11],
        "ownPublicKey"@[0] != "jubjubPointX"@[0],
        "ownPublicKey"@[0] != "jubjubPointY"@[0],
{
    reveal_strlit("hashToCurve");
    reveal_strlit("transientHash");
    reveal_strlit("persistentHash");
    reveal_strlit("transientCommit");
    reveal_strlit("persistentCommit");
    reveal_strlit("createZswapInput");
    reveal_strlit("createZswapOutput");
    reveal_strlit("ownPublicKey");
    reveal_strlit("ecAdd");
    reveal_strlit("ecMul");
    reveal_strlit("ecMulGenerator");
    reveal_strlit("constructJubjubPoint");
    reveal_strlit("upgradeFromTransient");
    reveal_strlit("degradeToTransient");
    reveal_strlit("jubjubPointX");
    reveal_strlit("jubjubPointY");
}

/// Whether a kernel operation of this name exists.
pub open spec fn kernel_name(name: Seq<char>) -> bool {
    ||| name == "claimZswapNullifier"@ || name == "claimZswapCoinSpend"@ || name
        == "claimZswapCoinReceive"@ || name == "claimContractCall"@ || name
        == "claimUnshieldedCoinSpend"@
    ||| name == "mintShielded"@ || name == "mintUnshielded"@
    ||| name == "incUnshieldedOutputs"@ || name == "incUnshieldedInputs"@
    ||| name == "balance"@ || name == "balanceLessThan"@ || name == "balanceGreaterThan"@
    ||| name == "blockTimeLessThan"@ || name == "blockTimeGreaterThan"@
}

/// Whether a data type of the ledger has an operation of this name that takes
/// arguments.
pub open spec fn data_name(name: Seq<char>) -> bool {
    ||| name == "write"@ || name == "writeCoin"@
    ||| name == "increment"@ || name == "decrement"@ || name == "lessThan"@
    ||| name == "member"@ || name == "lookup"@ || name == "remove"@ || name == "checkRoot"@
    ||| name == "insert"@ || name == "insertDefault"@ || name == "insertCoin"@
    ||| name == "pushFront"@ || name == "pushFrontCoin"@
}

/// How many arguments a kernel operation takes.
pub open spec fn kernel_arguments(name: Seq<char>) -> nat {
    if name == "claimContractCall"@ || name == "claimUnshieldedCoinSpend"@ {
        3
    } else if name == "mintShielded"@ || name == "mintUnshielded"@ || name
        == "incUnshieldedOutputs"@ || name == "incUnshieldedInputs"@ || name == "balanceLessThan"@
        || name == "balanceGreaterThan"@ {
        2
    } else {
        1
    }
}

/// An operation on a data type of the ledger discloses every argument. A kernel
/// operation has one description for each argument, and so discloses every one
/// too, but for the last one of a contract call. No other operation is known.
#[verifier::spinoff_prover]
pub proof fn law_ledger_operations(name: Seq<char>, i: int)
    ensures
        ledger_flags(name) == Some(LedgerOpView::AllArgsLeak) <==> data_name(name),
        ledger_flags(name) is None <==> !data_name(name) && !kernel_name(name),
        ledger_flags(name) matches Some(LedgerOpView::PerArg(flags)) ==> {
            &&& kernel_name(name)
            &&& flags.len() == kernel_arguments(name)
            &&& 0 <= i < flags.len() ==> (flags[i] is None <==> name == "claimContractCall"@ && i
                == 2)
        },
{
    lemma_kernel_names();
}

proof fn lemma_kernel_names()
    ensures
        "claimZswapNullifier"@.len() == 19,
        "claimZswapCoinSpend"@.len() == 19,
        "incUnshieldedInputs"@.len() == 19,
        "claimZswapNullifier"@[0] != "incUnshieldedInputs"@[0],
        "claimZswapCoinSpend"@[0] != "incUnshieldedInputs"@[0],
        "claimZswapCoinReceive"@.len() == 21,
        "claimContractCall"@.len() == 17,
        "blockTimeLessThan"@.len() == 17,
        "claimContractCall"@[0] != "blockTimeLessThan"@[0],
        "claimUnshieldedCoinSpend"@.len() == 24,
        "mintShielded"@.len() == 12,
        "mintUnshielded"@.len() == 14,
        "incUnshieldedOutputs"@.len() == 20,
        "blockTimeGreaterThan"@.len() == 20,
        "incUnshieldedOutputs"@[0] != "blockTimeGreaterThan"@[0],
        "balance"@.len() == 7,
        "balanceLessThan"@.len() == 15,
        "balanceGreaterThan"@.len() == 18,
{
    reveal_strlit("claimZswapNullifier");
    reveal_strlit("claimZswapCoinSpend");
    reveal_strlit("incUnshieldedInputs");
    reveal_strlit("claimZswapCoinReceive");
    reveal_strlit("claimContractCall");
    reveal_strlit("blockTimeLessThan");
    reveal_strlit("claimUnshieldedCoinSpend");
    reveal_strlit("mintShielded");
    reveal_strlit("mintUnshielded");
    reveal_strlit("incUnshieldedOutputs");
    reveal_strlit("blockTimeGreaterThan");
    reveal_strlit("balance");
    reveal_strlit("balanceLessThan");
    reveal_strlit("balanceGreaterThan");
}

} // verus!
