//! Tests of the call tables and the compiler version.

use analyzer_core::disclosure::tables::{ledger_op, native_conduit, LedgerOp};
use analyzer_core::disclosure::version::version_mismatch;

#[test]
fn native_sample_cross_check_against_r0() {
    assert_eq!(
        native_conduit("transientHash"),
        Some(vec![Some("a hash of")])
    );
    assert_eq!(
        native_conduit("persistentHash"),
        Some(vec![Some("a hash of")])
    );
    assert_eq!(native_conduit("persistentCommit"), Some(vec![None, None]));
    assert_eq!(native_conduit("transientCommit"), Some(vec![None, None]));
    assert!(native_conduit("notANative").is_none());
}

#[test]
fn ledger_sample_cross_check_against_r0() {
    assert!(matches!(ledger_op("insert"), Some(LedgerOp::AllArgsLeak)));
    assert!(matches!(
        ledger_op("increment"),
        Some(LedgerOp::AllArgsLeak)
    ));
    match ledger_op("claimContractCall") {
        Some(LedgerOp::PerArg(flags)) => {
            assert_eq!(flags.len(), 3);
            assert!(flags[0].is_some());
            assert!(flags[1].is_some());
            assert_eq!(flags[2], None);
        }
        other => panic!(
            "expected PerArg for claimContractCall, got {}",
            match other {
                Some(LedgerOp::AllArgsLeak) => "AllArgsLeak",
                None => "None",
                _ => "?",
            }
        ),
    }
    assert!(ledger_op("notALedgerOp").is_none());
}

#[test]
fn exact_match_is_none() {
    assert_eq!(version_mismatch("0.31.1"), None);
}

#[test]
fn same_major_minor_different_patch_is_none() {
    assert_eq!(version_mismatch("0.31.5"), None);
    assert_eq!(version_mismatch("0.31.0"), None);
}

#[test]
fn different_minor_is_some_and_mentions_staleness() {
    let reason = version_mismatch("0.32.0").expect("minor bump must mismatch");
    assert!(reason.contains("0.31.1"));
    assert!(reason.contains("0.32.0"));
    assert!(reason.contains("stale"));
}

#[test]
fn different_major_is_some() {
    assert!(version_mismatch("1.0.0").is_some());
}

#[test]
fn unparseable_version_is_fail_closed_some() {
    assert!(version_mismatch("nightly").is_some());
    assert!(version_mismatch("0").is_some());
}
