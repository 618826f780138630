//! Tests of the leak table and the advisories.

use analyzer_core::diagnostics::Severity;
use analyzer_core::disclosure::abs::{Witness, WitnessInfo};
use analyzer_core::disclosure::leaks::{advisory_to_diagnostic, Advisory, DisclosureSink};
use analyzer_core::text::TextRange;

fn w(uid: u32) -> Witness {
    Witness {
        uid,
        src: TextRange::empty(0),
        info: WitnessInfo::WitnessReturn {
            function: "getW".into(),
        },
        path: Vec::new(),
    }
}

#[test]
fn emit_advisory_accumulates_and_uid_is_monotonic() {
    let mut sink = DisclosureSink::new();
    assert!(sink.advisories().is_empty());
    sink.emit_advisory(TextRange::empty(0), "first");
    sink.emit_advisory(TextRange::empty(1), "second");
    assert_eq!(sink.advisories().len(), 2);
    assert_eq!(sink.advisories()[0].reason, "first");
    assert_eq!(sink.advisories()[1].reason, "second");

    assert_eq!(sink.next_witness_uid(), 0);
    assert_eq!(sink.next_witness_uid(), 1);
    assert_eq!(sink.next_witness_uid(), 2);
}

#[test]
fn record_leak_dedups_by_src_and_nature_unioning_witnesses() {
    let mut sink = DisclosureSink::new();
    let src = TextRange::empty(5);
    sink.record_leak(src, "ledger operation", vec![]);
    assert!(sink.drain_leaks().is_empty());

    sink.record_leak(src, "ledger operation", vec![w(0)]);
    sink.record_leak(src, "ledger operation", vec![w(1)]);
    sink.record_leak(
        src,
        "the value returned from exported circuit f",
        vec![w(0)],
    );

    let mut leaks = sink.drain_leaks();
    leaks.sort_by(|a, b| a.nature.cmp(&b.nature));
    assert_eq!(leaks.len(), 2);
    assert_eq!(leaks[0].nature, "ledger operation");
    assert_eq!(leaks[0].witnesses.len(), 2);
    assert_eq!(
        leaks[1].nature,
        "the value returned from exported circuit f"
    );
    assert_eq!(leaks[1].witnesses.len(), 1);

    assert!(sink.drain_leaks().is_empty());
}

#[test]
fn drain_advisories_dedups_by_src_and_reason() {
    let mut sink = DisclosureSink::new();
    let src = TextRange::empty(5);
    sink.emit_advisory(src, "Unknown declared type");
    sink.emit_advisory(src, "Unknown declared type");
    sink.emit_advisory(src, "unhandled expression form");

    let mut advisories = sink.drain_advisories();
    advisories.sort_by(|a, b| a.reason.cmp(&b.reason));
    assert_eq!(advisories.len(), 2);
    assert_eq!(advisories[0].reason, "Unknown declared type");
    assert_eq!(advisories[1].reason, "unhandled expression form");

    assert!(sink.drain_advisories().is_empty());
}

#[test]
fn advisory_to_diagnostic_is_u3100_warning() {
    let src = TextRange::empty(7);
    let advisory = Advisory {
        src,
        reason: "Unknown declared type".to_string(),
    };
    let diag = advisory_to_diagnostic(&advisory);
    assert_eq!(diag.severity, Severity::Warning);
    assert_eq!(diag.code.prefix, "U");
    assert_eq!(diag.code.number, 3100);
    assert_eq!(diag.primary_span, src);
    assert!(diag.message.contains("advisory"));
    assert!(diag.message.contains("compile is authoritative"));
    assert!(diag.message.contains("Unknown declared type"));
    assert!(diag.secondary_spans.is_empty());
}
