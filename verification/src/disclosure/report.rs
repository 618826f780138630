//! The diagnostics of the disclosure analysis.

use vstd::prelude::*;
use vstd::string::*;

use crate::db::{item_tree, CompactDatabase, CtxView, FileDeps, SourceText, Workspace};
use crate::diagnostics::{
    diags_view, plain_diag, DiagView, Diagnostic, DiagnosticCode, Severity, SpanView,
};
use crate::disclosure::abs::{
    points_view, same_point, InfoView, PathPoint, PointView, WitnessInfo, WitnessView,
    witnesses_view,
};
use crate::disclosure::interp::InterpCtx;
use crate::disclosure::leaks::{
    advisories_view, advisory_diag, advisory_to_diagnostic, distinct_from, empty_sink, leaks_view,
    AdvisoryView, DisclosureLeak, DisclosureSink, LeakView, SinkView,
};
use crate::disclosure::roots::{
    discover_roots, interp_root, root_walked, roots_of, roots_view, RootView,
};
use crate::text::{cat2, cat3, cat4};
use crate::vfs::FileId;

verus! {

/// How the origin of a witness is described.
pub open spec fn origin_label(info: InfoView) -> Seq<char> {
    match info {
        InfoView::WitnessReturn { function } => "the return value of witness "@ + function,
        InfoView::ConstructorArg { arg } => "the value of parameter "@ + arg
            + " of the constructor"@,
        InfoView::CircuitArg { function, arg } => "the value of parameter "@ + arg + " of circuit "@
            + function,
    }
}

/// How a point on a trail is described.
pub open spec fn point_label(p: PointView) -> Seq<char> {
    if p.exposure.len() == 0 {
        p.description
    } else {
        p.exposure + " "@ + p.description
    }
}

/// The spans of the points from position `k` on; a point equal to the one
/// before it is left out.
pub open spec fn point_spans(path: Seq<PointView>, k: int) -> Seq<SpanView>
    decreases path.len() - k,
{
    if 0 <= k < path.len() {
        let rest = point_spans(path, k + 1);
        if k > 0 && path[k] == path[k - 1] {
            rest
        } else {
            seq![SpanView { span: path[k].src, label: Some(point_label(path[k])) }] + rest
        }
    } else {
        Seq::empty()
    }
}

/// The spans of the witnesses from position `k` on: each origin, and behind it
/// the trail.
pub open spec fn witness_spans(ws: Seq<WitnessView>, k: int) -> Seq<SpanView>
    decreases ws.len() - k,
{
    if 0 <= k < ws.len() {
        seq![SpanView { span: ws[k].src, label: Some(origin_label(ws[k].info)) }] + point_spans(
            ws[k].path,
            0,
        ) + witness_spans(ws, k + 1)
    } else {
        Seq::empty()
    }
}

/// The error that a leak is shown as.
pub open spec fn leak_diag(leak: LeakView) -> DiagView {
    DiagView {
        secondary_spans: witness_spans(leak.witnesses, 0),
        ..plain_diag(
            Severity::Error,
            "E"@,
            3100,
            "potential witness-value disclosure: "@ + leak.nature,
            leak.src,
        )
    }
}

/// The sink after the roots from position `k` on were walked.
pub open spec fn roots_walked(c: CtxView, roots: Seq<RootView>, k: int, sink: SinkView) -> SinkView
    decreases roots.len() - k,
{
    if 0 <= k < roots.len() {
        roots_walked(c, roots, k + 1, root_walked(c, roots[k], sink))
    } else {
        sink
    }
}

/// The sink after all roots of the file were walked.
pub open spec fn file_walked(c: CtxView) -> SinkView {
    let r = roots_of(c, c.syms(), empty_sink());
    roots_walked(c, r.1, 0, r.0)
}

/// The diagnostics of a file: one error per leak, then one warning per
/// advisory, each place and reason once.
pub open spec fn disclosure_problems(c: CtxView) -> Seq<DiagView> {
    let sink = file_walked(c);
    sink.leaks.map_values(|l: LeakView| leak_diag(l)) + distinct_from(
        sink.advisories,
        0,
        Seq::empty(),
    ).map_values(|a: AdvisoryView| advisory_diag(a))
}

fn witness_origin_label(info: &WitnessInfo) -> (r: String)
    ensures
        r@ == origin_label(info@),
{
    match info {
        WitnessInfo::WitnessReturn { function } => cat2("the return value of witness ", function),
        WitnessInfo::ConstructorArg { arg } => cat3(
            "the value of parameter ",
            arg,
            " of the constructor",
        ),
        WitnessInfo::CircuitArg { function, arg } => cat4(
            "the value of parameter ",
            arg,
            " of circuit ",
            function,
        ),
    }
}

fn path_label(p: &PathPoint) -> (r: String)
    ensures
        r@ == point_label(p@),
{
    if p.exposure.as_str().is_empty() {
        p.description.clone()
    } else {
        cat3(&p.exposure, " ", &p.description)
    }
}

fn add_path_spans(diag: &mut Diagnostic, path: &Vec<PathPoint>)
    ensures
        final(diag)@ == (DiagView {
            secondary_spans: old(diag)@.secondary_spans + point_spans(points_view(path@), 0),
            ..old(diag)@
        }),
{
    let ghost pts = points_view(path@);
    let ghost base = diag@;
    let ghost whole = base.secondary_spans + point_spans(pts, 0);
    let mut k: usize = 0;
    while k < path.len()
        invariant
            k <= path@.len(),
            pts == points_view(path@),
            diag@ == (DiagView { secondary_spans: diag@.secondary_spans, ..base }),
            diag@.secondary_spans + point_spans(pts, k as int) == whole,
        decreases path@.len() - k,
    {
        assert(pts[k as int] == path@[k as int]@);
        let ghost before = diag@.secondary_spans;
        let ghost rest = point_spans(pts, k + 1);
        let repeated: bool = if k > 0 {
            assert(pts[k - 1] == path@[k - 1]@);
            same_point(&path[k], &path[k - 1])
        } else {
            false
        };
        if !repeated {
            let label = path_label(&path[k]);
            let ghost own = SpanView { span: path@[k as int].src, label: Some(label@) };
            diag.add_secondary(path[k].src, label);
            assert(before + (seq![own] + rest) =~= before.push(own) + rest);
        }
        k = k + 1;
    }
    assert(diag@.secondary_spans + Seq::<SpanView>::empty() =~= diag@.secondary_spans);
}

/// Shows a leak as an error: at the sink, with the origin and the trail of
/// each witness.
pub fn leak_to_diagnostic(leak: &DisclosureLeak) -> (r: Diagnostic)
    ensures
        r@ == leak_diag(leak@),
{
    let m = cat2("potential witness-value disclosure: ", &leak.nature);
    let mut diag = Diagnostic::error(DiagnosticCode::new("E", 3100), m, leak.src);
    let ghost base = diag@;
    let ghost ws = witnesses_view(leak.witnesses@);
    let ghost whole = witness_spans(ws, 0);
    let mut k: usize = 0;
    assert(diag@.secondary_spans + whole =~= whole);
    while k < leak.witnesses.len()
        invariant
            k <= leak.witnesses@.len(),
            ws == witnesses_view(leak.witnesses@),
            diag@ == (DiagView { secondary_spans: diag@.secondary_spans, ..base }),
            diag@.secondary_spans + witness_spans(ws, k as int) == whole,
        decreases leak.witnesses@.len() - k,
    {
        let w = &leak.witnesses[k];
        assert(ws[k as int] == w@);
        let ghost before = diag@.secondary_spans;
        let ghost rest = witness_spans(ws, k + 1);
        let label = witness_origin_label(&w.info);
        let ghost own = SpanView { span: w@.src, label: Some(label@) };
        diag.add_secondary(w.src, label);
        add_path_spans(&mut diag, &w.path);
        let ghost trail = point_spans(w@.path, 0);
        assert(before + (seq![own] + trail + rest) =~= before.push(own) + trail + rest);
        k = k + 1;
    }
    assert(diag@.secondary_spans + Seq::<SpanView>::empty() =~= diag@.secondary_spans);
    diag
}

/// The disclosure diagnostics of a file: every confirmed leak as an error, and
/// every point that could not be decided as a warning.
pub fn disclosure_diagnostics_query(
    db: &CompactDatabase,
    file: FileId,
    src: SourceText,
    fd: FileDeps,
    ws: &Workspace,
) -> (r: Vec<Diagnostic>)
    requires
        (CtxView { db: db@, file, src, fd, ws: ws@ }).ok(),
    ensures
        diags_view(r@) == disclosure_problems(CtxView { db: db@, file, src, fd, ws: ws@ }),
{
    let tree = item_tree(db, src);
    let mut sink = DisclosureSink::new();
    let base = InterpCtx { db, file, src, fd, ws, disclosing_fn: None };
    let ghost c = base.c();
    let roots = discover_roots(&base, tree, &mut sink);
    let ghost list = roots_view(roots@);
    let ghost whole = roots_walked(c, list, 0, sink@);
    let mut k: usize = 0;
    while k < roots.len()
        invariant
            base.c().ok(),
            c == base.c(),
            k <= roots@.len(),
            list == roots_view(roots@),
            roots_walked(c, list, k as int, sink@) == whole,
        decreases roots@.len() - k,
    {
        assert(list[k as int] == roots@[k as int]@);
        interp_root(&base, &mut sink, &roots[k]);
        k = k + 1;
    }
    let ghost done = sink@;
    let leaks = sink.drain_leaks();
    let advisories = sink.drain_advisories();
    let ghost errors = done.leaks.map_values(|l: LeakView| leak_diag(l));
    let ghost kept = distinct_from(done.advisories, 0, Seq::empty());
    let ghost warnings = kept.map_values(|a: AdvisoryView| advisory_diag(a));
    let mut diags: Vec<Diagnostic> = Vec::new();
    let mut i: usize = 0;
    assert(diags_view(diags@) =~= errors.take(0));
    while i < leaks.len()
        invariant
            i <= leaks@.len(),
            leaks_view(leaks@) == done.leaks,
            errors == done.leaks.map_values(|l: LeakView| leak_diag(l)),
            diags_view(diags@) == errors.take(i as int),
        decreases leaks@.len() - i,
    {
        assert(done.leaks[i as int] == leaks@[i as int]@);
        let ghost before = diags_view(diags@);
        let d = leak_to_diagnostic(&leaks[i]);
        diags.push(d);
        assert(diags_view(diags@) =~= before.push(errors[i as int]));
        assert(errors.take(i + 1) =~= before.push(errors[i as int]));
        i = i + 1;
    }
    assert(leaks_view(leaks@).len() == leaks@.len());
    assert(errors.take(i as int) =~= errors);
    let mut j: usize = 0;
    assert(diags_view(diags@) =~= errors + warnings.take(0));
    while j < advisories.len()
        invariant
            j <= advisories@.len(),
            advisories_view(advisories@) == kept,
            warnings == kept.map_values(|a: AdvisoryView| advisory_diag(a)),
            diags_view(diags@) == errors + warnings.take(j as int),
        decreases advisories@.len() - j,
    {
        assert(kept[j as int] == advisories@[j as int]@);
        let ghost before = diags_view(diags@);
        let d = advisory_to_diagnostic(&advisories[j]);
        diags.push(d);
        assert(diags_view(diags@) =~= before.push(warnings[j as int]));
        assert(errors + warnings.take(j + 1) =~= before.push(warnings[j as int]));
        j = j + 1;
    }
    assert(advisories_view(advisories@).len() == advisories@.len());
    assert(warnings.take(j as int) =~= warnings);
    diags
}

} // verus!
