use vstd::prelude::*;
use std::ops::Range;
use crate::engine::error::CoreError;
use crate::engine::ir::{Document, DocumentView, FormatId, ProseSpanView};
use crate::engine::level::level_rank;
use crate::engine::traits::{
    Ctx, Edit, EditSet, EditView, Finding, FindingView, Format, Rule, edits_in_bounds, edits_view,
    findings_in_bounds, findings_in_doc, findings_view, opt_str_view,
};
use crate::seqsort::{first_gt, stable_sort};
use crate::text::string_to_chars;
use crate::engine::group::{group_by_rule, grouping_view, is_grouping};

verus! {

/// The rule is active at the context's level.
pub open spec fn rule_active(min: crate::engine::level::CleanupLevel, cx: Ctx) -> bool {
    level_rank(cx.level) >= level_rank(min)
}

/// Findings of the active rules (in rule order) on one span.
pub open spec fn span_findings(rules: Seq<Box<dyn Rule>>, i: usize, span: ProseSpanView, cx: Ctx) -> Seq<FindingView>
    decreases rules.len(),
{
    if rules.len() == 0 {
        Seq::empty()
    } else {
        span_findings(rules.drop_last(), i, span, cx) + if rule_active(rules.last().spec_min_level(), cx) {
            rules.last().spec_detect(i, span, cx)
        } else {
            Seq::empty()
        }
    }
}

/// Findings of the active rules over every span, span by span.
pub open spec fn all_findings(spans: Seq<ProseSpanView>, rules: Seq<Box<dyn Rule>>, cx: Ctx) -> Seq<FindingView>
    decreases spans.len(),
{
    if spans.len() == 0 {
        Seq::empty()
    } else {
        all_findings(spans.drop_last(), rules, cx) + span_findings(
            rules,
            (spans.len() - 1) as usize,
            spans.last(),
            cx,
        )
    }
}

/// Phase 1 — detect (read-only): every active rule over every span.
fn detect_all(doc: &Document, rules: &[Box<dyn Rule>], cx: &Ctx) -> (r: Vec<Finding>)
    ensures
        findings_view(r@) == all_findings(doc@.spans, rules@, *cx),
        findings_in_doc(doc@, findings_view(r@)),
{
    let mut out: Vec<Finding> = Vec::new();
    let mut i: usize = 0;
    while i < doc.spans.len()
        invariant
            i <= doc.spans@.len(),
            findings_view(out@) == all_findings(doc@.spans.take(i as int), rules@, *cx),
            findings_in_doc(doc@, findings_view(out@)),
        decreases doc.spans@.len() - i,
    {
        let span = &doc.spans[i];
        let mut j: usize = 0;
        assert(rules@.take(0) =~= Seq::<Box<dyn Rule>>::empty());
        assert(findings_view(out@) + Seq::<FindingView>::empty() =~= findings_view(out@));
        let ghost base = findings_view(out@);
        while j < rules.len()
            invariant
                j <= rules@.len(),
                i < doc.spans@.len(),
                span@ == doc@.spans[i as int],
                base == all_findings(doc@.spans.take(i as int), rules@, *cx),
                findings_view(out@) == base + span_findings(rules@.take(j as int), i, span@, *cx),
                findings_in_doc(doc@, findings_view(out@)),
            decreases rules@.len() - j,
        {
            let rule = &rules[j];
            proof {
                assert(rules@.take(j + 1).drop_last() =~= rules@.take(j as int));
                assert(rules@.take(j + 1).last() == rules@[j as int]);
            }
            let ghost sf = span_findings(rules@.take(j as int), i, span@, *cx);
            proof {
                let t = rules@.take(j + 1);
                assert(span_findings(t, i, span@, *cx) == sf + if rule_active(t.last().spec_min_level(), *cx) {
                    t.last().spec_detect(i, span@, *cx)
                } else {
                    Seq::empty()
                });
            }
            let lvl = rule.min_level();
            if cx.level.includes(lvl) {
                let mut found = rule.detect(i, span, cx);
                let ghost before = out@;
                let ghost fv = findings_view(found@);
                out.append(&mut found);
                proof {
                    assert(fv == rules@[j as int].spec_detect(i, span@, *cx));
                    assert(findings_view(out@) =~= findings_view(before) + fv);
                    assert forall|k: int| 0 <= k < findings_view(out@).len() implies
                        (#[trigger] findings_view(out@)[k]).span_index < doc@.spans.len()
                        && findings_view(out@)[k].range.start <= findings_view(out@)[k].range.end
                        <= crate::text::utf8_len(doc@.spans[findings_view(out@)[k].span_index as int].text) by {
                        if k >= findings_view(before).len() {
                            assert(findings_view(out@)[k] == fv[k - findings_view(before).len()]);
                        } else {
                            assert(findings_view(out@)[k] == findings_view(before)[k]);
                        }
                    }
                }
            }
            j = j + 1;
        }
        proof {
            assert(rules@.take(rules@.len() as int) =~= rules@);
            assert(doc@.spans.take(i + 1).drop_last() =~= doc@.spans.take(i as int));
            assert(doc@.spans.take(i + 1).last() == doc@.spans[i as int]);
        }
        i = i + 1;
    }
    proof {
        assert(doc@.spans.take(doc@.spans.len() as int) =~= doc@.spans);
    }
    out
}

}

verus! {

/// A finding becomes an edit when it has a replacement without a line break (a newline
/// would change line structure, so such a replacement is never applied).
pub open spec fn is_edit_finding(f: FindingView) -> bool {
    &&& f.replacement is Some
    &&& !f.replacement.unwrap().contains('\n')
    &&& !f.replacement.unwrap().contains('\r')
}

/// The edit a finding asks for.
pub open spec fn edit_of(f: FindingView) -> EditView {
    EditView {
        span_index: f.span_index,
        range: f.range,
        replacement: f.replacement.unwrap(),
        rule_id: f.rule_id,
    }
}

/// The edits among the findings, in finding order.
pub open spec fn edits_of(fs: Seq<FindingView>) -> Seq<EditView>
    decreases fs.len(),
{
    if fs.len() == 0 {
        Seq::empty()
    } else {
        edits_of(fs.drop_last()) + if is_edit_finding(fs.last()) {
            seq![edit_of(fs.last())]
        } else {
            Seq::empty()
        }
    }
}

/// The flag-only findings (no replacement, or one with a line break), in finding order.
pub open spec fn flags_of(fs: Seq<FindingView>) -> Seq<FindingView>
    decreases fs.len(),
{
    if fs.len() == 0 {
        Seq::empty()
    } else {
        flags_of(fs.drop_last()) + if is_edit_finding(fs.last()) {
            Seq::empty()
        } else {
            seq![fs.last()]
        }
    }
}

/// Edits are ordered by span, then by start.
pub open spec fn edit_key() -> spec_fn(EditView) -> int {
    |e: EditView| e.span_index as int * (usize::MAX as int + 1) + e.range.start as int
}

/// Phase 2 — keep an edit only if it does not overlap the last kept edit of the same span
/// (so the leftmost, then first-found, edit wins).
pub open spec fn drop_overlaps(s: Seq<EditView>) -> Seq<EditView>
    decreases s.len(),
{
    if s.len() == 0 {
        Seq::empty()
    } else {
        let k = drop_overlaps(s.drop_last());
        let e = s.last();
        if k.len() > 0 && k.last().span_index == e.span_index && e.range.start < k.last().range.end {
            k
        } else {
            k.push(e)
        }
    }
}

/// The edits the pipeline applies for a set of findings.
pub open spec fn resolved_edits(fs: Seq<FindingView>) -> Seq<EditView> {
    drop_overlaps(stable_sort(edits_of(fs), edit_key()))
}

proof fn lemma_edit_key_le(a: EditView, b: EditView)
    ensures
        (edit_key()(a) <= edit_key()(b)) == (a.span_index < b.span_index || (a.span_index == b.span_index
            && a.range.start <= b.range.start)),
{
    let m = usize::MAX as int + 1;
    let sa = a.span_index as int;
    let sb = b.span_index as int;
    let xa = a.range.start as int;
    let xb = b.range.start as int;
    assert(0 <= xa < m && 0 <= xb < m);
    if sa < sb {
        assert(sa * m + xa < sb * m + xb) by (nonlinear_arith)
            requires sa < sb, 0 <= xa < m, 0 <= xb < m, m > 0;
    } else if sa > sb {
        assert(sa * m + xa > sb * m + xb) by (nonlinear_arith)
            requires sa > sb, 0 <= xa < m, 0 <= xb < m, m > 0;
    }
}

/// Does the text contain a line break?
fn has_line_break(s: &str) -> (r: bool)
    ensures
        r == (s@.contains('\n') || s@.contains('\r')),
{
    let cs = string_to_chars(s);
    let mut i: usize = 0;
    while i < cs.len()
        invariant
            cs@ == s@,
            i <= cs.len(),
            forall|k: int| 0 <= k < i ==> cs@[k] != '\n' && cs@[k] != '\r',
        decreases cs.len() - i,
    {
        if cs[i] == '\n' || cs[i] == '\r' {
            assert(s@[i as int] == cs@[i as int]);
            return true;
        }
        i = i + 1;
    }
    false
}

/// A copy of a byte range.
pub fn copy_range(r: &Range<usize>) -> (c: Range<usize>)
    ensures
        c == *r,
{
    Range { start: r.start, end: r.end }
}

/// A copy of an optional string.
fn clone_opt_string(o: &Option<String>) -> (c: Option<String>)
    ensures
        opt_str_view(c) == opt_str_view(*o),
{
    match o {
        Some(s) => Some(s.clone()),
        None => None,
    }
}

/// A copy of a finding.
pub fn clone_finding(f: &Finding) -> (c: Finding)
    ensures
        c@ == f@,
{
    Finding {
        rule_id: f.rule_id.clone(),
        span_index: f.span_index,
        range: copy_range(&f.range),
        message: f.message.clone(),
        replacement: clone_opt_string(&f.replacement),
    }
}

/// A copy of an edit.
pub fn clone_edit(e: &Edit) -> (c: Edit)
    ensures
        c@ == e@,
{
    Edit {
        span_index: e.span_index,
        range: copy_range(&e.range),
        replacement: e.replacement.clone(),
        rule_id: e.rule_id.clone(),
    }
}

/// Split findings into edits (with a replacement that has no line break) and flags.
fn partition(findings: &Vec<Finding>) -> (r: (Vec<Edit>, Vec<Finding>))
    ensures
        edits_view(r.0@) == edits_of(findings_view(findings@)),
        findings_view(r.1@) == flags_of(findings_view(findings@)),
{
    let ghost fv = findings_view(findings@);
    let mut edits: Vec<Edit> = Vec::new();
    let mut flags: Vec<Finding> = Vec::new();
    let mut i: usize = 0;
    while i < findings.len()
        invariant
            i <= findings@.len(),
            fv == findings_view(findings@),
            edits_view(edits@) == edits_of(fv.take(i as int)),
            findings_view(flags@) == flags_of(fv.take(i as int)),
        decreases findings@.len() - i,
    {
        let f = &findings[i];
        proof {
            assert(fv.take(i + 1).drop_last() =~= fv.take(i as int));
            assert(fv.take(i + 1).last() == f@);
        }
        let mut is_edit = false;
        match &f.replacement {
            Some(rep) => {
                if !has_line_break(rep.as_str()) {
                    let ghost before = edits@;
                    edits.push(Edit {
                        span_index: f.span_index,
                        range: copy_range(&f.range),
                        replacement: rep.clone(),
                        rule_id: f.rule_id.clone(),
                    });
                    proof {
                        assert(edits_view(edits@) =~= edits_view(before) + seq![edit_of(f@)]);
                        assert(findings_view(flags@) + Seq::<FindingView>::empty() =~= findings_view(flags@));
                    }
                    is_edit = true;
                }
            },
            None => {},
        }
        if !is_edit {
            let ghost before = flags@;
            flags.push(clone_finding(f));
            proof {
                assert(findings_view(flags@) =~= findings_view(before) + seq![f@]);
                assert(edits_view(edits@) + Seq::<EditView>::empty() =~= edits_view(edits@));
            }
        }
        i = i + 1;
    }
    proof {
        assert(fv.take(fv.len() as int) =~= fv);
    }
    (edits, flags)
}

}

verus! {

/// Sort edits stably by (span, start).
fn sort_edits(edits: &Vec<Edit>) -> (v: Vec<Edit>)
    ensures
        edits_view(v@) == stable_sort(edits_view(edits@), edit_key()),
{
    let ghost ev = edits_view(edits@);
    let mut v: Vec<Edit> = Vec::new();
    let mut i: usize = 0;
    while i < edits.len()
        invariant
            i <= edits@.len(),
            ev == edits_view(edits@),
            edits_view(v@) == stable_sort(ev.take(i as int), edit_key()),
        decreases edits@.len() - i,
    {
        let e = &edits[i];
        let ghost k = edit_key()(e@);
        let mut p: usize = 0;
        assert(edits_view(v@).skip(0) =~= edits_view(v@));
        while p < v.len() && (v[p].span_index < e.span_index || (v[p].span_index == e.span_index
            && v[p].range.start <= e.range.start))
            invariant
                p <= v@.len(),
                k == edit_key()(e@),
                edits_view(v@) == stable_sort(ev.take(i as int), edit_key()),
                first_gt(edits_view(v@), edit_key(), k) == p + first_gt(edits_view(v@).skip(p as int), edit_key(), k),
            decreases v@.len() - p,
        {
            proof {
                let w = edits_view(v@);
                lemma_edit_key_le(w[p as int], e@);
                assert(w.skip(p as int).drop_first() =~= w.skip(p + 1));
                assert(w.skip(p as int)[0] == w[p as int]);
            }
            p = p + 1;
        }
        proof {
            let w = edits_view(v@);
            if p < v.len() {
                lemma_edit_key_le(w[p as int], e@);
                assert(w.skip(p as int)[0] == w[p as int]);
            }
            assert(first_gt(w, edit_key(), k) == p);
            assert(ev.take(i + 1).drop_last() =~= ev.take(i as int));
            assert(ev.take(i + 1).last() == ev[i as int]);
        }
        let item = clone_edit(e);
        let ghost w0 = edits_view(v@);
        v.insert(p, item);
        proof {
            assert(edits_view(v@) =~= w0.insert(p as int, item@));
        }
        i = i + 1;
    }
    assert(ev.take(edits@.len() as int) =~= ev);
    v
}

/// Keep each edit unless it overlaps the previously kept edit on the same span.
fn drop_overlapping(sorted: &Vec<Edit>) -> (r: Vec<Edit>)
    ensures
        edits_view(r@) == drop_overlaps(edits_view(sorted@)),
{
    let ghost sv = edits_view(sorted@);
    let mut out: Vec<Edit> = Vec::new();
    let mut i: usize = 0;
    while i < sorted.len()
        invariant
            i <= sorted@.len(),
            sv == edits_view(sorted@),
            edits_view(out@) == drop_overlaps(sv.take(i as int)),
        decreases sorted@.len() - i,
    {
        let e = &sorted[i];
        proof {
            assert(sv.take(i + 1).drop_last() =~= sv.take(i as int));
            assert(sv.take(i + 1).last() == e@);
        }
        let n = out.len();
        let skip = n > 0 && out[n - 1].span_index == e.span_index && e.range.start < out[n - 1].range.end;
        if !skip {
            let ghost before = edits_view(out@);
            out.push(clone_edit(e));
            proof {
                assert(edits_view(out@) =~= before.push(e@));
            }
        }
        i = i + 1;
    }
    assert(sv.take(sv.len() as int) =~= sv);
    out
}

}

verus! {

/// What one cleaning run found and did.
#[derive(Debug)]
pub struct CleanReport {
    /// Every finding produced (both edits and flags).
    pub findings: Vec<Finding>,
    /// Flag-only findings (no replacement) — surfaced for the user to review.
    pub flags: Vec<Finding>,
    /// Number of edits actually applied after conflict resolution.
    pub edits_applied: usize,
    /// Applied-edit counts grouped by rule id (sorted), for the change summary.
    pub applied_by_rule: Vec<(String, usize)>,
    /// Flag-only counts grouped by rule id (sorted).
    pub flagged_by_rule: Vec<(String, usize)>,
    /// Whether the output differs from the input.
    pub changed: bool,
}

impl Default for CleanReport {
    /// An empty report: no findings, nothing applied, nothing changed.
    fn default() -> (r: CleanReport)
        ensures
            r.findings@.len() == 0,
            r.flags@.len() == 0,
            r.edits_applied == 0,
            r.applied_by_rule@.len() == 0,
            r.flagged_by_rule@.len() == 0,
            !r.changed,
    {
        CleanReport {
            findings: Vec::new(),
            flags: Vec::new(),
            edits_applied: 0,
            applied_by_rule: Vec::new(),
            flagged_by_rule: Vec::new(),
            changed: false,
        }
    }
}

/// Rule ids of findings.
pub open spec fn finding_ids(fs: Seq<FindingView>) -> Seq<Seq<char>> {
    fs.map_values(|f: FindingView| f.rule_id)
}

/// Rule ids of edits.
pub open spec fn edit_ids(es: Seq<EditView>) -> Seq<Seq<char>> {
    es.map_values(|e: EditView| e.rule_id)
}

/// The report of a run whose findings are `fs`.
pub open spec fn report_matches(rep: CleanReport, fs: Seq<FindingView>) -> bool {
    let res = resolved_edits(fs);
    &&& findings_view(rep.findings@) == fs
    &&& findings_view(rep.flags@) == flags_of(fs)
    &&& rep.edits_applied == res.len()
    &&& is_grouping(edit_ids(res), grouping_view(rep.applied_by_rule@))
    &&& is_grouping(finding_ids(flags_of(fs)), grouping_view(rep.flagged_by_rule@))
}

/// The message of the structural self-check failure.
pub open spec fn self_check_message() -> Seq<char> {
    "document structure changed during cleaning; aborting and keeping the original"@
}

/// How a run can fail: rendering fails; or, when edits were applied, a skeleton cannot be
/// computed or the skeletons of input and output differ (the self-check).
pub open spec fn clean_failed<F: Format + ?Sized>(fmt: &F, doc: Document, res: Seq<EditView>, e: CoreError) -> bool {
    ||| fmt.render_post(doc, res, Err(e))
    ||| res.len() > 0 && exists|o: Vec<u8>| #[trigger] fmt.render_post(doc, res, Ok(o)) && {
        ||| fmt.skeleton_post(doc.source@, Err(e))
        ||| exists|a: String| #[trigger] fmt.skeleton_post(doc.source@, Ok(a)) && fmt.skeleton_post(o@, Err(e))
        ||| exists|a: String, b: String|
            #[trigger] fmt.skeleton_post(doc.source@, Ok(a)) && #[trigger] fmt.skeleton_post(o@, Ok(b))
                && a@ != b@ && (e matches CoreError::SelfCheck(m) && m@ == self_check_message())
    }
}

proof fn lemma_edits_of_in_bounds(doc: DocumentView, fs: Seq<FindingView>)
    requires
        findings_in_doc(doc, fs),
    ensures
        edits_in_bounds(doc, edits_of(fs)),
    decreases fs.len(),
{
    if fs.len() > 0 {
        assert(findings_in_doc(doc, fs.drop_last())) by {
            assert forall|k: int| 0 <= k < fs.drop_last().len() implies #[trigger] fs.drop_last()[k] == fs[k] by {}
        }
        lemma_edits_of_in_bounds(doc, fs.drop_last());
        assert(fs.last() == fs[fs.len() - 1]);
    }
}

proof fn lemma_drop_overlaps_all(s: Seq<EditView>, p: spec_fn(EditView) -> bool)
    requires
        forall|i: int| 0 <= i < s.len() ==> p(#[trigger] s[i]),
    ensures
        forall|i: int| 0 <= i < drop_overlaps(s).len() ==> p(#[trigger] drop_overlaps(s)[i]),
    decreases s.len(),
{
    if s.len() > 0 {
        assert forall|i: int| 0 <= i < s.drop_last().len() implies p(#[trigger] s.drop_last()[i]) by {
            assert(s.drop_last()[i] == s[i]);
        }
        lemma_drop_overlaps_all(s.drop_last(), p);
        assert(p(s[s.len() - 1]));
        let k = drop_overlaps(s.drop_last());
        assert forall|i: int| 0 <= i < k.push(s.last()).len() implies p(#[trigger] k.push(s.last())[i]) by {
            if i < k.len() {
                assert(k.push(s.last())[i] == k[i]);
            }
        }
    }
}

/// In-bounds findings give in-bounds resolved edits.
proof fn lemma_resolved_in_bounds(doc: DocumentView, fs: Seq<FindingView>)
    requires
        findings_in_doc(doc, fs),
    ensures
        edits_in_bounds(doc, resolved_edits(fs)),
{
    let p = |e: EditView| e.span_index < doc.spans.len() ==> e.range.start <= e.range.end
        <= crate::text::utf8_len(doc.spans[e.span_index as int].text);
    lemma_edits_of_in_bounds(doc, fs);
    let eo = edits_of(fs);
    assert forall|i: int| 0 <= i < eo.len() implies p(#[trigger] eo[i]) by {}
    crate::seqsort::lemma_stable_sort_all(eo, edit_key(), p);
    lemma_drop_overlaps_all(stable_sort(eo, edit_key()), p);
    let r = resolved_edits(fs);
    assert forall|i: int| 0 <= i < r.len() && #[trigger] r[i].span_index < doc.spans.len() implies r[i].range.start
        <= r[i].range.end <= crate::text::utf8_len(doc.spans[r[i].span_index as int].text) by {
        assert(p(r[i]));
    }
}

fn ids_of_findings(fs: &Vec<Finding>) -> (r: Vec<Vec<char>>)
    ensures
        r@.map_values(|v: Vec<char>| v@) == finding_ids(findings_view(fs@)),
{
    let mut r: Vec<Vec<char>> = Vec::new();
    let mut i: usize = 0;
    while i < fs.len()
        invariant
            i <= fs@.len(),
            r@.map_values(|v: Vec<char>| v@) == finding_ids(findings_view(fs@)).take(i as int),
        decreases fs@.len() - i,
    {
        let ghost before = r@.map_values(|v: Vec<char>| v@);
        r.push(string_to_chars(fs[i].rule_id.as_str()));
        proof {
            assert(r@.map_values(|v: Vec<char>| v@) =~= before.push(fs@[i as int].rule_id@));
            assert(finding_ids(findings_view(fs@)).take(i + 1) =~= before.push(fs@[i as int].rule_id@));
        }
        i = i + 1;
    }
    assert(finding_ids(findings_view(fs@)).take(fs@.len() as int) =~= finding_ids(findings_view(fs@)));
    r
}

fn ids_of_edits(es: &Vec<Edit>) -> (r: Vec<Vec<char>>)
    ensures
        r@.map_values(|v: Vec<char>| v@) == edit_ids(edits_view(es@)),
{
    let mut r: Vec<Vec<char>> = Vec::new();
    let mut i: usize = 0;
    while i < es.len()
        invariant
            i <= es@.len(),
            r@.map_values(|v: Vec<char>| v@) == edit_ids(edits_view(es@)).take(i as int),
        decreases es@.len() - i,
    {
        let ghost before = r@.map_values(|v: Vec<char>| v@);
        r.push(string_to_chars(es[i].rule_id.as_str()));
        proof {
            assert(r@.map_values(|v: Vec<char>| v@) =~= before.push(es@[i as int].rule_id@));
            assert(edit_ids(edits_view(es@)).take(i + 1) =~= before.push(es@[i as int].rule_id@));
        }
        i = i + 1;
    }
    assert(edit_ids(edits_view(es@)).take(es@.len() as int) =~= edit_ids(edits_view(es@)));
    r
}

/// The file a document was parsed from: its source, or for DOCX the container it came from.
pub open spec fn input_file(doc: DocumentView) -> Seq<u8> {
    match doc.meta.format {
        FormatId::Docx => doc.aux,
        _ => doc.source,
    }
}

/// The bytes of the file a document was parsed from.
fn input_bytes(doc: &Document) -> (b: &[u8])
    ensures
        b@ == input_file(doc@),
{
    match doc.meta.format {
        FormatId::Docx => doc.aux.as_slice(),
        _ => doc.source.as_slice(),
    }
}

/// What a run of `clean` gives: the report of every finding and the rendering of the resolved
/// edits, whose skeleton matches the input's whenever edits were applied, with `changed`
/// telling whether the output differs from the input file; or how it failed.
pub open spec fn clean_post<F: Format + ?Sized>(
    fmt: &F,
    doc: Document,
    rules: Seq<Box<dyn Rule>>,
    cx: Ctx,
    r: Result<(Vec<u8>, CleanReport), CoreError>,
) -> bool {
    let fs = all_findings(doc@.spans, rules, cx);
    let res = resolved_edits(fs);
    match r {
        Ok((out, rep)) => {
            &&& report_matches(rep, fs)
            &&& rep.changed == (out@ != input_file(doc@))
            &&& fmt.render_post(doc, res, Ok(out))
            &&& res.len() > 0 ==> exists|a: String, b: String|
                #[trigger] fmt.skeleton_post(doc.source@, Ok(a)) && #[trigger] fmt.skeleton_post(out@, Ok(b)) && a@ == b@
        },
        Err(e) => clean_failed(fmt, doc, res, e),
    }
}

/// Run detection + transformation over a parsed document and return cleaned bytes + a report.
///
/// Guarantees:
/// - empty edit set ⇒ the output is the input file, byte for byte (the source for the
///   byte-spliced formats, the original container for DOCX), and the report says nothing
///   changed;
/// - edits never overlap (deterministic leftmost/first-rule resolution);
/// - the output's structural skeleton equals the input's, or we abort with
///   [`CoreError::SelfCheck`] (we never emit a structurally-changed file).
pub fn clean<F: Format + ?Sized>(fmt: &F, doc: &Document, rules: &[Box<dyn Rule>], cx: &Ctx) -> (r: Result<(Vec<u8>, CleanReport), CoreError>)
    requires
        fmt.doc_ok(*doc),
        doc@.faithful(),
    ensures
        clean_post(fmt, *doc, rules@, *cx, r),
{
    let ghost fs = all_findings(doc@.spans, rules@, *cx);
    // Phase 1 — detect (read-only).
    let findings = detect_all(doc, rules, cx);
    // Partition into edits vs flags.
    let (edits, flags) = partition(&findings);
    let flagged_by_rule = group_by_rule(&ids_of_findings(&flags));
    // Phase 2 — resolve conflicts: sort by (span, start), drop overlaps (first wins).
    let sorted = sort_edits(&edits);
    let resolved = drop_overlapping(&sorted);
    let ghost res = edits_view(resolved@);
    assert(res == resolved_edits(fs));
    proof {
        lemma_resolved_in_bounds(doc@, fs);
        crate::engine::splice::lemma_faithful_resolvable(doc@, res);
    }
    let edits_applied = resolved.len();
    let applied_by_rule = group_by_rule(&ids_of_edits(&resolved));
    let mut report = CleanReport {
        findings,
        flags,
        edits_applied,
        applied_by_rule,
        flagged_by_rule,
        changed: false,
    };

    if resolved.len() == 0 {
        let empty = EditSet::empty();
        assert(edits_view(empty.edits@) =~= res);
        match fmt.render(doc, &empty) {
            Ok(out) => {
                report.changed = !crate::text::bytes_eq(out.as_slice(), input_bytes(doc));
                return Ok((out, report));
            },
            Err(e) => {
                assert(fmt.render_post(*doc, res, Err(e)));
                assert(clean_failed(fmt, *doc, res, e));
                return Err(e);
            },
        }
    }

    let set = EditSet { edits: resolved };
    assert(edits_view(set.edits@) == res);
    let output = match fmt.render(doc, &set) {
        Ok(o) => o,
        Err(e) => {
            assert(fmt.render_post(*doc, res, Err(e)));
            return Err(e);
        },
    };
    assert(fmt.render_post(*doc, res, Ok(output)));

    // Phase 3 — post-edit structural self-check (the keystone safety net).
    let before = match fmt.skeleton(doc.source.as_slice()) {
        Ok(b) => b,
        Err(e) => {
            assert(fmt.skeleton_post(doc.source@, Err(e)));
            return Err(e);
        },
    };
    let after = match fmt.skeleton(output.as_slice()) {
        Ok(a) => a,
        Err(e) => {
            assert(fmt.skeleton_post(doc.source@, Ok(before)));
            return Err(e);
        },
    };
    if !(before == after) {
        let mut msg = String::new();
        crate::text::string_push_str(
            &mut msg,
            "document structure changed during cleaning; aborting and keeping the original",
        );
        assert(msg@ =~= self_check_message());
        let e = CoreError::SelfCheck(msg);
        assert(fmt.skeleton_post(doc.source@, Ok(before)) && fmt.skeleton_post(output@, Ok(after)));
        return Err(e);
    }
    assert(fmt.skeleton_post(doc.source@, Ok(before)) && fmt.skeleton_post(output@, Ok(after)) && before@ == after@);
    report.changed = !crate::text::bytes_eq(output.as_slice(), input_bytes(doc));
    Ok((output, report))
}

}

verus! {

proof fn lemma_drop_overlaps_shape(s: Seq<EditView>)
    requires
        crate::seqsort::sorted_by(s, edit_key()),
        forall|i: int| 0 <= i < s.len() ==> (#[trigger] s[i]).range.start <= s[i].range.end,
    ensures
        ({
            let r = drop_overlaps(s);
            &&& forall|i: int| 0 <= i < r.len() ==> exists|j: int| 0 <= j < s.len() && #[trigger] r[i] == s[j]
            &&& crate::seqsort::sorted_by(r, edit_key())
            &&& forall|i: int, j: int| 0 <= i < j < r.len() && r[i].span_index == r[j].span_index ==> (#[trigger] r[i]).range.end
                <= (#[trigger] r[j]).range.start
        }),
    decreases s.len(),
{
    if s.len() > 0 {
        let s0 = s.drop_last();
        assert forall|i: int, j: int| 0 <= i <= j < s0.len() implies edit_key()(s0[i]) <= edit_key()(s0[j]) by {
            assert(s0[i] == s[i] && s0[j] == s[j]);
        }
        assert forall|i: int| 0 <= i < s0.len() implies (#[trigger] s0[i]).range.start <= s0[i].range.end by {
            assert(s0[i] == s[i]);
        }
        lemma_drop_overlaps_shape(s0);
        let k = drop_overlaps(s0);
        let e = s.last();
        assert(e == s[s.len() - 1]);
        if !(k.len() > 0 && k.last().span_index == e.span_index && e.range.start < k.last().range.end) {
            let r = k.push(e);
            assert forall|i: int| 0 <= i < r.len() implies exists|j: int| 0 <= j < s.len() && #[trigger] r[i] == s[j] by {
                if i < k.len() {
                    let j = choose|j: int| 0 <= j < s0.len() && k[i] == s0[j];
                    assert(r[i] == s[j]);
                } else {
                    assert(r[i] == s[s.len() - 1]);
                }
            }
            assert forall|i: int| 0 <= i < k.len() implies edit_key()(#[trigger] k[i]) <= edit_key()(e) by {
                let j = choose|j: int| 0 <= j < s0.len() && k[i] == s0[j];
                assert(s0[j] == s[j]);
            }
            assert forall|i: int, j: int| 0 <= i <= j < r.len() implies edit_key()(r[i]) <= edit_key()(r[j]) by {
                if j < k.len() {
                    assert(r[i] == k[i] && r[j] == k[j]);
                } else if i < k.len() {
                    assert(r[i] == k[i]);
                }
            }
            assert forall|i: int, j: int| 0 <= i < j < r.len() && r[i].span_index == r[j].span_index implies (#[trigger] r[i]).range.end
                <= (#[trigger] r[j]).range.start by {
                if j < k.len() {
                    assert(r[i] == k[i] && r[j] == k[j]);
                } else {
                    assert(r[i] == k[i]);
                    assert(r[j] == e);
                    let l = k.len() - 1;
                    lemma_edit_key_le(k[i], k[l]);
                    lemma_edit_key_le(k[l], e);
                    let jl = choose|jj: int| 0 <= jj < s0.len() && k[l] == s0[jj];
                    assert(k[l].range.start <= k[l].range.end) by {
                        assert(s0[jl] == s[jl]);
                    }
                    if i < l {
                        assert(k[i].range.end <= k[l].range.start);
                    }
                }
            }
        }
    }
}

/// The edits the pipeline applies never overlap: they come ordered by span, then start, and
/// within one span each ends before the next begins. None carries a line break.
pub proof fn lemma_resolved_edits_disjoint(fs: Seq<FindingView>)
    requires
        forall|i: int| 0 <= i < fs.len() ==> (#[trigger] fs[i]).range.start <= fs[i].range.end,
    ensures
        ({
            let r = resolved_edits(fs);
            &&& forall|i: int, j: int| 0 <= i <= j < r.len() ==> (#[trigger] r[i]).span_index <= (#[trigger] r[j]).span_index
            &&& forall|i: int, j: int| 0 <= i < j < r.len() && r[i].span_index == r[j].span_index ==> (#[trigger] r[i]).range.end
                <= (#[trigger] r[j]).range.start
            &&& forall|i: int| 0 <= i < r.len() ==> !(#[trigger] r[i]).replacement.contains('\n') && !r[i].replacement.contains('\r')
        }),
{
    let eo = edits_of(fs);
    lemma_edits_of_shape(fs);
    let p = |e: EditView| e.range.start <= e.range.end && !e.replacement.contains('\n') && !e.replacement.contains('\r');
    assert forall|i: int| 0 <= i < eo.len() implies p(#[trigger] eo[i]) by {}
    crate::seqsort::lemma_stable_sort_all(eo, edit_key(), p);
    crate::seqsort::lemma_stable_sort(eo, edit_key());
    let st = stable_sort(eo, edit_key());
    assert forall|i: int| 0 <= i < st.len() implies (#[trigger] st[i]).range.start <= st[i].range.end by {
        assert(p(st[i]));
    }
    lemma_drop_overlaps_shape(st);
    lemma_drop_overlaps_all(st, p);
    let r = resolved_edits(fs);
    assert forall|i: int, j: int| 0 <= i <= j < r.len() implies (#[trigger] r[i]).span_index <= (#[trigger] r[j]).span_index by {
        lemma_edit_key_le(r[i], r[j]);
    }
    assert forall|i: int| 0 <= i < r.len() implies !(#[trigger] r[i]).replacement.contains('\n') && !r[i].replacement.contains('\r') by {
        assert(p(r[i]));
    }
}

proof fn lemma_edits_of_shape(fs: Seq<FindingView>)
    requires
        forall|i: int| 0 <= i < fs.len() ==> (#[trigger] fs[i]).range.start <= fs[i].range.end,
    ensures
        forall|i: int| 0 <= i < edits_of(fs).len() ==> (#[trigger] edits_of(fs)[i]).range.start <= edits_of(fs)[i].range.end
            && !edits_of(fs)[i].replacement.contains('\n') && !edits_of(fs)[i].replacement.contains('\r'),
    decreases fs.len(),
{
    if fs.len() > 0 {
        assert forall|i: int| 0 <= i < fs.drop_last().len() implies (#[trigger] fs.drop_last()[i]).range.start
            <= fs.drop_last()[i].range.end by {
            assert(fs.drop_last()[i] == fs[i]);
        }
        lemma_edits_of_shape(fs.drop_last());
        assert(fs.last() == fs[fs.len() - 1]);
        let a = edits_of(fs.drop_last());
        assert forall|i: int| 0 <= i < edits_of(fs).len() implies (#[trigger] edits_of(fs)[i]).range.start
            <= edits_of(fs)[i].range.end && !edits_of(fs)[i].replacement.contains('\n')
            && !edits_of(fs)[i].replacement.contains('\r') by {
            if i < a.len() {
                assert(edits_of(fs)[i] == a[i]);
            } else {
                assert(edits_of(fs)[i] == edit_of(fs.last()));
            }
        }
    }
}

}
