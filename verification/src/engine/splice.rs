use vstd::prelude::*;
use std::ops::Range;
use crate::engine::error::CoreError;
use crate::seqsort::{stable_sort, first_gt, lemma_first_gt, lemma_stable_sort, sorted_by};
use crate::text::{decimal, push_decimal, string_push_str, utf8};
use crate::engine::ir::{Document, DocumentView, SpanAnchor, SpanAnchorView, segments_len, segments_bytes, span_faithful};
use crate::engine::traits::{Edit, EditSet, EditView, edits_view, edits_in_bounds};

verus! {

/// A byte-level replacement: the range of the source to replace and its new text.
pub type ByteEdit = (Range<usize>, String);

/// The mathematical content of a byte edit: a range and the replacement text.
pub type ByteEditView = (Range<usize>, Seq<char>);

/// Sort key of a byte edit: its start.
pub open spec fn by_start() -> spec_fn(ByteEditView) -> int {
    |e: ByteEditView| e.0.start as int
}

/// The order in which `splice` applies edits: stably sorted by start.
pub open spec fn splice_order(edits: Seq<ByteEditView>) -> Seq<ByteEditView> {
    stable_sort(edits, by_start())
}

/// The first problem found walking the sorted edits (with the end of the previous edit):
/// an edit starting before the previous one ended, or a range that is reversed or runs past
/// the source. `None` when the edits can be applied.
pub open spec fn splice_error(sorted: Seq<ByteEditView>, len: nat, prev_end: nat) -> Option<Seq<char>>
    decreases sorted.len(),
{
    if sorted.len() == 0 {
        None
    } else {
        let r = sorted[0].0;
        if r.start < prev_end {
            Some("overlapping edit at byte "@ + decimal(r.start as nat))
        } else if r.start > r.end || r.end > len {
            Some(
                "edit range "@ + decimal(r.start as nat) + ".."@ + decimal(r.end as nat)
                    + " out of bounds (source len "@ + decimal(len) + ")"@,
            )
        } else {
            splice_error(sorted.drop_first(), len, r.end as nat)
        }
    }
}

/// The bytes obtained by copying `src` from `cursor`, substituting each (sorted, valid) edit.
pub open spec fn splice_from(src: Seq<u8>, sorted: Seq<ByteEditView>, cursor: int) -> Seq<u8>
    decreases sorted.len(),
{
    if sorted.len() == 0 {
        src.subrange(cursor, src.len() as int)
    } else {
        src.subrange(cursor, sorted[0].0.start as int) + utf8(sorted[0].1) + splice_from(
            src,
            sorted.drop_first(),
            sorted[0].0.end as int,
        )
    }
}

/// What `splice(src, edits)` returns.
pub open spec fn spliced(src: Seq<u8>, edits: Seq<ByteEditView>) -> Result<Seq<u8>, Seq<char>> {
    let sorted = splice_order(edits);
    match splice_error(sorted, src.len(), 0) {
        Some(msg) => Err(msg),
        None => Ok(splice_from(src, sorted, 0)),
    }
}

/// Sort edits stably by start (insertion sort).
fn sort_by_start(edits: &[ByteEdit]) -> (v: Vec<ByteEdit>)
    ensures
        byte_edits_view(v@) == splice_order(byte_edits_view(edits@)),
{
    let mut v: Vec<ByteEdit> = Vec::new();
    let mut i: usize = 0;
    while i < edits.len()
        invariant
            i <= edits.len(),
            byte_edits_view(v@) == stable_sort(byte_edits_view(edits@).take(i as int), by_start()),
        decreases edits.len() - i,
    {
        let e = &edits[i];
        let k = e.0.start;
        let mut p: usize = 0;
        assert(byte_edits_view(v@).skip(0) =~= byte_edits_view(v@));
        while p < v.len() && v[p].0.start <= k
            invariant
                p <= v.len(),
                byte_edits_view(v@) == stable_sort(byte_edits_view(edits@).take(i as int), by_start()),
                first_gt(byte_edits_view(v@), by_start(), k as int) == p + first_gt(byte_edits_view(v@).skip(p as int), by_start(), k as int),
            decreases v.len() - p,
        {
            proof {
                let w = byte_edits_view(v@);
                assert(w.skip(p as int).drop_first() =~= w.skip(p + 1));
                assert(w.skip(p as int)[0] == w[p as int]);
            }
            p = p + 1;
        }
        proof {
            let w = byte_edits_view(v@);
            if p < v.len() {
                assert(w.skip(p as int)[0] == w[p as int]);
            }
            assert(first_gt(w, by_start(), k as int) == p);
            let ev = byte_edits_view(edits@);
            assert(ev.take(i + 1).drop_last() =~= ev.take(i as int));
            assert(ev.take(i + 1).last() == ev[i as int]);
        }
        let item: ByteEdit = (Range { start: e.0.start, end: e.0.end }, e.1.clone());
        let ghost w0 = byte_edits_view(v@);
        v.insert(p, item);
        proof {
            assert(byte_edits_view(v@) =~= w0.insert(p as int, byte_edit_view(item)));
        }
        i = i + 1;
    }
    assert(byte_edits_view(edits@).take(edits.len() as int) =~= byte_edits_view(edits@));
    v
}

proof fn lemma_splice_from_step(src: Seq<u8>, sorted: Seq<ByteEditView>, i: int, cursor: int)
    requires
        0 <= i < sorted.len(),
    ensures
        splice_from(src, sorted.skip(i), cursor) == src.subrange(cursor, sorted[i].0.start as int)
            + utf8(sorted[i].1) + splice_from(src, sorted.skip(i + 1), sorted[i].0.end as int),
{
    assert(sorted.skip(i)[0] == sorted[i]);
    assert(sorted.skip(i).drop_first() =~= sorted.skip(i + 1));
}

proof fn lemma_splice_error_step(sorted: Seq<ByteEditView>, i: int, len: nat, prev_end: nat)
    requires
        0 <= i < sorted.len(),
    ensures
        splice_error(sorted.skip(i), len, prev_end) == ({
            let r = sorted[i].0;
            if r.start < prev_end {
                Some("overlapping edit at byte "@ + decimal(r.start as nat))
            } else if r.start > r.end || r.end > len {
                Some(
                    "edit range "@ + decimal(r.start as nat) + ".."@ + decimal(r.end as nat)
                        + " out of bounds (source len "@ + decimal(len) + ")"@,
                )
            } else {
                splice_error(sorted.skip(i + 1), len, r.end as nat)
            }
        }),
{
    assert(sorted.skip(i)[0] == sorted[i]);
    assert(sorted.skip(i).drop_first() =~= sorted.skip(i + 1));
}

/// Append `src[a..b]` to `out`.
fn push_range(out: &mut Vec<u8>, src: &[u8], a: usize, b: usize)
    requires
        a <= b <= src@.len(),
    ensures
        final(out)@ == old(out)@ + src@.subrange(a as int, b as int),
{
    let mut j = a;
    while j < b
        invariant
            a <= j <= b <= src@.len(),
            out@ == old(out)@ + src@.subrange(a as int, j as int),
        decreases b - j,
    {
        out.push(src[j]);
        assert(src@.subrange(a as int, j + 1) =~= src@.subrange(a as int, j as int).push(src@[j as int]));
        j = j + 1;
    }
}

/// Apply non-overlapping byte-range replacements to `source`, producing a new buffer.
///
/// This is the primitive that guarantees zero style breakage: structure bytes are copied
/// verbatim, only the matched ranges are substituted. Edits may be unsorted; overlapping
/// or out-of-bounds edits are a programming error and return [`CoreError::SelfCheck`].
pub fn splice(source: &[u8], edits: &[ByteEdit]) -> (r: Result<Vec<u8>, CoreError>)
    ensures
        match spliced(source@, byte_edits_view(edits@)) {
            Ok(bytes) => r matches Ok(out) && out@ == bytes,
            Err(msg) => r matches Err(CoreError::SelfCheck(m)) && m@ == msg,
        },
{
    let sorted = sort_by_start(edits);
    let ghost sq = byte_edits_view(sorted@);
    let len = source.len();

    let mut prev_end: usize = 0;
    let mut i: usize = 0;
    assert(sq.skip(0) =~= sq);
    while i < sorted.len()
        invariant
            byte_edits_view(sorted@) == sq,
            sq == splice_order(byte_edits_view(edits@)),
            len == source@.len(),
            i <= sq.len(),
            prev_end <= len,
            splice_error(sq, len as nat, 0) == splice_error(sq.skip(i as int), len as nat, prev_end as nat),
        decreases sq.len() - i,
    {
        proof {
            lemma_splice_error_step(sq, i as int, len as nat, prev_end as nat);
        }
        let r = &sorted[i].0;
        assert(sq[i as int].0 == *r);
        if r.start < prev_end {
            let mut msg = String::new();
            string_push_str(&mut msg, "overlapping edit at byte ");
            push_decimal(&mut msg, r.start as u128);
            assert(msg@ =~= "overlapping edit at byte "@ + decimal(r.start as nat));
            return Err(CoreError::SelfCheck(msg));
        }
        if r.start > r.end || r.end > len {
            let mut msg = String::new();
            string_push_str(&mut msg, "edit range ");
            push_decimal(&mut msg, r.start as u128);
            string_push_str(&mut msg, "..");
            push_decimal(&mut msg, r.end as u128);
            string_push_str(&mut msg, " out of bounds (source len ");
            push_decimal(&mut msg, len as u128);
            string_push_str(&mut msg, ")");
            assert(msg@ =~= "edit range "@ + decimal(r.start as nat) + ".."@ + decimal(r.end as nat)
                + " out of bounds (source len "@ + decimal(len as nat) + ")"@);
            return Err(CoreError::SelfCheck(msg));
        }
        prev_end = r.end;
        i = i + 1;
    }
    assert(sq.skip(sq.len() as int) =~= Seq::<ByteEditView>::empty());

    let mut out: Vec<u8> = Vec::new();
    let mut cursor: usize = 0;
    let mut i: usize = 0;
    assert(sq.skip(0) =~= sq);
    assert(out@ + splice_from(source@, sq, 0) =~= splice_from(source@, sq, 0));
    while i < sorted.len()
        invariant
            byte_edits_view(sorted@) == sq,
            sq == splice_order(byte_edits_view(edits@)),
            len == source@.len(),
            i <= sq.len(),
            cursor <= len,
            splice_error(sq.skip(i as int), len as nat, cursor as nat) is None,
            out@ + splice_from(source@, sq.skip(i as int), cursor as int) == splice_from(source@, sq, 0),
        decreases sq.len() - i,
    {
        proof {
            lemma_splice_error_step(sq, i as int, len as nat, cursor as nat);
            lemma_splice_from_step(source@, sq, i as int, cursor as int);
        }
        let r = &sorted[i].0;
        assert(sq[i as int] == byte_edit_view(sorted@[i as int]));
        let ghost old_out = out@;
        push_range(&mut out, source, cursor, r.start);
        let bytes = sorted[i].1.as_str().as_bytes();
        out.extend_from_slice(bytes);
        proof {
            assert(out@ =~= old_out + source@.subrange(cursor as int, r.start as int) + bytes@);
        }
        cursor = r.end;
        i = i + 1;
    }
    let ghost before_tail = out@;
    push_range(&mut out, source, cursor, len);
    proof {
        assert(sq.skip(i as int) =~= Seq::<ByteEditView>::empty());
    }
    Ok(out)
}

/// Splicing with no edits returns the source unchanged.
pub proof fn lemma_splice_no_edits(src: Seq<u8>)
    ensures
        spliced(src, Seq::<ByteEditView>::empty()) == Ok::<Seq<u8>, Seq<char>>(src),
{
    assert(src.subrange(0, src.len() as int) =~= src);
}

}

verus! {

/// The view of a byte edit.
pub open spec fn byte_edit_view(e: ByteEdit) -> (Range<usize>, Seq<char>) {
    (e.0, e.1@)
}

/// Views of a sequence of byte edits.
pub open spec fn byte_edits_view(s: Seq<ByteEdit>) -> Seq<(Range<usize>, Seq<char>)> {
    s.map_values(|e: ByteEdit| byte_edit_view(e))
}

pub open spec fn min_int(a: int, b: int) -> int {
    if a <= b { a } else { b }
}

pub open spec fn max_int(a: int, b: int) -> int {
    if a >= b { a } else { b }
}

/// Project the logical range `start..end` of a run-split text onto the runs it overlaps.
/// The first overlapped run receives `rep`, later runs have their overlap trimmed away.
/// `logical` is the logical offset at which `segs[0]` begins.
pub open spec fn project_segments(
    segs: Seq<Range<usize>>,
    start: int,
    end: int,
    rep: Seq<char>,
    logical: int,
    first: bool,
) -> Seq<(Range<usize>, Seq<char>)>
    decreases segs.len(),
{
    if segs.len() == 0 {
        Seq::empty()
    } else {
        let seg = segs[0];
        let lo = logical;
        let hi = logical + (seg.end - seg.start);
        let ov_lo = max_int(start, lo);
        let ov_hi = min_int(end, hi);
        if ov_lo >= ov_hi {
            project_segments(segs.drop_first(), start, end, rep, hi, first)
        } else {
            seq![
                (
                    Range { start: (seg.start + (ov_lo - lo)) as usize, end: (seg.start + (ov_hi - lo)) as usize },
                    if first { rep } else { Seq::<char>::empty() },
                ),
            ] + project_segments(segs.drop_first(), start, end, rep, hi, false)
        }
    }
}

/// The absolute byte edits that one span-relative edit becomes, or the error message when
/// it names a span that does not exist.
pub open spec fn resolve_one(doc: DocumentView, e: EditView) -> Result<Seq<(Range<usize>, Seq<char>)>, Seq<char>> {
    if e.span_index >= doc.spans.len() {
        Err("edit references missing span "@ + decimal(e.span_index as nat))
    } else {
        match doc.spans[e.span_index as int].anchor {
            SpanAnchorView::Bytes(base) => Ok(
                seq![
                    (
                        Range { start: (base.start + e.range.start) as usize, end: (base.start + e.range.end) as usize },
                        e.replacement,
                    ),
                ],
            ),
            SpanAnchorView::Segments(segs) => Ok(
                project_segments(segs, e.range.start as int, e.range.end as int, e.replacement, 0, true),
            ),
        }
    }
}

/// What `resolve_byte_edits` returns: the concatenated projections of all edits, or the
/// first error.
pub open spec fn resolve_all(doc: DocumentView, edits: Seq<EditView>) -> Result<Seq<(Range<usize>, Seq<char>)>, Seq<char>>
    decreases edits.len(),
{
    if edits.len() == 0 {
        Ok(Seq::empty())
    } else {
        match resolve_all(doc, edits.drop_last()) {
            Err(m) => Err(m),
            Ok(v) => match resolve_one(doc, edits.last()) {
                Err(m) => Err(m),
                Ok(w) => Ok(v + w),
            },
        }
    }
}

/// An edit can be resolved without overflowing `usize`.
pub open spec fn resolvable_edit(doc: DocumentView, e: EditView) -> bool {
    e.span_index < doc.spans.len() ==> match doc.spans[e.span_index as int].anchor {
        SpanAnchorView::Bytes(base) => base.start + e.range.start <= usize::MAX && base.start
            + e.range.end <= usize::MAX,
        SpanAnchorView::Segments(segs) => (forall|j: int| 0 <= j < segs.len() ==> #[trigger] segs[j].start <= segs[j].end)
            && segments_len(segs) <= usize::MAX,
    }
}

/// All edits can be resolved without overflow.
pub open spec fn resolvable(doc: DocumentView, edits: Seq<EditView>) -> bool {
    forall|i: int| 0 <= i < edits.len() ==> resolvable_edit(doc, #[trigger] edits[i])
}

proof fn lemma_segments_len_step(segs: Seq<Range<usize>>, j: int)
    requires
        0 <= j < segs.len(),
    ensures
        segments_len(segs.skip(j)) == segments_len(segs.skip(j + 1)) + (segs[j].end - segs[j].start),
{
    assert(segs.skip(j)[0] == segs[j]);
    assert(segs.skip(j).drop_first() =~= segs.skip(j + 1));
}

proof fn lemma_segments_len_nonneg(segs: Seq<Range<usize>>)
    requires
        forall|j: int| 0 <= j < segs.len() ==> #[trigger] segs[j].start <= segs[j].end,
    ensures
        segments_len(segs) >= 0,
    decreases segs.len(),
{
    if segs.len() > 0 {
        lemma_segments_len_nonneg(segs.drop_first());
    }
}

proof fn lemma_segments_len_skip_nonneg(segs: Seq<Range<usize>>, j: int)
    requires
        0 <= j <= segs.len(),
        forall|k: int| 0 <= k < segs.len() ==> #[trigger] segs[k].start <= segs[k].end,
    ensures
        segments_len(segs.skip(j)) >= 0,
{
    assert forall|k: int| 0 <= k < segs.skip(j).len() implies #[trigger] segs.skip(j)[k].start <= segs.skip(j)[k].end by {
        assert(segs.skip(j)[k] == segs[j + k]);
    }
    lemma_segments_len_nonneg(segs.skip(j));
}

/// Project one edit onto the runs of a segmented span.
fn project_edit(segs: &Vec<Range<usize>>, e: &Edit, out: &mut Vec<ByteEdit>)
    requires
        forall|j: int| 0 <= j < segs@.len() ==> #[trigger] segs@[j].start <= segs@[j].end,
        segments_len(segs@) <= usize::MAX,
    ensures
        byte_edits_view(final(out)@) == byte_edits_view(old(out)@) + project_segments(
            segs@,
            e.range.start as int,
            e.range.end as int,
            e.replacement@,
            0,
            true,
        ),
{
    let ghost start = e.range.start as int;
    let ghost end = e.range.end as int;
    let ghost rep = e.replacement@;
    let ghost total = project_segments(segs@, start, end, rep, 0, true);
    let mut logical: usize = 0;
    let mut first = true;
    let mut j: usize = 0;
    assert(segs@.skip(0) =~= segs@);
    while j < segs.len()
        invariant
            j <= segs@.len(),
            forall|k: int| 0 <= k < segs@.len() ==> #[trigger] segs@[k].start <= segs@[k].end,
            segments_len(segs@) <= usize::MAX,
            logical + segments_len(segs@.skip(j as int)) == segments_len(segs@),
            start == e.range.start,
            end == e.range.end,
            rep == e.replacement@,
            byte_edits_view(out@) + project_segments(segs@.skip(j as int), start, end, rep, logical as int, first)
                == byte_edits_view(old(out)@) + total,
        decreases segs@.len() - j,
    {
        proof {
            lemma_segments_len_step(segs@, j as int);
            lemma_segments_len_skip_nonneg(segs@, j + 1);
            assert(segs@.skip(j as int)[0] == segs@[j as int]);
            assert(segs@.skip(j as int).drop_first() =~= segs@.skip(j + 1));
        }
        let seg = &segs[j];
        let seg_lo = logical;
        let seg_hi = logical + (seg.end - seg.start);
        logical = seg_hi;
        let ov_lo = if e.range.start >= seg_lo { e.range.start } else { seg_lo };
        let ov_hi = if e.range.end <= seg_hi { e.range.end } else { seg_hi };
        if ov_lo >= ov_hi {
            j = j + 1;
            continue;
        }
        let byte_lo = seg.start + (ov_lo - seg_lo);
        let byte_hi = seg.start + (ov_hi - seg_lo);
        let replacement = if first { e.replacement.clone() } else { String::new() };
        let ghost old_out = out@;
        out.push((Range { start: byte_lo, end: byte_hi }, replacement));
        proof {
            assert(byte_edits_view(out@) =~= byte_edits_view(old_out).push(byte_edit_view(out@.last())));
            let step = seq![(Range { start: byte_lo, end: byte_hi }, if first { rep } else { Seq::<char>::empty() })];
            assert(byte_edits_view(out@) =~= byte_edits_view(old_out) + step);
        }
        first = false;
        j = j + 1;
    }
    proof {
        assert(segs@.skip(j as int) =~= Seq::<Range<usize>>::empty());
        assert(byte_edits_view(out@) + Seq::empty() =~= byte_edits_view(out@));
    }
}

/// Translate span-relative edits into absolute byte edits: a byte-anchored span shifts the
/// edit by its start; a run-split span projects it onto the runs it covers.
pub fn resolve_byte_edits(doc: &Document, edits: &EditSet) -> (r: Result<Vec<ByteEdit>, CoreError>)
    requires
        resolvable(doc@, edits_view(edits.edits@)),
    ensures
        match resolve_all(doc@, edits_view(edits.edits@)) {
            Ok(v) => r matches Ok(out) && byte_edits_view(out@) == v,
            Err(msg) => r matches Err(CoreError::SelfCheck(m)) && m@ == msg,
        },
{
    let ghost ev = edits_view(edits.edits@);
    let mut out: Vec<ByteEdit> = Vec::new();
    let mut i: usize = 0;
    assert(ev.take(0) =~= Seq::<EditView>::empty());
    assert(byte_edits_view(out@) =~= Seq::<ByteEditView>::empty());
    while i < edits.edits.len()
        invariant
            i <= edits.edits@.len(),
            ev == edits_view(edits.edits@),
            resolvable(doc@, ev),
            resolve_all(doc@, ev.take(i as int)) == Ok::<Seq<(Range<usize>, Seq<char>)>, Seq<char>>(byte_edits_view(out@)),
        decreases edits.edits@.len() - i,
    {
        let e = &edits.edits[i];
        proof {
            assert(ev.take(i + 1).drop_last() =~= ev.take(i as int));
            assert(ev.take(i + 1).last() == e@);
            assert(resolvable_edit(doc@, ev[i as int]));
        }
        if e.span_index >= doc.spans.len() {
            let mut msg = String::new();
            string_push_str(&mut msg, "edit references missing span ");
            push_decimal(&mut msg, e.span_index as u128);
            proof {
                assert(msg@ =~= "edit references missing span "@ + decimal(e.span_index as nat));
                lemma_resolve_all_err_prefix(doc@, ev, i + 1);
            }
            return Err(CoreError::SelfCheck(msg));
        }
        let span = &doc.spans[e.span_index];
        proof {
            assert(doc@.spans[e.span_index as int] == span@);
        }
        match &span.anchor {
            SpanAnchor::Bytes(base) => {
                let ghost old_out = out@;
                out.push((Range { start: base.start + e.range.start, end: base.start + e.range.end }, e.replacement.clone()));
                proof {
                    assert(byte_edits_view(out@) =~= byte_edits_view(old_out) + seq![byte_edit_view(out@.last())]);
                }
            },
            SpanAnchor::Segments(segs) => {
                project_edit(segs, e, &mut out);
            },
        }
        i = i + 1;
    }
    proof {
        assert(ev.take(ev.len() as int) =~= ev);
    }
    Ok(out)
}

proof fn lemma_resolve_all_err_prefix(doc: DocumentView, edits: Seq<EditView>, n: int)
    requires
        0 < n <= edits.len(),
        resolve_all(doc, edits.take(n)) is Err,
    ensures
        resolve_all(doc, edits) == resolve_all(doc, edits.take(n)),
    decreases edits.len() - n,
{
    if n < edits.len() {
        assert(edits.take(n + 1).drop_last() =~= edits.take(n));
        lemma_resolve_all_err_prefix(doc, edits, n + 1);
    } else {
        assert(edits.take(n) =~= edits);
    }
}

/// The bytes a byte-anchored format renders: splice the resolved edits into the source.
pub open spec fn rendered_bytes(doc: DocumentView, edits: Seq<EditView>) -> Result<Seq<u8>, Seq<char>> {
    match resolve_all(doc, edits) {
        Err(m) => Err(m),
        Ok(v) => spliced(doc.source, v),
    }
}


}

verus! {

/// What rendering a byte-anchored document gives: the spliced bytes, or the self-check
/// error naming the edit that could not be applied.
pub open spec fn byte_render_result(doc: DocumentView, edits: Seq<EditView>, r: Result<Vec<u8>, CoreError>) -> bool {
    match rendered_bytes(doc, edits) {
        Ok(bytes) => r matches Ok(out) && out@ == bytes,
        Err(msg) => r matches Err(CoreError::SelfCheck(m)) && m@ == msg,
    }
}

/// Convenience for byte-anchored formats: map edits to absolute ranges and splice.
pub fn render_byte_spliced(doc: &Document, edits: &EditSet) -> (r: Result<Vec<u8>, CoreError>)
    requires
        resolvable(doc@, edits_view(edits.edits@)),
    ensures
        byte_render_result(doc@, edits_view(edits.edits@), r),
{
    let resolved = resolve_byte_edits(doc, edits)?;
    splice(doc.source.as_slice(), resolved.as_slice())
}

/// Rendering a byte-anchored document with no edits gives back its source, byte for byte.
pub proof fn lemma_render_no_edits(doc: DocumentView)
    ensures
        rendered_bytes(doc, Seq::<EditView>::empty()) == Ok::<Seq<u8>, Seq<char>>(doc.source),
{
    lemma_splice_no_edits(doc.source);
}

}

verus! {

/// In-bounds edits on a faithful document can be resolved without overflow.
pub proof fn lemma_faithful_resolvable(doc: DocumentView, edits: Seq<EditView>)
    requires
        doc.faithful(),
        edits_in_bounds(doc, edits),
    ensures
        resolvable(doc, edits),
{
    assert forall|i: int| 0 <= i < edits.len() implies resolvable_edit(doc, #[trigger] edits[i]) by {
        let e = edits[i];
        if e.span_index < doc.spans.len() {
            let span = doc.spans[e.span_index as int];
            assert(span_faithful(doc.source, span));
            match span.anchor {
                SpanAnchorView::Bytes(base) => {
                    assert(doc.source.subrange(base.start as int, base.end as int).len() == base.end - base.start);
                },
                SpanAnchorView::Segments(segs) => {
                    assert forall|j: int| 0 <= j < segs.len() implies #[trigger] segs[j].start <= segs[j].end by {
                        assert(segs[j].start <= segs[j].end <= doc.source.len());
                    }
                },
            }
        }
    }
}

}
