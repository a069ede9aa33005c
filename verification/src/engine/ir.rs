use vstd::prelude::*;
use std::ops::Range;
use crate::text::utf8_len;


verus! {

/// The formats whose structure the library can parse and preserve.
#[derive(Debug, Clone, Copy, PartialEq, Eq, Structural)]
pub enum FormatId {
    Markdown,
    PlainText,
    Docx,
}

/// The short name of a format.
pub open spec fn format_name(f: FormatId) -> Seq<char> {
    match f {
        FormatId::Markdown => "markdown"@,
        FormatId::PlainText => "text"@,
        FormatId::Docx => "docx"@,
    }
}

impl FormatId {
    pub fn as_str(self) -> (s: &'static str)
        ensures
            s@ == format_name(self),
    {
        match self {
            FormatId::Markdown => "markdown",
            FormatId::PlainText => "text",
            FormatId::Docx => "docx",
        }
    }
}

/// The newline convention of a text.
#[derive(Debug, Clone, Copy, PartialEq, Eq, Structural)]
pub enum Newline {
    Lf,
    Crlf,
    Cr,
    Mixed,
}

/// Occurrences of `c` in `s`.
pub open spec fn count_char(s: Seq<char>, c: char) -> nat
    decreases s.len(),
{
    if s.len() == 0 {
        0
    } else {
        count_char(s.drop_last(), c) + if s.last() == c { 1nat } else { 0nat }
    }
}

/// Occurrences of the two-character sequence `\r\n` in `s`.
pub open spec fn count_crlf(s: Seq<char>) -> nat
    decreases s.len(),
{
    if s.len() < 2 {
        0
    } else {
        count_crlf(s.drop_last()) + if s[s.len() - 2] == '\r' && s.last() == '\n' {
            1nat
        } else {
            0nat
        }
    }
}

/// The newline convention that `detect_newline` reports: the only kind of line ending
/// present (`\r\n`, lone `\n`, lone `\r`), `Lf` when there is none, `Mixed` otherwise.
pub open spec fn newline_of(s: Seq<char>) -> Newline {
    let crlf = count_crlf(s);
    let lf = count_char(s, '\n') - crlf;
    let cr = count_char(s, '\r') - crlf;
    if crlf > 0 && lf == 0 && cr == 0 {
        Newline::Crlf
    } else if crlf == 0 && lf > 0 && cr == 0 {
        Newline::Lf
    } else if crlf == 0 && lf == 0 && cr > 0 {
        Newline::Cr
    } else if crlf == 0 && lf == 0 && cr == 0 {
        Newline::Lf
    } else {
        Newline::Mixed
    }
}

proof fn lemma_crlf_le(s: Seq<char>)
    ensures
        count_crlf(s) <= count_char(s, '\n'),
        count_crlf(s) <= count_char(s, '\r'),
        s.len() > 0 && s.last() == '\r' ==> count_crlf(s) < count_char(s, '\r'),
    decreases s.len(),
{
    if s.len() >= 2 {
        lemma_crlf_le(s.drop_last());
        assert(s.drop_last().last() == s[s.len() - 2]);
    } else if s.len() == 1 {
        assert(s.drop_last().len() == 0);
    }
}

/// Detect the dominant newline convention so it can be preserved (a silent CRLF->LF
/// rewrite would itself be a "style break").
pub fn detect_newline(s: &str) -> (n: Newline)
    ensures
        n == newline_of(s@),
{
    let cs = crate::text::string_to_chars(s);
    let mut crlf: usize = 0;
    let mut lf: usize = 0;
    let mut cr: usize = 0;
    let mut i: usize = 0;
    while i < cs.len()
        invariant
            cs@ == s@,
            i <= cs.len(),
            crlf == count_crlf(cs@.take(i as int)),
            lf == count_char(cs@.take(i as int), '\n'),
            cr == count_char(cs@.take(i as int), '\r'),
            crlf <= i,
            lf <= i,
            cr <= i,
        decreases cs.len() - i,
    {
        let c = cs[i];
        let ghost before = cs@.take(i as int);
        let ghost after = cs@.take(i + 1);
        proof {
            assert(after.drop_last() =~= before);
            assert(after.last() == c);
            if after.len() >= 2 {
                assert(after[after.len() - 2] == cs@[i - 1]);
            }
        }
        if c == '\n' {
            lf = lf + 1;
            if i > 0 && cs[i - 1] == '\r' {
                crlf = crlf + 1;
            }
        }
        if c == '\r' {
            cr = cr + 1;
        }
        i = i + 1;
    }
    proof {
        assert(cs@.take(cs@.len() as int) =~= s@);
        lemma_crlf_le(s@);
    }
    let lone_lf = lf - crlf;
    let lone_cr = cr - crlf;
    if crlf > 0 && lone_lf == 0 && lone_cr == 0 {
        Newline::Crlf
    } else if crlf == 0 && lone_lf > 0 && lone_cr == 0 {
        Newline::Lf
    } else if crlf == 0 && lone_lf == 0 && lone_cr > 0 {
        Newline::Cr
    } else if crlf == 0 && lone_lf == 0 && lone_cr == 0 {
        Newline::Lf
    } else {
        Newline::Mixed
    }
}


}

verus! {

/// Metadata recorded at parse time so the original conventions can be preserved.
#[derive(Debug, Clone, Copy, PartialEq, Eq, Structural)]
pub struct DocMeta {
    pub format: FormatId,
    pub newline: Newline,
    pub had_bom: bool,
}

/// How a prose span's text maps back into the original document.
#[derive(Debug)]
pub enum SpanAnchor {
    /// A single contiguous byte range in [`Document::source`] — Markdown / plain text.
    Bytes(Range<usize>),
    /// Several disjoint byte ranges whose contents concatenate to the span text. Used for DOCX
    /// paragraphs whose text is split across multiple `<w:t>` runs: an edit is mapped back onto
    /// the runs it covers (the first run receives the replacement, later runs are trimmed), so
    /// every run keeps its own `<w:rPr>` formatting.
    Segments(Vec<Range<usize>>),
}

/// The mathematical content of an anchor.
pub enum SpanAnchorView {
    Bytes(Range<usize>),
    Segments(Seq<Range<usize>>),
}

impl View for SpanAnchor {
    type V = SpanAnchorView;

    open spec fn view(&self) -> SpanAnchorView {
        match self {
            SpanAnchor::Bytes(r) => SpanAnchorView::Bytes(*r),
            SpanAnchor::Segments(v) => SpanAnchorView::Segments(v@),
        }
    }
}

/// The only editable unit. Holds prose text and nothing structural — a rule that receives
/// a span cannot, by construction, see or touch a heading marker, code fence, or link URL.
#[derive(Debug)]
pub struct ProseSpan {
    pub anchor: SpanAnchor,
    pub text: String,
}

/// The mathematical content of a prose span.
pub struct ProseSpanView {
    pub anchor: SpanAnchorView,
    pub text: Seq<char>,
}

impl View for ProseSpan {
    type V = ProseSpanView;

    open spec fn view(&self) -> ProseSpanView {
        ProseSpanView { anchor: self.anchor@, text: self.text@ }
    }
}

/// `unicode-segmentation`'s UAX #29 sentence pieces of a text: each piece's byte offset and
/// byte length.
pub uninterp spec fn uax29_sentence_pieces(text: Seq<char>) -> Seq<(usize, usize)>;

/// The pieces `p` cut a text of `len` bytes into consecutive, non-empty parts, in order: the
/// first starts at 0, each starts where the one before ends, the last ends at `len`, and
/// there is none when the text is empty.
pub open spec fn pieces_partition(p: Seq<(usize, usize)>, len: nat) -> bool {
    &&& (p.len() == 0 <==> len == 0)
    &&& p.len() > 0 ==> p[0].0 == 0 && p.last().0 + p.last().1 == len
    &&& forall|k: int| 0 <= k < p.len() ==> #[trigger] p[k].1 > 0
    &&& forall|k: int| 0 <= k < p.len() - 1 ==> #[trigger] p[k].0 + p[k].1 == p[k + 1].0
}

/// Every piece starts at a character boundary of `text`.
pub open spec fn pieces_on_char_boundaries(p: Seq<(usize, usize)>, text: Seq<char>) -> bool {
    forall|k: int| 0 <= k < p.len() ==> exists|m: int| 0 <= m <= text.len() && utf8_len(#[trigger] text.take(m)) == (#[trigger] p[k]).0
}

/// `unicode_segmentation::UnicodeSegmentation::split_sentence_bound_indices`: each piece's
/// offset and length. The crate documents that the pieces, concatenated, give the text back;
/// each is a non-empty run of whole characters. The contract names the result and states
/// that partition.
#[verifier::external_body]
fn sentence_pieces(text: &str) -> (r: Vec<(usize, usize)>)
    ensures
        r@ == uax29_sentence_pieces(text@),
        pieces_partition(r@, utf8_len(text@)),
        pieces_on_char_boundaries(r@, text@),
{
    unicode_segmentation::UnicodeSegmentation::split_sentence_bound_indices(text).map(|(i, s)| (i, s.len())).collect()
}

/// The byte ranges of pieces.
pub open spec fn piece_ranges(p: Seq<(usize, usize)>) -> Seq<Range<usize>> {
    p.map_values(|q: (usize, usize)| Range { start: q.0, end: (q.0 + q.1) as usize })
}

impl ProseSpan {
    pub fn new(anchor: SpanAnchor, text: String) -> (s: ProseSpan)
        ensures
            s.anchor == anchor,
            s.text == text,
    {
        ProseSpan { anchor, text }
    }

    /// Absolute byte range in the source, if this span is byte-anchored.
    pub fn byte_range(&self) -> (r: Option<Range<usize>>)
        ensures
            r == (match self.anchor@ {
                SpanAnchorView::Bytes(b) => Some(b),
                SpanAnchorView::Segments(_) => None::<Range<usize>>,
            }),
    {
        match &self.anchor {
            SpanAnchor::Bytes(r) => Some(Range { start: r.start, end: r.end }),
            SpanAnchor::Segments(_) => None,
        }
    }

    /// UAX-29 sentence boundaries (byte ranges within `text`): consecutive non-empty ranges,
    /// starting at character boundaries, that together cover the text.
    pub fn sentences(&self) -> (r: Vec<Range<usize>>)
        ensures
            r@ == piece_ranges(uax29_sentence_pieces(self.text@)),
            r@.len() == 0 <==> self.text@.len() == 0,
            r@.len() > 0 ==> r@[0].start == 0 && r@.last().end == utf8_len(self.text@),
            forall|k: int| 0 <= k < r@.len() ==> (#[trigger] r@[k]).start < r@[k].end,
            forall|k: int| 0 <= k < r@.len() - 1 ==> (#[trigger] r@[k]).end == r@[k + 1].start,
            forall|k: int| 0 <= k < r@.len() ==> exists|m: int|
                0 <= m <= self.text@.len() && utf8_len(#[trigger] self.text@.take(m)) == (#[trigger] r@[k]).start,
    {
        let p = sentence_pieces(self.text.as_str());
        let total = crate::rules::scan::text_byte_len(self.text.as_str());
        let ghost len = utf8_len(self.text@);
        assert(len == total);
        let mut out: Vec<Range<usize>> = Vec::new();
        let mut i: usize = 0;
        while i < p.len()
            invariant
                i <= p@.len(),
                p@ == uax29_sentence_pieces(self.text@),
                pieces_partition(p@, len),
                len <= usize::MAX,
                out@ == piece_ranges(p@).take(i as int),
            decreases p@.len() - i,
        {
            let (st, n) = p[i];
            proof {
                lemma_piece_end(p@, len, i as int);
            }
            out.push(Range { start: st, end: st + n });
            assert(out@ =~= piece_ranges(p@).take(i + 1));
            i = i + 1;
        }
        assert(out@ =~= piece_ranges(p@));
        proof {
            if p@.len() > 0 {
                lemma_piece_end(p@, len, p@.len() - 1);
            }
            assert forall|k: int| 0 <= k < out@.len() - 1 implies (#[trigger] out@[k]).end == out@[k + 1].start by {
                assert(p@[k].0 + p@[k].1 == p@[k + 1].0);
                lemma_piece_end(p@, len, k);
            }
            assert forall|k: int| 0 <= k < out@.len() implies (#[trigger] out@[k]).start < out@[k].end by {
                lemma_piece_end(p@, len, k);
                assert(p@[k].1 > 0);
            }
            assert forall|k: int| 0 <= k < out@.len() implies exists|m: int|
                0 <= m <= self.text@.len() && utf8_len(#[trigger] self.text@.take(m)) == (#[trigger] out@[k]).start by {
                assert(out@[k].start == p@[k].0);
            }
        }
        out
    }
}

/// Each piece ends inside the text.
proof fn lemma_piece_end(p: Seq<(usize, usize)>, len: nat, k: int)
    requires
        pieces_partition(p, len),
        0 <= k < p.len(),
    ensures
        p[k].0 + p[k].1 <= len,
    decreases p.len() - k,
{
    if k < p.len() - 1 {
        lemma_piece_end(p, len, k + 1);
        assert(p[k].0 + p[k].1 == p[k + 1].0);
        assert(p[k + 1].1 > 0);
    }
}

/// A parsed document: the immutable original bytes plus the prose spans overlaid on them.
#[derive(Debug)]
pub struct Document {
    /// The bytes that prose spans are spliced into. For Markdown/text this is the file itself;
    /// for DOCX it is `word/document.xml` extracted from the zip.
    pub source: Vec<u8>,
    pub spans: Vec<ProseSpan>,
    pub meta: DocMeta,
    /// Format-specific container bytes (the original `.docx` zip), needed to re-emit the file.
    /// Empty for Markdown/plain text.
    pub aux: Vec<u8>,
}

/// The mathematical content of a document.
pub struct DocumentView {
    pub source: Seq<u8>,
    pub spans: Seq<ProseSpanView>,
    pub meta: DocMeta,
    pub aux: Seq<u8>,
}

/// Views of a sequence of spans.
pub open spec fn spans_view(s: Seq<ProseSpan>) -> Seq<ProseSpanView> {
    s.map_values(|p: ProseSpan| p@)
}

impl View for Document {
    type V = DocumentView;

    open spec fn view(&self) -> DocumentView {
        DocumentView {
            source: self.source@,
            spans: spans_view(self.spans@),
            meta: self.meta,
            aux: self.aux@,
        }
    }
}

/// The bytes of `source` that a list of runs covers, in order.
pub open spec fn segments_bytes(source: Seq<u8>, segs: Seq<Range<usize>>) -> Seq<u8>
    decreases segs.len(),
{
    if segs.len() == 0 {
        Seq::empty()
    } else {
        source.subrange(segs[0].start as int, segs[0].end as int) + segments_bytes(
            source,
            segs.drop_first(),
        )
    }
}

/// Total byte length of a run list.
pub open spec fn segments_len(segs: Seq<Range<usize>>) -> int
    decreases segs.len(),
{
    if segs.len() == 0 {
        0
    } else {
        segments_len(segs.drop_first()) + (segs[0].end - segs[0].start)
    }
}

/// Every range lies inside `0..len`.
pub open spec fn ranges_in_bounds(segs: Seq<Range<usize>>, len: nat) -> bool {
    forall|i: int| 0 <= i < segs.len() ==> #[trigger] segs[i].start <= segs[i].end <= len
}

/// A span is faithful to its source when its anchor lies in bounds and the bytes it covers
/// are exactly the UTF-8 encoding of its text.
pub open spec fn span_faithful(source: Seq<u8>, span: ProseSpanView) -> bool {
    match span.anchor {
        SpanAnchorView::Bytes(r) => r.start <= r.end <= source.len() && source.subrange(
            r.start as int,
            r.end as int,
        ) == crate::text::utf8(span.text),
        SpanAnchorView::Segments(segs) => ranges_in_bounds(segs, source.len()) && segments_bytes(
            source,
            segs,
        ) == crate::text::utf8(span.text) && segments_len(segs) <= usize::MAX,
    }
}

impl DocumentView {
    /// The source fits in memory and every span is faithful to it.
    pub open spec fn faithful(self) -> bool {
        &&& self.source.len() <= usize::MAX
        &&& forall|i: int| 0 <= i < self.spans.len() ==> span_faithful(self.source, #[trigger] self.spans[i])
    }
}

/// Appending a run appends the bytes it covers.
pub proof fn lemma_segments_push(source: Seq<u8>, segs: Seq<Range<usize>>, r: Range<usize>)
    requires
        r.start <= r.end <= source.len(),
    ensures
        segments_bytes(source, segs.push(r)) == segments_bytes(source, segs) + source.subrange(r.start as int, r.end as int),
    decreases segs.len(),
{
    let p = segs.push(r);
    if segs.len() == 0 {
        assert(p.drop_first() =~= Seq::<Range<usize>>::empty());
        assert(segments_bytes(source, p.drop_first()) =~= Seq::<u8>::empty());
        assert(p[0] == r);
        assert(segments_bytes(source, segs) =~= Seq::<u8>::empty());
        assert(segments_bytes(source, p) =~= source.subrange(r.start as int, r.end as int));
    } else {
        lemma_segments_push(source, segs.drop_first(), r);
        assert(p.drop_first() =~= segs.drop_first().push(r));
        assert(p[0] == segs[0]);
        assert(segments_bytes(source, p) == source.subrange(segs[0].start as int, segs[0].end as int)
            + segments_bytes(source, p.drop_first()));
        assert(segments_bytes(source, segs) == source.subrange(segs[0].start as int, segs[0].end as int)
            + segments_bytes(source, segs.drop_first()));
        assert(segments_bytes(source, p) =~= segments_bytes(source, segs) + source.subrange(r.start as int, r.end as int));
    }
}

/// Appending a run adds its length.
pub proof fn lemma_segments_len_push(segs: Seq<Range<usize>>, r: Range<usize>)
    ensures
        segments_len(segs.push(r)) == segments_len(segs) + (r.end - r.start),
    decreases segs.len(),
{
    let p = segs.push(r);
    if segs.len() == 0 {
        assert(p.drop_first() =~= Seq::<Range<usize>>::empty());
        assert(segments_len(p.drop_first()) == 0);
        assert(p[0] == r);
    } else {
        lemma_segments_len_push(segs.drop_first(), r);
        assert(p.drop_first() =~= segs.drop_first().push(r));
        assert(p[0] == segs[0]);
        assert(segments_len(p) == segments_len(p.drop_first()) + (segs[0].end - segs[0].start));
    }
}

/// Whether the bytes `source[start..end]` are `bytes`.
fn range_is(source: &Vec<u8>, start: usize, end: usize, bytes: &Vec<u8>) -> (b: bool)
    requires
        start <= end <= source@.len(),
    ensures
        b == (source@.subrange(start as int, end as int) == bytes@),
{
    if end - start != bytes.len() {
        assert(source@.subrange(start as int, end as int).len() != bytes@.len());
        return false;
    }
    let mut i: usize = 0;
    while i < bytes.len()
        invariant
            start <= end <= source@.len(),
            end - start == bytes@.len(),
            i <= bytes@.len(),
            forall|k: int| 0 <= k < i ==> source@[start + k] == bytes@[k],
        decreases bytes@.len() - i,
    {
        if source[start + i] != bytes[i] {
            assert(source@.subrange(start as int, end as int)[i as int] != bytes@[i as int]);
            return false;
        }
        i = i + 1;
    }
    assert(source@.subrange(start as int, end as int) =~= bytes@);
    true
}

/// Whether a span is faithful to `source`.
#[verifier::loop_isolation(false)]
pub fn span_fits(source: &Vec<u8>, span: &ProseSpan) -> (b: bool)
    ensures
        b == span_faithful(source@, span@),
{
    let text = crate::convert::to_text::string_bytes(&span.text);
    match &span.anchor {
        SpanAnchor::Bytes(r) => {
            if r.start <= r.end && r.end <= source.len() {
                range_is(source, r.start, r.end, &text)
            } else {
                false
            }
        },
        SpanAnchor::Segments(segs) => {
            let ghost sv = segs@;
            assert(span@.anchor == SpanAnchorView::Segments(sv));
            let mut cat: Vec<u8> = Vec::new();
            let mut total: usize = 0;
            let mut k: usize = 0;
            assert(sv.take(0) =~= Seq::<Range<usize>>::empty());
            while k < segs.len()
                invariant
                    k <= sv.len(),
                    sv == segs@,
                    span@.anchor == SpanAnchorView::Segments(sv),
                    text@ == crate::text::utf8(span.text@),
                    ranges_in_bounds(sv.take(k as int), source@.len()),
                    cat@ == segments_bytes(source@, sv.take(k as int)),
                    total == segments_len(sv.take(k as int)),
                decreases sv.len() - k,
            {
                let r = &segs[k];
                proof {
                    assert(sv.take(k + 1) =~= sv.take(k as int).push(sv[k as int]));
                }
                if !(r.start <= r.end && r.end <= source.len()) {
                    assert(!(sv[k as int].start <= sv[k as int].end <= source@.len()));
                    assert(!ranges_in_bounds(sv, source@.len()));
                    return false;
                }
                if total > usize::MAX - (r.end - r.start) {
                    proof {
                        assert(ranges_in_bounds(sv.take(k + 1), source@.len())) by {
                            assert forall|m: int| 0 <= m < sv.take(k + 1).len() implies #[trigger] sv.take(k + 1)[m].start
                                <= sv.take(k + 1)[m].end <= source@.len() by {
                                if m < k {
                                    assert(sv.take(k + 1)[m] == sv.take(k as int)[m]);
                                }
                            }
                        }
                        lemma_segments_len_push(sv.take(k as int), sv[k as int]);
                        lemma_segments_len_prefix_le(sv, source@.len(), k + 1);
                    }
                    return false;
                }
                let mut j: usize = r.start;
                let ghost before = cat@;
                while j < r.end
                    invariant
                        r.start <= j <= r.end <= source@.len(),
                        cat@ == before + source@.subrange(r.start as int, j as int),
                    decreases r.end - j,
                {
                    cat.push(source[j]);
                    assert(source@.subrange(r.start as int, j + 1) =~= source@.subrange(r.start as int, j as int).push(
                        source@[j as int],
                    ));
                    j = j + 1;
                }
                proof {
                    lemma_segments_push(source@, sv.take(k as int), sv[k as int]);
                    lemma_segments_len_push(sv.take(k as int), sv[k as int]);
                    assert forall|m: int| 0 <= m < sv.take(k + 1).len() implies #[trigger] sv.take(k + 1)[m].start
                        <= sv.take(k + 1)[m].end <= source@.len() by {
                        if m < k {
                            assert(sv.take(k + 1)[m] == sv.take(k as int)[m]);
                        }
                    }
                }
                total = total + (r.end - r.start);
                k = k + 1;
            }
            assert(sv.take(sv.len() as int) =~= sv);
            crate::text::bytes_eq(cat.as_slice(), text.as_slice())
        },
    }
}

/// Once the runs of a prefix are in bounds and longer than a machine word, so are all the
/// runs.
proof fn lemma_segments_len_prefix_le(segs: Seq<Range<usize>>, len: nat, n: int)
    requires
        0 <= n <= segs.len(),
        ranges_in_bounds(segs.take(n), len),
        segments_len(segs.take(n)) > usize::MAX,
    ensures
        !(ranges_in_bounds(segs, len) && segments_len(segs) <= usize::MAX),
    decreases segs.len() - n,
{
    if n < segs.len() && ranges_in_bounds(segs, len) {
        assert(segs.take(n + 1) =~= segs.take(n).push(segs[n]));
        lemma_segments_len_push(segs.take(n), segs[n]);
        assert(segs[n].start <= segs[n].end);
        assert(ranges_in_bounds(segs.take(n + 1), len));
        lemma_segments_len_prefix_le(segs, len, n + 1);
    } else if n == segs.len() {
        assert(segs.take(n) =~= segs);
    }
}

impl Document {
    /// A document over these parts when every span is faithful to the source (what cleaning
    /// requires of a document), else `None`.
    pub fn try_new(source: Vec<u8>, spans: Vec<ProseSpan>, meta: DocMeta) -> (r: Option<Document>)
        ensures
            r is Some <==> (forall|i: int| 0 <= i < spans@.len() ==> span_faithful(source@, #[trigger] spans@[i]@)),
            r matches Some(d) ==> d.source == source && d.spans == spans && d.meta == meta && d.aux@ == Seq::<u8>::empty()
                && d@.faithful(),
    {
        let n = source.len();
        let mut i: usize = 0;
        while i < spans.len()
            invariant
                i <= spans@.len(),
                n == source@.len(),
                forall|k: int| 0 <= k < i ==> span_faithful(source@, #[trigger] spans@[k]@),
            decreases spans@.len() - i,
        {
            if !span_fits(&source, &spans[i]) {
                return None;
            }
            i = i + 1;
        }
        let d = Document::new(source, spans, meta);
        assert forall|k: int| 0 <= k < d@.spans.len() implies span_faithful(d@.source, #[trigger] d@.spans[k]) by {
            assert(d@.spans[k] == d.spans@[k]@);
        }
        Some(d)
    }

    pub fn new(source: Vec<u8>, spans: Vec<ProseSpan>, meta: DocMeta) -> (d: Document)
        ensures
            d.source == source,
            d.spans == spans,
            d.meta == meta,
            d.aux@ == Seq::<u8>::empty(),
    {
        Document { source, spans, meta, aux: Vec::new() }
    }
}

}
