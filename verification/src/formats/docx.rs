//! DOCX adapter.
//!
//! A `.docx` is a zip (OPC package). The cleanable prose lives in `<w:t>` text nodes inside
//! `word/document.xml`. The adapter:
//!   1. extracts `word/document.xml` and finds the byte range of each `<w:t>`'s whole inner
//!      content (so XML entities like `&amp;` stay intact),
//!   2. groups the `<w:t>` of each paragraph (`<w:p>`) into one logical span so phrases split
//!      across runs are matched, splitting at `<w:tab>`/`<w:br>`/`<w:cr>` so runs are never
//!      glued into false matches across a visual break,
//!   3. runs the rules on that logical text and maps each edit back onto the runs it covers
//!      (the first run gets the replacement, later runs are trimmed), so every run keeps its
//!      `<w:rPr>`,
//!   4. rebuilds the zip, copying every other part byte for byte.

use vstd::prelude::*;
use vstd::utf8::*;
use std::ops::Range;
use crate::engine::error::{CoreError, CoreErrorView, outcome_view};
use crate::engine::ir::{
    DocMeta, Document, DocumentView, FormatId, Newline, ProseSpan, ProseSpanView, SpanAnchor, SpanAnchorView,
    lemma_segments_len_push, lemma_segments_push, ranges_in_bounds, segments_bytes, segments_len, span_faithful,
};
use crate::engine::splice::{lemma_faithful_resolvable, rendered_bytes, render_byte_spliced};
use crate::engine::traits::{Edit, EditSet, EditView, Format, edits_in_bounds, edits_view};
use crate::formats::package::{
    CopyError, MemberError, MemberErrorView, PackageStep, package_steps, zip_copy_error, zip_copy_raw,
    zip_entry_count, zip_entry_name, zip_entry_name_at, zip_finish, zip_finish_outcome, zip_len, zip_member,
    zip_open, zip_open_error, zip_raw_entry_error, zip_read_member, zip_source, zip_start_deflated,
    zip_start_error, zip_write_all, zip_write_error, zip_writer_new,
};
use crate::formats::xml::{
    XmlTok, XmlTokView, attr_lists_view, tok_positions_in, xml_attr_lists, xml_details, xml_layout, xml_texts, xml_tokens,
    xml_toks_view,
};
use crate::text::{
    decode_utf8_bytes, lemma_utf8_concat, prefixed, str_eq, str_to_string, string_push, string_push_str,
    string_to_chars, utf8, utf8_error_text,
};

verus! {

/// The DOCX adapter.
pub struct Docx;

/// The package part that holds the document body.
pub open spec fn doc_part() -> Seq<char> {
    "word/document.xml"@
}

// ---------------------------------------------------------------------------------------
// Escaping replacement text
// ---------------------------------------------------------------------------------------

/// The escape of one character in XML text content.
pub open spec fn escape_char(c: char) -> Seq<char> {
    if c == '&' {
        "&amp;"@
    } else if c == '<' {
        "&lt;"@
    } else if c == '>' {
        "&gt;"@
    } else {
        seq![c]
    }
}

/// A text with `&`, `<` and `>` escaped, so it can never make XML text content malformed.
pub open spec fn xml_escaped(s: Seq<char>) -> Seq<char>
    decreases s.len(),
{
    if s.len() == 0 {
        Seq::empty()
    } else {
        xml_escaped(s.drop_last()) + escape_char(s.last())
    }
}

/// Escaped text holds no `<` or `>`, so a replacement spliced into `<w:t>` content can never
/// open or close an element.
pub proof fn lemma_escaped_no_markup(s: Seq<char>)
    ensures
        forall|i: int| 0 <= i < xml_escaped(s).len() ==> #[trigger] xml_escaped(s)[i] != '<' && xml_escaped(s)[i] != '>',
    decreases s.len(),
{
    reveal_strlit("&amp;");
    reveal_strlit("&lt;");
    reveal_strlit("&gt;");
    if s.len() > 0 {
        lemma_escaped_no_markup(s.drop_last());
        let p = xml_escaped(s.drop_last());
        let e = escape_char(s.last());
        assert forall|i: int| 0 <= i < xml_escaped(s).len() implies #[trigger] xml_escaped(s)[i] != '<' && xml_escaped(s)[i]
            != '>' by {
            if i < p.len() {
                assert(xml_escaped(s)[i] == p[i]);
            } else {
                assert(xml_escaped(s)[i] == e[i - p.len()]);
            }
        }
    }
}

/// Escape the three characters that are significant in XML text content.
pub fn xml_escape(s: &str) -> (r: String)
    ensures
        r@ == xml_escaped(s@),
{
    let cs = string_to_chars(s);
    let mut out = String::new();
    let mut i: usize = 0;
    while i < cs.len()
        invariant
            i <= cs@.len(),
            cs@ == s@,
            out@ == xml_escaped(cs@.take(i as int)),
        decreases cs@.len() - i,
    {
        let c = cs[i];
        proof {
            assert(cs@.take(i + 1).drop_last() =~= cs@.take(i as int));
            assert(cs@.take(i + 1).last() == c);
        }
        if c == '&' {
            string_push_str(&mut out, "&amp;");
        } else if c == '<' {
            string_push_str(&mut out, "&lt;");
        } else if c == '>' {
            string_push_str(&mut out, "&gt;");
        } else {
            string_push(&mut out, c);
            assert(out@ =~= xml_escaped(cs@.take(i + 1)));
        }
        i = i + 1;
    }
    assert(cs@.take(cs@.len() as int) =~= cs@);
    out
}

// ---------------------------------------------------------------------------------------
// Locating the runs of each paragraph
// ---------------------------------------------------------------------------------------

/// The state of the scan over `document.xml`'s tokens.
pub struct ParaScan {
    /// The finished run groups.
    pub paragraphs: Seq<Seq<Range<usize>>>,
    /// The runs of the paragraph being read, inside a `<w:p>`.
    pub current: Option<Seq<Range<usize>>>,
    /// Where the text of the open `<w:t>` starts.
    pub wt_start: Option<usize>,
}

/// Tags that separate runs visually.
pub open spec fn is_break_tag(name: Seq<char>) -> bool {
    name == "w:tab"@ || name == "w:br"@ || name == "w:cr"@
}

/// Record one run: into the open paragraph, or as a group of its own outside any paragraph.
pub open spec fn push_seg(s: ParaScan, r: Range<usize>) -> ParaScan {
    match s.current {
        Some(segs) => ParaScan { paragraphs: s.paragraphs, current: Some(segs.push(r)), wt_start: s.wt_start },
        None => ParaScan { paragraphs: s.paragraphs.push(seq![r]), current: None, wt_start: s.wt_start },
    }
}

/// One step of the scan.
pub open spec fn para_step(s: ParaScan, t: XmlTokView) -> ParaScan {
    match t {
        XmlTokView::Start { name, post, .. } => {
            if name == "w:p"@ {
                ParaScan { paragraphs: s.paragraphs, current: Some(Seq::empty()), wt_start: s.wt_start }
            } else if name == "w:t"@ {
                ParaScan { paragraphs: s.paragraphs, current: s.current, wt_start: Some(post as usize) }
            } else {
                s
            }
        },
        XmlTokView::Empty { name } => {
            match s.current {
                Some(segs) => {
                    if is_break_tag(name) && segs.len() > 0 {
                        ParaScan { paragraphs: s.paragraphs.push(segs), current: Some(Seq::empty()), wt_start: s.wt_start }
                    } else {
                        s
                    }
                },
                None => s,
            }
        },
        XmlTokView::End { name, pre } => {
            if name == "w:t"@ {
                match s.wt_start {
                    Some(st) => {
                        let s1 = ParaScan { paragraphs: s.paragraphs, current: s.current, wt_start: None };
                        if pre as usize > st {
                            push_seg(s1, Range { start: st, end: pre as usize })
                        } else {
                            s1
                        }
                    },
                    None => s,
                }
            } else if name == "w:p"@ {
                match s.current {
                    Some(segs) => ParaScan {
                        paragraphs: if segs.len() > 0 { s.paragraphs.push(segs) } else { s.paragraphs },
                        current: None,
                        wt_start: s.wt_start,
                    },
                    None => s,
                }
            } else {
                s
            }
        },
        _ => s,
    }
}

/// The scan over a token list.
pub open spec fn para_scan(toks: Seq<XmlTokView>) -> ParaScan
    decreases toks.len(),
{
    if toks.len() == 0 {
        ParaScan { paragraphs: Seq::empty(), current: None, wt_start: None }
    } else {
        para_step(para_scan(toks.drop_last()), toks.last())
    }
}

/// The byte range of each paragraph's `<w:t>` inner content, grouped per `<w:p>` and split at
/// tab and break tags.
pub open spec fn wt_paragraphs(toks: Seq<XmlTokView>) -> Seq<Seq<Range<usize>>> {
    para_scan(toks).paragraphs
}

/// Views of run groups.
pub open spec fn groups_view(v: Seq<Vec<Range<usize>>>) -> Seq<Seq<Range<usize>>> {
    v.map_values(|g: Vec<Range<usize>>| g@)
}

/// Every run is a non-empty range inside `0..len`.
pub open spec fn groups_in_bounds(g: Seq<Seq<Range<usize>>>, len: nat) -> bool {
    forall|i: int, j: int| 0 <= i < g.len() && 0 <= j < g[i].len() ==> #[trigger] g[i][j].start < g[i][j].end <= len
}

/// Every run of a group is a non-empty range inside `0..len`.
pub open spec fn segs_in_bounds(segs: Seq<Range<usize>>, len: nat) -> bool {
    forall|j: int| 0 <= j < segs.len() ==> #[trigger] segs[j].start < segs[j].end <= len
}

/// The scan's state stays inside the part.
pub open spec fn scan_in_bounds(s: ParaScan, len: nat) -> bool {
    &&& groups_in_bounds(s.paragraphs, len)
    &&& s.current matches Some(segs) ==> segs_in_bounds(segs, len)
    &&& s.wt_start matches Some(st) ==> st <= len
}

#[verifier::spinoff_prover]
proof fn lemma_push_group_in_bounds(g: Seq<Seq<Range<usize>>>, segs: Seq<Range<usize>>, len: nat)
    requires
        groups_in_bounds(g, len),
        segs_in_bounds(segs, len),
    ensures
        groups_in_bounds(g.push(segs), len),
{
    let g2 = g.push(segs);
    assert forall|i: int, j: int| 0 <= i < g2.len() && 0 <= j < g2[i].len() implies #[trigger] g2[i][j].start < g2[i][j].end
        <= len by {
        if i < g.len() {
            assert(g2[i] == g[i]);
            assert(g[i][j].start < g[i][j].end <= len);
        } else {
            assert(g2[i] == segs);
            assert(segs[j].start < segs[j].end <= len);
        }
    }
}

#[verifier::spinoff_prover]
proof fn lemma_push_seg_in_bounds(s: ParaScan, r: Range<usize>, len: nat)
    requires
        scan_in_bounds(s, len),
        r.start < r.end <= len,
    ensures
        scan_in_bounds(push_seg(s, r), len),
{
    match s.current {
        Some(segs) => {
            let segs2 = segs.push(r);
            assert forall|j: int| 0 <= j < segs2.len() implies #[trigger] segs2[j].start < segs2[j].end <= len by {
                if j < segs.len() {
                    assert(segs2[j] == segs[j]);
                }
            }
        },
        None => {
            assert(segs_in_bounds(seq![r], len));
            lemma_push_group_in_bounds(s.paragraphs, seq![r], len);
        },
    }
}

#[verifier::spinoff_prover]
proof fn lemma_step_in_bounds(s: ParaScan, t: XmlTokView, len: nat)
    requires
        len <= usize::MAX,
        scan_in_bounds(s, len),
        tok_positions_in(t, len),
    ensures
        scan_in_bounds(para_step(s, t), len),
{
    match t {
        XmlTokView::Start { post, .. } => {
            assert(post as usize == post);
            assert(segs_in_bounds(Seq::<Range<usize>>::empty(), len));
        },
        XmlTokView::Empty { name } => {
            if let Some(segs) = s.current {
                if is_break_tag(name) && segs.len() > 0 {
                    lemma_push_group_in_bounds(s.paragraphs, segs, len);
                    assert(segs_in_bounds(Seq::<Range<usize>>::empty(), len));
                }
            }
        },
        XmlTokView::End { name, pre } => {
            assert(pre as usize == pre);
            if name == "w:t"@ {
                if let Some(st) = s.wt_start {
                    let s1 = ParaScan { paragraphs: s.paragraphs, current: s.current, wt_start: None };
                    assert(scan_in_bounds(s1, len));
                    if pre as usize > st {
                        lemma_push_seg_in_bounds(s1, Range { start: st, end: pre as usize }, len);
                    }
                }
            } else if name == "w:p"@ {
                if let Some(segs) = s.current {
                    if segs.len() > 0 {
                        lemma_push_group_in_bounds(s.paragraphs, segs, len);
                    }
                }
            }
        },
        _ => {},
    }
}

proof fn lemma_scan_in_bounds(toks: Seq<XmlTokView>, len: nat)
    requires
        len <= usize::MAX,
        forall|i: int| 0 <= i < toks.len() ==> tok_positions_in(#[trigger] toks[i], len),
    ensures
        scan_in_bounds(para_scan(toks), len),
    decreases toks.len(),
{
    if toks.len() > 0 {
        let pre = toks.drop_last();
        assert forall|i: int| 0 <= i < pre.len() implies tok_positions_in(#[trigger] pre[i], len) by {
            assert(pre[i] == toks[i]);
        }
        lemma_scan_in_bounds(pre, len);
        assert(tok_positions_in(toks[toks.len() - 1], len));
        lemma_step_in_bounds(para_scan(pre), toks.last(), len);
    }
}

/// The run groups of a token list, as `wt_paragraphs` describes them.
pub fn wt_paragraph_ranges(toks: &Vec<XmlTok>) -> (r: Vec<Vec<Range<usize>>>)
    ensures
        groups_view(r@) == wt_paragraphs(xml_toks_view(toks@)),
{
    let ghost tv = xml_toks_view(toks@);
    let mut paragraphs: Vec<Vec<Range<usize>>> = Vec::new();
    let mut current: Option<Vec<Range<usize>>> = None;
    let mut wt_start: Option<usize> = None;
    let mut i: usize = 0;
    while i < toks.len()
        invariant
            i <= toks@.len(),
            tv == xml_toks_view(toks@),
            groups_view(paragraphs@) == para_scan(tv.take(i as int)).paragraphs,
            (match current {
                Some(c) => para_scan(tv.take(i as int)).current == Some(c@),
                None => para_scan(tv.take(i as int)).current is None,
            }),
            wt_start == para_scan(tv.take(i as int)).wt_start,
        decreases toks@.len() - i,
    {
        let ghost s = para_scan(tv.take(i as int));
        let ghost gp = groups_view(paragraphs@);
        proof {
            assert(tv.take(i + 1).drop_last() =~= tv.take(i as int));
            assert(tv.take(i + 1).last() == toks@[i as int]@);
        }
        match &toks[i] {
            XmlTok::Start(name, _pre, post) => {
                if str_eq(name.as_str(), "w:p") {
                    current = Some(Vec::new());
                    assert(current.unwrap()@ =~= Seq::<Range<usize>>::empty());
                } else if str_eq(name.as_str(), "w:t") {
                    wt_start = Some(*post as usize);
                }
            },
            XmlTok::Empty(name) => {
                let brk = str_eq(name.as_str(), "w:tab") || str_eq(name.as_str(), "w:br") || str_eq(name.as_str(), "w:cr");
                if brk {
                    match current {
                        Some(segs) => {
                            if segs.len() > 0 {
                                paragraphs.push(segs);
                                current = Some(Vec::new());
                                assert(groups_view(paragraphs@) =~= gp.push(s.current.unwrap()));
                                assert(current.unwrap()@ =~= Seq::<Range<usize>>::empty());
                            } else {
                                current = Some(segs);
                            }
                        },
                        None => {},
                    }
                }
            },
            XmlTok::End(name, pre) => {
                if str_eq(name.as_str(), "w:t") {
                    match wt_start {
                        Some(st) => {
                            wt_start = None;
                            if *pre as usize > st {
                                let r = Range { start: st, end: *pre as usize };
                                match current {
                                    Some(mut segs) => {
                                        segs.push(r);
                                        current = Some(segs);
                                    },
                                    None => {
                                        let mut one: Vec<Range<usize>> = Vec::new();
                                        one.push(r);
                                        paragraphs.push(one);
                                        assert(groups_view(paragraphs@) =~= gp.push(seq![r]));
                                    },
                                }
                            }
                        },
                        None => {},
                    }
                } else if str_eq(name.as_str(), "w:p") {
                    match current {
                        Some(segs) => {
                            if segs.len() > 0 {
                                paragraphs.push(segs);
                                assert(groups_view(paragraphs@) =~= gp.push(s.current.unwrap()));
                            }
                            current = None;
                        },
                        None => {},
                    }
                }
            },
            _ => {},
        }
        i = i + 1;
    }
    assert(tv.take(tv.len() as int) =~= tv);
    paragraphs
}


// ---------------------------------------------------------------------------------------
// Paragraph texts
// ---------------------------------------------------------------------------------------

/// The state of the scan that collects each `<w:p>`'s `<w:t>` contents.
pub struct WpScan {
    /// The finished paragraphs: the inner ranges of their `<w:t>` elements, in order.
    pub paras: Seq<Seq<Range<usize>>>,
    /// The ranges of the paragraph being read.
    pub current: Option<Seq<Range<usize>>>,
    /// Where the text of the open `<w:t>` starts.
    pub wt_start: Option<usize>,
}

/// One step of the paragraph scan: `<w:p>` opens a paragraph and `</w:p>` closes it (with or
/// without text); each `<w:t>`'s non-empty inner range joins the open paragraph. A `<w:t>`
/// outside any paragraph belongs to none.
pub open spec fn wp_step(s: WpScan, t: XmlTokView) -> WpScan {
    match t {
        XmlTokView::Start { name, post, .. } => {
            if name == "w:p"@ {
                WpScan { paras: s.paras, current: Some(Seq::empty()), wt_start: s.wt_start }
            } else if name == "w:t"@ {
                WpScan { paras: s.paras, current: s.current, wt_start: Some(post as usize) }
            } else {
                s
            }
        },
        XmlTokView::End { name, pre } => {
            if name == "w:t"@ {
                match s.wt_start {
                    Some(st) => WpScan {
                        paras: s.paras,
                        current: match s.current {
                            Some(segs) => if pre as usize > st {
                                Some(segs.push(Range { start: st, end: pre as usize }))
                            } else {
                                Some(segs)
                            },
                            None => None,
                        },
                        wt_start: None,
                    },
                    None => s,
                }
            } else if name == "w:p"@ {
                match s.current {
                    Some(segs) => WpScan { paras: s.paras.push(segs), current: None, wt_start: s.wt_start },
                    None => s,
                }
            } else {
                s
            }
        },
        _ => s,
    }
}

/// The paragraph scan over a token list.
pub open spec fn wp_scan(toks: Seq<XmlTokView>) -> WpScan
    decreases toks.len(),
{
    if toks.len() == 0 {
        WpScan { paras: Seq::empty(), current: None, wt_start: None }
    } else {
        wp_step(wp_scan(toks.drop_last()), toks.last())
    }
}

/// The scan's state stays inside the part.
pub open spec fn wp_in_bounds(s: WpScan, len: nat) -> bool {
    &&& groups_in_bounds(s.paras, len)
    &&& s.current matches Some(segs) ==> segs_in_bounds(segs, len)
    &&& s.wt_start matches Some(st) ==> st <= len
}

#[verifier::spinoff_prover]
proof fn lemma_wp_step_in_bounds(s: WpScan, t: XmlTokView, len: nat)
    requires
        len <= usize::MAX,
        wp_in_bounds(s, len),
        tok_positions_in(t, len),
    ensures
        wp_in_bounds(wp_step(s, t), len),
{
    match t {
        XmlTokView::Start { post, .. } => {
            assert(post as usize == post);
            assert(segs_in_bounds(Seq::<Range<usize>>::empty(), len));
        },
        XmlTokView::End { name, pre } => {
            assert(pre as usize == pre);
            if name == "w:t"@ {
                if let Some(st) = s.wt_start {
                    if let Some(segs) = s.current {
                        if pre as usize > st {
                            let segs2 = segs.push(Range { start: st, end: pre as usize });
                            assert forall|j: int| 0 <= j < segs2.len() implies #[trigger] segs2[j].start < segs2[j].end <= len by {
                                if j < segs.len() {
                                    assert(segs2[j] == segs[j]);
                                }
                            }
                        }
                    }
                }
            } else if name == "w:p"@ {
                if let Some(segs) = s.current {
                    lemma_push_group_in_bounds(s.paras, segs, len);
                }
            }
        },
        _ => {},
    }
}

proof fn lemma_wp_scan_in_bounds(toks: Seq<XmlTokView>, len: nat)
    requires
        len <= usize::MAX,
        forall|i: int| 0 <= i < toks.len() ==> tok_positions_in(#[trigger] toks[i], len),
    ensures
        wp_in_bounds(wp_scan(toks), len),
    decreases toks.len(),
{
    if toks.len() > 0 {
        let pre = toks.drop_last();
        assert forall|i: int| 0 <= i < pre.len() implies tok_positions_in(#[trigger] pre[i], len) by {
            assert(pre[i] == toks[i]);
        }
        lemma_wp_scan_in_bounds(pre, len);
        assert(tok_positions_in(toks[toks.len() - 1], len));
        lemma_wp_step_in_bounds(wp_scan(pre), toks.last(), len);
    }
}

/// The inner `<w:t>` ranges of each `<w:p>`, as `wp_scan` collects them.
fn wp_paragraph_ranges(toks: &Vec<XmlTok>) -> (r: Vec<Vec<Range<usize>>>)
    ensures
        groups_view(r@) == wp_scan(xml_toks_view(toks@)).paras,
{
    let ghost tv = xml_toks_view(toks@);
    let mut paras: Vec<Vec<Range<usize>>> = Vec::new();
    let mut current: Option<Vec<Range<usize>>> = None;
    let mut wt_start: Option<usize> = None;
    let mut i: usize = 0;
    while i < toks.len()
        invariant
            i <= toks@.len(),
            tv == xml_toks_view(toks@),
            groups_view(paras@) == wp_scan(tv.take(i as int)).paras,
            (match current {
                Some(c) => wp_scan(tv.take(i as int)).current == Some(c@),
                None => wp_scan(tv.take(i as int)).current is None,
            }),
            wt_start == wp_scan(tv.take(i as int)).wt_start,
        decreases toks@.len() - i,
    {
        let ghost s = wp_scan(tv.take(i as int));
        let ghost gp = groups_view(paras@);
        proof {
            assert(tv.take(i + 1).drop_last() =~= tv.take(i as int));
            assert(tv.take(i + 1).last() == toks@[i as int]@);
        }
        match &toks[i] {
            XmlTok::Start(name, _pre, post) => {
                if str_eq(name.as_str(), "w:p") {
                    current = Some(Vec::new());
                    assert(current.unwrap()@ =~= Seq::<Range<usize>>::empty());
                } else if str_eq(name.as_str(), "w:t") {
                    wt_start = Some(*post as usize);
                }
            },
            XmlTok::End(name, pre) => {
                if str_eq(name.as_str(), "w:t") {
                    match wt_start {
                        Some(st) => {
                            wt_start = None;
                            match current {
                                Some(mut segs) => {
                                    if *pre as usize > st {
                                        segs.push(Range { start: st, end: *pre as usize });
                                    }
                                    current = Some(segs);
                                },
                                None => {},
                            }
                        },
                        None => {},
                    }
                } else if str_eq(name.as_str(), "w:p") {
                    match current {
                        Some(segs) => {
                            paras.push(segs);
                            assert(groups_view(paras@) =~= gp.push(s.current.unwrap()));
                            current = None;
                        },
                        None => {},
                    }
                }
            },
            _ => {},
        }
        i = i + 1;
    }
    assert(tv.take(tv.len() as int) =~= tv);
    paras
}

/// The decoded text of each paragraph (its runs' bytes joined), or the first error met, as
/// for the spans of `parse`.
pub open spec fn paragraph_texts_of(xml: Seq<u8>, paras: Seq<Seq<Range<usize>>>) -> Result<Seq<Seq<char>>, CoreErrorView>
    decreases paras.len(),
{
    if paras.len() == 0 {
        Ok(Seq::empty())
    } else {
        match paragraph_texts_of(xml, paras.drop_last()) {
            Err(e) => Err(e),
            Ok(ts) => {
                let g = paras.last();
                if segments_len(g) > usize::MAX {
                    Err(runs_too_long())
                } else {
                    match group_text(xml, g) {
                        Err(sub) => Err(run_encoding_error(sub)),
                        Ok(t) => Ok(ts.push(t)),
                    }
                }
            },
        }
    }
}

/// What reading the paragraphs of `document.xml` gives: one text per `<w:p>`, in order.
pub open spec fn paragraph_texts_outcome_xml(xml: Seq<u8>) -> Result<Seq<Seq<char>>, CoreErrorView> {
    match xml_layout(xml) {
        Err(m) => Err(CoreErrorView::Parse(malformed_message(m))),
        Ok(toks) => paragraph_texts_of(xml, wp_scan(toks).paras),
    }
}

proof fn lemma_paragraph_texts_err_prefix(xml: Seq<u8>, paras: Seq<Seq<Range<usize>>>, n: int, e: CoreErrorView)
    requires
        0 <= n <= paras.len(),
        paragraph_texts_of(xml, paras.take(n)) == Err::<Seq<Seq<char>>, CoreErrorView>(e),
    ensures
        paragraph_texts_of(xml, paras) == Err::<Seq<Seq<char>>, CoreErrorView>(e),
    decreases paras.len() - n,
{
    if n < paras.len() {
        assert(paras.take(n + 1).drop_last() =~= paras.take(n));
        lemma_paragraph_texts_err_prefix(xml, paras, n + 1, e);
    } else {
        assert(paras.take(n) =~= paras);
    }
}

/// The text of each `<w:p>` of `document.xml`, in document order: its `<w:t>` contents joined
/// (still XML-escaped), and an empty text for a paragraph without any.
pub fn paragraph_texts(xml: &Vec<u8>) -> (r: Result<Vec<String>, CoreError>)
    ensures
        match r {
            Ok(v) => paragraph_texts_outcome_xml(xml@) == Ok::<Seq<Seq<char>>, CoreErrorView>(v@.map_values(|s: String| s@)),
            Err(e) => paragraph_texts_outcome_xml(xml@) == Err::<Seq<Seq<char>>, CoreErrorView>(e@),
        },
{
    let toks = match xml_tokens(xml.as_slice()) {
        Ok(t) => t,
        Err(m) => {
            return Err(CoreError::Parse(prefixed("malformed document.xml: ", m.as_str())));
        },
    };
    let ghost tv = xml_toks_view(toks@);
    let xlen = xml.len();
    proof {
        lemma_wp_scan_in_bounds(tv, xml@.len());
    }
    let paras = wp_paragraph_ranges(&toks);
    let ghost pv = groups_view(paras@);
    let mut out: Vec<String> = Vec::new();
    let mut k: usize = 0;
    proof {
        assert(pv.take(0) =~= Seq::<Seq<Range<usize>>>::empty());
        assert(out@.map_values(|s: String| s@) =~= Seq::<Seq<char>>::empty());
    }
    while k < paras.len()
        invariant
            k <= paras@.len(),
            pv == groups_view(paras@),
            pv == wp_scan(tv).paras,
            xml_layout(xml@) == Ok::<Seq<XmlTokView>, Seq<char>>(tv),
            groups_in_bounds(pv, xml@.len()),
            paragraph_texts_of(xml@, pv.take(k as int)) == Ok::<Seq<Seq<char>>, CoreErrorView>(out@.map_values(|s: String| s@)),
        decreases paras@.len() - k,
    {
        proof {
            assert(pv.take(k + 1).drop_last() =~= pv.take(k as int));
            assert(pv.take(k + 1).last() == paras@[k as int]@);
            assert forall|j: int| 0 <= j < paras@[k as int]@.len() implies #[trigger] paras@[k as int]@[j].start
                < paras@[k as int]@[j].end <= xml@.len() by {
                assert(pv[k as int] == paras@[k as int]@);
            }
        }
        let ghost before = out@.map_values(|s: String| s@);
        match group_span(xml, &paras[k]) {
            Ok(sp) => {
                let t = sp.text;
                out.push(t);
                proof {
                    assert(out@.map_values(|s: String| s@) =~= before.push(t@));
                }
            },
            Err(e) => {
                proof {
                    assert(paragraph_texts_of(xml@, pv.take(k + 1)) == Err::<Seq<Seq<char>>, CoreErrorView>(e@));
                    lemma_paragraph_texts_err_prefix(xml@, pv, k as int + 1, e@);
                }
                return Err(e);
            },
        }
        k = k + 1;
    }
    proof {
        assert(pv.take(pv.len() as int) =~= pv);
    }
    Ok(out)
}

// ---------------------------------------------------------------------------------------
// The structural fingerprint
// ---------------------------------------------------------------------------------------

/// An attribute list as the fingerprint writes it: ` key=value` for each.
pub open spec fn attrs_text(l: Seq<(Seq<char>, Seq<char>)>) -> Seq<char>
    decreases l.len(),
{
    if l.len() == 0 {
        Seq::empty()
    } else {
        attrs_text(l.drop_last()) + " "@ + l.last().0 + "="@ + l.last().1
    }
}

/// The attribute list of the `k`-th tag, empty past the end of the lists.
pub open spec fn attrs_at(lists: Seq<Seq<(Seq<char>, Seq<char>)>>, k: nat) -> Seq<(Seq<char>, Seq<char>)> {
    if k < lists.len() {
        lists[k as int]
    } else {
        Seq::empty()
    }
}

/// The state of the fingerprint: text so far, whether a `<w:t>` is open, and how many tags
/// (start or self-closing) and text events have been seen.
pub struct SkelState {
    pub out: Seq<char>,
    pub in_wt: bool,
    pub tags: nat,
    pub texts: nat,
}

/// The content of the `k`-th text event, empty past the end of the list.
pub open spec fn text_at(texts: Seq<Seq<char>>, k: nat) -> Seq<char> {
    if k < texts.len() {
        texts[k as int]
    } else {
        Seq::empty()
    }
}

/// One step of the fingerprint.
pub open spec fn skel_step(
    s: SkelState,
    t: XmlTokView,
    lists: Seq<Seq<(Seq<char>, Seq<char>)>>,
    texts: Seq<Seq<char>>,
) -> SkelState {
    match t {
        XmlTokView::Start { name, .. } => SkelState {
            out: s.out + "<"@ + name + attrs_text(attrs_at(lists, s.tags)) + ">"@,
            in_wt: s.in_wt || name == "w:t"@,
            tags: s.tags + 1,
            texts: s.texts,
        },
        XmlTokView::Empty { name } => SkelState {
            out: s.out + "<"@ + name + attrs_text(attrs_at(lists, s.tags)) + "/>"@,
            in_wt: s.in_wt,
            tags: s.tags + 1,
            texts: s.texts,
        },
        XmlTokView::End { name, .. } => SkelState {
            out: s.out + "</"@ + name + ">"@,
            in_wt: if name == "w:t"@ { false } else { s.in_wt },
            tags: s.tags,
            texts: s.texts,
        },
        XmlTokView::Text => SkelState {
            out: if s.in_wt { s.out } else { s.out + text_at(texts, s.texts) },
            in_wt: s.in_wt,
            tags: s.tags,
            texts: s.texts + 1,
        },
        XmlTokView::Other => s,
    }
}

/// The fingerprint over a token list.
pub open spec fn skel_scan(toks: Seq<XmlTokView>, lists: Seq<Seq<(Seq<char>, Seq<char>)>>, texts: Seq<Seq<char>>) -> SkelState
    decreases toks.len(),
{
    if toks.len() == 0 {
        SkelState { out: Seq::empty(), in_wt: false, tags: 0, texts: 0 }
    } else {
        skel_step(skel_scan(toks.drop_last(), lists, texts), toks.last(), lists, texts)
    }
}

/// Two tokens of the same kind and name (their byte positions aside).
pub open spec fn same_shape(a: XmlTokView, b: XmlTokView) -> bool {
    match (a, b) {
        (XmlTokView::Start { name: x, .. }, XmlTokView::Start { name: y, .. }) => x == y,
        (XmlTokView::Empty { name: x }, XmlTokView::Empty { name: y }) => x == y,
        (XmlTokView::End { name: x, .. }, XmlTokView::End { name: y, .. }) => x == y,
        (XmlTokView::Text, XmlTokView::Text) => true,
        (XmlTokView::Other, XmlTokView::Other) => true,
        _ => false,
    }
}

/// Two token lists with the same shape, whose text events agree wherever they stand outside
/// a `<w:t>` (as the fingerprint scan of the first list sees it).
pub open spec fn differ_in_run_text_only(
    t1: Seq<XmlTokView>,
    texts1: Seq<Seq<char>>,
    t2: Seq<XmlTokView>,
    texts2: Seq<Seq<char>>,
    lists: Seq<Seq<(Seq<char>, Seq<char>)>>,
) -> bool {
    &&& t1.len() == t2.len()
    &&& forall|i: int| 0 <= i < t1.len() ==> same_shape(#[trigger] t1[i], t2[i])
    &&& forall|i: int| 0 <= i < t1.len() && #[trigger] t1[i] is Text && !skel_scan(t1.take(i), lists, texts1).in_wt ==> text_at(
        texts1,
        skel_scan(t1.take(i), lists, texts1).texts,
    ) == text_at(texts2, skel_scan(t1.take(i), lists, texts1).texts)
}

proof fn lemma_skel_scan_run_text(
    t1: Seq<XmlTokView>,
    texts1: Seq<Seq<char>>,
    t2: Seq<XmlTokView>,
    texts2: Seq<Seq<char>>,
    lists: Seq<Seq<(Seq<char>, Seq<char>)>>,
    n: int,
)
    requires
        differ_in_run_text_only(t1, texts1, t2, texts2, lists),
        0 <= n <= t1.len(),
    ensures
        skel_scan(t1.take(n), lists, texts1) == skel_scan(t2.take(n), lists, texts2),
    decreases n,
{
    if n > 0 {
        lemma_skel_scan_run_text(t1, texts1, t2, texts2, lists, n - 1);
        assert(t1.take(n).drop_last() =~= t1.take(n - 1));
        assert(t2.take(n).drop_last() =~= t2.take(n - 1));
        assert(t1.take(n).last() == t1[n - 1]);
        assert(t2.take(n).last() == t2[n - 1]);
        assert(same_shape(t1[n - 1], t2[n - 1]));
    }
}

/// The structural fingerprint does not see run text: two parts whose tokens have the same
/// shape and attributes, and whose text agrees outside `<w:t>` elements, have the same
/// fingerprint.
pub proof fn lemma_fingerprint_ignores_run_text(xml1: Seq<u8>, xml2: Seq<u8>)
    requires
        xml_layout(xml1) is Ok,
        xml_layout(xml2) is Ok,
        xml_attr_lists(xml1) is Ok,
        xml_attr_lists(xml2) == xml_attr_lists(xml1),
        xml_texts(xml1) is Ok,
        xml_texts(xml2) is Ok,
        differ_in_run_text_only(
            xml_layout(xml1)->Ok_0,
            xml_texts(xml1)->Ok_0,
            xml_layout(xml2)->Ok_0,
            xml_texts(xml2)->Ok_0,
            xml_attr_lists(xml1)->Ok_0,
        ),
    ensures
        xml_fingerprint(xml1) is Ok,
        xml_fingerprint(xml1) == xml_fingerprint(xml2),
{
    let t1 = xml_layout(xml1)->Ok_0;
    let t2 = xml_layout(xml2)->Ok_0;
    lemma_skel_scan_run_text(t1, xml_texts(xml1)->Ok_0, t2, xml_texts(xml2)->Ok_0, xml_attr_lists(xml1)->Ok_0, t1.len() as int);
    assert(t1.take(t1.len() as int) =~= t1);
    assert(t2.take(t2.len() as int) =~= t2);
}

/// The message of a malformed `document.xml`.
pub open spec fn malformed_message(m: Seq<char>) -> Seq<char> {
    "malformed document.xml: "@ + m
}

/// The structural fingerprint of `document.xml`: element names and attributes, with `<w:t>`
/// text content excluded entirely (so editing or emptying a run's text leaves it unchanged).
pub open spec fn xml_fingerprint(xml: Seq<u8>) -> Result<Seq<char>, CoreErrorView> {
    match xml_layout(xml) {
        Err(m) => Err(CoreErrorView::Parse(malformed_message(m))),
        Ok(toks) => match xml_attr_lists(xml) {
            Err(m) => Err(CoreErrorView::Parse(malformed_message(m))),
            Ok(lists) => match xml_texts(xml) {
                Err(m) => Err(CoreErrorView::Parse(malformed_message(m))),
                Ok(texts) => Ok(skel_scan(toks, lists, texts).out),
            },
        },
    }
}

fn push_attrs(out: &mut String, l: &Vec<(String, String)>)
    ensures
        final(out)@ == old(out)@ + attrs_text(crate::formats::xml::attr_list_view(l@)),
{
    let ghost lv = crate::formats::xml::attr_list_view(l@);
    let ghost start = out@;
    let mut j: usize = 0;
    while j < l.len()
        invariant
            j <= l@.len(),
            lv == crate::formats::xml::attr_list_view(l@),
            out@ == start + attrs_text(lv.take(j as int)),
        decreases l@.len() - j,
    {
        proof {
            assert(lv.take(j + 1).drop_last() =~= lv.take(j as int));
            assert(lv.take(j + 1).last() == (l@[j as int].0@, l@[j as int].1@));
        }
        string_push_str(out, " ");
        string_push_str(out, l[j].0.as_str());
        string_push_str(out, "=");
        string_push_str(out, l[j].1.as_str());
        proof {
            let a = attrs_text(lv.take(j as int));
            assert(out@ =~= start + (a + " "@ + l@[j as int].0@ + "="@ + l@[j as int].1@));
        }
        j = j + 1;
    }
    assert(lv.take(lv.len() as int) =~= lv);
}

/// The structural fingerprint of `document.xml`, as `xml_fingerprint` describes it.
pub fn xml_skeleton(xml: &[u8]) -> (r: Result<String, CoreError>)
    ensures
        outcome_view(r) == xml_fingerprint(xml@),
{
    let toks = match xml_tokens(xml) {
        Ok(t) => t,
        Err(m) => {
            return Err(CoreError::Parse(prefixed("malformed document.xml: ", m.as_str())));
        },
    };
    let (lists, texts) = match xml_details(xml) {
        Ok(l) => l,
        Err(m) => {
            return Err(CoreError::Parse(prefixed("malformed document.xml: ", m.as_str())));
        },
    };
    let ghost tv = xml_toks_view(toks@);
    let ghost lv = attr_lists_view(lists@);
    let ghost xv = texts@.map_values(|x: String| x@);
    let mut out = String::new();
    let mut in_wt = false;
    let mut k: usize = 0;
    let mut kt: usize = 0;
    let mut i: usize = 0;
    while i < toks.len()
        invariant
            i <= toks@.len(),
            tv == xml_toks_view(toks@),
            lv == attr_lists_view(lists@),
            xv == texts@.map_values(|x: String| x@),
            k <= i,
            kt <= i,
            out@ == skel_scan(tv.take(i as int), lv, xv).out,
            in_wt == skel_scan(tv.take(i as int), lv, xv).in_wt,
            k == skel_scan(tv.take(i as int), lv, xv).tags,
            kt == skel_scan(tv.take(i as int), lv, xv).texts,
        decreases toks@.len() - i,
    {
        proof {
            assert(tv.take(i + 1).drop_last() =~= tv.take(i as int));
            assert(tv.take(i + 1).last() == toks@[i as int]@);
        }
        let ghost before = out@;
        match &toks[i] {
            XmlTok::Start(name, _, _) => {
                string_push_str(&mut out, "<");
                string_push_str(&mut out, name.as_str());
                if k < lists.len() {
                    push_attrs(&mut out, &lists[k]);
                } else {
                    assert(attrs_text(Seq::<(Seq<char>, Seq<char>)>::empty()) =~= Seq::<char>::empty());
                }
                string_push_str(&mut out, ">");
                proof {
                    let a = attrs_text(attrs_at(lv, k as nat));
                    assert(out@ =~= before + "<"@ + name@ + a + ">"@);
                }
                if str_eq(name.as_str(), "w:t") {
                    in_wt = true;
                }
                k = k + 1;
            },
            XmlTok::Empty(name) => {
                string_push_str(&mut out, "<");
                string_push_str(&mut out, name.as_str());
                if k < lists.len() {
                    push_attrs(&mut out, &lists[k]);
                } else {
                    assert(attrs_text(Seq::<(Seq<char>, Seq<char>)>::empty()) =~= Seq::<char>::empty());
                }
                string_push_str(&mut out, "/>");
                proof {
                    let a = attrs_text(attrs_at(lv, k as nat));
                    assert(out@ =~= before + "<"@ + name@ + a + "/>"@);
                }
                k = k + 1;
            },
            XmlTok::End(name, _) => {
                if str_eq(name.as_str(), "w:t") {
                    in_wt = false;
                }
                string_push_str(&mut out, "</");
                string_push_str(&mut out, name.as_str());
                string_push_str(&mut out, ">");
                assert(out@ =~= before + "</"@ + name@ + ">"@);
            },
            XmlTok::Text => {
                if !in_wt {
                    if kt < texts.len() {
                        string_push_str(&mut out, texts[kt].as_str());
                    } else {
                        assert(out@ =~= before + text_at(xv, kt as nat));
                    }
                }
                kt = kt + 1;
            },
            XmlTok::Other => {},
        }
        i = i + 1;
    }
    assert(tv.take(tv.len() as int) =~= tv);
    Ok(out)
}


// ---------------------------------------------------------------------------------------
// Reading and writing the package
// ---------------------------------------------------------------------------------------

/// What reading a part of a `.docx` gives: its bytes, or why it could not be read.
pub open spec fn read_part_outcome(zip: Seq<u8>, part: Seq<char>) -> Result<Seq<u8>, CoreErrorView> {
    match zip_open_error(zip) {
        Some(m) => Err(CoreErrorView::Parse("not a valid .docx (zip) file: "@ + m)),
        None => match zip_member(zip, part) {
            Ok(d) => Ok(d),
            Err(MemberErrorView::Lookup(m)) => Err(CoreErrorView::Parse(part + " not found in .docx: "@ + m)),
            Err(MemberErrorView::Io(m)) => Err(CoreErrorView::Io(m)),
        },
    }
}

/// Read one part of a `.docx` package.
pub fn read_part(zip: &[u8], part: &str) -> (r: Result<Vec<u8>, CoreError>)
    ensures
        outcome_view(r) == read_part_outcome(zip@, part@),
{
    let mut archive = match zip_open(zip) {
        Ok(a) => a,
        Err(m) => {
            return Err(CoreError::Parse(prefixed("not a valid .docx (zip) file: ", m.as_str())));
        },
    };
    match zip_read_member(&mut archive, part) {
        Ok(v) => Ok(v),
        Err(MemberError::Lookup(m)) => {
            let mut msg = str_to_string(part);
            string_push_str(&mut msg, " not found in .docx: ");
            string_push_str(&mut msg, m.as_str());
            Err(CoreError::Parse(msg))
        },
        Err(MemberError::Io(m)) => Err(CoreError::Io(m)),
    }
}

/// The names of the first `n` entries of the archive in `bytes`, or the error met on the
/// first one that cannot be read.
pub open spec fn entry_names(bytes: Seq<u8>, n: nat) -> Result<Seq<Seq<char>>, Seq<char>>
    decreases n,
{
    if n == 0 {
        Ok(Seq::empty())
    } else {
        match entry_names(bytes, (n - 1) as nat) {
            Err(m) => Err(m),
            Ok(names) => match zip_entry_name_at(bytes, n - 1) {
                Ok(x) => Ok(names.push(x)),
                Err(m) => Err(m),
            },
        }
    }
}

/// Writing one entry of a package after the calls `h`: `word/document.xml` is started anew
/// and `doc_xml` written into it; any other entry `i` is copied as it is stored. The calls
/// made after `h`, or the error met.
pub open spec fn rezip_entry(original: Seq<u8>, doc_xml: Seq<u8>, h: Seq<PackageStep>, name: Seq<char>, i: int) -> Result<
    Seq<PackageStep>,
    CoreErrorView,
> {
    if name == "word/document.xml"@ {
        match zip_start_error(h, name) {
            Some(m) => Err(CoreErrorView::Parse("zip write: "@ + m)),
            None => {
                let h1 = h.push(PackageStep::Start(name));
                match zip_write_error(h1, doc_xml) {
                    Some(m) => Err(CoreErrorView::Io(m)),
                    None => Ok(h1.push(PackageStep::Write(doc_xml))),
                }
            },
        }
    } else {
        match zip_raw_entry_error(original, i) {
            Some(m) => Err(CoreErrorView::Parse("zip read: "@ + m)),
            None => match zip_copy_error(h, original, i) {
                Some(m) => Err(CoreErrorView::Parse("zip copy: "@ + m)),
                None => Ok(h.push(PackageStep::CopyRaw(original, i))),
            },
        }
    }
}

/// Writing the entries that carry `names`, in order, into a new package: the calls made, or
/// the first error met.
pub open spec fn rezip_writes(original: Seq<u8>, doc_xml: Seq<u8>, names: Seq<Seq<char>>) -> Result<
    Seq<PackageStep>,
    CoreErrorView,
>
    decreases names.len(),
{
    if names.len() == 0 {
        Ok(Seq::empty())
    } else {
        match rezip_writes(original, doc_xml, names.drop_last()) {
            Err(e) => Err(e),
            Ok(h) => rezip_entry(original, doc_xml, h, names.last(), names.len() - 1),
        }
    }
}

/// How rebuilding a package ends: when the original cannot be reopened, or an entry's name
/// cannot be read, with that error; otherwise with the first error met while writing the
/// entries, or else with what finishing the package gives.
pub open spec fn rezip_outcome(original: Seq<u8>, doc_xml: Seq<u8>, r: Result<Vec<u8>, CoreError>) -> bool {
    match zip_open_error(original) {
        Some(m) => outcome_view(r) == Err::<Seq<u8>, CoreErrorView>(CoreErrorView::Parse("re-reading .docx zip failed: "@ + m)),
        None => match entry_names(original, zip_entry_count(original)) {
            Err(m) => outcome_view(r) == Err::<Seq<u8>, CoreErrorView>(CoreErrorView::Parse("zip read: "@ + m)),
            Ok(names) => match rezip_writes(original, doc_xml, names) {
                Err(e) => outcome_view(r) == Err::<Seq<u8>, CoreErrorView>(e),
                Ok(h) => match zip_finish_outcome(h) {
                    Ok(b) => outcome_view(r) == Ok::<Seq<u8>, CoreErrorView>(b),
                    Err(m) => outcome_view(r) == Err::<Seq<u8>, CoreErrorView>(CoreErrorView::Parse("zip finish: "@ + m)),
                },
            },
        },
    }
}

/// The views of a list of strings.
pub open spec fn strings_view(v: Seq<String>) -> Seq<Seq<char>> {
    v.map_values(|s: String| s@)
}

/// Rebuild the zip from the original, replacing only `word/document.xml`. Every other entry
/// (images, shapes, styles, numbering, headers and footers, ...) is copied as it is stored.
pub fn rezip(original: &[u8], doc_xml: &[u8]) -> (r: Result<Vec<u8>, CoreError>)
    ensures
        rezip_outcome(original@, doc_xml@, r),
{
    let mut archive = match zip_open(original) {
        Ok(a) => a,
        Err(m) => {
            return Err(CoreError::Parse(prefixed("re-reading .docx zip failed: ", m.as_str())));
        },
    };
    let n = zip_len(&archive);
    let mut names: Vec<String> = Vec::new();
    assert(strings_view(names@) =~= Seq::<Seq<char>>::empty());
    let mut i: usize = 0;
    while i < n
        invariant
            i <= n,
            n == zip_entry_count(original@),
            zip_source(archive) == original@,
            zip_open_error(original@) is None,
            entry_names(original@, i as nat) == Ok::<Seq<Seq<char>>, Seq<char>>(strings_view(names@)),
        decreases n - i,
    {
        match zip_entry_name(&mut archive, i) {
            Ok(name) => {
                proof {
                    assert(strings_view(names@.push(name)) =~= strings_view(names@).push(name@));
                }
                names.push(name);
            },
            Err(m) => {
                proof {
                    lemma_entry_names_err(original@, (i + 1) as nat, n as nat, m@);
                }
                return Err(CoreError::Parse(prefixed("zip read: ", m.as_str())));
            },
        }
        i = i + 1;
    }
    let ghost all = strings_view(names@);
    let mut w = zip_writer_new();
    let mut k: usize = 0;
    while k < names.len()
        invariant
            k <= names@.len(),
            all == strings_view(names@),
            zip_source(archive) == original@,
            zip_open_error(original@) is None,
            entry_names(original@, zip_entry_count(original@)) == Ok::<Seq<Seq<char>>, Seq<char>>(all),
            rezip_writes(original@, doc_xml@, all.take(k as int)) == Ok::<Seq<PackageStep>, CoreErrorView>(package_steps(w)),
        decreases names@.len() - k,
    {
        let ghost h = package_steps(w);
        proof {
            assert(all.take(k + 1).drop_last() =~= all.take(k as int));
            assert(all.take(k + 1).last() == all[k as int]);
            reveal_strlit("word/document.xml");
        }
        let ghost step = rezip_entry(original@, doc_xml@, h, all[k as int], k as int);
        assert(rezip_writes(original@, doc_xml@, all.take(k + 1)) == step);
        if str_eq(names[k].as_str(), "word/document.xml") {
            match zip_start_deflated(&mut w, names[k].as_str()) {
                Ok(()) => {},
                Err(m) => {
                    let e = CoreError::Parse(prefixed("zip write: ", m.as_str()));
                    proof {
                        lemma_rezip_writes_err(original@, doc_xml@, all, (k + 1) as int, e@);
                    }
                    return Err(e);
                },
            }
            match zip_write_all(&mut w, doc_xml) {
                Ok(()) => {},
                Err(m) => {
                    let e = CoreError::Io(m);
                    proof {
                        lemma_rezip_writes_err(original@, doc_xml@, all, (k + 1) as int, e@);
                    }
                    return Err(e);
                },
            }
        } else {
            match zip_copy_raw(&mut w, &mut archive, k) {
                Ok(()) => {},
                Err(CopyError::Read(m)) => {
                    let e = CoreError::Parse(prefixed("zip read: ", m.as_str()));
                    proof {
                        lemma_rezip_writes_err(original@, doc_xml@, all, (k + 1) as int, e@);
                    }
                    return Err(e);
                },
                Err(CopyError::Copy(m)) => {
                    let e = CoreError::Parse(prefixed("zip copy: ", m.as_str()));
                    proof {
                        lemma_rezip_writes_err(original@, doc_xml@, all, (k + 1) as int, e@);
                    }
                    return Err(e);
                },
            }
        }
        k = k + 1;
    }
    proof {
        assert(all.take(all.len() as int) =~= all);
    }
    match zip_finish(w) {
        Ok(out) => Ok(out),
        Err(m) => Err(CoreError::Parse(prefixed("zip finish: ", m.as_str()))),
    }
}

/// Once writing the first `k` entries fails, writing them all fails with the same error.
proof fn lemma_rezip_writes_err(original: Seq<u8>, doc_xml: Seq<u8>, names: Seq<Seq<char>>, k: int, e: CoreErrorView)
    requires
        0 <= k <= names.len(),
        rezip_writes(original, doc_xml, names.take(k)) == Err::<Seq<PackageStep>, CoreErrorView>(e),
    ensures
        rezip_writes(original, doc_xml, names) == Err::<Seq<PackageStep>, CoreErrorView>(e),
    decreases names.len() - k,
{
    if k < names.len() {
        assert(names.take(k + 1).drop_last() =~= names.take(k));
        lemma_rezip_writes_err(original, doc_xml, names, k + 1, e);
    } else {
        assert(names.take(k) =~= names);
    }
}

/// Once the names of the first `i` entries fail to read, so do the names of any more.
proof fn lemma_entry_names_err(bytes: Seq<u8>, i: nat, n: nat, m: Seq<char>)
    requires
        1 <= i <= n,
        entry_names(bytes, i) == Err::<Seq<Seq<char>>, Seq<char>>(m),
    ensures
        entry_names(bytes, n) == Err::<Seq<Seq<char>>, Seq<char>>(m),
    decreases n - i,
{
    if i < n {
        lemma_entry_names_err(bytes, i, (n - 1) as nat, m);
    }
}

// ---------------------------------------------------------------------------------------
// Spans
// ---------------------------------------------------------------------------------------

/// The text of a run group: its runs' bytes decoded and joined, or the first run whose bytes
/// are not UTF-8.
pub open spec fn group_text(xml: Seq<u8>, segs: Seq<Range<usize>>) -> Result<Seq<char>, Seq<u8>>
    decreases segs.len(),
{
    if segs.len() == 0 {
        Ok(Seq::empty())
    } else {
        match group_text(xml, segs.drop_last()) {
            Err(b) => Err(b),
            Ok(t) => {
                let sub = xml.subrange(segs.last().start as int, segs.last().end as int);
                if valid_utf8(sub) {
                    Ok(t + decode_utf8(sub))
                } else {
                    Err(sub)
                }
            },
        }
    }
}

/// The message of run bytes that are not UTF-8.
pub open spec fn run_encoding_error(sub: Seq<u8>) -> CoreErrorView {
    CoreErrorView::Encoding("document.xml text is not UTF-8: "@ + utf8_error_text(sub))
}

/// The error of a run group whose total length does not fit in memory.
pub open spec fn runs_too_long() -> CoreErrorView {
    CoreErrorView::Parse("document.xml runs are too long"@)
}

/// The spans of the run groups, or the first error met.
pub open spec fn docx_spans(xml: Seq<u8>, groups: Seq<Seq<Range<usize>>>) -> Result<Seq<ProseSpanView>, CoreErrorView>
    decreases groups.len(),
{
    if groups.len() == 0 {
        Ok(Seq::empty())
    } else {
        match docx_spans(xml, groups.drop_last()) {
            Err(e) => Err(e),
            Ok(spans) => {
                let g = groups.last();
                if segments_len(g) > usize::MAX {
                    Err(runs_too_long())
                } else {
                    match group_text(xml, g) {
                        Err(sub) => Err(run_encoding_error(sub)),
                        Ok(t) => Ok(spans.push(ProseSpanView { anchor: SpanAnchorView::Segments(g), text: t })),
                    }
                }
            },
        }
    }
}

/// The document `parse` builds from a `.docx`.
pub open spec fn docx_document(bytes: Seq<u8>) -> Result<DocumentView, CoreErrorView> {
    match read_part_outcome(bytes, doc_part()) {
        Err(e) => Err(e),
        Ok(xml) => match xml_layout(xml) {
            Err(m) => Err(CoreErrorView::Parse(malformed_message(m))),
            Ok(toks) => match docx_spans(xml, wt_paragraphs(toks)) {
                Err(e) => Err(e),
                Ok(spans) => Ok(
                    DocumentView {
                        source: xml,
                        spans,
                        meta: DocMeta { format: FormatId::Docx, newline: Newline::Lf, had_bom: false },
                        aux: bytes,
                    },
                ),
            },
        },
    }
}



fn copy_ranges(v: &Vec<Range<usize>>) -> (c: Vec<Range<usize>>)
    ensures
        c@ == v@,
{
    let mut c: Vec<Range<usize>> = Vec::new();
    let mut i: usize = 0;
    while i < v.len()
        invariant
            i <= v@.len(),
            c@ == v@.take(i as int),
        decreases v@.len() - i,
    {
        c.push(crate::engine::pipeline::copy_range(&v[i]));
        assert(c@ =~= v@.take(i + 1));
        i = i + 1;
    }
    assert(v@.take(v@.len() as int) =~= v@);
    c
}

/// The span of one run group (bounds checked by the caller).
fn group_span(xml: &Vec<u8>, segs: &Vec<Range<usize>>) -> (r: Result<ProseSpan, CoreError>)
    requires
        forall|j: int| 0 <= j < segs@.len() ==> #[trigger] segs@[j].start < segs@[j].end <= xml@.len(),
    ensures
        match r {
            Ok(sp) => segments_len(segs@) <= usize::MAX && group_text(xml@, segs@) == Ok::<Seq<char>, Seq<u8>>(sp@.text)
                && sp@.anchor == SpanAnchorView::Segments(segs@) && span_faithful(xml@, sp@),
            Err(e) => if segments_len(segs@) > usize::MAX {
                e@ == runs_too_long()
            } else {
                group_text(xml@, segs@) matches Err(sub) && e@ == run_encoding_error(sub)
            },
        },
{
    let mut total: usize = 0;
    let mut j: usize = 0;
    while j < segs.len()
        invariant
            j <= segs@.len(),
            total == segments_len(segs@.take(j as int)),
            forall|k: int| 0 <= k < segs@.len() ==> #[trigger] segs@[k].start < segs@[k].end <= xml@.len(),
        decreases segs@.len() - j,
    {
        proof {
            assert(segs@.take(j + 1) =~= segs@.take(j as int).push(segs@[j as int]));
            lemma_segments_len_push(segs@.take(j as int), segs@[j as int]);
        }
        let w = segs[j].end - segs[j].start;
        if w > usize::MAX - total {
            proof {
                lemma_segments_len_prefix(segs@, j as int + 1);
                assert(segs@.take(segs@.len() as int) =~= segs@);
            }
            return Err(CoreError::Parse(str_to_string("document.xml runs are too long")));
        }
        total = total + w;
        j = j + 1;
    }
    assert(segs@.take(segs@.len() as int) =~= segs@);
    let mut text = String::new();
    let mut j: usize = 0;
    while j < segs.len()
        invariant
            j <= segs@.len(),
            forall|k: int| 0 <= k < segs@.len() ==> #[trigger] segs@[k].start < segs@[k].end <= xml@.len(),
            segments_len(segs@) <= usize::MAX,
            group_text(xml@, segs@.take(j as int)) == Ok::<Seq<char>, Seq<u8>>(text@),
            segments_bytes(xml@, segs@.take(j as int)) == utf8(text@),
        decreases segs@.len() - j,
    {
        let r = &segs[j];
        let sub = vstd::slice::slice_subrange(xml.as_slice(), r.start, r.end);
        proof {
            assert(segs@.take(j + 1) =~= segs@.take(j as int).push(segs@[j as int]));
            assert(segs@.take(j + 1).drop_last() =~= segs@.take(j as int));
            lemma_segments_push(xml@, segs@.take(j as int), segs@[j as int]);
        }
        match decode_utf8_bytes(sub) {
            Ok(t) => {
                let ghost before = text@;
                string_push_str(&mut text, t.as_str());
                proof {
                    decode_utf8_encode_utf8(sub@);
                    lemma_utf8_concat(before, t@);
                }
            },
            Err(m) => {
                proof {
                    lemma_group_text_err_prefix(xml@, segs@, j as int + 1);
                    assert(segs@.take(segs@.len() as int) =~= segs@);
                }
                return Err(CoreError::Encoding(prefixed("document.xml text is not UTF-8: ", m.as_str())));
            },
        }
        j = j + 1;
    }
    assert(segs@.take(segs@.len() as int) =~= segs@);
    Ok(ProseSpan::new(SpanAnchor::Segments(copy_ranges(segs)), text))
}

proof fn lemma_segments_len_prefix(segs: Seq<Range<usize>>, n: int)
    requires
        0 <= n <= segs.len(),
        forall|k: int| 0 <= k < segs.len() ==> #[trigger] segs[k].start <= segs[k].end,
    ensures
        segments_len(segs.take(n)) <= segments_len(segs),
    decreases segs.len() - n,
{
    if n < segs.len() {
        lemma_segments_len_prefix(segs, n + 1);
        assert(segs.take(n + 1) =~= segs.take(n).push(segs[n]));
        lemma_segments_len_push(segs.take(n), segs[n]);
    } else {
        assert(segs.take(n) =~= segs);
    }
}

proof fn lemma_group_text_err_prefix(xml: Seq<u8>, segs: Seq<Range<usize>>, n: int)
    requires
        0 <= n <= segs.len(),
        group_text(xml, segs.take(n)) is Err,
    ensures
        group_text(xml, segs) == group_text(xml, segs.take(n)),
    decreases segs.len() - n,
{
    if n < segs.len() {
        assert(segs.take(n + 1).drop_last() =~= segs.take(n));
        lemma_group_text_err_prefix(xml, segs, n + 1);
    } else {
        assert(segs.take(n) =~= segs);
    }
}

proof fn lemma_docx_spans_err_prefix(xml: Seq<u8>, groups: Seq<Seq<Range<usize>>>, n: int)
    requires
        0 <= n <= groups.len(),
        docx_spans(xml, groups.take(n)) is Err,
    ensures
        docx_spans(xml, groups) == docx_spans(xml, groups.take(n)),
    decreases groups.len() - n,
{
    if n < groups.len() {
        assert(groups.take(n + 1).drop_last() =~= groups.take(n));
        lemma_docx_spans_err_prefix(xml, groups, n + 1);
    } else {
        assert(groups.take(n) =~= groups);
    }
}


// ---------------------------------------------------------------------------------------
// The adapter
// ---------------------------------------------------------------------------------------

/// Edits with their replacements escaped for XML text content.
pub open spec fn escape_edits(edits: Seq<EditView>) -> Seq<EditView> {
    edits.map_values(
        |e: EditView|
            EditView { span_index: e.span_index, range: e.range, replacement: xml_escaped(e.replacement), rule_id: e.rule_id },
    )
}

/// Whether bytes start with the zip signature `PK\x03\x04`.
pub open spec fn is_zip_magic(b: Seq<u8>) -> bool {
    b.len() >= 4 && b[0] == 0x50u8 && b[1] == 0x4Bu8 && b[2] == 3u8 && b[3] == 4u8
}

/// The fingerprint `skeleton` gives: of the package's `document.xml`, or of raw XML.
pub open spec fn docx_fingerprint(bytes: Seq<u8>) -> Result<Seq<char>, CoreErrorView> {
    if is_zip_magic(bytes) {
        match read_part_outcome(bytes, doc_part()) {
            Err(e) => Err(e),
            Ok(xml) => xml_fingerprint(xml),
        }
    } else {
        xml_fingerprint(bytes)
    }
}

impl Format for Docx {
    open spec fn spec_id(&self) -> FormatId {
        FormatId::Docx
    }

    fn id(&self) -> (r: FormatId) {
        FormatId::Docx
    }

    open spec fn doc_ok(&self, doc: Document) -> bool {
        doc@.faithful()
    }

    open spec fn parse_post(&self, bytes: Seq<u8>, r: Result<Document, CoreError>) -> bool {
        outcome_view(r) == docx_document(bytes)
    }

    fn parse(&self, bytes: &[u8]) -> (r: Result<Document, CoreError>) {
        let xml = match read_part(bytes, "word/document.xml") {
            Ok(x) => x,
            Err(e) => {
                proof {
                    reveal_strlit("word/document.xml");
                }
                return Err(e);
            },
        };
        proof {
            reveal_strlit("word/document.xml");
        }
        let toks = match xml_tokens(xml.as_slice()) {
            Ok(t) => t,
            Err(m) => {
                return Err(CoreError::Parse(prefixed("malformed document.xml: ", m.as_str())));
            },
        };
        let ghost tv = xml_toks_view(toks@);
        let xlen = xml.len();
        proof {
            lemma_scan_in_bounds(tv, xml@.len());
        }
        let groups = wt_paragraph_ranges(&toks);
        let ghost gv = groups_view(groups@);
        let mut spans: Vec<ProseSpan> = Vec::new();
        let mut gi: usize = 0;
        proof {
            assert(gv.take(0) =~= Seq::<Seq<Range<usize>>>::empty());
            assert(crate::engine::ir::spans_view(spans@) =~= Seq::<ProseSpanView>::empty());
        }
        while gi < groups.len()
            invariant
                gi <= groups@.len(),
                gv == groups_view(groups@),
                gv == wt_paragraphs(tv),
                read_part_outcome(bytes@, doc_part()) == Ok::<Seq<u8>, CoreErrorView>(xml@),
                xml_layout(xml@) == Ok::<Seq<XmlTokView>, Seq<char>>(tv),
                groups_in_bounds(gv, xml@.len()),
                docx_spans(xml@, gv.take(gi as int)) == Ok::<Seq<ProseSpanView>, CoreErrorView>(crate::engine::ir::spans_view(spans@)),
                forall|k: int| 0 <= k < spans@.len() ==> span_faithful(xml@, #[trigger] spans@[k]@),
            decreases groups@.len() - gi,
        {
            proof {
                assert(gv.take(gi + 1).drop_last() =~= gv.take(gi as int));
                assert(gv.take(gi + 1).last() == groups@[gi as int]@);
                assert forall|j: int| 0 <= j < groups@[gi as int]@.len() implies #[trigger] groups@[gi as int]@[j].start
                    < groups@[gi as int]@[j].end <= xml@.len() by {
                    assert(gv[gi as int] == groups@[gi as int]@);
                }
            }
            let ghost before = crate::engine::ir::spans_view(spans@);
            match group_span(&xml, &groups[gi]) {
                Ok(sp) => {
                    spans.push(sp);
                    proof {
                        assert(crate::engine::ir::spans_view(spans@) =~= before.push(spans@[spans@.len() - 1]@));
                    }
                },
                Err(e) => {
                    proof {
                        assert(docx_spans(xml@, gv.take(gi + 1)) == Err::<Seq<ProseSpanView>, CoreErrorView>(e@));
                        lemma_docx_spans_err_prefix(xml@, gv, gi as int + 1);
                        assert(gv.take(gv.len() as int) =~= gv);
                    }
                    return Err(e);
                },
            }
            gi = gi + 1;
        }
        proof {
            assert(gv.take(gv.len() as int) =~= gv);
        }
        let meta = DocMeta { format: FormatId::Docx, newline: Newline::Lf, had_bom: false };
        let total = xml.len();
        let mut doc = Document::new(xml, spans, meta);
        doc.aux = vstd::slice::slice_to_vec(bytes);
        proof {
            assert(doc@.source.len() == total);
            assert forall|k: int| 0 <= k < doc@.spans.len() implies span_faithful(doc@.source, #[trigger] doc@.spans[k]) by {
                assert(doc@.spans[k] == doc.spans@[k]@);
            }
        }
        Ok(doc)
    }

    /// No edits give back the `.docx` the document was parsed from; otherwise the edited
    /// `document.xml` (replacements XML-escaped) is packed into a rebuilt container.
    open spec fn render_post(&self, doc: Document, edits: Seq<EditView>, r: Result<Vec<u8>, CoreError>) -> bool {
        if edits.len() == 0 {
            r matches Ok(o) && o@ == doc@.aux
        } else {
            match rendered_bytes(doc@, escape_edits(edits)) {
                Err(m) => r matches Err(CoreError::SelfCheck(x)) && x@ == m,
                Ok(x) => rezip_outcome(doc@.aux, x, r),
            }
        }
    }

    fn render(&self, doc: &Document, edits: &EditSet) -> (r: Result<Vec<u8>, CoreError>) {
        if edits.edits.len() == 0 {
            return Ok(vstd::slice::slice_to_vec(doc.aux.as_slice()));
        }
        let ghost ev = edits_view(edits.edits@);
        let mut esc: Vec<Edit> = Vec::new();
        let mut i: usize = 0;
        while i < edits.edits.len()
            invariant
                i <= edits.edits@.len(),
                ev == edits_view(edits.edits@),
                edits_view(esc@) == escape_edits(ev).take(i as int),
            decreases edits.edits@.len() - i,
        {
            let e = &edits.edits[i];
            let ne = Edit {
                span_index: e.span_index,
                range: crate::engine::pipeline::copy_range(&e.range),
                replacement: xml_escape(e.replacement.as_str()),
                rule_id: e.rule_id.clone(),
            };
            assert(ne@ == escape_edits(ev)[i as int]);
            let ghost before = edits_view(esc@);
            esc.push(ne);
            assert(edits_view(esc@) =~= before.push(ne@));
            assert(edits_view(esc@) =~= escape_edits(ev).take(i + 1));
            i = i + 1;
        }
        assert(escape_edits(ev).take(ev.len() as int) =~= escape_edits(ev));
        let escaped = EditSet { edits: esc };
        proof {
            let x = edits_view(escaped.edits@);
            assert forall|k: int| 0 <= k < x.len() implies crate::engine::splice::resolvable_edit(doc@, #[trigger] x[k]) by {
                assert(x[k].range == ev[k].range && x[k].span_index == ev[k].span_index);
                assert(crate::engine::splice::resolvable_edit(doc@, ev[k]));
            }
        }
        let xml = match render_byte_spliced(doc, &escaped) {
            Ok(x) => x,
            Err(e) => {
                return Err(e);
            },
        };
        rezip(doc.aux.as_slice(), xml.as_slice())
    }

    open spec fn skeleton_post(&self, bytes: Seq<u8>, r: Result<String, CoreError>) -> bool {
        outcome_view(r) == docx_fingerprint(bytes)
    }

    fn skeleton(&self, bytes: &[u8]) -> (r: Result<String, CoreError>) {
        let magic = bytes.len() >= 4 && bytes[0] == 0x50u8 && bytes[1] == 0x4Bu8 && bytes[2] == 3u8 && bytes[3] == 4u8;
        if magic {
            proof {
                reveal_strlit("word/document.xml");
            }
            match read_part(bytes, "word/document.xml") {
                Ok(xml) => xml_skeleton(xml.as_slice()),
                Err(e) => Err(e),
            }
        } else {
            xml_skeleton(bytes)
        }
    }
}

/// When no edit survives resolution, cleaning a DOCX gives back the `.docx` it was parsed
/// from, byte for byte, and the report says nothing changed.
pub proof fn lemma_docx_clean_no_edits(
    doc: Document,
    rules: Seq<Box<dyn crate::engine::traits::Rule>>,
    cx: crate::engine::traits::Ctx,
    out: Vec<u8>,
    rep: crate::engine::pipeline::CleanReport,
)
    requires
        doc.meta.format == FormatId::Docx,
        crate::engine::pipeline::clean_post(&Docx, doc, rules, cx, Ok((out, rep))),
        crate::engine::pipeline::resolved_edits(crate::engine::pipeline::all_findings(doc@.spans, rules, cx)).len() == 0,
    ensures
        out@ == doc.aux@,
        !rep.changed,
{
}

}
