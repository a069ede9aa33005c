//! Built-in typographic normalization rules. Deterministic, Unicode-exact, meaning-neutral.

use vstd::prelude::*;
use std::ops::Range;
use crate::engine::ir::{ProseSpan, ProseSpanView};
use crate::engine::level::CleanupLevel;
use crate::engine::traits::{Ctx, Finding, FindingView, Rule, findings_in_bounds, findings_view};
use crate::rules::scan::{
    byte_offset, collect_some, lemma_collect_in_bounds, lemma_collect_some_all, lemma_collect_some_has, lemma_offset_bound, lemma_offset_strict, make_finding,
    text_byte_len,
};
use crate::text::{char_len_utf8, char_width, hex4, push_hex4, str_to_string, string_push_str, string_to_chars, utf8_len};

verus! {

/// The per-character decisions of the scanning rules.
#[derive(Debug, Clone, Copy, PartialEq, Eq, Structural)]
pub enum CharTable {
    /// Zero-width / invisible characters are removed; no-break spaces become spaces.
    Invisibles,
    /// Curly quotes become straight quotes.
    Quotes,
    /// The ellipsis character becomes three dots.
    Ellipsis,
    /// Rare width spaces become a regular space.
    ExoticSpaces,
    /// Bidirectional overrides are removed.
    BidiOverrides,
    /// The other bidirectional controls are flagged, not changed.
    BidiControls,
}

/// Invisible characters with no legitimate use in prose.
pub open spec fn is_invisible(c: char) -> bool {
    c == '\u{200B}' || c == '\u{2060}' || c == '\u{00AD}' || c == '\u{FEFF}' || c == '\u{180E}'
}

/// Rare Unicode width spaces (en quad .. hair space, medium mathematical, ideographic, ogham).
pub open spec fn is_exotic_space(c: char) -> bool {
    ('\u{2000}' <= c <= '\u{200A}') || c == '\u{205F}' || c == '\u{3000}' || c == '\u{1680}'
}

/// Bidirectional override controls (LRO, RLO).
pub open spec fn is_bidi_override(c: char) -> bool {
    c == '\u{202D}' || c == '\u{202E}'
}

/// The other bidirectional formatting controls (LRE, RLE, PDF, LRI, RLI, FSI, PDI, LRM, RLM, ALM).
pub open spec fn is_bidi_control(c: char) -> bool {
    ('\u{202A}' <= c <= '\u{202C}') || ('\u{2066}' <= c <= '\u{2069}') || c == '\u{200E}' || c == '\u{200F}'
        || c == '\u{061C}'
}

/// What a table does to one character: `Some((replacement, message))` (a `None`
/// replacement only flags it) or nothing.
pub open spec fn table_action(t: CharTable, c: char) -> Option<(Option<Seq<char>>, Seq<char>)> {
    match t {
        CharTable::Invisibles => if is_invisible(c) {
            Some((Some(Seq::empty()), "removed invisible character U+"@ + hex4(c as u32 as nat)))
        } else if c == '\u{00A0}' || c == '\u{202F}' {
            Some((Some(" "@), "normalized no-break space"@))
        } else {
            None
        },
        CharTable::Quotes => if c == '\u{201C}' || c == '\u{201D}' {
            Some((Some("\""@), "straightened double quote"@))
        } else if c == '\u{2018}' || c == '\u{2019}' {
            Some((Some("'"@), "straightened single quote / apostrophe"@))
        } else {
            None
        },
        CharTable::Ellipsis => if c == '\u{2026}' {
            Some((Some("..."@), "expanded ellipsis"@))
        } else {
            None
        },
        CharTable::ExoticSpaces => if is_exotic_space(c) {
            Some((Some(" "@), "normalized exotic space U+"@ + hex4(c as u32 as nat)))
        } else {
            None
        },
        CharTable::BidiOverrides => if is_bidi_override(c) {
            Some((Some(Seq::empty()), "removed bidirectional override (Trojan-Source disguise vector)"@))
        } else {
            None
        },
        CharTable::BidiControls => if is_bidi_control(c) {
            Some(
                (
                    None,
                    "bidirectional control U+"@ + hex4(c as u32 as nat)
                        + " (legitimate only in right-to-left text)"@,
                ),
            )
        } else {
            None
        },
    }
}

/// A message made of a prefix and the character's code point as `U+XXXX`.
fn code_point_message(prefix: &str, c: char, suffix: &str) -> (m: String)
    ensures
        m@ == prefix@ + hex4(c as u32 as nat) + suffix@,
{
    let mut msg = String::new();
    string_push_str(&mut msg, prefix);
    push_hex4(&mut msg, c as u32);
    string_push_str(&mut msg, suffix);
    assert(msg@ =~= prefix@ + hex4(c as u32 as nat) + suffix@);
    msg
}

fn table_apply(t: CharTable, c: char) -> (r: Option<(Option<String>, String)>)
    ensures
        match table_action(t, c) {
            Some((rep, msg)) => r matches Some(p) && crate::engine::traits::opt_str_view(p.0) == rep && p.1@ == msg,
            None => r is None,
        },
{
    proof {
        reveal_strlit("");
    }
    match t {
        CharTable::Invisibles => {
            if c == '\u{200B}' || c == '\u{2060}' || c == '\u{00AD}' || c == '\u{FEFF}' || c == '\u{180E}' {
                let msg = code_point_message("removed invisible character U+", c, "");
                assert(msg@ =~= "removed invisible character U+"@ + hex4(c as u32 as nat));
                Some((Some(String::new()), msg))
            } else if c == '\u{00A0}' || c == '\u{202F}' {
                Some((Some(str_to_string(" ")), str_to_string("normalized no-break space")))
            } else {
                None
            }
        },
        CharTable::Quotes => {
            if c == '\u{201C}' || c == '\u{201D}' {
                Some((Some(str_to_string("\"")), str_to_string("straightened double quote")))
            } else if c == '\u{2018}' || c == '\u{2019}' {
                Some((Some(str_to_string("'")), str_to_string("straightened single quote / apostrophe")))
            } else {
                None
            }
        },
        CharTable::Ellipsis => {
            if c == '\u{2026}' {
                Some((Some(str_to_string("...")), str_to_string("expanded ellipsis")))
            } else {
                None
            }
        },
        CharTable::ExoticSpaces => {
            if ('\u{2000}' <= c && c <= '\u{200A}') || c == '\u{205F}' || c == '\u{3000}' || c == '\u{1680}' {
                let msg = code_point_message("normalized exotic space U+", c, "");
                assert(msg@ =~= "normalized exotic space U+"@ + hex4(c as u32 as nat));
                Some((Some(str_to_string(" ")), msg))
            } else {
                None
            }
        },
        CharTable::BidiOverrides => {
            if c == '\u{202D}' || c == '\u{202E}' {
                Some((Some(String::new()), str_to_string("removed bidirectional override (Trojan-Source disguise vector)")))
            } else {
                None
            }
        },
        CharTable::BidiControls => {
            if ('\u{202A}' <= c && c <= '\u{202C}') || ('\u{2066}' <= c && c <= '\u{2069}') || c == '\u{200E}'
                || c == '\u{200F}' || c == '\u{061C}' {
                Some((None, code_point_message("bidirectional control U+", c, " (legitimate only in right-to-left text)")))
            } else {
                None
            }
        },
    }
}

/// The finding a table produces at character `k` of `text`.
pub open spec fn table_finding(rule_id: Seq<char>, idx: usize, text: Seq<char>, t: CharTable) -> spec_fn(int) -> Option<FindingView> {
    |k: int| match table_action(t, text[k]) {
        Some((rep, msg)) => Some(FindingView {
            rule_id,
            span_index: idx,
            range: Range {
                start: byte_offset(text, k) as usize,
                end: (byte_offset(text, k) + char_width(text[k])) as usize,
            },
            message: msg,
            replacement: rep,
        }),
        None => None,
    }
}

/// The findings of a table-driven scan over a whole text.
pub open spec fn scan_spec(rule_id: Seq<char>, idx: usize, text: Seq<char>, t: CharTable) -> Seq<FindingView> {
    collect_some(text.len(), table_finding(rule_id, idx, text, t))
}

/// Table-driven findings lie in the text.
pub proof fn lemma_scan_in_bounds(rule_id: Seq<char>, idx: usize, text: Seq<char>, t: CharTable)
    requires
        utf8_len(text) <= usize::MAX,
    ensures
        findings_in_bounds(scan_spec(rule_id, idx, text, t), idx, text),
{
    let g = table_finding(rule_id, idx, text, t);
    assert forall|k: int| 0 <= k < text.len() && #[trigger] g(k) is Some implies g(k).unwrap().span_index == idx
        && g(k).unwrap().range.start <= g(k).unwrap().range.end <= utf8_len(text) by {
        lemma_offset_bound(text, k);
    }
    lemma_collect_in_bounds(text.len(), g, idx, text);
}

/// Scan a span char-by-char; the table decides, for each character, whether to report a
/// finding with a replacement (`Some("")` deletes the character).
pub fn scan_chars(rule_id: &str, span_index: usize, span: &ProseSpan, table: CharTable) -> (r: Vec<Finding>)
    ensures
        findings_view(r@) == scan_spec(rule_id@, span_index, span.text@, table),
        findings_in_bounds(scan_spec(rule_id@, span_index, span.text@, table), span_index, span.text@),
{
    let ghost text = span.text@;
    let ghost g = table_finding(rule_id@, span_index, text, table);
    let total = text_byte_len(span.text.as_str());
    let cs = string_to_chars(span.text.as_str());
    let mut out: Vec<Finding> = Vec::new();
    let mut off: usize = 0;
    let mut i: usize = 0;
    while i < cs.len()
        invariant
            cs@ == text,
            text == span.text@,
            total == utf8_len(text),
            g == table_finding(rule_id@, span_index, text, table),
            i <= cs@.len(),
            off == byte_offset(text, i as int),
            findings_view(out@) == collect_some(i as nat, g),
        decreases cs@.len() - i,
    {
        let c = cs[i];
        proof {
            lemma_offset_bound(text, i as int);
        }
        let w = char_len_utf8(c);
        let ghost before = findings_view(out@);
        match table_apply(table, c) {
            Some((rep, msg)) => {
                let f = match &rep {
                    Some(rs) => make_finding(rule_id, span_index, off, off + w, msg.as_str(), Some(rs.as_str())),
                    None => make_finding(rule_id, span_index, off, off + w, msg.as_str(), None),
                };
                out.push(f);
                proof {
                    assert(findings_view(out@) =~= before + seq![f@]);
                }
            },
            None => {
                proof {
                    assert(findings_view(out@) =~= before + Seq::<FindingView>::empty());
                }
            },
        }
        off = off + w;
        i = i + 1;
    }
    proof {
        lemma_scan_in_bounds(rule_id@, span_index, text, table);
    }
    out
}

/// Remove zero-width / invisible characters that have no legitimate use in prose.
/// Deliberately conservative: ZWJ/ZWNJ (U+200C/U+200D) are left alone because they are
/// meaningful in Arabic/Indic scripts and emoji sequences. No-break spaces become spaces.
pub struct StripInvisibles;

impl Rule for StripInvisibles {
    open spec fn spec_id(&self) -> Seq<char> {
        "typo.invisibles.strip"@
    }

    fn id(&self) -> (r: &str) {
        "typo.invisibles.strip"
    }

    open spec fn spec_min_level(&self) -> CleanupLevel {
        CleanupLevel::Light
    }

    fn min_level(&self) -> (r: CleanupLevel) {
        CleanupLevel::Light
    }

    open spec fn spec_detect(&self, span_index: usize, span: ProseSpanView, cx: Ctx) -> Seq<FindingView> {
        scan_spec(self.spec_id(), span_index, span.text, CharTable::Invisibles)
    }

    fn detect(&self, span_index: usize, span: &ProseSpan, cx: &Ctx) -> (r: Vec<Finding>) {
        scan_chars(self.id(), span_index, span, CharTable::Invisibles)
    }
}

/// Curly/smart quotes → straight quotes.
pub struct NormalizeQuotes;

impl Rule for NormalizeQuotes {
    open spec fn spec_id(&self) -> Seq<char> {
        "typo.quotes.straighten"@
    }

    fn id(&self) -> (r: &str) {
        "typo.quotes.straighten"
    }

    open spec fn spec_min_level(&self) -> CleanupLevel {
        CleanupLevel::Standard
    }

    fn min_level(&self) -> (r: CleanupLevel) {
        CleanupLevel::Standard
    }

    open spec fn spec_detect(&self, span_index: usize, span: ProseSpanView, cx: Ctx) -> Seq<FindingView> {
        scan_spec(self.spec_id(), span_index, span.text, CharTable::Quotes)
    }

    fn detect(&self, span_index: usize, span: &ProseSpan, cx: &Ctx) -> (r: Vec<Finding>) {
        scan_chars(self.id(), span_index, span, CharTable::Quotes)
    }
}

/// Unicode ellipsis `…` → three ASCII dots.
pub struct NormalizeEllipsis;

impl Rule for NormalizeEllipsis {
    open spec fn spec_id(&self) -> Seq<char> {
        "typo.ellipsis.expand"@
    }

    fn id(&self) -> (r: &str) {
        "typo.ellipsis.expand"
    }

    open spec fn spec_min_level(&self) -> CleanupLevel {
        CleanupLevel::Standard
    }

    fn min_level(&self) -> (r: CleanupLevel) {
        CleanupLevel::Standard
    }

    open spec fn spec_detect(&self, span_index: usize, span: ProseSpanView, cx: Ctx) -> Seq<FindingView> {
        scan_spec(self.spec_id(), span_index, span.text, CharTable::Ellipsis)
    }

    fn detect(&self, span_index: usize, span: &ProseSpan, cx: &Ctx) -> (r: Vec<Finding>) {
        scan_chars(self.id(), span_index, span, CharTable::Ellipsis)
    }
}

}

verus! {

pub open spec fn is_ascii_digit(c: char) -> bool {
    '0' <= c <= '9'
}

/// The em-dash finding at character `k`: a dash between digits (a numeric range) is kept; a
/// spaced dash (" — ", a parenthetical connector) becomes ", " (consuming both spaces); any
/// other dash becomes "--".
pub open spec fn em_dash_finding(rule_id: Seq<char>, idx: usize, text: Seq<char>) -> spec_fn(int) -> Option<FindingView> {
    |k: int| {
        let off = byte_offset(text, k);
        let has_prev = k > 0;
        let has_next = k + 1 < text.len();
        if text[k] != '\u{2014}' {
            None
        } else if has_prev && has_next && is_ascii_digit(text[k - 1]) && is_ascii_digit(text[k + 1]) {
            None
        } else if has_prev && has_next && text[k - 1] == ' ' && text[k + 1] == ' ' {
            Some(FindingView {
                rule_id,
                span_index: idx,
                range: Range { start: (off - 1) as usize, end: (off + 4) as usize },
                message: "replaced spaced em dash with comma"@,
                replacement: Some(", "@),
            })
        } else {
            Some(FindingView {
                rule_id,
                span_index: idx,
                range: Range { start: off as usize, end: (off + 3) as usize },
                message: "replaced em dash with --"@,
                replacement: Some("--"@),
            })
        }
    }
}

/// The findings of the em-dash rule over a whole text.
pub open spec fn em_dash_spec(rule_id: Seq<char>, idx: usize, text: Seq<char>) -> Seq<FindingView> {
    collect_some(text.len(), em_dash_finding(rule_id, idx, text))
}

/// Em dash handling — Aggressive only, and conservative even then: a spaced em dash
/// (" — ", a parenthetical connector) becomes ", "; a tight em dash becomes "--"; a dash
/// between digits (a numeric range) is left untouched.
pub struct NormalizeEmDash;

impl Rule for NormalizeEmDash {
    open spec fn spec_id(&self) -> Seq<char> {
        "typo.em-dash.to-comma"@
    }

    fn id(&self) -> (r: &str) {
        "typo.em-dash.to-comma"
    }

    open spec fn spec_min_level(&self) -> CleanupLevel {
        CleanupLevel::Aggressive
    }

    fn min_level(&self) -> (r: CleanupLevel) {
        CleanupLevel::Aggressive
    }

    open spec fn spec_detect(&self, span_index: usize, span: ProseSpanView, cx: Ctx) -> Seq<FindingView> {
        em_dash_spec(self.spec_id(), span_index, span.text)
    }

    fn detect(&self, span_index: usize, span: &ProseSpan, cx: &Ctx) -> (r: Vec<Finding>) {
        let ghost text = span.text@;
        let ghost rid = self.spec_id();
        let ghost g = em_dash_finding(rid, span_index, text);
        let total = text_byte_len(span.text.as_str());
        let cs = string_to_chars(span.text.as_str());
        let mut out: Vec<Finding> = Vec::new();
        let mut off: usize = 0;
        let mut i: usize = 0;
        while i < cs.len()
            invariant
                cs@ == text,
                text == span.text@,
                total == utf8_len(text),
                rid == "typo.em-dash.to-comma"@,
                g == em_dash_finding(rid, span_index, text),
                i <= cs@.len(),
                off == byte_offset(text, i as int),
                findings_view(out@) == collect_some(i as nat, g),
            decreases cs@.len() - i,
        {
            let c = cs[i];
            proof {
                lemma_offset_bound(text, i as int);
                if i > 0 {
                    lemma_offset_bound(text, i - 1);
                }
                if i + 1 < cs.len() {
                    lemma_offset_bound(text, i + 1);
                }
            }
            let w = char_len_utf8(c);
            let ghost before = findings_view(out@);
            if c == '\u{2014}' {
                let has_prev = i > 0;
                let has_next = i + 1 < cs.len();
                let between_digits = has_prev && has_next && '0' <= cs[i - 1] && cs[i - 1] <= '9'
                    && '0' <= cs[i + 1] && cs[i + 1] <= '9';
                if !between_digits {
                    if has_prev && has_next && cs[i - 1] == ' ' && cs[i + 1] == ' ' {
                        let f = make_finding(
                            self.id(),
                            span_index,
                            off - 1,
                            off + w + 1,
                            "replaced spaced em dash with comma",
                            Some(", "),
                        );
                        out.push(f);
                        proof {
                            assert(findings_view(out@) =~= before + seq![f@]);
                        }
                    } else {
                        let f = make_finding(self.id(), span_index, off, off + w, "replaced em dash with --", Some("--"));
                        out.push(f);
                        proof {
                            assert(findings_view(out@) =~= before + seq![f@]);
                        }
                    }
                } else {
                    assert(findings_view(out@) =~= before + Seq::<FindingView>::empty());
                }
            } else {
                assert(findings_view(out@) =~= before + Seq::<FindingView>::empty());
            }
            off = off + w;
            i = i + 1;
        }
        proof {
            assert forall|k: int| 0 <= k < text.len() && #[trigger] g(k) is Some implies g(k).unwrap().span_index
                == span_index && g(k).unwrap().range.start <= g(k).unwrap().range.end <= utf8_len(text) by {
                lemma_offset_bound(text, k);
                if k > 0 {
                    lemma_offset_bound(text, k - 1);
                }
                if k + 1 < text.len() {
                    lemma_offset_bound(text, k + 1);
                }
            }
            lemma_collect_in_bounds(text.len(), g, span_index, text);
        }
        out
    }
}

/// The invisibles rule turns every no-break space of a span (U+00A0 and U+202F) into one
/// ASCII space: it reports a finding over exactly that character's bytes, replaced by `" "`.
pub proof fn lemma_no_break_space_normalized(span_index: usize, span: ProseSpanView, cx: Ctx, k: int)
    requires
        utf8_len(span.text) <= usize::MAX,
        0 <= k < span.text.len(),
        span.text[k] == '\u{00A0}' || span.text[k] == '\u{202F}',
    ensures
        exists|j: int|
            #![trigger StripInvisibles.spec_detect(span_index, span, cx)[j]]
            0 <= j < StripInvisibles.spec_detect(span_index, span, cx).len() && {
                let f = StripInvisibles.spec_detect(span_index, span, cx)[j];
                &&& f.span_index == span_index
                &&& f.range.start == utf8_len(span.text.take(k))
                &&& f.range.end == utf8_len(span.text.take(k + 1))
                &&& f.replacement == Some(seq![' '])
            },
{
    let text = span.text;
    let g = table_finding(StripInvisibles.spec_id(), span_index, text, CharTable::Invisibles);
    reveal_strlit(" ");
    assert(" "@ =~= seq![' ']);
    assert(g(k) is Some);
    lemma_offset_bound(text, k);
    lemma_collect_some_has(text.len(), g, k);
    let fs = StripInvisibles.spec_detect(span_index, span, cx);
    assert(fs == collect_some(text.len(), g));
    let j = choose|j: int| 0 <= j < fs.len() && #[trigger] fs[j] == g(k).unwrap();
    assert(fs[j].range.start == utf8_len(text.take(k)));
    assert(fs[j].range.end == utf8_len(text.take(k + 1)));
}

/// A character the table acts on gets its finding, over exactly that character's bytes.
pub proof fn lemma_scan_finds(rule_id: Seq<char>, idx: usize, text: Seq<char>, t: CharTable, k: int)
    requires
        utf8_len(text) <= usize::MAX,
        0 <= k < text.len(),
        table_action(t, text[k]) is Some,
    ensures
        exists|j: int|
            #![trigger scan_spec(rule_id, idx, text, t)[j]]
            0 <= j < scan_spec(rule_id, idx, text, t).len() && {
                let f = scan_spec(rule_id, idx, text, t)[j];
                &&& f.span_index == idx
                &&& f.range.start == utf8_len(text.take(k))
                &&& f.range.end == utf8_len(text.take(k + 1))
                &&& f.replacement == table_action(t, text[k])->Some_0.0
            },
{
    let g = table_finding(rule_id, idx, text, t);
    lemma_offset_bound(text, k);
    lemma_collect_some_has(text.len(), g, k);
    let fs = scan_spec(rule_id, idx, text, t);
    let j = choose|j: int| 0 <= j < fs.len() && #[trigger] fs[j] == g(k).unwrap();
    assert(fs[j].range.start == utf8_len(text.take(k)));
    assert(fs[j].range.end == utf8_len(text.take(k + 1)));
}

/// Every finding of a table scan sits on one character the table acts on, over exactly that
/// character's bytes, with the table's replacement.
pub proof fn lemma_scan_only(rule_id: Seq<char>, idx: usize, text: Seq<char>, t: CharTable)
    requires
        utf8_len(text) <= usize::MAX,
    ensures
        forall|j: int|
            #![trigger scan_spec(rule_id, idx, text, t)[j]]
            0 <= j < scan_spec(rule_id, idx, text, t).len() ==> exists|k: int|
                0 <= k < text.len() && #[trigger] table_action(t, text[k]) is Some && {
                    let f = scan_spec(rule_id, idx, text, t)[j];
                    &&& f.range.start == utf8_len(text.take(k))
                    &&& f.range.end == utf8_len(text.take(k + 1))
                    &&& f.replacement == table_action(t, text[k])->Some_0.0
                },
{
    let g = table_finding(rule_id, idx, text, t);
    let p = |f: FindingView| exists|k: int|
        0 <= k < text.len() && #[trigger] table_action(t, text[k]) is Some && {
            &&& f.range.start == utf8_len(text.take(k))
            &&& f.range.end == utf8_len(text.take(k + 1))
            &&& f.replacement == table_action(t, text[k])->Some_0.0
        };
    assert forall|k: int| 0 <= k < text.len() && #[trigger] g(k) is Some implies p(g(k).unwrap()) by {
        lemma_offset_bound(text, k);
        assert(table_action(t, text[k]) is Some);
    }
    lemma_collect_some_all(text.len(), g, p);
    let fs = scan_spec(rule_id, idx, text, t);
    assert forall|j: int| 0 <= j < fs.len() implies p(#[trigger] fs[j]) by {
    }
}

/// The invisibles rule deletes every zero-width or invisible character of a span (U+200B, U+2060,
/// U+00AD, U+FEFF, U+180E): a finding over exactly its bytes with an empty replacement.
pub proof fn lemma_invisible_removed(span_index: usize, span: ProseSpanView, cx: Ctx, k: int)
    requires
        utf8_len(span.text) <= usize::MAX,
        0 <= k < span.text.len(),
        span.text[k] == '\u{200B}' || span.text[k] == '\u{2060}' || span.text[k] == '\u{00AD}' || span.text[k] == '\u{FEFF}' || span.text[k] == '\u{180E}',
    ensures
        exists|j: int|
            #![trigger StripInvisibles.spec_detect(span_index, span, cx)[j]]
            0 <= j < StripInvisibles.spec_detect(span_index, span, cx).len() && {
                let f = StripInvisibles.spec_detect(span_index, span, cx)[j];
                &&& f.span_index == span_index
                &&& f.range.start == utf8_len(span.text.take(k))
                &&& f.range.end == utf8_len(span.text.take(k + 1))
                &&& f.replacement == Some(Seq::<char>::empty())
            },
{
    reveal_strlit("");
    let fs = StripInvisibles.spec_detect(span_index, span, cx);
    assert(fs == scan_spec(StripInvisibles.spec_id(), span_index, span.text, CharTable::Invisibles));
    lemma_scan_finds(StripInvisibles.spec_id(), span_index, span.text, CharTable::Invisibles, k);
    let rep = table_action(CharTable::Invisibles, span.text[k])->Some_0.0;
    assert(rep matches Some(x) ==> x =~= rep->Some_0);
    let j = choose|j: int| 0 <= j < fs.len() && {
        let f = #[trigger] fs[j];
        &&& f.span_index == span_index
        &&& f.range.start == utf8_len(span.text.take(k))
        &&& f.range.end == utf8_len(span.text.take(k + 1))
        &&& f.replacement == rep
    };
}

/// The invisibles rule touches nothing else: each of its findings sits on one invisible
/// character (deleted) or no-break space (made a space), over exactly that character's bytes.
pub proof fn lemma_invisibles_touch_only_their_characters(span_index: usize, span: ProseSpanView, cx: Ctx)
    requires
        utf8_len(span.text) <= usize::MAX,
    ensures
        forall|j: int|
            #![trigger StripInvisibles.spec_detect(span_index, span, cx)[j]]
            0 <= j < StripInvisibles.spec_detect(span_index, span, cx).len() ==> exists|k: int|
                0 <= k < span.text.len() && {
                    let f = StripInvisibles.spec_detect(span_index, span, cx)[j];
                    let c = #[trigger] span.text[k];
                    &&& f.range.start == utf8_len(span.text.take(k))
                    &&& f.range.end == utf8_len(span.text.take(k + 1))
                    &&& ((c == '\u{200B}' || c == '\u{2060}' || c == '\u{00AD}' || c == '\u{FEFF}' || c == '\u{180E}') && f.replacement == Some(Seq::<char>::empty())) || ((c == '\u{00A0}' || c == '\u{202F}') && f.replacement == Some(seq![' ']))
                },
{
    reveal_strlit("");
    reveal_strlit(" ");
    let fs = StripInvisibles.spec_detect(span_index, span, cx);
    lemma_scan_only(StripInvisibles.spec_id(), span_index, span.text, CharTable::Invisibles);
    assert forall|j: int| #![trigger fs[j]] 0 <= j < fs.len() implies exists|k: int|
        0 <= k < span.text.len() && {
            let f = fs[j];
            let c = #[trigger] span.text[k];
            &&& f.range.start == utf8_len(span.text.take(k))
            &&& f.range.end == utf8_len(span.text.take(k + 1))
            &&& ((c == '\u{200B}' || c == '\u{2060}' || c == '\u{00AD}' || c == '\u{FEFF}' || c == '\u{180E}') && f.replacement == Some(Seq::<char>::empty())) || ((c == '\u{00A0}' || c == '\u{202F}') && f.replacement == Some(seq![' ']))
        } by {
        let k = choose|k: int|
            0 <= k < span.text.len() && #[trigger] table_action(CharTable::Invisibles, span.text[k]) is Some && {
                let f = fs[j];
                &&& f.range.start == utf8_len(span.text.take(k))
                &&& f.range.end == utf8_len(span.text.take(k + 1))
                &&& f.replacement == table_action(CharTable::Invisibles, span.text[k])->Some_0.0
            };
        assert(span.text[k] == span.text[k]);
    }
}

/// The quotes rule turns every curly double quote (U+201C, U+201D) into `"`.
pub proof fn lemma_double_quote_straightened(span_index: usize, span: ProseSpanView, cx: Ctx, k: int)
    requires
        utf8_len(span.text) <= usize::MAX,
        0 <= k < span.text.len(),
        span.text[k] == '\u{201C}' || span.text[k] == '\u{201D}',
    ensures
        exists|j: int|
            #![trigger NormalizeQuotes.spec_detect(span_index, span, cx)[j]]
            0 <= j < NormalizeQuotes.spec_detect(span_index, span, cx).len() && {
                let f = NormalizeQuotes.spec_detect(span_index, span, cx)[j];
                &&& f.span_index == span_index
                &&& f.range.start == utf8_len(span.text.take(k))
                &&& f.range.end == utf8_len(span.text.take(k + 1))
                &&& f.replacement == Some(seq!['"'])
            },
{
    reveal_strlit("\"");
    reveal_strlit("'");
    let fs = NormalizeQuotes.spec_detect(span_index, span, cx);
    assert(fs == scan_spec(NormalizeQuotes.spec_id(), span_index, span.text, CharTable::Quotes));
    lemma_scan_finds(NormalizeQuotes.spec_id(), span_index, span.text, CharTable::Quotes, k);
    let rep = table_action(CharTable::Quotes, span.text[k])->Some_0.0;
    assert(rep matches Some(x) ==> x =~= rep->Some_0);
    let j = choose|j: int| 0 <= j < fs.len() && {
        let f = #[trigger] fs[j];
        &&& f.span_index == span_index
        &&& f.range.start == utf8_len(span.text.take(k))
        &&& f.range.end == utf8_len(span.text.take(k + 1))
        &&& f.replacement == rep
    };
}

/// The quotes rule turns every curly single quote or apostrophe (U+2018, U+2019) into `'`.
pub proof fn lemma_single_quote_straightened(span_index: usize, span: ProseSpanView, cx: Ctx, k: int)
    requires
        utf8_len(span.text) <= usize::MAX,
        0 <= k < span.text.len(),
        span.text[k] == '\u{2018}' || span.text[k] == '\u{2019}',
    ensures
        exists|j: int|
            #![trigger NormalizeQuotes.spec_detect(span_index, span, cx)[j]]
            0 <= j < NormalizeQuotes.spec_detect(span_index, span, cx).len() && {
                let f = NormalizeQuotes.spec_detect(span_index, span, cx)[j];
                &&& f.span_index == span_index
                &&& f.range.start == utf8_len(span.text.take(k))
                &&& f.range.end == utf8_len(span.text.take(k + 1))
                &&& f.replacement == Some(seq!['\''])
            },
{
    reveal_strlit("\"");
    reveal_strlit("'");
    let fs = NormalizeQuotes.spec_detect(span_index, span, cx);
    assert(fs == scan_spec(NormalizeQuotes.spec_id(), span_index, span.text, CharTable::Quotes));
    lemma_scan_finds(NormalizeQuotes.spec_id(), span_index, span.text, CharTable::Quotes, k);
    let rep = table_action(CharTable::Quotes, span.text[k])->Some_0.0;
    assert(rep matches Some(x) ==> x =~= rep->Some_0);
    let j = choose|j: int| 0 <= j < fs.len() && {
        let f = #[trigger] fs[j];
        &&& f.span_index == span_index
        &&& f.range.start == utf8_len(span.text.take(k))
        &&& f.range.end == utf8_len(span.text.take(k + 1))
        &&& f.replacement == rep
    };
}

/// The quotes rule touches nothing but curly quotes, each over exactly its bytes.
pub proof fn lemma_quotes_touch_only_curly_quotes(span_index: usize, span: ProseSpanView, cx: Ctx)
    requires
        utf8_len(span.text) <= usize::MAX,
    ensures
        forall|j: int|
            #![trigger NormalizeQuotes.spec_detect(span_index, span, cx)[j]]
            0 <= j < NormalizeQuotes.spec_detect(span_index, span, cx).len() ==> exists|k: int|
                0 <= k < span.text.len() && {
                    let f = NormalizeQuotes.spec_detect(span_index, span, cx)[j];
                    let c = #[trigger] span.text[k];
                    &&& f.range.start == utf8_len(span.text.take(k))
                    &&& f.range.end == utf8_len(span.text.take(k + 1))
                    &&& ((c == '\u{201C}' || c == '\u{201D}') && f.replacement == Some(seq!['"'])) || ((c == '\u{2018}' || c == '\u{2019}') && f.replacement == Some(seq!['\'']))
                },
{
    reveal_strlit("\"");
    reveal_strlit("'");
    let fs = NormalizeQuotes.spec_detect(span_index, span, cx);
    lemma_scan_only(NormalizeQuotes.spec_id(), span_index, span.text, CharTable::Quotes);
    assert forall|j: int| #![trigger fs[j]] 0 <= j < fs.len() implies exists|k: int|
        0 <= k < span.text.len() && {
            let f = fs[j];
            let c = #[trigger] span.text[k];
            &&& f.range.start == utf8_len(span.text.take(k))
            &&& f.range.end == utf8_len(span.text.take(k + 1))
            &&& ((c == '\u{201C}' || c == '\u{201D}') && f.replacement == Some(seq!['"'])) || ((c == '\u{2018}' || c == '\u{2019}') && f.replacement == Some(seq!['\'']))
        } by {
        let k = choose|k: int|
            0 <= k < span.text.len() && #[trigger] table_action(CharTable::Quotes, span.text[k]) is Some && {
                let f = fs[j];
                &&& f.range.start == utf8_len(span.text.take(k))
                &&& f.range.end == utf8_len(span.text.take(k + 1))
                &&& f.replacement == table_action(CharTable::Quotes, span.text[k])->Some_0.0
            };
        assert(span.text[k] == span.text[k]);
    }
}

/// The ellipsis rule turns every U+2026 into three ASCII dots.
pub proof fn lemma_ellipsis_expanded(span_index: usize, span: ProseSpanView, cx: Ctx, k: int)
    requires
        utf8_len(span.text) <= usize::MAX,
        0 <= k < span.text.len(),
        span.text[k] == '\u{2026}',
    ensures
        exists|j: int|
            #![trigger NormalizeEllipsis.spec_detect(span_index, span, cx)[j]]
            0 <= j < NormalizeEllipsis.spec_detect(span_index, span, cx).len() && {
                let f = NormalizeEllipsis.spec_detect(span_index, span, cx)[j];
                &&& f.span_index == span_index
                &&& f.range.start == utf8_len(span.text.take(k))
                &&& f.range.end == utf8_len(span.text.take(k + 1))
                &&& f.replacement == Some(seq!['.', '.', '.'])
            },
{
    reveal_strlit("...");
    let fs = NormalizeEllipsis.spec_detect(span_index, span, cx);
    assert(fs == scan_spec(NormalizeEllipsis.spec_id(), span_index, span.text, CharTable::Ellipsis));
    lemma_scan_finds(NormalizeEllipsis.spec_id(), span_index, span.text, CharTable::Ellipsis, k);
    let rep = table_action(CharTable::Ellipsis, span.text[k])->Some_0.0;
    assert(rep matches Some(x) ==> x =~= rep->Some_0);
    let j = choose|j: int| 0 <= j < fs.len() && {
        let f = #[trigger] fs[j];
        &&& f.span_index == span_index
        &&& f.range.start == utf8_len(span.text.take(k))
        &&& f.range.end == utf8_len(span.text.take(k + 1))
        &&& f.replacement == rep
    };
}

/// The ellipsis rule touches nothing but U+2026 characters, each over exactly its bytes.
pub proof fn lemma_ellipsis_touches_only_ellipses(span_index: usize, span: ProseSpanView, cx: Ctx)
    requires
        utf8_len(span.text) <= usize::MAX,
    ensures
        forall|j: int|
            #![trigger NormalizeEllipsis.spec_detect(span_index, span, cx)[j]]
            0 <= j < NormalizeEllipsis.spec_detect(span_index, span, cx).len() ==> exists|k: int|
                0 <= k < span.text.len() && {
                    let f = NormalizeEllipsis.spec_detect(span_index, span, cx)[j];
                    let c = #[trigger] span.text[k];
                    &&& f.range.start == utf8_len(span.text.take(k))
                    &&& f.range.end == utf8_len(span.text.take(k + 1))
                    &&& ((c == '\u{2026}') && f.replacement == Some(seq!['.', '.', '.']))
                },
{
    reveal_strlit("...");
    let fs = NormalizeEllipsis.spec_detect(span_index, span, cx);
    lemma_scan_only(NormalizeEllipsis.spec_id(), span_index, span.text, CharTable::Ellipsis);
    assert forall|j: int| #![trigger fs[j]] 0 <= j < fs.len() implies exists|k: int|
        0 <= k < span.text.len() && {
            let f = fs[j];
            let c = #[trigger] span.text[k];
            &&& f.range.start == utf8_len(span.text.take(k))
            &&& f.range.end == utf8_len(span.text.take(k + 1))
            &&& ((c == '\u{2026}') && f.replacement == Some(seq!['.', '.', '.']))
        } by {
        let k = choose|k: int|
            0 <= k < span.text.len() && #[trigger] table_action(CharTable::Ellipsis, span.text[k]) is Some && {
                let f = fs[j];
                &&& f.range.start == utf8_len(span.text.take(k))
                &&& f.range.end == utf8_len(span.text.take(k + 1))
                &&& f.replacement == table_action(CharTable::Ellipsis, span.text[k])->Some_0.0
            };
        assert(span.text[k] == span.text[k]);
    }
}

proof fn lemma_dash_and_space_widths()
    ensures
        char_width('\u{2014}') == 3,
        char_width(' ') == 1,
{
    assert(char_width('\u{2014}') == 3);
    assert(char_width(' ') == 1);
}

/// A spaced em dash (" — ") becomes ", ": the em-dash rule reports a finding over the dash and
/// both spaces, replaced by a comma and a space.
pub proof fn lemma_spaced_em_dash_to_comma(span_index: usize, span: ProseSpanView, cx: Ctx, k: int)
    requires
        utf8_len(span.text) <= usize::MAX,
        0 < k,
        k + 1 < span.text.len(),
        span.text[k] == '\u{2014}',
        span.text[k - 1] == ' ',
        span.text[k + 1] == ' ',
    ensures
        exists|j: int|
            #![trigger NormalizeEmDash.spec_detect(span_index, span, cx)[j]]
            0 <= j < NormalizeEmDash.spec_detect(span_index, span, cx).len() && {
                let f = NormalizeEmDash.spec_detect(span_index, span, cx)[j];
                &&& f.range.start == utf8_len(span.text.take(k - 1))
                &&& f.range.end == utf8_len(span.text.take(k + 2))
                &&& f.replacement == Some(seq![',', ' '])
            },
{
    let text = span.text;
    let g = em_dash_finding(NormalizeEmDash.spec_id(), span_index, text);
    lemma_dash_and_space_widths();
    lemma_offset_bound(text, k - 1);
    lemma_offset_bound(text, k);
    lemma_offset_bound(text, k + 1);
    reveal_strlit(", ");
    assert(", "@ =~= seq![',', ' ']);
    assert(g(k) is Some);
    lemma_collect_some_has(text.len(), g, k);
    let fs = NormalizeEmDash.spec_detect(span_index, span, cx);
    assert(fs == collect_some(text.len(), g));
    let j = choose|j: int| 0 <= j < fs.len() && #[trigger] fs[j] == g(k).unwrap();
    assert(fs[j].range.start == utf8_len(text.take(k - 1)));
    assert(fs[j].range.end == utf8_len(text.take(k + 2)));
}

/// An em dash between two digits (a numeric range such as 1914—1918) is left alone: no finding
/// of the em-dash rule overlaps its bytes.
pub proof fn lemma_numeric_range_dash_kept(span_index: usize, span: ProseSpanView, cx: Ctx, k: int)
    requires
        utf8_len(span.text) <= usize::MAX,
        0 < k,
        k + 1 < span.text.len(),
        span.text[k] == '\u{2014}',
        '0' <= span.text[k - 1] <= '9',
        '0' <= span.text[k + 1] <= '9',
    ensures
        forall|j: int|
            0 <= j < NormalizeEmDash.spec_detect(span_index, span, cx).len() ==> {
                let f = #[trigger] NormalizeEmDash.spec_detect(span_index, span, cx)[j];
                f.range.end <= utf8_len(span.text.take(k)) || f.range.start >= utf8_len(span.text.take(k + 1))
            },
{
    let text = span.text;
    let g = em_dash_finding(NormalizeEmDash.spec_id(), span_index, text);
    let lo = utf8_len(text.take(k));
    let hi = utf8_len(text.take(k + 1));
    let p = |f: FindingView| f.range.end <= lo || f.range.start >= hi;
    lemma_dash_and_space_widths();
    assert forall|m: int| 0 <= m < text.len() && #[trigger] g(m) is Some implies p(g(m).unwrap()) by {
        assert(text[m] == '\u{2014}');
        assert(m != k && m != k - 1 && m != k + 1);
        lemma_offset_bound(text, m);
        let spaced = m > 0 && m + 1 < text.len() && text[m - 1] == ' ' && text[m + 1] == ' ';
        if m < k {
            if spaced {
                lemma_offset_bound(text, m - 1);
                lemma_offset_bound(text, m + 1);
                if m + 2 < k {
                    lemma_offset_strict(text, m + 2, k);
                }
            } else {
                if m + 1 < k {
                    lemma_offset_strict(text, m + 1, k);
                }
            }
        } else {
            lemma_offset_bound(text, k);
            if spaced {
                lemma_offset_bound(text, m - 1);
                if k + 1 < m - 1 {
                    lemma_offset_strict(text, k + 1, m - 1);
                }
            } else {
                lemma_offset_strict(text, k + 1, m);
            }
        }
    }
    lemma_collect_some_all(text.len(), g, p);
    let fs = NormalizeEmDash.spec_detect(span_index, span, cx);
    assert(fs == collect_some(text.len(), g));
    assert forall|j: int| 0 <= j < fs.len() implies {
        let f = #[trigger] fs[j];
        f.range.end <= lo || f.range.start >= hi
    } by {
        assert(p(fs[j]));
    }
}

}
