//! Hidden / less-obvious LLM fingerprints: invisible "smuggling" characters, exotic spaces,
//! and bidirectional controls.
//!
//! - Variation selectors (`U+FE00..=U+FE0F`, `U+E0100..=U+E01EF`) and Unicode tag characters
//!   (`U+E0000..=U+E007F`) are invisible data/watermark smuggling vectors.
//! - Bidirectional overrides (`U+202D`/`U+202E`) are the "Trojan Source" text-disguise vector.
//!
//! Statistical token watermarks live in word choice, not in characters, and are out of scope.

use vstd::prelude::*;
use std::ops::Range;
use crate::engine::ir::{ProseSpan, ProseSpanView};
use crate::engine::level::CleanupLevel;
use crate::engine::traits::{Ctx, Finding, FindingView, Rule, findings_view};
use crate::rules::scan::{
    byte_offset, collect_some, lemma_collect_in_bounds, lemma_collect_some_all, lemma_collect_some_has, lemma_offset_bound, lemma_offset_strict,
    make_finding, text_byte_len,
};
use crate::rules::typographic::{CharTable, lemma_scan_finds, lemma_scan_only, scan_chars, scan_spec, table_action};
use crate::text::{char_len_utf8, char_width, string_to_chars, utf8_len};

verus! {

/// Unicode tag characters (always invisible).
pub open spec fn spec_is_tag_char(c: char) -> bool {
    '\u{E0000}' <= c <= '\u{E007F}'
}

/// Variation selectors.
pub open spec fn spec_is_variation_selector(c: char) -> bool {
    ('\u{FE00}' <= c <= '\u{FE0F}') || ('\u{E0100}' <= c <= '\u{E01EF}')
}

fn is_tag_char(c: char) -> (b: bool)
    ensures
        b == spec_is_tag_char(c),
{
    '\u{E0000}' <= c && c <= '\u{E007F}'
}

fn is_variation_selector(c: char) -> (b: bool)
    ensures
        b == spec_is_variation_selector(c),
{
    ('\u{FE00}' <= c && c <= '\u{FE0F}') || ('\u{E0100}' <= c && c <= '\u{E01EF}')
}

/// A finding that deletes the character `ch` found at byte `at`.
fn strip_finding(rule_id: &str, idx: usize, at: usize, ch: char, msg: &str) -> (f: Finding)
    requires
        at + char_width(ch) <= usize::MAX,
    ensures
        f@ == (FindingView {
            rule_id: rule_id@,
            span_index: idx,
            range: Range { start: at, end: (at + char_width(ch)) as usize },
            message: msg@,
            replacement: Some(Seq::empty()),
        }),
{
    proof {
        reveal_strlit("");
        assert(""@ =~= Seq::<char>::empty());
    }
    make_finding(rule_id, idx, at, at + char_len_utf8(ch), msg, Some(""))
}

/// The smuggling finding at character `k`: every tag character; every variation selector
/// except one that styles a real emoji/symbol/CJK base (base `>= U+2190`, itself not a
/// selector) and the `U+FE0F` of a keycap sequence (followed by `U+20E3`).
pub open spec fn smuggled_finding(rule_id: Seq<char>, idx: usize, text: Seq<char>) -> spec_fn(int) -> Option<FindingView> {
    |k: int| {
        let c = text[k];
        let off = byte_offset(text, k);
        let strip = |msg: Seq<char>| FindingView {
            rule_id,
            span_index: idx,
            range: Range { start: off as usize, end: (off + char_width(c)) as usize },
            message: msg,
            replacement: Some(Seq::empty()),
        };
        if spec_is_tag_char(c) {
            Some(strip("removed invisible Unicode tag character (data/instruction smuggling vector)"@))
        } else if spec_is_variation_selector(c) {
            let keycap = c == '\u{FE0F}' && k + 1 < text.len() && text[k + 1] == '\u{20E3}';
            let legit_base = k > 0 && (text[k - 1] as u32) >= 0x2190 && !spec_is_variation_selector(text[k - 1]);
            if !keycap && !legit_base {
                Some(strip("removed smuggled variation selector (hidden-data vector)"@))
            } else {
                None
            }
        } else {
            None
        }
    }
}

/// The findings of the smuggled-character rule over a whole text.
pub open spec fn smuggled_spec(rule_id: Seq<char>, idx: usize, text: Seq<char>) -> Seq<FindingView> {
    collect_some(text.len(), smuggled_finding(rule_id, idx, text))
}

/// Strip invisible "smuggling" characters: Unicode tag characters (always invisible, used to
/// hide instructions/data) and variation selectors that are NOT styling a real emoji/symbol.
pub struct StripSmuggledChars;

impl Rule for StripSmuggledChars {
    open spec fn spec_id(&self) -> Seq<char> {
        "unicode.smuggled.strip"@
    }

    fn id(&self) -> (r: &str) {
        "unicode.smuggled.strip"
    }

    open spec fn spec_min_level(&self) -> CleanupLevel {
        CleanupLevel::Light
    }

    fn min_level(&self) -> (r: CleanupLevel) {
        CleanupLevel::Light
    }

    open spec fn spec_detect(&self, span_index: usize, span: ProseSpanView, cx: Ctx) -> Seq<FindingView> {
        smuggled_spec(self.spec_id(), span_index, span.text)
    }

    fn detect(&self, span_index: usize, span: &ProseSpan, cx: &Ctx) -> (r: Vec<Finding>) {
        let ghost text = span.text@;
        let ghost rid = self.spec_id();
        let ghost g = smuggled_finding(rid, span_index, text);
        let total = text_byte_len(span.text.as_str());
        let chars = string_to_chars(span.text.as_str());
        let mut out: Vec<Finding> = Vec::new();
        let mut off: usize = 0;
        let mut k: usize = 0;
        while k < chars.len()
            invariant
                chars@ == text,
                text == span.text@,
                total == utf8_len(text),
                rid == "unicode.smuggled.strip"@,
                g == smuggled_finding(rid, span_index, text),
                k <= chars@.len(),
                off == byte_offset(text, k as int),
                findings_view(out@) == collect_some(k as nat, g),
            decreases chars@.len() - k,
        {
            let ch = chars[k];
            proof {
                lemma_offset_bound(text, k as int);
            }
            let ghost before = findings_view(out@);
            if is_tag_char(ch) {
                let f = strip_finding(
                    self.id(),
                    span_index,
                    off,
                    ch,
                    "removed invisible Unicode tag character (data/instruction smuggling vector)",
                );
                out.push(f);
                assert(findings_view(out@) =~= before + seq![f@]);
            } else if is_variation_selector(ch) {
                let has_prev = k > 0;
                let keycap = ch == '\u{FE0F}' && k + 1 < chars.len() && chars[k + 1] == '\u{20E3}';
                let legit_base = has_prev && (chars[k - 1] as u32) >= 0x2190 && !is_variation_selector(chars[k - 1]);
                if !keycap && !legit_base {
                    let f = strip_finding(
                        self.id(),
                        span_index,
                        off,
                        ch,
                        "removed smuggled variation selector (hidden-data vector)",
                    );
                    out.push(f);
                    assert(findings_view(out@) =~= before + seq![f@]);
                } else {
                    assert(findings_view(out@) =~= before + Seq::<FindingView>::empty());
                }
            } else {
                assert(findings_view(out@) =~= before + Seq::<FindingView>::empty());
            }
            off = off + char_len_utf8(ch);
            k = k + 1;
        }
        proof {
            assert forall|j: int| 0 <= j < text.len() && #[trigger] g(j) is Some implies g(j).unwrap().span_index
                == span_index && g(j).unwrap().range.start <= g(j).unwrap().range.end <= utf8_len(text) by {
                lemma_offset_bound(text, j);
            }
            lemma_collect_in_bounds(text.len(), g, span_index, text);
        }
        out
    }
}

/// Normalize "exotic" Unicode spaces to a regular ASCII space. The common no-break and narrow
/// no-break spaces are handled at `light` by `StripInvisibles`; these rarer width spaces are
/// normalized at `standard`.
pub struct NormalizeExoticSpaces;

impl Rule for NormalizeExoticSpaces {
    open spec fn spec_id(&self) -> Seq<char> {
        "unicode.spaces.normalize"@
    }

    fn id(&self) -> (r: &str) {
        "unicode.spaces.normalize"
    }

    open spec fn spec_min_level(&self) -> CleanupLevel {
        CleanupLevel::Standard
    }

    fn min_level(&self) -> (r: CleanupLevel) {
        CleanupLevel::Standard
    }

    open spec fn spec_detect(&self, span_index: usize, span: ProseSpanView, cx: Ctx) -> Seq<FindingView> {
        scan_spec(self.spec_id(), span_index, span.text, CharTable::ExoticSpaces)
    }

    fn detect(&self, span_index: usize, span: &ProseSpan, cx: &Ctx) -> (r: Vec<Finding>) {
        scan_chars(self.id(), span_index, span, CharTable::ExoticSpaces)
    }
}

/// Strip bidirectional *override* controls (LRO `U+202D`, RLO `U+202E`). These have essentially
/// no legitimate use in prose and are the classic "Trojan Source" disguise vector.
pub struct StripBidiOverrides;

impl Rule for StripBidiOverrides {
    open spec fn spec_id(&self) -> Seq<char> {
        "unicode.bidi.strip-overrides"@
    }

    fn id(&self) -> (r: &str) {
        "unicode.bidi.strip-overrides"
    }

    open spec fn spec_min_level(&self) -> CleanupLevel {
        CleanupLevel::Standard
    }

    fn min_level(&self) -> (r: CleanupLevel) {
        CleanupLevel::Standard
    }

    open spec fn spec_detect(&self, span_index: usize, span: ProseSpanView, cx: Ctx) -> Seq<FindingView> {
        scan_spec(self.spec_id(), span_index, span.text, CharTable::BidiOverrides)
    }

    fn detect(&self, span_index: usize, span: &ProseSpan, cx: &Ctx) -> (r: Vec<Finding>) {
        scan_chars(self.id(), span_index, span, CharTable::BidiOverrides)
    }
}

/// Flag the remaining bidirectional formatting controls. Flag-only (not stripped) because they
/// can be legitimate in right-to-left text.
pub struct FlagBidiControls;

impl Rule for FlagBidiControls {
    open spec fn spec_id(&self) -> Seq<char> {
        "unicode.bidi.flag"@
    }

    fn id(&self) -> (r: &str) {
        "unicode.bidi.flag"
    }

    open spec fn spec_min_level(&self) -> CleanupLevel {
        CleanupLevel::Aggressive
    }

    fn min_level(&self) -> (r: CleanupLevel) {
        CleanupLevel::Aggressive
    }

    open spec fn spec_detect(&self, span_index: usize, span: ProseSpanView, cx: Ctx) -> Seq<FindingView> {
        scan_spec(self.spec_id(), span_index, span.text, CharTable::BidiControls)
    }

    fn detect(&self, span_index: usize, span: &ProseSpan, cx: &Ctx) -> (r: Vec<Finding>) {
        scan_chars(self.id(), span_index, span, CharTable::BidiControls)
    }
}

/// The variation selector U+FE0F of a keycap sequence (followed by U+20E3, as in `1️⃣`) is
/// never reported by the smuggled-character rule: no finding starts at its byte, so it is
/// never removed.
pub proof fn lemma_keycap_selector_kept(span_index: usize, span: ProseSpanView, cx: Ctx, k: int)
    requires
        utf8_len(span.text) <= usize::MAX,
        0 <= k,
        k + 1 < span.text.len(),
        span.text[k] == '\u{FE0F}',
        span.text[k + 1] == '\u{20E3}',
    ensures
        forall|j: int|
            0 <= j < StripSmuggledChars.spec_detect(span_index, span, cx).len() ==> (
            #[trigger] StripSmuggledChars.spec_detect(span_index, span, cx)[j]).range.start != utf8_len(span.text.take(k)),
{
    let text = span.text;
    let g = smuggled_finding(StripSmuggledChars.spec_id(), span_index, text);
    let at = utf8_len(text.take(k));
    let p = |f: FindingView| f.range.start != at;
    assert(g(k) is None);
    assert forall|m: int| 0 <= m < text.len() && #[trigger] g(m) is Some implies p(g(m).unwrap()) by {
        lemma_offset_bound(text, m);
        assert(m != k);
        if m < k {
            lemma_offset_strict(text, m, k);
        } else {
            lemma_offset_strict(text, k, m);
        }
        assert(g(m).unwrap().range.start == byte_offset(text, m));
    }
    lemma_collect_some_all(text.len(), g, p);
    let fs = StripSmuggledChars.spec_detect(span_index, span, cx);
    assert(fs == collect_some(text.len(), g));
    assert forall|j: int| 0 <= j < fs.len() implies (#[trigger] fs[j]).range.start != at by {
        assert(p(fs[j]));
    }
}

/// The exotic-spaces rule turns every rare width space (U+2000 to U+200A, U+205F, U+3000,
/// U+1680) into one ASCII space.
pub proof fn lemma_exotic_space_normalized(span_index: usize, span: ProseSpanView, cx: Ctx, k: int)
    requires
        utf8_len(span.text) <= usize::MAX,
        0 <= k < span.text.len(),
        ('\u{2000}' <= span.text[k] <= '\u{200A}') || span.text[k] == '\u{205F}' || span.text[k] == '\u{3000}' || span.text[k] == '\u{1680}',
    ensures
        exists|j: int|
            #![trigger NormalizeExoticSpaces.spec_detect(span_index, span, cx)[j]]
            0 <= j < NormalizeExoticSpaces.spec_detect(span_index, span, cx).len() && {
                let f = NormalizeExoticSpaces.spec_detect(span_index, span, cx)[j];
                &&& f.span_index == span_index
                &&& f.range.start == utf8_len(span.text.take(k))
                &&& f.range.end == utf8_len(span.text.take(k + 1))
                &&& f.replacement == Some(seq![' '])
            },
{
    reveal_strlit(" ");
    let fs = NormalizeExoticSpaces.spec_detect(span_index, span, cx);
    assert(fs == scan_spec(NormalizeExoticSpaces.spec_id(), span_index, span.text, CharTable::ExoticSpaces));
    lemma_scan_finds(NormalizeExoticSpaces.spec_id(), span_index, span.text, CharTable::ExoticSpaces, k);
    let rep = table_action(CharTable::ExoticSpaces, span.text[k])->Some_0.0;
    assert(rep matches Some(x) ==> x =~= rep->Some_0);
    let j = choose|j: int| 0 <= j < fs.len() && {
        let f = #[trigger] fs[j];
        &&& f.span_index == span_index
        &&& f.range.start == utf8_len(span.text.take(k))
        &&& f.range.end == utf8_len(span.text.take(k + 1))
        &&& f.replacement == rep
    };
}

/// The exotic-spaces rule touches nothing but rare width spaces, each over exactly its bytes.
pub proof fn lemma_exotic_spaces_touch_only_rare_spaces(span_index: usize, span: ProseSpanView, cx: Ctx)
    requires
        utf8_len(span.text) <= usize::MAX,
    ensures
        forall|j: int|
            #![trigger NormalizeExoticSpaces.spec_detect(span_index, span, cx)[j]]
            0 <= j < NormalizeExoticSpaces.spec_detect(span_index, span, cx).len() ==> exists|k: int|
                0 <= k < span.text.len() && {
                    let f = NormalizeExoticSpaces.spec_detect(span_index, span, cx)[j];
                    let c = #[trigger] span.text[k];
                    &&& f.range.start == utf8_len(span.text.take(k))
                    &&& f.range.end == utf8_len(span.text.take(k + 1))
                    &&& ((('\u{2000}' <= c <= '\u{200A}') || c == '\u{205F}' || c == '\u{3000}' || c == '\u{1680}') && f.replacement == Some(seq![' ']))
                },
{
    reveal_strlit(" ");
    let fs = NormalizeExoticSpaces.spec_detect(span_index, span, cx);
    lemma_scan_only(NormalizeExoticSpaces.spec_id(), span_index, span.text, CharTable::ExoticSpaces);
    assert forall|j: int| #![trigger fs[j]] 0 <= j < fs.len() implies exists|k: int|
        0 <= k < span.text.len() && {
            let f = fs[j];
            let c = #[trigger] span.text[k];
            &&& f.range.start == utf8_len(span.text.take(k))
            &&& f.range.end == utf8_len(span.text.take(k + 1))
            &&& ((('\u{2000}' <= c <= '\u{200A}') || c == '\u{205F}' || c == '\u{3000}' || c == '\u{1680}') && f.replacement == Some(seq![' ']))
        } by {
        let k = choose|k: int|
            0 <= k < span.text.len() && #[trigger] table_action(CharTable::ExoticSpaces, span.text[k]) is Some && {
                let f = fs[j];
                &&& f.range.start == utf8_len(span.text.take(k))
                &&& f.range.end == utf8_len(span.text.take(k + 1))
                &&& f.replacement == table_action(CharTable::ExoticSpaces, span.text[k])->Some_0.0
            };
        assert(span.text[k] == span.text[k]);
    }
}

/// The bidi-override rule deletes every LRO (U+202D) and RLO (U+202E).
pub proof fn lemma_bidi_override_removed(span_index: usize, span: ProseSpanView, cx: Ctx, k: int)
    requires
        utf8_len(span.text) <= usize::MAX,
        0 <= k < span.text.len(),
        span.text[k] == '\u{202D}' || span.text[k] == '\u{202E}',
    ensures
        exists|j: int|
            #![trigger StripBidiOverrides.spec_detect(span_index, span, cx)[j]]
            0 <= j < StripBidiOverrides.spec_detect(span_index, span, cx).len() && {
                let f = StripBidiOverrides.spec_detect(span_index, span, cx)[j];
                &&& f.span_index == span_index
                &&& f.range.start == utf8_len(span.text.take(k))
                &&& f.range.end == utf8_len(span.text.take(k + 1))
                &&& f.replacement == Some(Seq::<char>::empty())
            },
{
    reveal_strlit("");
    let fs = StripBidiOverrides.spec_detect(span_index, span, cx);
    assert(fs == scan_spec(StripBidiOverrides.spec_id(), span_index, span.text, CharTable::BidiOverrides));
    lemma_scan_finds(StripBidiOverrides.spec_id(), span_index, span.text, CharTable::BidiOverrides, k);
    let rep = table_action(CharTable::BidiOverrides, span.text[k])->Some_0.0;
    assert(rep matches Some(x) ==> x =~= rep->Some_0);
    let j = choose|j: int| 0 <= j < fs.len() && {
        let f = #[trigger] fs[j];
        &&& f.span_index == span_index
        &&& f.range.start == utf8_len(span.text.take(k))
        &&& f.range.end == utf8_len(span.text.take(k + 1))
        &&& f.replacement == rep
    };
}

/// The bidi-override rule touches nothing but LRO and RLO, each over exactly its bytes.
pub proof fn lemma_bidi_overrides_touch_only_overrides(span_index: usize, span: ProseSpanView, cx: Ctx)
    requires
        utf8_len(span.text) <= usize::MAX,
    ensures
        forall|j: int|
            #![trigger StripBidiOverrides.spec_detect(span_index, span, cx)[j]]
            0 <= j < StripBidiOverrides.spec_detect(span_index, span, cx).len() ==> exists|k: int|
                0 <= k < span.text.len() && {
                    let f = StripBidiOverrides.spec_detect(span_index, span, cx)[j];
                    let c = #[trigger] span.text[k];
                    &&& f.range.start == utf8_len(span.text.take(k))
                    &&& f.range.end == utf8_len(span.text.take(k + 1))
                    &&& ((c == '\u{202D}' || c == '\u{202E}') && f.replacement == Some(Seq::<char>::empty()))
                },
{
    reveal_strlit("");
    let fs = StripBidiOverrides.spec_detect(span_index, span, cx);
    lemma_scan_only(StripBidiOverrides.spec_id(), span_index, span.text, CharTable::BidiOverrides);
    assert forall|j: int| #![trigger fs[j]] 0 <= j < fs.len() implies exists|k: int|
        0 <= k < span.text.len() && {
            let f = fs[j];
            let c = #[trigger] span.text[k];
            &&& f.range.start == utf8_len(span.text.take(k))
            &&& f.range.end == utf8_len(span.text.take(k + 1))
            &&& ((c == '\u{202D}' || c == '\u{202E}') && f.replacement == Some(Seq::<char>::empty()))
        } by {
        let k = choose|k: int|
            0 <= k < span.text.len() && #[trigger] table_action(CharTable::BidiOverrides, span.text[k]) is Some && {
                let f = fs[j];
                &&& f.range.start == utf8_len(span.text.take(k))
                &&& f.range.end == utf8_len(span.text.take(k + 1))
                &&& f.replacement == table_action(CharTable::BidiOverrides, span.text[k])->Some_0.0
            };
        assert(span.text[k] == span.text[k]);
    }
}

/// The bidi-control rule flags, without changing, every other bidirectional control (U+202A to
/// U+202C, U+2066 to U+2069, U+200E, U+200F, U+061C).
pub proof fn lemma_bidi_control_flagged(span_index: usize, span: ProseSpanView, cx: Ctx, k: int)
    requires
        utf8_len(span.text) <= usize::MAX,
        0 <= k < span.text.len(),
        ('\u{202A}' <= span.text[k] <= '\u{202C}') || ('\u{2066}' <= span.text[k] <= '\u{2069}') || span.text[k] == '\u{200E}' || span.text[k] == '\u{200F}' || span.text[k] == '\u{061C}',
    ensures
        exists|j: int|
            #![trigger FlagBidiControls.spec_detect(span_index, span, cx)[j]]
            0 <= j < FlagBidiControls.spec_detect(span_index, span, cx).len() && {
                let f = FlagBidiControls.spec_detect(span_index, span, cx)[j];
                &&& f.span_index == span_index
                &&& f.range.start == utf8_len(span.text.take(k))
                &&& f.range.end == utf8_len(span.text.take(k + 1))
                &&& f.replacement == None::<Seq<char>>
            },
{

    let fs = FlagBidiControls.spec_detect(span_index, span, cx);
    assert(fs == scan_spec(FlagBidiControls.spec_id(), span_index, span.text, CharTable::BidiControls));
    lemma_scan_finds(FlagBidiControls.spec_id(), span_index, span.text, CharTable::BidiControls, k);
    let rep = table_action(CharTable::BidiControls, span.text[k])->Some_0.0;
    assert(rep matches Some(x) ==> x =~= rep->Some_0);
    let j = choose|j: int| 0 <= j < fs.len() && {
        let f = #[trigger] fs[j];
        &&& f.span_index == span_index
        &&& f.range.start == utf8_len(span.text.take(k))
        &&& f.range.end == utf8_len(span.text.take(k + 1))
        &&& f.replacement == rep
    };
}

/// The bidi-control rule reports nothing but those controls, and never changes text.
pub proof fn lemma_bidi_controls_only_flag_controls(span_index: usize, span: ProseSpanView, cx: Ctx)
    requires
        utf8_len(span.text) <= usize::MAX,
    ensures
        forall|j: int|
            #![trigger FlagBidiControls.spec_detect(span_index, span, cx)[j]]
            0 <= j < FlagBidiControls.spec_detect(span_index, span, cx).len() ==> exists|k: int|
                0 <= k < span.text.len() && {
                    let f = FlagBidiControls.spec_detect(span_index, span, cx)[j];
                    let c = #[trigger] span.text[k];
                    &&& f.range.start == utf8_len(span.text.take(k))
                    &&& f.range.end == utf8_len(span.text.take(k + 1))
                    &&& ((('\u{202A}' <= c <= '\u{202C}') || ('\u{2066}' <= c <= '\u{2069}') || c == '\u{200E}' || c == '\u{200F}' || c == '\u{061C}') && f.replacement == None::<Seq<char>>)
                },
{

    let fs = FlagBidiControls.spec_detect(span_index, span, cx);
    lemma_scan_only(FlagBidiControls.spec_id(), span_index, span.text, CharTable::BidiControls);
    assert forall|j: int| #![trigger fs[j]] 0 <= j < fs.len() implies exists|k: int|
        0 <= k < span.text.len() && {
            let f = fs[j];
            let c = #[trigger] span.text[k];
            &&& f.range.start == utf8_len(span.text.take(k))
            &&& f.range.end == utf8_len(span.text.take(k + 1))
            &&& ((('\u{202A}' <= c <= '\u{202C}') || ('\u{2066}' <= c <= '\u{2069}') || c == '\u{200E}' || c == '\u{200F}' || c == '\u{061C}') && f.replacement == None::<Seq<char>>)
        } by {
        let k = choose|k: int|
            0 <= k < span.text.len() && #[trigger] table_action(CharTable::BidiControls, span.text[k]) is Some && {
                let f = fs[j];
                &&& f.range.start == utf8_len(span.text.take(k))
                &&& f.range.end == utf8_len(span.text.take(k + 1))
                &&& f.replacement == table_action(CharTable::BidiControls, span.text[k])->Some_0.0
            };
        assert(span.text[k] == span.text[k]);
    }
}

/// Every Unicode tag character (U+E0000 to U+E007F) of a span is deleted by the smuggled-
/// character rule: a finding over exactly its bytes with an empty replacement.
pub proof fn lemma_tag_char_removed(span_index: usize, span: ProseSpanView, cx: Ctx, k: int)
    requires
        utf8_len(span.text) <= usize::MAX,
        0 <= k < span.text.len(),
        '\u{E0000}' <= span.text[k] <= '\u{E007F}',
    ensures
        exists|j: int|
            #![trigger StripSmuggledChars.spec_detect(span_index, span, cx)[j]]
            0 <= j < StripSmuggledChars.spec_detect(span_index, span, cx).len() && {
                let f = StripSmuggledChars.spec_detect(span_index, span, cx)[j];
                &&& f.range.start == utf8_len(span.text.take(k))
                &&& f.range.end == utf8_len(span.text.take(k + 1))
                &&& f.replacement == Some(Seq::<char>::empty())
            },
{
    let text = span.text;
    let g = smuggled_finding(StripSmuggledChars.spec_id(), span_index, text);
    lemma_offset_bound(text, k);
    assert(g(k) is Some);
    lemma_collect_some_has(text.len(), g, k);
    let fs = StripSmuggledChars.spec_detect(span_index, span, cx);
    assert(fs == collect_some(text.len(), g));
    let j = choose|j: int| 0 <= j < fs.len() && #[trigger] fs[j] == g(k).unwrap();
    assert(fs[j].range.start == utf8_len(text.take(k)));
}

/// A variation selector right after an ASCII (or other pre-U+2190) character, and not part of
/// a keycap sequence, is deleted by the smuggled-character rule.
pub proof fn lemma_selector_after_plain_char_removed(span_index: usize, span: ProseSpanView, cx: Ctx, k: int)
    requires
        utf8_len(span.text) <= usize::MAX,
        0 < k < span.text.len(),
        ('\u{FE00}' <= span.text[k] <= '\u{FE0F}') || ('\u{E0100}' <= span.text[k] <= '\u{E01EF}'),
        (span.text[k - 1] as u32) < 0x2190,
        !(k + 1 < span.text.len() && span.text[k + 1] == '\u{20E3}'),
    ensures
        exists|j: int|
            #![trigger StripSmuggledChars.spec_detect(span_index, span, cx)[j]]
            0 <= j < StripSmuggledChars.spec_detect(span_index, span, cx).len() && {
                let f = StripSmuggledChars.spec_detect(span_index, span, cx)[j];
                &&& f.range.start == utf8_len(span.text.take(k))
                &&& f.range.end == utf8_len(span.text.take(k + 1))
                &&& f.replacement == Some(Seq::<char>::empty())
            },
{
    let text = span.text;
    let g = smuggled_finding(StripSmuggledChars.spec_id(), span_index, text);
    lemma_offset_bound(text, k);
    assert(g(k) is Some);
    lemma_collect_some_has(text.len(), g, k);
    let fs = StripSmuggledChars.spec_detect(span_index, span, cx);
    assert(fs == collect_some(text.len(), g));
    let j = choose|j: int| 0 <= j < fs.len() && #[trigger] fs[j] == g(k).unwrap();
    assert(fs[j].range.start == utf8_len(text.take(k)));
}

/// A variation selector that styles an emoji, symbol or CJK base (a character at or above
/// U+2190 that is not itself a selector) is kept: no finding of the smuggled-character rule
/// starts at its byte.
pub proof fn lemma_emoji_selector_kept(span_index: usize, span: ProseSpanView, cx: Ctx, k: int)
    requires
        utf8_len(span.text) <= usize::MAX,
        0 < k < span.text.len(),
        ('\u{FE00}' <= span.text[k] <= '\u{FE0F}') || ('\u{E0100}' <= span.text[k] <= '\u{E01EF}'),
        (span.text[k - 1] as u32) >= 0x2190,
        !(('\u{FE00}' <= span.text[k - 1] <= '\u{FE0F}') || ('\u{E0100}' <= span.text[k - 1] <= '\u{E01EF}')),
    ensures
        forall|j: int|
            0 <= j < StripSmuggledChars.spec_detect(span_index, span, cx).len() ==> (
            #[trigger] StripSmuggledChars.spec_detect(span_index, span, cx)[j]).range.start != utf8_len(span.text.take(k)),
{
    let text = span.text;
    let g = smuggled_finding(StripSmuggledChars.spec_id(), span_index, text);
    let at = utf8_len(text.take(k));
    let p = |f: FindingView| f.range.start != at;
    assert(g(k) is None);
    assert forall|m: int| 0 <= m < text.len() && #[trigger] g(m) is Some implies p(g(m).unwrap()) by {
        lemma_offset_bound(text, m);
        if m < k {
            lemma_offset_strict(text, m, k);
        } else {
            lemma_offset_strict(text, k, m);
        }
        assert(g(m).unwrap().range.start == byte_offset(text, m));
    }
    lemma_collect_some_all(text.len(), g, p);
    let fs = StripSmuggledChars.spec_detect(span_index, span, cx);
    assert(fs == collect_some(text.len(), g));
    assert forall|j: int| 0 <= j < fs.len() implies (#[trigger] fs[j]).range.start != at by {
        assert(p(fs[j]));
    }
}

}
