//! A data-driven, flag-only rule built from a template's term list. Flag-only because single
//! "AI words" are ordinary English; we surface them for review and never auto-replace.

use vstd::prelude::*;
use std::ops::Range;
use crate::engine::ir::{ProseSpan, ProseSpanView};
use crate::engine::level::CleanupLevel;
use crate::engine::traits::{Ctx, Finding, FindingView, Rule, findings_view};
use crate::rules::scan::{byte_offset, collect_some, lemma_collect_in_bounds, lemma_offset_bound, text_byte_len};
use crate::text::{char_len_utf8, str_to_string, string_push, string_push_str, string_to_chars, utf8_len};

verus! {

/// Views of a term list.
pub open spec fn terms_view(t: Seq<String>) -> Seq<Seq<char>> {
    t.map_values(|s: String| s@)
}

/// Whether `aho-corasick` accepts the terms as patterns (ASCII-case-insensitive automaton).
pub uninterp spec fn ac_buildable(terms: Seq<Seq<char>>) -> bool;

/// The byte ranges `aho-corasick` reports, in order, for the ASCII-case-insensitive
/// automaton of `terms` run over `text` with `find_iter` (standard match semantics).
pub uninterp spec fn ac_matches(terms: Seq<Seq<char>>, text: Seq<char>) -> Seq<(usize, usize)>;

/// `aho_corasick::AhoCorasickBuilder::build` with `ascii_case_insensitive(true)`: whether it
/// succeeds on these terms. The contract names the answer; it states no limit of the crate.
#[verifier::external_body]
pub(crate) fn ac_builds(terms: &Vec<String>) -> (b: bool)
    ensures
        b == ac_buildable(terms_view(terms@)),
{
    aho_corasick::AhoCorasick::builder().ascii_case_insensitive(true).build(terms).is_ok()
}

/// Builds the same automaton as `ac_builds` and collects `find_iter(text)` as
/// `(start, end)` byte pairs. Returns `None` exactly when building fails. Each match is a span
/// of the text (`start <= end <= text.len()`, which `aho_corasick::Match` and its haystack
/// span guarantee); the contract names the matches and states no more of them (not, in
/// particular, that they fall on character boundaries).
#[verifier::external_body]
fn ac_find_all(terms: &Vec<String>, text: &str) -> (r: Option<Vec<(usize, usize)>>)
    ensures
        r is Some <==> ac_buildable(terms_view(terms@)),
        r matches Some(v) ==> v@ == ac_matches(terms_view(terms@), text@) && forall|i: int|
            0 <= i < v@.len() ==> (#[trigger] v@[i]).0 <= v@[i].1 <= utf8_len(text@),
{
    let ac = aho_corasick::AhoCorasick::builder().ascii_case_insensitive(true).build(terms).ok()?;
    Some(ac.find_iter(text).map(|m| (m.start(), m.end())).collect())
}

/// Unicode `Alphabetic` or `Numeric`, as `char::is_alphanumeric` decides it.
pub uninterp spec fn unicode_alphanumeric(c: char) -> bool;

/// `std`'s `char::is_alphanumeric`. The contract names the answer.
#[verifier::external_body]
fn char_is_alphanumeric(c: char) -> (b: bool)
    ensures
        b == unicode_alphanumeric(c),
{
    c.is_alphanumeric()
}

/// The character index whose byte offset is `b`, if `b` falls on a character boundary.
pub open spec fn char_index_at(text: Seq<char>, b: int) -> Option<int> {
    if exists|k: int| 0 <= k <= text.len() && byte_offset(text, k) == b {
        Some(choose|k: int| 0 <= k <= text.len() && byte_offset(text, k) == b)
    } else {
        None
    }
}

/// The finding for one match: kept when both ends fall on character boundaries and the
/// characters flanking the match are not alphanumeric (so "delve" does not match inside
/// "delved").
pub open spec fn lexicon_finding(rule_id: Seq<char>, msg: Seq<char>, idx: usize, text: Seq<char>, ms: Seq<(usize, usize)>) -> spec_fn(int) -> Option<FindingView> {
    |i: int| {
        let (s, e) = ms[i];
        match (char_index_at(text, s as int), char_index_at(text, e as int)) {
            (Some(ks), Some(ke)) => {
                let before_ok = ks == 0 || !unicode_alphanumeric(text[ks - 1]);
                let after_ok = ke == text.len() || !unicode_alphanumeric(text[ke]);
                if before_ok && after_ok {
                    Some(FindingView {
                        rule_id,
                        span_index: idx,
                        range: Range { start: s, end: e },
                        message: msg + ": \""@ + text.subrange(ks, ke) + "\""@,
                        replacement: None,
                    })
                } else {
                    None
                }
            },
            _ => None,
        }
    }
}

/// The findings of a lexicon rule over a whole text.
pub open spec fn lexicon_spec(rule_id: Seq<char>, terms: Seq<Seq<char>>, msg: Seq<char>, idx: usize, text: Seq<char>) -> Seq<FindingView> {
    if ac_buildable(terms) {
        let ms = ac_matches(terms, text);
        collect_some(ms.len(), lexicon_finding(rule_id, msg, idx, text, ms))
    } else {
        Seq::empty()
    }
}

/// The message used when a pack gives none.
pub open spec fn default_lexicon_message() -> Seq<char> {
    "possible AI-favored wording"@
}

/// A flag-only rule matching a term list ASCII-case-insensitively at word boundaries.
pub struct LexiconFlagRule {
    id: String,
    level: CleanupLevel,
    terms: Vec<String>,
    message: String,
}

proof fn lemma_offsets_increasing(text: Seq<char>, a: int, b: int)
    requires
        0 <= a < b <= text.len(),
    ensures
        byte_offset(text, a) < byte_offset(text, b),
    decreases b - a,
{
    lemma_offset_bound(text, b - 1);
    if a < b - 1 {
        lemma_offsets_increasing(text, a, b - 1);
    }
}

/// Byte offsets of every character position `0..=len`.
fn char_offsets(cs: &Vec<char>, total: usize) -> (offs: Vec<usize>)
    requires
        total == utf8_len(cs@),
    ensures
        offs@.len() == cs@.len() + 1,
        forall|k: int| 0 <= k <= cs@.len() ==> #[trigger] offs@[k] == byte_offset(cs@, k),
{
    let mut offs: Vec<usize> = Vec::new();
    let mut off: usize = 0;
    let mut i: usize = 0;
    assert(cs@.take(0) =~= Seq::<char>::empty());
    while i < cs.len()
        invariant
            i <= cs@.len(),
            total == utf8_len(cs@),
            offs@.len() == i,
            off == byte_offset(cs@, i as int),
            forall|k: int| 0 <= k < i ==> #[trigger] offs@[k] == byte_offset(cs@, k),
        decreases cs@.len() - i,
    {
        proof {
            lemma_offset_bound(cs@, i as int);
        }
        offs.push(off);
        off = off + char_len_utf8(cs[i]);
        i = i + 1;
    }
    assert(cs@.take(cs@.len() as int) =~= cs@);
    offs.push(off);
    offs
}

/// The character index at byte `b`, by search over the offsets.
fn find_char_index(offs: &Vec<usize>, text: Ghost<Seq<char>>, b: usize) -> (r: Option<usize>)
    requires
        offs@.len() == text@.len() + 1,
        forall|k: int| 0 <= k <= text@.len() ==> #[trigger] offs@[k] == byte_offset(text@, k),
    ensures
        match char_index_at(text@, b as int) {
            Some(k) => r == Some(k as usize),
            None => r is None,
        },
{
    let mut k: usize = 0;
    while k < offs.len()
        invariant
            offs@.len() == text@.len() + 1,
            forall|j: int| 0 <= j <= text@.len() ==> #[trigger] offs@[j] == byte_offset(text@, j),
            k <= offs@.len(),
            forall|j: int| 0 <= j < k ==> byte_offset(text@, j) != b,
        decreases offs@.len() - k,
    {
        if offs[k] == b {
            proof {
                assert(byte_offset(text@, k as int) == b);
                let c = choose|j: int| 0 <= j <= text@.len() && byte_offset(text@, j) == b;
                if c < k {
                    lemma_offsets_increasing(text@, c, k as int);
                } else if c > k {
                    lemma_offsets_increasing(text@, k as int, c);
                }
            }
            return Some(k);
        }
        k = k + 1;
    }
    None
}

impl LexiconFlagRule {
    /// The term list.
    pub closed spec fn spec_terms(&self) -> Seq<Seq<char>> {
        terms_view(self.terms@)
    }

    /// The message prefix of every finding.
    pub closed spec fn spec_message(&self) -> Seq<char> {
        self.message@
    }

    /// Build the rule. The terms must be accepted by the matcher.
    pub fn new(id: String, level: CleanupLevel, terms: Vec<String>, message: String) -> (r: LexiconFlagRule)
        requires
            ac_buildable(terms_view(terms@)),
        ensures
            r.spec_id() == id@,
            r.spec_min_level() == level,
            r.spec_terms() == terms_view(terms@),
            r.spec_message() == (if message@.len() == 0 { default_lexicon_message() } else { message@ }),
    {
        let message = if message.as_str().is_empty() {
            str_to_string("possible AI-favored wording")
        } else {
            message
        };
        LexiconFlagRule { id, level, terms, message }
    }

    /// Build the rule, or `None` when the matcher rejects the terms.
    pub fn try_new(id: String, level: CleanupLevel, terms: Vec<String>, message: String) -> (r: Option<LexiconFlagRule>)
        ensures
            r is Some <==> ac_buildable(terms_view(terms@)),
            r matches Some(rule) ==> rule.spec_id() == id@ && rule.spec_min_level() == level && rule.spec_terms()
                == terms_view(terms@) && rule.spec_message() == (if message@.len() == 0 { default_lexicon_message() } else { message@ }),
    {
        if ac_builds(&terms) {
            Some(LexiconFlagRule::new(id, level, terms, message))
        } else {
            None
        }
    }
}

impl Rule for LexiconFlagRule {
    closed spec fn spec_id(&self) -> Seq<char> {
        self.id@
    }

    fn id(&self) -> (r: &str) {
        self.id.as_str()
    }

    closed spec fn spec_min_level(&self) -> CleanupLevel {
        self.level
    }

    fn min_level(&self) -> (r: CleanupLevel) {
        self.level
    }

    open spec fn spec_detect(&self, span_index: usize, span: ProseSpanView, cx: Ctx) -> Seq<FindingView> {
        lexicon_spec(self.spec_id(), self.spec_terms(), self.spec_message(), span_index, span.text)
    }

    fn detect(&self, span_index: usize, span: &ProseSpan, cx: &Ctx) -> (r: Vec<Finding>) {
        let ghost text = span.text@;
        let ghost tv = terms_view(self.terms@);
        let mut out: Vec<Finding> = Vec::new();
        let ms = match ac_find_all(&self.terms, span.text.as_str()) {
            Some(ms) => ms,
            None => {
                return out;
            },
        };
        let ghost g = lexicon_finding(self.id@, self.message@, span_index, text, ms@);
        let total = text_byte_len(span.text.as_str());
        let cs = string_to_chars(span.text.as_str());
        let offs = char_offsets(&cs, total);
        let mut i: usize = 0;
        while i < ms.len()
            invariant
                cs@ == text,
                text == span.text@,
                offs@.len() == text.len() + 1,
                forall|k: int| 0 <= k <= text.len() ==> #[trigger] offs@[k] == byte_offset(text, k),
                ms@ == ac_matches(tv, text),
                ac_buildable(tv),
                tv == terms_view(self.terms@),
                forall|j: int| 0 <= j < ms@.len() ==> (#[trigger] ms@[j]).0 <= ms@[j].1 <= utf8_len(text),
                g == lexicon_finding(self.id@, self.message@, span_index, text, ms@),
                i <= ms@.len(),
                findings_view(out@) == collect_some(i as nat, g),
            decreases ms@.len() - i,
        {
            let (s, e) = ms[i];
            let ghost before = findings_view(out@);
            let ks = find_char_index(&offs, Ghost(text), s);
            let ke = find_char_index(&offs, Ghost(text), e);
            let mut pushed = false;
            if let (Some(ks), Some(ke)) = (ks, ke) {
                let before_ok = ks == 0 || !char_is_alphanumeric(cs[ks - 1]);
                let after_ok = ke == cs.len() || !char_is_alphanumeric(cs[ke]);
                if before_ok && after_ok {
                    proof {
                        if ks > ke {
                            lemma_offsets_increasing(text, ke as int, ks as int);
                        }
                    }
                    let mut msg = String::new();
                    string_push_str(&mut msg, self.message.as_str());
                    string_push_str(&mut msg, ": \"");
                    let mut t = ks;
                    while t < ke
                        invariant
                            ks <= t <= ke <= cs@.len(),
                            msg@ == self.message@ + ": \""@ + cs@.subrange(ks as int, t as int),
                        decreases ke - t,
                    {
                        string_push(&mut msg, cs[t]);
                        assert(cs@.subrange(ks as int, t + 1) =~= cs@.subrange(ks as int, t as int).push(cs@[t as int]));
                        t = t + 1;
                    }
                    string_push_str(&mut msg, "\"");
                    let f = Finding {
                        rule_id: self.id.clone(),
                        span_index,
                        range: Range { start: s, end: e },
                        message: msg,
                        replacement: None,
                    };
                    out.push(f);
                    pushed = true;
                    proof {
                        assert(findings_view(out@) =~= before + seq![f@]);
                    }
                }
            }
            if !pushed {
                assert(findings_view(out@) =~= before + Seq::<FindingView>::empty());
            }
            i = i + 1;
        }
        proof {
            assert forall|k: int| 0 <= k < ms@.len() && #[trigger] g(k) is Some implies g(k).unwrap().span_index
                == span_index && g(k).unwrap().range.start <= g(k).unwrap().range.end <= utf8_len(text) by {}
            lemma_collect_in_bounds(ms@.len(), g, span_index, text);
        }
        out
    }
}

}
