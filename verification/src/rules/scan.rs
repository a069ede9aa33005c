//! The shared shape of the character rules: walk a span's characters with their byte
//! offsets and report a finding wherever the rule's decision says so.

use vstd::prelude::*;
use std::ops::Range;
use crate::engine::traits::{Finding, FindingView, findings_in_bounds, findings_view};
use crate::text::{char_width, lemma_utf8_concat, lemma_utf8_push, utf8_len};

verus! {

/// Byte offset of character `k` of `text`.
pub open spec fn byte_offset(text: Seq<char>, k: int) -> int {
    utf8_len(text.take(k)) as int
}

/// The findings at indices `0..n`, in order: the `Some` values of `g`.
pub open spec fn collect_some(n: nat, g: spec_fn(int) -> Option<FindingView>) -> Seq<FindingView>
    decreases n,
{
    if n == 0 {
        Seq::empty()
    } else {
        collect_some((n - 1) as nat, g) + match g(n - 1) {
            Some(f) => seq![f],
            None => Seq::empty(),
        }
    }
}

/// Every finding that `g` can produce below `n` satisfies `p`, so every collected one does.
pub proof fn lemma_collect_some_all(n: nat, g: spec_fn(int) -> Option<FindingView>, p: spec_fn(FindingView) -> bool)
    requires
        forall|k: int| 0 <= k < n && #[trigger] g(k) is Some ==> p(g(k).unwrap()),
    ensures
        forall|i: int| 0 <= i < collect_some(n, g).len() ==> p(#[trigger] collect_some(n, g)[i]),
    decreases n,
{
    if n > 0 {
        lemma_collect_some_all((n - 1) as nat, g, p);
        let a = collect_some((n - 1) as nat, g);
        assert forall|i: int| 0 <= i < collect_some(n, g).len() implies p(#[trigger] collect_some(n, g)[i]) by {
            if i < a.len() {
                assert(collect_some(n, g)[i] == a[i]);
            } else {
                assert(g(n - 1) is Some);
            }
        }
    }
}

/// A finding that `g` produces below `n` is among the collected ones.
pub proof fn lemma_collect_some_has(n: nat, g: spec_fn(int) -> Option<FindingView>, k: int)
    requires
        0 <= k < n,
        g(k) is Some,
    ensures
        exists|j: int| 0 <= j < collect_some(n, g).len() && #[trigger] collect_some(n, g)[j] == g(k).unwrap(),
    decreases n,
{
    let a = collect_some((n - 1) as nat, g);
    let c = collect_some(n, g);
    if k < n - 1 {
        lemma_collect_some_has((n - 1) as nat, g, k);
        let j = choose|j: int| 0 <= j < a.len() && #[trigger] a[j] == g(k).unwrap();
        assert(c[j] == a[j]);
    } else {
        assert(c[a.len() as int] == g(k).unwrap());
    }
}

/// Every character takes at least one byte.
pub proof fn lemma_char_width_pos(c: char)
    ensures
        char_width(c) >= 1,
{
}

/// Later characters start at later bytes.
pub proof fn lemma_offset_strict(text: Seq<char>, a: int, b: int)
    requires
        0 <= a < b <= text.len(),
    ensures
        byte_offset(text, a) < byte_offset(text, b),
    decreases b - a,
{
    lemma_offset_bound(text, b - 1);
    lemma_char_width_pos(text[b - 1]);
    if a < b - 1 {
        lemma_offset_strict(text, a, b - 1);
    }
}

/// A character's offset plus its width never passes the text's byte length.
pub proof fn lemma_offset_bound(text: Seq<char>, k: int)
    requires
        0 <= k < text.len(),
    ensures
        byte_offset(text, k) + char_width(text[k]) == byte_offset(text, k + 1),
        byte_offset(text, k + 1) <= utf8_len(text),
        0 <= byte_offset(text, k),
{
    assert(text.take(k + 1) =~= text.take(k).push(text[k]));
    lemma_utf8_push(text.take(k), text[k]);
    assert(text =~= text.take(k + 1) + text.skip(k + 1));
    lemma_utf8_concat(text.take(k + 1), text.skip(k + 1));
}

/// Collected findings that name `idx` and lie in the text are in bounds.
pub proof fn lemma_collect_in_bounds(n: nat, g: spec_fn(int) -> Option<FindingView>, idx: usize, text: Seq<char>)
    requires
        forall|k: int| 0 <= k < n && #[trigger] g(k) is Some ==> g(k).unwrap().span_index == idx
            && g(k).unwrap().range.start <= g(k).unwrap().range.end <= utf8_len(text),
    ensures
        findings_in_bounds(collect_some(n, g), idx, text),
{
    let p = |f: FindingView| f.span_index == idx && f.range.start <= f.range.end <= utf8_len(text);
    lemma_collect_some_all(n, g, p);
    let c = collect_some(n, g);
    assert forall|k: int| 0 <= k < c.len() implies (#[trigger] c[k]).span_index == idx && c[k].range.start
        <= c[k].range.end <= utf8_len(text) by {
        assert(p(c[k]));
    }
}

/// The byte length of a text, learned from its bytes.
pub fn text_byte_len(s: &str) -> (n: usize)
    ensures
        n == utf8_len(s@),
{
    s.as_bytes().len()
}

/// A finding built from its parts.
pub fn make_finding(rule_id: &str, span_index: usize, start: usize, end: usize, message: &str, replacement: Option<&str>) -> (f: Finding)
    ensures
        f@ == (FindingView {
            rule_id: rule_id@,
            span_index,
            range: Range { start, end },
            message: message@,
            replacement: match replacement {
                Some(r) => Some(r@),
                None => None,
            },
        }),
{
    Finding {
        rule_id: crate::text::str_to_string(rule_id),
        span_index,
        range: Range { start, end },
        message: crate::text::str_to_string(message),
        replacement: match replacement {
            Some(r) => Some(crate::text::str_to_string(r)),
            None => None,
        },
    }
}

}
