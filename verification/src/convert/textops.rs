//! Whitespace trimming, line splitting and joining, as `str` defines them.

use vstd::prelude::*;
use crate::text::{string_push, string_push_str, string_to_chars};

verus! {

/// Unicode `White_Space` (the characters `char::is_whitespace` accepts): the controls
/// U+0009 to U+000D, space, U+0085, no-break space, U+1680, U+2000 to U+200A, the line and
/// paragraph separators, U+202F, U+205F and U+3000.
pub open spec fn unicode_white_space(c: char) -> bool {
    let u = c as u32;
    ||| 0x09 <= u <= 0x0D
    ||| u == 0x20
    ||| u == 0x85
    ||| u == 0xA0
    ||| u == 0x1680
    ||| 0x2000 <= u <= 0x200A
    ||| u == 0x2028
    ||| u == 0x2029
    ||| u == 0x202F
    ||| u == 0x205F
    ||| u == 0x3000
}

/// Whether a character is Unicode white space, as `char::is_whitespace` decides it.
pub(crate) fn char_is_whitespace(c: char) -> (b: bool)
    ensures
        b == unicode_white_space(c),
{
    let u = c as u32;
    (0x09 <= u && u <= 0x0D) || u == 0x20 || u == 0x85 || u == 0xA0 || u == 0x1680 || (0x2000 <= u && u
        <= 0x200A) || u == 0x2028 || u == 0x2029 || u == 0x202F || u == 0x205F || u == 0x3000
}

/// A text without its leading whitespace.
pub open spec fn trim_start_seq(s: Seq<char>) -> Seq<char>
    decreases s.len(),
{
    if s.len() > 0 && unicode_white_space(s[0]) {
        trim_start_seq(s.drop_first())
    } else {
        s
    }
}

/// A text without its trailing whitespace.
pub open spec fn trim_end_seq(s: Seq<char>) -> Seq<char>
    decreases s.len(),
{
    if s.len() > 0 && unicode_white_space(s.last()) {
        trim_end_seq(s.drop_last())
    } else {
        s
    }
}

/// A text without leading and trailing whitespace, as `str::trim` gives it.
pub open spec fn trimmed(s: Seq<char>) -> Seq<char> {
    trim_end_seq(trim_start_seq(s))
}

/// `s` with leading and trailing whitespace removed.
pub fn trim(s: &str) -> (r: String)
    ensures
        r@ == trimmed(s@),
{
    let cs = string_to_chars(s);
    let mut i: usize = 0;
    assert(cs@.skip(0) =~= cs@);
    while i < cs.len() && char_is_whitespace(cs[i])
        invariant
            i <= cs@.len(),
            trim_start_seq(cs@) == trim_start_seq(cs@.skip(i as int)),
        decreases cs@.len() - i,
    {
        assert(cs@.skip(i as int).drop_first() =~= cs@.skip(i + 1));
        i = i + 1;
    }
    proof {
        if i == cs.len() {
            assert(cs@.skip(i as int) =~= Seq::<char>::empty());
        }
        assert(trim_start_seq(cs@) == cs@.skip(i as int));
        assert(cs@.skip(i as int) =~= cs@.subrange(i as int, cs@.len() as int));
    }
    let mut j: usize = cs.len();
    while j > i && char_is_whitespace(cs[j - 1])
        invariant
            i <= j <= cs@.len(),
            trim_end_seq(cs@.subrange(i as int, cs@.len() as int)) == trim_end_seq(cs@.subrange(i as int, j as int)),
        decreases j - i,
    {
        assert(cs@.subrange(i as int, j as int).drop_last() =~= cs@.subrange(i as int, j - 1));
        j = j - 1;
    }
    let mut r = String::new();
    let mut k: usize = i;
    while k < j
        invariant
            i <= k <= j <= cs@.len(),
            r@ == cs@.subrange(i as int, k as int),
        decreases j - k,
    {
        string_push(&mut r, cs[k]);
        assert(cs@.subrange(i as int, k + 1) =~= cs@.subrange(i as int, k as int).push(cs@[k as int]));
        k = k + 1;
    }
    assert(cs@ == s@);
    r
}

/// The pieces of a text between its `\n` characters (one more than there are `\n`).
pub open spec fn split_nl(s: Seq<char>) -> Seq<Seq<char>>
    decreases s.len(),
{
    if s.len() == 0 {
        seq![Seq::empty()]
    } else {
        let p = split_nl(s.drop_last());
        if s.last() == '\n' {
            p.push(Seq::empty())
        } else {
            p.update(p.len() - 1, p.last().push(s.last()))
        }
    }
}

/// A line without the `\r` of a `\r\n` ending.
pub open spec fn strip_cr(l: Seq<char>) -> Seq<char> {
    if l.len() > 0 && l.last() == '\r' {
        l.drop_last()
    } else {
        l
    }
}

/// The lines `str::lines` gives: split at `\n` or `\r\n`, the final line ending optional.
pub open spec fn lines_of(s: Seq<char>) -> Seq<Seq<char>> {
    let p = split_nl(s);
    let ended = p.take(p.len() - 1).map_values(|l: Seq<char>| strip_cr(l));
    if p.last().len() == 0 {
        ended
    } else {
        ended.push(p.last())
    }
}

proof fn lemma_split_nl_len(s: Seq<char>)
    ensures
        split_nl(s).len() >= 1,
    decreases s.len(),
{
    if s.len() > 0 {
        lemma_split_nl_len(s.drop_last());
    }
}

/// The lines of `s`, as `str::lines` splits them.
pub fn lines(s: &str) -> (r: Vec<String>)
    ensures
        r@.map_values(|l: String| l@) == lines_of(s@),
{
    let cs = string_to_chars(s);
    let mut done: Vec<String> = Vec::new();
    let mut cur = String::new();
    let mut i: usize = 0;
    while i < cs.len()
        invariant
            i <= cs@.len(),
            split_nl(cs@.take(i as int)).len() >= 1,
            done@.map_values(|l: String| l@) =~= split_nl(cs@.take(i as int)).take(
                split_nl(cs@.take(i as int)).len() - 1,
            ).map_values(|l: Seq<char>| strip_cr(l)),
            cur@ == split_nl(cs@.take(i as int)).last(),
        decreases cs@.len() - i,
    {
        let ghost t = cs@.take(i as int);
        let ghost p = split_nl(t);
        proof {
            assert(cs@.take(i + 1).drop_last() =~= t);
            assert(cs@.take(i + 1).last() == cs@[i as int]);
            lemma_split_nl_len(t);
        }
        if cs[i] == '\n' {
            let ghost before = done@.map_values(|l: String| l@);
            let line = strip_cr_string(&cur);
            done.push(line);
            cur = String::new();
            proof {
                let p2 = split_nl(cs@.take(i + 1));
                assert(p2 == p.push(Seq::<char>::empty()));
                assert(p2.take(p2.len() - 1) =~= p);
                assert(p.take(p.len() - 1).push(p.last()) =~= p);
                assert(done@.map_values(|l: String| l@) =~= before.push(strip_cr(p.last())));
                assert(p2.take(p2.len() - 1).map_values(|l: Seq<char>| strip_cr(l)) =~= p.take(p.len() - 1).map_values(
                    |l: Seq<char>| strip_cr(l),
                ).push(strip_cr(p.last())));
                assert(cur@ =~= p2.last());
            }
        } else {
            string_push(&mut cur, cs[i]);
            proof {
                let p2 = split_nl(cs@.take(i + 1));
                assert(p2 == p.update(p.len() - 1, p.last().push(cs@[i as int])));
                assert(p2.take(p2.len() - 1) =~= p.take(p.len() - 1));
            }
        }
        i = i + 1;
    }
    assert(cs@.take(cs@.len() as int) =~= s@);
    let ghost before = done@.map_values(|l: String| l@);
    let ghost last = cur@;
    if !cur.as_str().is_empty() {
        done.push(cur);
        assert(done@.map_values(|l: String| l@) =~= before.push(last));
    }
    done
}

fn strip_cr_string(l: &String) -> (r: String)
    ensures
        r@ == strip_cr(l@),
{
    let cs = string_to_chars(l.as_str());
    let n = if cs.len() > 0 && cs[cs.len() - 1] == '\r' { cs.len() - 1 } else { cs.len() };
    let mut r = String::new();
    let mut k: usize = 0;
    while k < n
        invariant
            k <= n <= cs@.len(),
            r@ == cs@.take(k as int),
        decreases n - k,
    {
        string_push(&mut r, cs[k]);
        assert(cs@.take(k + 1) =~= cs@.take(k as int).push(cs@[k as int]));
        k = k + 1;
    }
    assert(cs@.drop_last() =~= cs@.take(cs@.len() - 1));
    assert(cs@.take(cs@.len() as int) =~= cs@);
    r
}

/// Pieces joined with a separator between each two, as `join` gives them.
pub open spec fn joined(parts: Seq<Seq<char>>, sep: Seq<char>) -> Seq<char>
    decreases parts.len(),
{
    if parts.len() == 0 {
        Seq::empty()
    } else if parts.len() == 1 {
        parts[0]
    } else {
        joined(parts.drop_last(), sep) + sep + parts.last()
    }
}

/// The pieces joined with `sep` between each two.
pub fn join(parts: &Vec<String>, sep: &str) -> (r: String)
    ensures
        r@ == joined(parts@.map_values(|p: String| p@), sep@),
{
    let ghost pv = parts@.map_values(|p: String| p@);
    let mut r = String::new();
    let mut i: usize = 0;
    while i < parts.len()
        invariant
            i <= parts@.len(),
            pv == parts@.map_values(|p: String| p@),
            r@ == joined(pv.take(i as int), sep@),
        decreases parts@.len() - i,
    {
        proof {
            assert(pv.take(i + 1).drop_last() =~= pv.take(i as int));
            assert(pv.take(i + 1).last() == parts@[i as int]@);
        }
        if i > 0 {
            string_push_str(&mut r, sep);
        } else {
            assert(pv.take(1)[0] == parts@[0]@);
            assert(r@ =~= Seq::<char>::empty());
        }
        string_push_str(&mut r, parts[i].as_str());
        i = i + 1;
    }
    assert(pv.take(pv.len() as int) =~= pv);
    r
}

}
