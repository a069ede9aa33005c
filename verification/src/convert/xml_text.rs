//! Decoded prose out of a DOCX, for conversion. (The lossless adapter keeps `<w:t>` text raw and
//! escaped; conversion wants the decoded text.)

use vstd::prelude::*;
use crate::convert::{ConvertError, ConvertErrorView};
use crate::engine::traits::Format;
use crate::formats::docx::{Docx, docx_document, escape_char, paragraph_texts, paragraph_texts_outcome_xml, xml_escaped};
use crate::text::{string_push, string_to_chars};

verus! {

/// The character one of the five standard XML entities at the start of `s` stands for, with
/// the entity's length.
pub open spec fn entity_at(s: Seq<char>) -> Option<(char, nat)> {
    if s.len() >= 4 && s[0] == '&' && s[1] == 'l' && s[2] == 't' && s[3] == ';' {
        Some(('<', 4))
    } else if s.len() >= 4 && s[0] == '&' && s[1] == 'g' && s[2] == 't' && s[3] == ';' {
        Some(('>', 4))
    } else if s.len() >= 6 && s[0] == '&' && s[1] == 'q' && s[2] == 'u' && s[3] == 'o' && s[4] == 't' && s[5] == ';' {
        Some(('"', 6))
    } else if s.len() >= 6 && s[0] == '&' && s[1] == 'a' && s[2] == 'p' && s[3] == 'o' && s[4] == 's' && s[5] == ';' {
        Some(('\'', 6))
    } else if s.len() >= 5 && s[0] == '&' && s[1] == 'a' && s[2] == 'm' && s[3] == 'p' && s[4] == ';' {
        Some(('&', 5))
    } else {
        None
    }
}

/// A text with the five standard XML entities decoded, left to right. A decoded `&` is never
/// read again, so `&amp;lt;` gives the literal `&lt;`.
pub open spec fn xml_unescaped(s: Seq<char>) -> Seq<char>
    decreases s.len(),
{
    if s.len() == 0 {
        Seq::empty()
    } else {
        match entity_at(s) {
            Some((c, n)) => seq![c] + xml_unescaped(s.skip(n as int)),
            None => seq![s[0]] + xml_unescaped(s.drop_first()),
        }
    }
}

/// Decode the five standard XML entities.
pub fn xml_unescape(s: &str) -> (r: String)
    ensures
        r@ == xml_unescaped(s@),
{
    let cs = string_to_chars(s);
    let n = cs.len();
    let mut out = String::new();
    let mut i: usize = 0;
    assert(cs@.skip(0) =~= cs@);
    while i < n
        invariant
            i <= n == cs@.len(),
            cs@ == s@,
            out@ + xml_unescaped(cs@.skip(i as int)) == xml_unescaped(cs@),
        decreases n - i,
    {
        let ghost rest = cs@.skip(i as int);
        let (c, len): (char, usize) = if cs[i] == '&' && n - i >= 4 && cs[i + 1] == 'l' && cs[i + 2] == 't' && cs[i + 3] == ';' {
            ('<', 4)
        } else if cs[i] == '&' && n - i >= 4 && cs[i + 1] == 'g' && cs[i + 2] == 't' && cs[i + 3] == ';' {
            ('>', 4)
        } else if cs[i] == '&' && n - i >= 6 && cs[i + 1] == 'q' && cs[i + 2] == 'u' && cs[i + 3] == 'o' && cs[i + 4] == 't' && cs[i + 5] == ';' {
            ('"', 6)
        } else if cs[i] == '&' && n - i >= 6 && cs[i + 1] == 'a' && cs[i + 2] == 'p' && cs[i + 3] == 'o' && cs[i + 4] == 's' && cs[i + 5] == ';' {
            ('\'', 6)
        } else if cs[i] == '&' && n - i >= 5 && cs[i + 1] == 'a' && cs[i + 2] == 'm' && cs[i + 3] == 'p' && cs[i + 4] == ';' {
            ('&', 5)
        } else {
            (cs[i], 1)
        };
        proof {
            assert(rest[0] == cs@[i as int]);
            assert(forall|k: int| 0 <= k < rest.len() ==> rest[k] == cs@[i + k]);
            if len == 1 {
                assert(entity_at(rest) is None);
                assert(rest.drop_first() =~= cs@.skip(i + 1));
            } else {
                assert(entity_at(rest) == Some((c, len as nat)));
                assert(rest.skip(len as int) =~= cs@.skip(i + len));
            }
            assert(xml_unescaped(rest) == seq![c] + xml_unescaped(cs@.skip(i + len)));
        }
        let ghost before = out@;
        string_push(&mut out, c);
        assert(out@ + xml_unescaped(cs@.skip(i + len)) =~= before + (seq![c] + xml_unescaped(cs@.skip(i + len))));
        i = i + len;
    }
    assert(xml_unescaped(cs@.skip(n as int)) =~= Seq::<char>::empty()) by {
        assert(cs@.skip(n as int).len() == 0);
    }
    assert(out@ + Seq::<char>::empty() =~= out@);
    out
}

proof fn lemma_escaped_cons(c: char, t: Seq<char>)
    ensures
        xml_escaped(seq![c] + t) == escape_char(c) + xml_escaped(t),
    decreases t.len(),
{
    if t.len() == 0 {
        assert(seq![c] + t =~= seq![c]);
        assert(seq![c].drop_last() =~= Seq::<char>::empty());
        assert(seq![c].last() == c);
        assert(xml_escaped(Seq::<char>::empty()) =~= Seq::<char>::empty());
        assert(xml_escaped(seq![c]) =~= Seq::<char>::empty() + escape_char(c));
        assert(escape_char(c) + xml_escaped(t) =~= escape_char(c));
    } else {
        lemma_escaped_cons(c, t.drop_last());
        assert((seq![c] + t).drop_last() =~= seq![c] + t.drop_last());
        assert((seq![c] + t).last() == t.last());
        assert(xml_escaped(seq![c] + t) =~= escape_char(c) + xml_escaped(t.drop_last()) + escape_char(t.last()));
    }
}

proof fn lemma_unescape_one(c: char, u: Seq<char>)
    ensures
        xml_unescaped(escape_char(c) + u) == seq![c] + xml_unescaped(u),
{
    reveal_strlit("&amp;");
    reveal_strlit("&lt;");
    reveal_strlit("&gt;");
    let e = escape_char(c);
    let s = e + u;
    if c == '&' {
        assert(s.skip(5) =~= u);
    } else if c == '<' {
        assert(s.skip(4) =~= u);
    } else if c == '>' {
        assert(s.skip(4) =~= u);
    } else {
        assert(s[0] == c);
        assert(s.drop_first() =~= u);
    }
}

/// Decoding what escaping produced gives back the original text.
pub proof fn lemma_unescape_escape(s: Seq<char>)
    ensures
        xml_unescaped(xml_escaped(s)) == s,
    decreases s.len(),
{
    if s.len() > 0 {
        let t = s.drop_first();
        assert(s =~= seq![s[0]] + t);
        lemma_escaped_cons(s[0], t);
        lemma_unescape_one(s[0], xml_escaped(t));
        lemma_unescape_escape(t);
    } else {
        assert(xml_escaped(s) =~= Seq::<char>::empty());
    }
}

/// Each text decoded.
pub open spec fn decoded_texts(ts: Seq<Seq<char>>) -> Seq<Seq<char>> {
    ts.map_values(|t: Seq<char>| xml_unescaped(t))
}

/// What extracting a DOCX's prose gives: one decoded string per `<w:p>` paragraph, in document
/// order (its `<w:t>` contents joined; empty for a paragraph without text), or the error of
/// reading the package.
pub open spec fn paragraph_texts_outcome(src: Seq<u8>) -> Result<Seq<Seq<char>>, ConvertErrorView> {
    match docx_document(src) {
        Err(e) => Err(ConvertErrorView::Core(e)),
        Ok(d) => match paragraph_texts_outcome_xml(d.source) {
            Err(e) => Err(ConvertErrorView::Core(e)),
            Ok(ts) => Ok(decoded_texts(ts)),
        },
    }
}

/// Extract a DOCX's prose as one decoded string per paragraph, in document order.
pub fn docx_paragraph_texts(src: &[u8]) -> (r: Result<Vec<String>, ConvertError>)
    ensures
        match r {
            Ok(v) => paragraph_texts_outcome(src@) == Ok::<Seq<Seq<char>>, ConvertErrorView>(v@.map_values(|s: String| s@)),
            Err(e) => paragraph_texts_outcome(src@) == Err::<Seq<Seq<char>>, ConvertErrorView>(e@),
        },
{
    let doc = match Docx.parse(src) {
        Ok(d) => d,
        Err(e) => {
            return Err(ConvertError::Core(e));
        },
    };
    let texts = match paragraph_texts(&doc.source) {
        Ok(t) => t,
        Err(e) => {
            return Err(ConvertError::Core(e));
        },
    };
    let ghost tv = texts@.map_values(|s: String| s@);
    let mut out: Vec<String> = Vec::new();
    let mut i: usize = 0;
    while i < texts.len()
        invariant
            i <= texts@.len(),
            tv == texts@.map_values(|s: String| s@),
            out@.map_values(|s: String| s@) =~= decoded_texts(tv).take(i as int),
        decreases texts@.len() - i,
    {
        let ghost before = out@.map_values(|s: String| s@);
        let u = xml_unescape(texts[i].as_str());
        out.push(u);
        assert(tv[i as int] == texts@[i as int]@);
        assert(out@.map_values(|s: String| s@) =~= before.push(u@));
        assert(out@.map_values(|s: String| s@) =~= decoded_texts(tv).take(i + 1));
        i = i + 1;
    }
    assert(decoded_texts(tv).take(tv.len() as int) =~= decoded_texts(tv));
    Ok(out)
}

}
