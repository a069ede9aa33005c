//! XML tokens as `quick-xml` reads them, carried as plain values.

use vstd::prelude::*;
use quick_xml::events::Event::{Empty, End, Eof, Start, Text};
use quick_xml::reader::Reader;

verus! {

/// One token of an XML part.
#[derive(Debug)]
pub enum XmlTok {
    /// A start tag: its name, and the reader's byte position before and after it.
    Start(String, u64, u64),
    /// A self-closing tag, with its name.
    Empty(String),
    /// An end tag: its name, and the reader's byte position before it (where `</` begins).
    End(String, u64),
    /// Character data between tags.
    Text,
    /// Anything else (declarations, comments, references, ...).
    Other,
}

/// The mathematical content of a token.
pub enum XmlTokView {
    Start { name: Seq<char>, pre: u64, post: u64 },
    Empty { name: Seq<char> },
    End { name: Seq<char>, pre: u64 },
    Text,
    Other,
}

impl View for XmlTok {
    type V = XmlTokView;

    open spec fn view(&self) -> XmlTokView {
        match self {
            XmlTok::Start(name, pre, post) => XmlTokView::Start { name: name@, pre: *pre, post: *post },
            XmlTok::Empty(name) => XmlTokView::Empty { name: name@ },
            XmlTok::End(name, pre) => XmlTokView::End { name: name@, pre: *pre },
            XmlTok::Text => XmlTokView::Text,
            XmlTok::Other => XmlTokView::Other,
        }
    }
}

/// Views of a token list.
pub open spec fn xml_toks_view(s: Seq<XmlTok>) -> Seq<XmlTokView> {
    s.map_values(|t: XmlTok| t@)
}

/// The byte positions a token records stay inside the input.
pub open spec fn tok_positions_in(t: XmlTokView, len: nat) -> bool {
    match t {
        XmlTokView::Start { pre, post, .. } => pre <= post <= len,
        XmlTokView::End { pre, .. } => pre <= len,
        _ => true,
    }
}

/// The tokens `quick-xml` reads from `xml` up to the end, or the `Display` text of the first
/// error it meets.
pub uninterp spec fn xml_layout(xml: Seq<u8>) -> Result<Seq<XmlTokView>, Seq<char>>;

/// The attribute list (key, raw value) of each start or self-closing tag `quick-xml` reads
/// from `xml`, in order (malformed attributes skipped), or the text of the first error.
pub uninterp spec fn xml_attr_lists(xml: Seq<u8>) -> Result<Seq<Seq<(Seq<char>, Seq<char>)>>, Seq<char>>;

/// Reads `xml` with `quick_xml::reader::Reader::read_event_into` until `Eof`, converting each
/// event one for one. The contract names the outcome, and states that the recorded positions
/// (`Reader::buffer_position`, the count of input bytes consumed so far) never pass the
/// input's length, and that a start tag's position after it is not before its position
/// before it.
#[verifier::external_body]
pub(crate) fn xml_tokens(xml: &[u8]) -> (r: Result<Vec<XmlTok>, String>)
    ensures
        match r {
            Ok(v) => xml_layout(xml@) == Ok::<Seq<XmlTokView>, Seq<char>>(xml_toks_view(v@)),
            Err(m) => xml_layout(xml@) == Err::<Seq<XmlTokView>, Seq<char>>(m@),
        },
        r matches Ok(v) ==> forall|i: int| 0 <= i < v@.len() ==> tok_positions_in(#[trigger] v@[i]@, xml@.len()),
{
    let mut rd = Reader::from_reader(xml);
    let mut buf = vec![]; let mut out = vec![];
    loop {
        let pre = rd.buffer_position();
        let tok = match rd.read_event_into(&mut buf) {
            Ok(Start(e)) => XmlTok::Start(e.name().0.into(), pre, rd.buffer_position()),
            Ok(Empty(e)) => XmlTok::Empty(e.name().0.into()),
            Ok(End(e)) => XmlTok::End(e.name().0.into(), pre),
            Ok(Text(_)) => XmlTok::Text,
            Ok(Eof) => return Ok(out),
            Err(e) => return Err(e.to_string()),
            _ => XmlTok::Other,
        };
        out.push(tok); buf.clear();
    }
}

/// Reads `xml` with `quick_xml::reader::Reader::read_event_into` until `Eof`, collecting for
/// each start or self-closing tag its attributes (`attributes().flatten()`, key and raw value),
/// and for each text event its content. The contract names the outcome.
#[verifier::external_body]
pub(crate) fn xml_details(xml: &[u8]) -> (r: Result<(Vec<Vec<(String, String)>>, Vec<String>), String>)
    ensures
        match r {
            Ok((a, t)) => xml_attr_lists(xml@) == Ok::<Seq<Seq<(Seq<char>, Seq<char>)>>, Seq<char>>(attr_lists_view(a@))
                && xml_texts(xml@) == Ok::<Seq<Seq<char>>, Seq<char>>(t@.map_values(|x: String| x@)),
            Err(m) => xml_attr_lists(xml@) == Err::<Seq<Seq<(Seq<char>, Seq<char>)>>, Seq<char>>(m@)
                && xml_texts(xml@) == Err::<Seq<Seq<char>>, Seq<char>>(m@),
        },
{
    let (mut rd, mut buf, mut attrs, mut texts) = (Reader::from_reader(xml), Vec::new(), Vec::new(), Vec::new());
    loop {
        match rd.read_event_into(&mut buf) {
            Ok(Start(e)) | Ok(Empty(e)) => attrs.push(e.attributes().flatten().map(|a| (a.key.0.into(), a.value.into())).collect()),
            Ok(Text(t)) => texts.push(t.as_ref().into()),
            Ok(Eof) => return Ok((attrs, texts)),
            Err(e) => return Err(e.to_string()),
            _ => {},
        }
        buf.clear();
    }
}

/// The content of each text event `quick-xml` reads from `xml`, in order, or the text of the
/// first error.
pub uninterp spec fn xml_texts(xml: Seq<u8>) -> Result<Seq<Seq<char>>, Seq<char>>;

/// Views of one attribute list.
pub open spec fn attr_list_view(l: Seq<(String, String)>) -> Seq<(Seq<char>, Seq<char>)> {
    l.map_values(|a: (String, String)| (a.0@, a.1@))
}

/// Views of the attribute lists of a part.
pub open spec fn attr_lists_view(v: Seq<Vec<(String, String)>>) -> Seq<Seq<(Seq<char>, Seq<char>)>> {
    v.map_values(|l: Vec<(String, String)>| attr_list_view(l@))
}

}
