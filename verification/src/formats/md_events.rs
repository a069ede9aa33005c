//! Markdown events as `pulldown-cmark` reports them, carried as plain values.

use vstd::prelude::*;
use std::ops::Range;
use pulldown_cmark::{Event, Options, Parser, TagEnd};

verus! {

/// The kind of a Markdown event.
#[derive(Debug, Clone, Copy, PartialEq, Eq, Structural)]
pub enum MdKind {
    Start,
    End,
    Text,
    Code,
    SoftBreak,
    HardBreak,
    Other,
}

/// The tag a start or end event opens or closes, as far as the library tells tags apart.
#[derive(Debug, Clone, Copy, PartialEq, Eq, Structural)]
pub enum MdTag {
    Paragraph,
    /// A heading, with its level.
    Heading(u8),
    CodeBlock,
    Image,
    Strong,
    Emphasis,
    List,
    Item,
    Table,
    Other,
    /// The event is neither a start nor an end.
    NoTag,
}

/// One event: its kind, its byte range in the source, its content (for a text or code
/// event; empty otherwise) and its `Debug` rendering.
#[derive(Debug)]
pub struct MdItem {
    pub kind: MdKind,
    pub range: Range<usize>,
    pub text: String,
    pub debug: String,
}

/// The mathematical content of an event.
pub struct MdItemView {
    pub kind: MdKind,
    pub range: Range<usize>,
    pub text: Seq<char>,
    pub debug: Seq<char>,
}

impl View for MdItem {
    type V = MdItemView;

    open spec fn view(&self) -> MdItemView {
        MdItemView { kind: self.kind, range: self.range, text: self.text@, debug: self.debug@ }
    }
}

/// Views of a sequence of events.
pub open spec fn md_items_view(s: Seq<MdItem>) -> Seq<MdItemView> {
    s.map_values(|m: MdItem| m@)
}

/// The events `pulldown-cmark` reports for `src` (tables, strikethrough, footnotes and task
/// lists enabled), with their source ranges.
pub uninterp spec fn md_offset_events(src: Seq<char>) -> Seq<MdItemView>;

/// The tag of each event `pulldown-cmark` reports for `src` (same options), in order.
pub uninterp spec fn md_event_tags(src: Seq<char>) -> Seq<MdTag>;

/// `pulldown_cmark::Parser::new_ext(src, opts).into_offset_iter()` with tables,
/// strikethrough, footnotes and task lists enabled: every event, converted one for one. The
/// contract names the list; it states nothing of the parse itself.
#[verifier::external_body]
pub(crate) fn md_events(src: &str) -> (r: Vec<MdItem>)
    ensures
        md_items_view(r@) == md_offset_events(src@),
{
    let opts = Options::ENABLE_TABLES | Options::ENABLE_STRIKETHROUGH | Options::ENABLE_FOOTNOTES | Options::ENABLE_TASKLISTS;
    Parser::new_ext(src, opts).into_offset_iter().map(|(e, range)| {
        let (debug, text) = (format!("{e:?}"), match &e { Event::Text(t) | Event::Code(t) => t.to_string(), _ => String::new() });
        let kind = match e {
            Event::Start(_) => MdKind::Start, Event::End(_) => MdKind::End, Event::Text(_) => MdKind::Text,
            Event::Code(_) => MdKind::Code, Event::SoftBreak => MdKind::SoftBreak, Event::HardBreak => MdKind::HardBreak,
            _ => MdKind::Other,
        };
        MdItem { kind, range, text, debug }
    }).collect()
}

/// `pulldown_cmark::Parser::new_ext` with the same options: the tag of each event (a start
/// tag taken as the `TagEnd` it converts to). Heading levels are 1 to 6, as
/// `pulldown_cmark::HeadingLevel` defines them.
#[verifier::external_body]
pub(crate) fn md_tags(src: &str) -> (r: Vec<MdTag>)
    ensures
        r@ == md_event_tags(src@),
        forall|i: int| 0 <= i < r@.len() ==> (#[trigger] r@[i] matches MdTag::Heading(l) ==> 1 <= l <= 6),
{
    let opts = Options::ENABLE_TABLES | Options::ENABLE_STRIKETHROUGH | Options::ENABLE_FOOTNOTES | Options::ENABLE_TASKLISTS;
    Parser::new_ext(src, opts).map(|e| {
        let t = match e { Event::Start(t) => TagEnd::from(t), Event::End(t) => t, _ => return MdTag::NoTag };
        match t {
            TagEnd::Paragraph => MdTag::Paragraph, TagEnd::Heading(l) => MdTag::Heading(l as u8),
            TagEnd::CodeBlock => MdTag::CodeBlock, TagEnd::Image => MdTag::Image,
            TagEnd::Strong => MdTag::Strong, TagEnd::Emphasis => MdTag::Emphasis,
            TagEnd::List(_) => MdTag::List, TagEnd::Item => MdTag::Item,
            TagEnd::Table => MdTag::Table, _ => MdTag::Other,
        }
    }).collect()
}

/// The tag of event `i`, `NoTag` past the end of the list.
pub open spec fn tag_at(tags: Seq<MdTag>, i: int) -> MdTag {
    if 0 <= i < tags.len() {
        tags[i]
    } else {
        MdTag::NoTag
    }
}

}
