//! Convert to DOCX (through `docx-rs`). Maps headings, bold/italic, paragraphs and list items;
//! tables and images are not emitted. The paragraphs are first worked out as plain values, then
//! handed to the `docx-rs` builder.

use vstd::prelude::*;
use vstd::utf8::*;
use crate::convert::{ConvertError, ConvertErrorView, ConvertReport, ConvertReportView, passthrough, passthrough_report};
use crate::convert::textops::{lines, lines_of};
use crate::engine::ir::FormatId;
use crate::formats::md_events::{MdItemView, MdKind, MdTag, md_event_tags, md_events, md_items_view, md_offset_events, md_tags, tag_at};
use crate::text::{decimal, decode_utf8_bytes, prefixed, push_decimal, str_to_string, string_push_str, utf8_error_text, utf8_lossy, utf8_lossy_text};

verus! {

/// A document being built by `docx-rs`. (Its type shares its name with this crate's DOCX
/// adapter, which the declaration of an outside type may not name, so it is held here, opaque.)
#[verifier::external_body]
pub struct DocxBuilder {
    d: docx_rs::Docx,
}

#[verifier::external_type_specification]
#[verifier::external_body]
pub struct ExDocxParagraph(docx_rs::Paragraph);

#[verifier::external_type_specification]
#[verifier::external_body]
pub struct ExDocxRun(docx_rs::Run);

/// A run of text with its emphasis.
#[derive(Debug)]
pub struct DocRun {
    pub text: String,
    pub bold: bool,
    pub italic: bool,
}

/// A paragraph: an optional style and its runs.
#[derive(Debug)]
pub struct DocPara {
    pub style: Option<String>,
    pub runs: Vec<DocRun>,
}

/// The mathematical content of a run.
pub struct DocRunView {
    pub text: Seq<char>,
    pub bold: bool,
    pub italic: bool,
}

/// The mathematical content of a paragraph.
pub struct DocParaView {
    pub style: Option<Seq<char>>,
    pub runs: Seq<DocRunView>,
}

impl View for DocRun {
    type V = DocRunView;

    open spec fn view(&self) -> DocRunView {
        DocRunView { text: self.text@, bold: self.bold, italic: self.italic }
    }
}

/// Views of runs.
pub open spec fn runs_view(s: Seq<DocRun>) -> Seq<DocRunView> {
    s.map_values(|r: DocRun| r@)
}

impl View for DocPara {
    type V = DocParaView;

    open spec fn view(&self) -> DocParaView {
        DocParaView {
            style: match self.style {
                Some(s) => Some(s@),
                None => None,
            },
            runs: runs_view(self.runs@),
        }
    }
}

/// Views of paragraphs.
pub open spec fn paras_view(s: Seq<DocPara>) -> Seq<DocParaView> {
    s.map_values(|p: DocPara| p@)
}

// ---------------------------------------------------------------------------------------
// Plain text
// ---------------------------------------------------------------------------------------

/// A plain run.
pub open spec fn plain_run(t: Seq<char>) -> DocRunView {
    DocRunView { text: t, bold: false, italic: false }
}

/// The paragraphs of a plain text: one unstyled, plain run per line.
pub open spec fn text_paragraphs(src: Seq<u8>) -> Seq<DocParaView> {
    lines_of(utf8_lossy_text(src)).map_values(|l: Seq<char>| DocParaView { style: None, runs: seq![plain_run(l)] })
}

fn plain_para(text: String) -> (p: DocPara)
    ensures
        p@ == (DocParaView { style: None, runs: seq![plain_run(text@)] }),
{
    let mut runs: Vec<DocRun> = Vec::new();
    runs.push(DocRun { text, bold: false, italic: false });
    let p = DocPara { style: None, runs };
    assert(p@.runs =~= seq![plain_run(text@)]);
    p
}

/// One paragraph per line of the (lossily decoded) text.
pub fn text_to_docx(src: &[u8]) -> (r: Vec<DocPara>)
    ensures
        paras_view(r@) == text_paragraphs(src@),
{
    let s = utf8_lossy(src);
    let ls = lines(s.as_str());
    let ghost lv = ls@.map_values(|l: String| l@);
    let mut out: Vec<DocPara> = Vec::new();
    let mut i: usize = 0;
    while i < ls.len()
        invariant
            i <= ls@.len(),
            lv == ls@.map_values(|l: String| l@),
            lv == lines_of(utf8_lossy_text(src@)),
            paras_view(out@) =~= lv.take(i as int).map_values(|l: Seq<char>| DocParaView { style: None, runs: seq![plain_run(l)] }),
        decreases ls@.len() - i,
    {
        let p = plain_para(str_to_string(ls[i].as_str()));
        let ghost before = paras_view(out@);
        out.push(p);
        assert(paras_view(out@) =~= before.push(p@));
        assert(lv.take(i + 1) =~= lv.take(i as int).push(ls@[i as int]@));
        i = i + 1;
    }
    assert(lv.take(lv.len() as int) =~= lv);
    out
}

// ---------------------------------------------------------------------------------------
// Markdown
// ---------------------------------------------------------------------------------------

/// The state of the Markdown walk.
pub struct MdDocState {
    /// Finished paragraphs.
    pub paras: Seq<DocParaView>,
    /// Runs of the paragraph being built.
    pub runs: Seq<DocRunView>,
    pub has_content: bool,
    /// The level of the heading being read.
    pub heading: Option<u8>,
    pub bold: bool,
    pub italic: bool,
    pub list_depth: nat,
    /// A list item has started and its marker is not yet written.
    pub item_open: bool,
    pub warnings: Seq<Seq<char>>,
}

/// The state at the start.
pub open spec fn md_doc_start() -> MdDocState {
    MdDocState {
        paras: Seq::empty(),
        runs: Seq::empty(),
        has_content: false,
        heading: None,
        bold: false,
        italic: false,
        list_depth: 0,
        item_open: false,
        warnings: Seq::empty(),
    }
}

/// Close the paragraph being built (kept when it has content), with a style.
pub open spec fn close_para(s: MdDocState, style: Option<Seq<char>>) -> MdDocState {
    MdDocState {
        paras: if s.has_content { s.paras.push(DocParaView { style, runs: s.runs }) } else { s.paras },
        runs: Seq::empty(),
        has_content: false,
        ..s
    }
}

/// The style of a heading level.
pub open spec fn heading_style(l: u8) -> Seq<char> {
    "Heading"@ + decimal(l as nat)
}

/// Four spaces per level.
pub open spec fn indent(n: nat) -> Seq<char>
    decreases n,
{
    if n == 0 {
        Seq::empty()
    } else {
        indent((n - 1) as nat) + "    "@
    }
}

/// The warning of dropped tables.
pub open spec fn table_warning() -> Seq<char> {
    "tables are dropped in Markdown\u{2192}DOCX"@
}

/// The warning of dropped images.
pub open spec fn image_warning() -> Seq<char> {
    "images are dropped in Markdown\u{2192}DOCX"@
}

/// One step of the walk.
pub open spec fn md_doc_step(s: MdDocState, it: MdItemView, t: MdTag) -> MdDocState {
    let k = it.kind;
    if k == MdKind::Start {
        match t {
            MdTag::Heading(l) => MdDocState { heading: Some(l), ..s },
            MdTag::Strong => MdDocState { bold: true, ..s },
            MdTag::Emphasis => MdDocState { italic: true, ..s },
            MdTag::List => MdDocState { list_depth: s.list_depth + 1, ..s },
            MdTag::Item => MdDocState { item_open: true, ..s },
            MdTag::Table => MdDocState { warnings: s.warnings.push(table_warning()), ..s },
            MdTag::Image => MdDocState { warnings: s.warnings.push(image_warning()), ..s },
            _ => s,
        }
    } else if k == MdKind::End {
        match t {
            MdTag::Heading(_) => {
                let style = match s.heading {
                    Some(h) => Some(heading_style(h)),
                    None => None,
                };
                MdDocState { heading: None, ..close_para(s, style) }
            },
            MdTag::Paragraph | MdTag::CodeBlock => close_para(s, None),
            MdTag::Strong => MdDocState { bold: false, ..s },
            MdTag::Emphasis => MdDocState { italic: false, ..s },
            MdTag::List => MdDocState { list_depth: if s.list_depth == 0 { 0 } else { (s.list_depth - 1) as nat }, ..s },
            MdTag::Item => MdDocState { item_open: false, ..close_para(s, None) },
            _ => s,
        }
    } else if k == MdKind::Text || k == MdKind::Code {
        let marker = s.item_open && !s.has_content;
        let text = if marker {
            indent(if s.list_depth == 0 { 0 } else { (s.list_depth - 1) as nat }) + "\u{2022} "@ + it.text
        } else {
            it.text
        };
        MdDocState {
            runs: s.runs.push(DocRunView { text, bold: s.bold, italic: s.italic }),
            has_content: true,
            item_open: if marker { false } else { s.item_open },
            ..s
        }
    } else if k == MdKind::SoftBreak || k == MdKind::HardBreak {
        MdDocState { runs: s.runs.push(plain_run(" "@)), has_content: true, ..s }
    } else {
        s
    }
}

/// The walk over the first `n` events.
pub open spec fn md_doc_walk(items: Seq<MdItemView>, tags: Seq<MdTag>, n: nat) -> MdDocState
    decreases n,
{
    if n == 0 {
        md_doc_start()
    } else {
        md_doc_step(md_doc_walk(items, tags, (n - 1) as nat), items[n - 1], tag_at(tags, n - 1))
    }
}

/// What a Markdown source becomes: its paragraphs (the last one closed unstyled) and the
/// warnings about what was dropped; or why the input could not be read.
pub open spec fn markdown_paragraphs(src: Seq<u8>) -> Result<(Seq<DocParaView>, Seq<Seq<char>>), ConvertErrorView> {
    if valid_utf8(src) {
        let s = decode_utf8(src);
        let items = md_offset_events(s);
        let w = md_doc_walk(items, md_event_tags(s), items.len());
        Ok((close_para(w, None).paras, w.warnings))
    } else {
        Err(ConvertErrorView::Failed("not UTF-8: "@ + utf8_error_text(src)))
    }
}

/// The exec state of the walk.
struct Walk {
    paras: Vec<DocPara>,
    runs: Vec<DocRun>,
    has_content: bool,
    heading: Option<u8>,
    bold: bool,
    italic: bool,
    list_depth: usize,
    item_open: bool,
    warnings: Vec<String>,
}

impl Walk {
    spec fn state(&self) -> MdDocState {
        MdDocState {
            paras: paras_view(self.paras@),
            runs: runs_view(self.runs@),
            has_content: self.has_content,
            heading: self.heading,
            bold: self.bold,
            italic: self.italic,
            list_depth: self.list_depth as nat,
            item_open: self.item_open,
            warnings: self.warnings@.map_values(|w: String| w@),
        }
    }

    fn close(&mut self, style: Option<String>)
        ensures
            final(self).state() == close_para(
                old(self).state(),
                match style {
                    Some(s) => Some(s@),
                    None => None,
                },
            ),
    {
        let ghost s0 = self.state();
        let mut runs: Vec<DocRun> = Vec::new();
        std::mem::swap(&mut runs, &mut self.runs);
        if self.has_content {
            let p = DocPara { style, runs };
            let ghost before = paras_view(self.paras@);
            self.paras.push(p);
            assert(paras_view(self.paras@) =~= before.push(p@));
        }
        self.has_content = false;
        assert(runs_view(self.runs@) =~= Seq::<DocRunView>::empty());
    }
}

fn push_indent(out: &mut String, n: usize)
    ensures
        final(out)@ == old(out)@ + indent(n as nat),
{
    let ghost start = out@;
    let mut k: usize = 0;
    while k < n
        invariant
            k <= n,
            out@ == start + indent(k as nat),
        decreases n - k,
    {
        string_push_str(out, "    ");
        assert(out@ =~= start + indent((k + 1) as nat));
        k = k + 1;
    }
}

/// The paragraphs and warnings of a Markdown source, as `markdown_paragraphs` describes them.
pub fn markdown_to_docx(src: &[u8]) -> (r: Result<(Vec<DocPara>, Vec<String>), ConvertError>)
    ensures
        match r {
            Ok((ps, ws)) => markdown_paragraphs(src@) == Ok::<(Seq<DocParaView>, Seq<Seq<char>>), ConvertErrorView>(
                (paras_view(ps@), ws@.map_values(|w: String| w@)),
            ),
            Err(e) => markdown_paragraphs(src@) == Err::<(Seq<DocParaView>, Seq<Seq<char>>), ConvertErrorView>(e@),
        },
{
    let s = match decode_utf8_bytes(src) {
        Ok(s) => s,
        Err(m) => {
            return Err(ConvertError::Failed(prefixed("not UTF-8: ", m.as_str())));
        },
    };
    let items = md_events(s.as_str());
    let tags = md_tags(s.as_str());
    let ghost iv = md_items_view(items@);
    let mut w = Walk {
        paras: Vec::new(),
        runs: Vec::new(),
        has_content: false,
        heading: None,
        bold: false,
        italic: false,
        list_depth: 0,
        item_open: false,
        warnings: Vec::new(),
    };
    assert(w.state() == md_doc_start()) by {
        assert(paras_view(w.paras@) =~= Seq::<DocParaView>::empty());
        assert(runs_view(w.runs@) =~= Seq::<DocRunView>::empty());
        assert(w.warnings@.map_values(|x: String| x@) =~= Seq::<Seq<char>>::empty());
    }
    let mut i: usize = 0;
    while i < items.len()
        invariant
            i <= items@.len(),
            iv == md_items_view(items@),
            w.state() == md_doc_walk(iv, tags@, i as nat),
            w.list_depth <= i,
            forall|j: int| 0 <= j < tags@.len() ==> (#[trigger] tags@[j] matches MdTag::Heading(l) ==> 1 <= l <= 6),
        decreases items@.len() - i,
    {
        let it = &items[i];
        assert(iv[i as int] == it@);
        let t = if i < tags.len() { tags[i] } else { MdTag::NoTag };
        let ghost s0 = w.state();
        match it.kind {
            MdKind::Start => {
                match t {
                    MdTag::Heading(l) => {
                        w.heading = Some(l);
                    },
                    MdTag::Strong => {
                        w.bold = true;
                    },
                    MdTag::Emphasis => {
                        w.italic = true;
                    },
                    MdTag::List => {
                        w.list_depth = w.list_depth + 1;
                    },
                    MdTag::Item => {
                        w.item_open = true;
                    },
                    MdTag::Table => {
                        let ghost before = w.warnings@.map_values(|x: String| x@);
                        w.warnings.push(str_to_string("tables are dropped in Markdown\u{2192}DOCX"));
                        assert(w.warnings@.map_values(|x: String| x@) =~= before.push(table_warning()));
                    },
                    MdTag::Image => {
                        let ghost before = w.warnings@.map_values(|x: String| x@);
                        w.warnings.push(str_to_string("images are dropped in Markdown\u{2192}DOCX"));
                        assert(w.warnings@.map_values(|x: String| x@) =~= before.push(image_warning()));
                    },
                    _ => {},
                }
            },
            MdKind::End => {
                match t {
                    MdTag::Heading(_) => {
                        let style = match w.heading {
                            Some(h) => {
                                let mut st = str_to_string("Heading");
                                push_decimal(&mut st, h as u128);
                                Some(st)
                            },
                            None => None,
                        };
                        w.close(style);
                        w.heading = None;
                    },
                    MdTag::Paragraph | MdTag::CodeBlock => {
                        w.close(None);
                    },
                    MdTag::Strong => {
                        w.bold = false;
                    },
                    MdTag::Emphasis => {
                        w.italic = false;
                    },
                    MdTag::List => {
                        if w.list_depth > 0 {
                            w.list_depth = w.list_depth - 1;
                        }
                    },
                    MdTag::Item => {
                        w.close(None);
                        w.item_open = false;
                    },
                    _ => {},
                }
            },
            MdKind::Text | MdKind::Code => {
                let marker = w.item_open && !w.has_content;
                let text = if marker {
                    w.item_open = false;
                    let mut t2 = String::new();
                    push_indent(&mut t2, if w.list_depth == 0 { 0 } else { w.list_depth - 1 });
                    string_push_str(&mut t2, "\u{2022} ");
                    string_push_str(&mut t2, it.text.as_str());
                    t2
                } else {
                    str_to_string(it.text.as_str())
                };
                let run = DocRun { text, bold: w.bold, italic: w.italic };
                let ghost before = runs_view(w.runs@);
                w.runs.push(run);
                assert(runs_view(w.runs@) =~= before.push(run@));
                w.has_content = true;
            },
            MdKind::SoftBreak | MdKind::HardBreak => {
                let run = DocRun { text: str_to_string(" "), bold: false, italic: false };
                let ghost before = runs_view(w.runs@);
                w.runs.push(run);
                assert(runs_view(w.runs@) =~= before.push(run@));
                w.has_content = true;
            },
            MdKind::Other => {},
        }
        assert(w.state() =~= md_doc_walk(iv, tags@, (i + 1) as nat));
        i = i + 1;
    }
    let ghost wf = w.state();
    w.close(None);
    Ok((w.paras, w.warnings))
}

// ---------------------------------------------------------------------------------------
// Building the package
// ---------------------------------------------------------------------------------------

/// What a `docx_rs::Run` holds: its text children in order, and whether bold and italic
/// are set.
pub struct DocxRunView {
    pub texts: Seq<Seq<char>>,
    pub bold: bool,
    pub italic: bool,
}

/// What a `docx_rs::Paragraph` holds: its style id and its run children in order.
pub struct DocxParaView {
    pub style: Option<Seq<char>>,
    pub runs: Seq<DocxRunView>,
}

/// The content of a `docx_rs::Run`.
pub uninterp spec fn docx_run_content(r: docx_rs::Run) -> DocxRunView;

/// The content of a `docx_rs::Paragraph`.
pub uninterp spec fn docx_paragraph_content(p: docx_rs::Paragraph) -> DocxParaView;

/// The paragraphs of a document being built, in order.
pub uninterp spec fn docx_body(d: DocxBuilder) -> Seq<DocxParaView>;

/// What `docx_rs::Docx::build` then `pack` into an empty in-memory buffer gives for a new
/// document holding these paragraphs, whose paragraph ids are `ids`: the package's bytes, or
/// the error's message.
pub uninterp spec fn docx_rs_package(paras: Seq<DocxParaView>, ids: Seq<Seq<char>>) -> Result<Seq<u8>, Seq<char>>;

/// A text without its line feeds, as `docx_rs::Run::add_text` stores it.
pub open spec fn without_newlines(t: Seq<char>) -> Seq<char> {
    t.filter(|c: char| c != '\n')
}

/// A run as the builder holds it: one text child, without line feeds.
pub open spec fn written_run(r: DocRunView) -> DocxRunView {
    DocxRunView { texts: seq![without_newlines(r.text)], bold: r.bold, italic: r.italic }
}

/// A paragraph as the builder holds it.
pub open spec fn written_para(p: DocParaView) -> DocxParaView {
    DocxParaView { style: p.style, runs: p.runs.map_values(|r: DocRunView| written_run(r)) }
}

/// Paragraphs as the builder holds them.
pub open spec fn written_paras(ps: Seq<DocParaView>) -> Seq<DocxParaView> {
    ps.map_values(|p: DocParaView| written_para(p))
}

/// `docx_rs::Docx::new`: a document with no paragraphs.
#[verifier::external_body]
fn docx_new() -> (d: DocxBuilder)
    ensures
        docx_body(d) == Seq::<DocxParaView>::empty(),
{
    DocxBuilder { d: docx_rs::Docx::new() }
}

/// `docx_rs::Docx::add_paragraph`: the paragraph is appended to the document's children.
#[verifier::external_body]
fn docx_add_paragraph(d: DocxBuilder, p: docx_rs::Paragraph) -> (r: DocxBuilder)
    ensures
        docx_body(r) == docx_body(d).push(docx_paragraph_content(p)),
{
    DocxBuilder { d: d.d.add_paragraph(p) }
}

/// `docx_rs::Paragraph::new`: no style, no children.
#[verifier::external_body]
fn paragraph_new() -> (p: docx_rs::Paragraph)
    ensures
        docx_paragraph_content(p) == (DocxParaView { style: None, runs: Seq::empty() }),
{
    docx_rs::Paragraph::new()
}

/// `docx_rs::Paragraph::style`: sets the paragraph's style id.
#[verifier::external_body]
fn paragraph_style(p: docx_rs::Paragraph, style: &str) -> (r: docx_rs::Paragraph)
    ensures
        docx_paragraph_content(r) == (DocxParaView { style: Some(style@), runs: docx_paragraph_content(p).runs }),
{
    p.style(style)
}

/// `docx_rs::Paragraph::add_run`: the run is appended to the paragraph's children.
#[verifier::external_body]
fn paragraph_add_run(p: docx_rs::Paragraph, r: docx_rs::Run) -> (q: docx_rs::Paragraph)
    ensures
        docx_paragraph_content(q) == (DocxParaView {
            style: docx_paragraph_content(p).style,
            runs: docx_paragraph_content(p).runs.push(docx_run_content(r)),
        }),
{
    p.add_run(r)
}

/// `docx_rs::Run::new`: no text, neither bold nor italic.
#[verifier::external_body]
fn run_new() -> (r: docx_rs::Run)
    ensures
        docx_run_content(r) == (DocxRunView { texts: Seq::empty(), bold: false, italic: false }),
{
    docx_rs::Run::new()
}

/// `docx_rs::Run::add_text`: appends a text child, with its line feeds removed.
#[verifier::external_body]
fn run_add_text(r: docx_rs::Run, text: &str) -> (q: docx_rs::Run)
    ensures
        docx_run_content(q) == (DocxRunView {
            texts: docx_run_content(r).texts.push(without_newlines(text@)),
            bold: docx_run_content(r).bold,
            italic: docx_run_content(r).italic,
        }),
{
    r.add_text(text)
}

/// `docx_rs::Run::bold`: sets bold.
#[verifier::external_body]
fn run_bold(r: docx_rs::Run) -> (q: docx_rs::Run)
    ensures
        docx_run_content(q) == (DocxRunView { bold: true, ..docx_run_content(r) }),
{
    r.bold()
}

/// `docx_rs::Run::italic`: sets italic.
#[verifier::external_body]
fn run_italic(r: docx_rs::Run) -> (q: docx_rs::Run)
    ensures
        docx_run_content(q) == (DocxRunView { italic: true, ..docx_run_content(r) }),
{
    r.italic()
}

/// `docx_rs::Docx::build`, then `XMLDocx::pack` into memory. On failure, the error's message.
/// `docx-rs` numbers paragraphs from a per-thread counter (`generate_para_id`), so which ids
/// the paragraphs carry depends on what the thread built before; the outcome is the package
/// of the document's paragraphs under some ids.
#[verifier::external_body]
fn docx_pack(d: DocxBuilder) -> (r: Result<Vec<u8>, String>)
    ensures
        exists|ids: Seq<Seq<char>>| #[trigger] docx_rs_package(docx_body(d), ids) == match r {
            Ok(b) => Ok::<Seq<u8>, Seq<char>>(b@),
            Err(m) => Err::<Seq<u8>, Seq<char>>(m@),
        },
{
    let mut cursor = std::io::Cursor::new(Vec::new());
    d.d.build().pack(&mut cursor).map_err(|e| e.to_string())?;
    Ok(cursor.into_inner())
}

/// Hand the paragraphs to the `docx-rs` builder, in order: the document then holds each of
/// them, its runs' texts without line feeds.
fn build_docx(paras: &Vec<DocPara>) -> (d: DocxBuilder)
    ensures
        docx_body(d) == written_paras(paras_view(paras@)),
{
    let ghost target = written_paras(paras_view(paras@));
    let mut d = docx_new();
    let mut i: usize = 0;
    while i < paras.len()
        invariant
            i <= paras@.len(),
            target == written_paras(paras_view(paras@)),
            docx_body(d) == target.take(i as int),
        decreases paras@.len() - i,
    {
        let para = &paras[i];
        let ghost pv = para@;
        let ghost wruns = pv.runs.map_values(|r: DocRunView| written_run(r));
        let mut p = paragraph_new();
        match &para.style {
            Some(s) => {
                p = paragraph_style(p, s.as_str());
            },
            None => {},
        }
        assert(wruns.take(0) =~= Seq::<DocxRunView>::empty());
        let mut j: usize = 0;
        while j < para.runs.len()
            invariant
                j <= para.runs@.len(),
                pv == para@,
                wruns == pv.runs.map_values(|r: DocRunView| written_run(r)),
                docx_paragraph_content(p) == (DocxParaView { style: pv.style, runs: wruns.take(j as int) }),
            decreases para.runs@.len() - j,
        {
            let run = &para.runs[j];
            let mut r = run_add_text(run_new(), run.text.as_str());
            if run.bold {
                r = run_bold(r);
            }
            if run.italic {
                r = run_italic(r);
            }
            proof {
                assert(pv.runs[j as int] == run@);
                assert(Seq::<Seq<char>>::empty().push(without_newlines(run.text@)) =~= seq![without_newlines(run.text@)]);
                assert(docx_run_content(r) == written_run(run@));
            }
            p = paragraph_add_run(p, r);
            assert(wruns.take(j + 1) =~= wruns.take(j as int).push(written_run(run@)));
            j = j + 1;
        }
        assert(wruns.take(j as int) =~= wruns);
        assert(paras_view(paras@)[i as int] == pv);
        d = docx_add_paragraph(d, p);
        assert(target.take(i + 1) =~= target.take(i as int).push(written_para(pv)));
        i = i + 1;
    }
    assert(target.take(i as int) =~= target);
    d
}

/// What converting to DOCX gives: a DOCX passes through unchanged; text and Markdown become
/// the paragraphs `text_paragraphs` and `markdown_paragraphs` describe, handed to `docx-rs`
/// and packed (`docx_written`).
pub open spec fn docx_conversion_post(from: FormatId, src: Seq<u8>, r: Result<(Vec<u8>, ConvertReport), ConvertError>) -> bool {
    match from {
        FormatId::Docx => crate::convert::convert_view(r) == Ok::<(Seq<u8>, ConvertReportView), ConvertErrorView>(
            (src, passthrough_report()),
        ),
        FormatId::PlainText => docx_written(r, text_paragraphs(src), Seq::empty()),
        FormatId::Markdown => match markdown_paragraphs(src) {
            Err(e) => crate::convert::convert_view(r) == Err::<(Seq<u8>, ConvertReportView), ConvertErrorView>(e),
            Ok((ps, ws)) => docx_written(r, ps, ws),
        },
    }
}

/// The outcome of packing `paras`: under some paragraph ids, the package `docx-rs` makes of
/// them with the `docx-rs` report carrying these warnings, or its failure reported as
/// `writing .docx: ...`.
pub open spec fn docx_written(r: Result<(Vec<u8>, ConvertReport), ConvertError>, paras: Seq<DocParaView>, ws: Seq<Seq<char>>) -> bool {
    exists|ids: Seq<Seq<char>>| {
        &&& #[trigger] docx_rs_package(written_paras(paras), ids) matches Ok(b) ==> crate::convert::convert_view(r) == Ok::<
            (Seq<u8>, ConvertReportView),
            ConvertErrorView,
        >((b, ConvertReportView { engine: "docx-rs"@, lossy: true, warnings: ws }))
        &&& docx_rs_package(written_paras(paras), ids) matches Err(m) ==> crate::convert::convert_view(r) == Err::<
            (Seq<u8>, ConvertReportView),
            ConvertErrorView,
        >(ConvertErrorView::Failed("writing .docx: "@ + m))
    }
}

/// Convert to DOCX.
pub fn convert(from: FormatId, src: &[u8]) -> (r: Result<(Vec<u8>, ConvertReport), ConvertError>)
    ensures
        docx_conversion_post(from, src@, r),
{
    let (paras, warnings) = match from {
        FormatId::Docx => {
            return Ok((vstd::slice::slice_to_vec(src), passthrough()));
        },
        FormatId::PlainText => {
            let w: Vec<String> = Vec::new();
            assert(w@.map_values(|x: String| x@) =~= Seq::<Seq<char>>::empty());
            (text_to_docx(src), w)
        },
        FormatId::Markdown => match markdown_to_docx(src) {
            Ok(pw) => pw,
            Err(e) => {
                return Err(e);
            },
        },
    };
    let d = build_docx(&paras);
    let ghost body = docx_body(d);
    let ghost ws = warnings@.map_values(|x: String| x@);
    let packed = docx_pack(d);
    let ghost ids = choose|ids: Seq<Seq<char>>| #[trigger] docx_rs_package(body, ids) == match packed {
        Ok(b) => Ok::<Seq<u8>, Seq<char>>(b@),
        Err(m) => Err::<Seq<u8>, Seq<char>>(m@),
    };
    match packed {
        Ok(bytes) => {
            let rep = ConvertReport { engine: str_to_string("docx-rs"), lossy: true, warnings };
            let r = Ok((bytes, rep));
            assert(docx_rs_package(written_paras(paras_view(paras@)), ids) == Ok::<Seq<u8>, Seq<char>>(bytes@));
            assert(crate::convert::convert_view(r) == Ok::<(Seq<u8>, ConvertReportView), ConvertErrorView>(
                (bytes@, ConvertReportView { engine: "docx-rs"@, lossy: true, warnings: ws }),
            ));
            r
        },
        Err(m) => {
            let msg = prefixed("writing .docx: ", m.as_str());
            let r = Err(ConvertError::Failed(msg));
            assert(docx_rs_package(written_paras(paras_view(paras@)), ids) == Err::<Seq<u8>, Seq<char>>(m@));
            r
        },
    }
}

/// Whether the last start or end of a `tag` element among the first `n` events is a start:
/// the element is open at that point.
pub open spec fn open_after(items: Seq<MdItemView>, tags: Seq<MdTag>, n: nat, tag: MdTag) -> bool
    decreases n,
{
    if n == 0 {
        false
    } else if tag_at(tags, n - 1) == tag && items[n - 1].kind == MdKind::Start {
        true
    } else if tag_at(tags, n - 1) == tag && items[n - 1].kind == MdKind::End {
        false
    } else {
        open_after(items, tags, (n - 1) as nat, tag)
    }
}

proof fn lemma_walk_emphasis(items: Seq<MdItemView>, tags: Seq<MdTag>, n: nat)
    requires
        n <= items.len(),
    ensures
        md_doc_walk(items, tags, n).italic == open_after(items, tags, n, MdTag::Emphasis),
        md_doc_walk(items, tags, n).bold == open_after(items, tags, n, MdTag::Strong),
    decreases n,
{
    if n > 0 {
        lemma_walk_emphasis(items, tags, (n - 1) as nat);
    }
}

/// The run a text or code event adds is italic exactly when an emphasis is open at that
/// event (its last emphasis start or end before it is a start), and bold exactly when a
/// strong element is open: emphasis ends where its closing marker is.
pub proof fn lemma_run_emphasis(items: Seq<MdItemView>, tags: Seq<MdTag>, n: nat)
    requires
        0 < n <= items.len(),
        items[n - 1].kind == MdKind::Text || items[n - 1].kind == MdKind::Code,
    ensures
        md_doc_walk(items, tags, n).runs.len() > 0,
        md_doc_walk(items, tags, n).runs.last().italic == open_after(items, tags, (n - 1) as nat, MdTag::Emphasis),
        md_doc_walk(items, tags, n).runs.last().bold == open_after(items, tags, (n - 1) as nat, MdTag::Strong),
{
    lemma_walk_emphasis(items, tags, (n - 1) as nat);
}

/// The level of the heading open after the first `n` events: that of the last heading start,
/// unless a heading end came after it.
pub open spec fn open_heading(items: Seq<MdItemView>, tags: Seq<MdTag>, n: nat) -> Option<u8>
    decreases n,
{
    if n == 0 {
        None
    } else if items[n - 1].kind == MdKind::Start && tag_at(tags, n - 1) is Heading {
        Some(tag_at(tags, n - 1)->Heading_0)
    } else if items[n - 1].kind == MdKind::End && tag_at(tags, n - 1) is Heading {
        None
    } else {
        open_heading(items, tags, (n - 1) as nat)
    }
}

proof fn lemma_walk_heading(items: Seq<MdItemView>, tags: Seq<MdTag>, n: nat)
    requires
        n <= items.len(),
    ensures
        md_doc_walk(items, tags, n).heading == open_heading(items, tags, n),
    decreases n,
{
    if n > 0 {
        lemma_walk_heading(items, tags, (n - 1) as nat);
    }
}

/// A heading with text becomes one paragraph styled `Heading<level>` (the level of its start
/// tag), holding the heading's runs.
pub proof fn lemma_heading_styled(items: Seq<MdItemView>, tags: Seq<MdTag>, n: nat)
    requires
        0 < n <= items.len(),
        items[n - 1].kind == MdKind::End,
        tag_at(tags, n - 1) is Heading,
        md_doc_walk(items, tags, (n - 1) as nat).has_content,
        open_heading(items, tags, (n - 1) as nat) is Some,
    ensures
        md_doc_walk(items, tags, n).paras == md_doc_walk(items, tags, (n - 1) as nat).paras.push(
            DocParaView {
                style: Some("Heading"@ + decimal(open_heading(items, tags, (n - 1) as nat)->Some_0 as nat)),
                runs: md_doc_walk(items, tags, (n - 1) as nat).runs,
            },
        ),
{
    lemma_walk_heading(items, tags, (n - 1) as nat);
}

}
