//! Cross-format conversion: the lossy "render into a new container" path, kept apart from the
//! lossless byte-splice clean path. A document is cleaned in its own format first, then (if
//! another output format is asked for) rendered here into the target.

pub mod textops;
pub mod to_docx;
pub mod to_markdown;
pub mod to_text;
pub mod xml_text;

use vstd::prelude::*;
use crate::engine::error::{CoreError, CoreErrorView};
use crate::engine::ir::{FormatId, format_name};
use crate::text::{ascii_lowercase, lower_ascii_seq, str_eq};

verus! {

/// A conversion target (output format). Unlike `FormatId`, it includes `Pdf` (write-only).
#[derive(Debug, Clone, Copy, PartialEq, Eq, Structural)]
pub enum Target {
    Markdown,
    Text,
    Docx,
    Pdf,
}

/// The target a lower-case extension names.
pub open spec fn target_of_ext(ext: Seq<char>) -> Option<Target> {
    if ext == "md"@ || ext == "markdown"@ || ext == "mdown"@ || ext == "mkd"@ {
        Some(Target::Markdown)
    } else if ext == "txt"@ || ext == "text"@ {
        Some(Target::Text)
    } else if ext == "docx"@ {
        Some(Target::Docx)
    } else if ext == "pdf"@ {
        Some(Target::Pdf)
    } else {
        None
    }
}

/// The display label of a target.
pub open spec fn target_label(t: Target) -> Seq<char> {
    match t {
        Target::Markdown => "markdown"@,
        Target::Text => "text"@,
        Target::Docx => "docx"@,
        Target::Pdf => "pdf"@,
    }
}

/// The canonical file extension of a target.
pub open spec fn target_ext(t: Target) -> Seq<char> {
    match t {
        Target::Markdown => "md"@,
        Target::Text => "txt"@,
        Target::Docx => "docx"@,
        Target::Pdf => "pdf"@,
    }
}

/// Whether a target is the format `f` itself (so no conversion is needed).
pub open spec fn target_is(t: Target, f: FormatId) -> bool {
    ||| t == Target::Markdown && f == FormatId::Markdown
    ||| t == Target::Text && f == FormatId::PlainText
    ||| t == Target::Docx && f == FormatId::Docx
}

impl Target {
    /// Map an output-file extension to a target format (without regard to ASCII case).
    pub fn from_ext(ext: &str) -> (r: Option<Target>)
        ensures
            r == target_of_ext(lower_ascii_seq(ext@)),
    {
        let low = ascii_lowercase(ext);
        let e = low.as_str();
        if str_eq(e, "md") || str_eq(e, "markdown") || str_eq(e, "mdown") || str_eq(e, "mkd") {
            Some(Target::Markdown)
        } else if str_eq(e, "txt") || str_eq(e, "text") {
            Some(Target::Text)
        } else if str_eq(e, "docx") {
            Some(Target::Docx)
        } else if str_eq(e, "pdf") {
            Some(Target::Pdf)
        } else {
            None
        }
    }

    /// True if this target is the same format as `f` (so no conversion is needed).
    pub fn is_same_as(self, f: FormatId) -> (b: bool)
        ensures
            b == target_is(self, f),
    {
        match (self, f) {
            (Target::Markdown, FormatId::Markdown) => true,
            (Target::Text, FormatId::PlainText) => true,
            (Target::Docx, FormatId::Docx) => true,
            _ => false,
        }
    }

    /// The display label.
    pub fn label(self) -> (s: &'static str)
        ensures
            s@ == target_label(self),
    {
        match self {
            Target::Markdown => "markdown",
            Target::Text => "text",
            Target::Docx => "docx",
            Target::Pdf => "pdf",
        }
    }

    /// The canonical file extension for this target.
    pub fn ext(self) -> (s: &'static str)
        ensures
            s@ == target_ext(self),
    {
        match self {
            Target::Markdown => "md",
            Target::Text => "txt",
            Target::Docx => "docx",
            Target::Pdf => "pdf",
        }
    }
}

/// A target's canonical extension names that target again.
pub proof fn lemma_target_ext_roundtrip(t: Target)
    ensures
        target_of_ext(lower_ascii_seq(target_ext(t))) == Some(t),
{
    reveal_strlit("md");
    reveal_strlit("txt");
    reveal_strlit("docx");
    reveal_strlit("pdf");
    reveal_strlit("markdown");
    reveal_strlit("mdown");
    reveal_strlit("mkd");
    reveal_strlit("text");
    crate::text::lemma_lower_ascii_seq_of_lower(target_ext(t));
    assert("md"@.len() == 2 && "txt"@.len() == 3 && "docx"@.len() == 4 && "pdf"@.len() == 3);
    assert("markdown"@.len() == 8 && "mdown"@.len() == 5 && "mkd"@.len() == 3 && "text"@.len() == 4);
    assert("txt"@[0] != "mkd"@[0] && "pdf"@[0] != "mkd"@[0] && "pdf"@[0] != "txt"@[0] && "docx"@[0] != "text"@[0]);
}

/// Every extension the format adapters recognize names, as a conversion target, that same
/// format.
pub proof fn lemma_ext_agrees(e: Seq<char>)
    ensures
        crate::formats::sniff::format_of_ext(e) matches Some(f) ==> (target_of_ext(e) matches Some(t) && target_is(t, f)),
{
}

/// What a conversion did and lost.
#[derive(Debug)]
pub struct ConvertReport {
    /// The engine that produced the output.
    pub engine: String,
    /// True for any cross-container conversion (the byte-identity guarantee no longer holds).
    pub lossy: bool,
    /// Human-readable notes about what was degraded or dropped.
    pub warnings: Vec<String>,
}

/// The mathematical content of a report.
pub struct ConvertReportView {
    pub engine: Seq<char>,
    pub lossy: bool,
    pub warnings: Seq<Seq<char>>,
}

impl View for ConvertReport {
    type V = ConvertReportView;

    open spec fn view(&self) -> ConvertReportView {
        ConvertReportView {
            engine: self.engine@,
            lossy: self.lossy,
            warnings: self.warnings@.map_values(|w: String| w@),
        }
    }
}

/// Why a conversion failed.
#[derive(Debug)]
pub enum ConvertError {
    /// Reading the source document failed.
    Core(CoreError),
    /// The conversion is not available.
    Unsupported { from: &'static str, to: &'static str },
    /// The conversion failed, with the reason.
    Failed(String),
}

/// The mathematical content of a conversion error.
pub enum ConvertErrorView {
    Core(CoreErrorView),
    Unsupported { from: Seq<char>, to: Seq<char> },
    Failed(Seq<char>),
}

impl View for ConvertError {
    type V = ConvertErrorView;

    open spec fn view(&self) -> ConvertErrorView {
        match self {
            ConvertError::Core(e) => ConvertErrorView::Core(e@),
            ConvertError::Unsupported { from, to } => ConvertErrorView::Unsupported { from: from@, to: to@ },
            ConvertError::Failed(m) => ConvertErrorView::Failed(m@),
        }
    }
}

impl ConvertError {
    /// The message of the error, as the command line shows it.
    pub fn message(&self) -> (s: String)
        ensures
            s@ == convert_error_message(self@),
    {
        match self {
            ConvertError::Core(e) => crate::engine::error::core_error_message(e),
            ConvertError::Unsupported { from, to } => {
                let mut s = crate::text::str_to_string("converting ");
                crate::text::string_push_str(&mut s, from);
                crate::text::string_push_str(&mut s, " to ");
                crate::text::string_push_str(&mut s, to);
                crate::text::string_push_str(&mut s, " is not supported yet");
                s
            },
            ConvertError::Failed(m) => crate::text::prefixed("conversion failed: ", m.as_str()),
        }
    }
}

/// The message of a conversion error.
pub open spec fn convert_error_message(e: ConvertErrorView) -> Seq<char> {
    match e {
        ConvertErrorView::Core(c) => crate::engine::error::core_message(c),
        ConvertErrorView::Unsupported { from, to } => "converting "@ + from + " to "@ + to + " is not supported yet"@,
        ConvertErrorView::Failed(m) => "conversion failed: "@ + m,
    }
}

/// The view of a conversion outcome.
pub open spec fn convert_view(r: Result<(Vec<u8>, ConvertReport), ConvertError>) -> Result<(Seq<u8>, ConvertReportView), ConvertErrorView> {
    match r {
        Ok((b, rep)) => Ok((b@, rep@)),
        Err(e) => Err(e@),
    }
}

/// A report of a conversion that copies its input.
pub open spec fn passthrough_report() -> ConvertReportView {
    ConvertReportView { engine: "passthrough"@, lossy: false, warnings: Seq::empty() }
}

/// A report of a passthrough conversion.
pub fn passthrough() -> (r: ConvertReport)
    ensures
        r@ == passthrough_report(),
{
    let r = ConvertReport { engine: crate::text::str_to_string("passthrough"), lossy: false, warnings: Vec::new() };
    assert(r@.warnings =~= Seq::<Seq<char>>::empty());
    r
}

/// What converting `src` (in format `from`) into `to` gives: exactly the outcome of the
/// converter for that target, and for `Pdf`, the unsupported error.
pub open spec fn convert_post(from: FormatId, src: Seq<u8>, to: Target, r: Result<(Vec<u8>, ConvertReport), ConvertError>) -> bool {
    match to {
        Target::Text => convert_view(r) == to_text::text_conversion(from, src),
        Target::Markdown => convert_view(r) == to_markdown::markdown_conversion(from, src),
        Target::Docx => to_docx::docx_conversion_post(from, src, r),
        Target::Pdf => convert_view(r) == Err::<(Seq<u8>, ConvertReportView), ConvertErrorView>(
            ConvertErrorView::Unsupported { from: format_name(from), to: "pdf"@ },
        ),
    }
}

/// Convert already-cleaned `src` bytes (in format `from`) into the `to` format.
pub fn convert(from: FormatId, src: &[u8], to: Target) -> (r: Result<(Vec<u8>, ConvertReport), ConvertError>)
    ensures
        convert_post(from, src@, to, r),
{
    match to {
        Target::Text => to_text::convert(from, src),
        Target::Markdown => to_markdown::convert(from, src),
        Target::Docx => to_docx::convert(from, src),
        Target::Pdf => Err(ConvertError::Unsupported { from: from.as_str(), to: "pdf" }),
    }
}

}
