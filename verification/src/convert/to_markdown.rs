//! Convert to Markdown.

use vstd::prelude::*;
use crate::convert::{ConvertError, ConvertErrorView, ConvertReport, ConvertReportView, passthrough, passthrough_report};
use crate::convert::textops::{join, joined, trim, trimmed};
use crate::convert::to_text::string_bytes;
use crate::convert::xml_text::{docx_paragraph_texts, paragraph_texts_outcome};
use crate::engine::ir::FormatId;
use crate::text::{str_to_string, string_push, utf8};

verus! {

/// The pieces that are not blank.
pub open spec fn non_blank(ps: Seq<Seq<char>>) -> Seq<Seq<char>>
    decreases ps.len(),
{
    if ps.len() == 0 {
        Seq::empty()
    } else if trimmed(ps.last()).len() == 0 {
        non_blank(ps.drop_last())
    } else {
        non_blank(ps.drop_last()).push(ps.last())
    }
}

/// The warning of a DOCX-to-Markdown conversion.
pub open spec fn docx_markdown_warning() -> Seq<char> {
    "extracted prose as paragraphs; headings, bold/italic, tables and images are not yet mapped to Markdown"@
}

/// What converting to Markdown gives: text and Markdown pass through unchanged; a DOCX becomes
/// its non-blank paragraphs separated by blank lines.
pub open spec fn markdown_conversion(from: FormatId, src: Seq<u8>) -> Result<(Seq<u8>, ConvertReportView), ConvertErrorView> {
    match from {
        FormatId::PlainText | FormatId::Markdown => Ok((src, passthrough_report())),
        FormatId::Docx => match paragraph_texts_outcome(src) {
            Err(e) => Err(e),
            Ok(ps) => Ok(
                (
                    utf8(joined(non_blank(ps), "\n\n"@) + seq!['\n']),
                    ConvertReportView { engine: "docx-extract"@, lossy: true, warnings: seq![docx_markdown_warning()] },
                ),
            ),
        },
    }
}

/// Convert to Markdown.
pub fn convert(from: FormatId, src: &[u8]) -> (r: Result<(Vec<u8>, ConvertReport), ConvertError>)
    ensures
        crate::convert::convert_view(r) == markdown_conversion(from, src@),
{
    match from {
        FormatId::PlainText | FormatId::Markdown => Ok((vstd::slice::slice_to_vec(src), passthrough())),
        FormatId::Docx => {
            let ps = match docx_paragraph_texts(src) {
                Ok(ps) => ps,
                Err(e) => {
                    return Err(e);
                },
            };
            let ghost pv = ps@.map_values(|s: String| s@);
            let mut kept: Vec<String> = Vec::new();
            let mut i: usize = 0;
            while i < ps.len()
                invariant
                    i <= ps@.len(),
                    pv == ps@.map_values(|s: String| s@),
                    kept@.map_values(|s: String| s@) =~= non_blank(pv.take(i as int)),
                decreases ps@.len() - i,
            {
                proof {
                    assert(pv.take(i + 1).drop_last() =~= pv.take(i as int));
                    assert(pv.take(i + 1).last() == ps@[i as int]@);
                }
                let t = trim(ps[i].as_str());
                if !t.as_str().is_empty() {
                    let ghost before = kept@.map_values(|s: String| s@);
                    kept.push(str_to_string(ps[i].as_str()));
                    assert(kept@.map_values(|s: String| s@) =~= before.push(ps@[i as int]@));
                }
                i = i + 1;
            }
            assert(pv.take(pv.len() as int) =~= pv);
            let mut md = join(&kept, "\n\n");
            let ghost m0 = md@;
            string_push(&mut md, '\n');
            assert(md@ =~= m0 + seq!['\n']);
            let mut warnings: Vec<String> = Vec::new();
            warnings.push(
                str_to_string(
                    "extracted prose as paragraphs; headings, bold/italic, tables and images are not yet mapped to Markdown",
                ),
            );
            let rep = ConvertReport { engine: str_to_string("docx-extract"), lossy: true, warnings };
            assert(rep@.warnings =~= seq![docx_markdown_warning()]);
            Ok((string_bytes(&md), rep))
        },
    }
}

}
