use llm_cleanup::convert::textops::{join, lines, trim};
use llm_cleanup::convert::to_docx::{markdown_to_docx, text_to_docx};
use llm_cleanup::convert::to_text::markdown_to_text;
use llm_cleanup::convert::xml_text::{docx_paragraph_texts, xml_unescape};
use llm_cleanup::convert::{ConvertError, Target, convert};
use llm_cleanup::engine::ir::FormatId;
use llm_cleanup::formats::docx::xml_escape;

#[test]
fn target_from_ext_and_back() {
    for t in [Target::Markdown, Target::Text, Target::Docx, Target::Pdf] {
        assert_eq!(Target::from_ext(t.ext()), Some(t));
    }
    assert_eq!(Target::from_ext("MARKDOWN"), Some(Target::Markdown));
    assert_eq!(Target::from_ext("text"), Some(Target::Text));
    assert_eq!(Target::from_ext("rtf"), None);
    assert_eq!(Target::Docx.label(), "docx");
    assert_eq!(Target::Text.ext(), "txt");
}

#[test]
fn target_same_format() {
    assert!(Target::Markdown.is_same_as(FormatId::Markdown));
    assert!(Target::Text.is_same_as(FormatId::PlainText));
    assert!(!Target::Pdf.is_same_as(FormatId::Docx));
    assert!(!Target::Text.is_same_as(FormatId::Markdown));
}

#[test]
fn xml_unescape_decodes_entities_once() {
    assert_eq!(xml_unescape("a &lt;b&gt; &quot;c&quot; &apos;d&apos; &amp; e"), "a <b> \"c\" 'd' & e");
    assert_eq!(xml_unescape("&amp;lt;"), "&lt;");
    assert_eq!(xml_unescape("no entities"), "no entities");
    assert_eq!(xml_unescape("&unknown; &"), "&unknown; &");
}

#[test]
fn xml_unescape_undoes_escape() {
    for s in ["", "a < b & c > d", "&amp;", "<<>>&&", "plain"] {
        assert_eq!(xml_unescape(&xml_escape(s)), s);
    }
}

#[test]
fn trim_lines_join() {
    assert_eq!(trim("  \t hi there \n"), "hi there");
    assert_eq!(trim("\u{3000}x\u{2009}"), "x");
    assert_eq!(lines("a\r\nb\n\nc\n"), vec!["a", "b", "", "c"]);
    assert_eq!(lines("a\rb"), vec!["a\rb"]);
    assert!(lines("").is_empty());
    assert_eq!(join(&vec!["a".to_string(), "b".to_string()], ", "), "a, b");
    assert_eq!(join(&vec![], "x"), "");
}

#[test]
fn markdown_strips_to_text() {
    let t = markdown_to_text("# Title\n\nSome *bold* text with `code`.\n\n- one\n- two\n".as_bytes()).unwrap();
    assert_eq!(t, "Title\nSome bold text with code.\none\ntwo\n");
}

#[test]
fn markdown_to_text_rejects_invalid_utf8() {
    match markdown_to_text(&[0xC3]) {
        Err(ConvertError::Failed(m)) => assert!(m.starts_with("not UTF-8: ")),
        other => panic!("unexpected: {other:?}"),
    }
}

#[test]
fn convert_text_passthrough_and_markdown_passthrough() {
    let (b, rep) = convert(FormatId::PlainText, b"hello\n", Target::Text).unwrap();
    assert_eq!(b, b"hello\n");
    assert_eq!(rep.engine, "passthrough");
    assert!(!rep.lossy);
    assert!(rep.warnings.is_empty());
    let (b, rep) = convert(FormatId::PlainText, b"# x\n", Target::Markdown).unwrap();
    assert_eq!(b, b"# x\n");
    assert_eq!(rep.engine, "passthrough");
}

#[test]
fn convert_markdown_to_text_is_lossy() {
    let (b, rep) = convert(FormatId::Markdown, b"*a*\n", Target::Text).unwrap();
    assert_eq!(b, b"a\n");
    assert_eq!(rep.engine, "markdown-strip");
    assert!(rep.lossy);
    assert_eq!(rep.warnings, vec!["all formatting and structure removed (plain-text output)".to_string()]);
}

#[test]
fn convert_to_pdf_is_unsupported() {
    match convert(FormatId::Markdown, b"x", Target::Pdf) {
        Err(ConvertError::Unsupported { from, to }) => {
            assert_eq!(from, "markdown");
            assert_eq!(to, "pdf");
        }
        other => panic!("unexpected: {other:?}"),
    }
    let e = convert(FormatId::Docx, b"x", Target::Pdf).unwrap_err();
    assert_eq!(e.message(), "converting docx to pdf is not supported yet");
}

#[test]
fn text_becomes_one_paragraph_per_line() {
    let ps = text_to_docx(b"one\r\ntwo\n");
    assert_eq!(ps.len(), 2);
    assert_eq!(ps[0].runs[0].text, "one");
    assert_eq!(ps[1].runs[0].text, "two");
    assert!(ps[0].style.is_none());
}

#[test]
fn markdown_maps_headings_emphasis_and_lists() {
    let (ps, warnings) = markdown_to_docx("## Head\n\nA **b** *c*\n\n- x\n- y\n\n| t |\n|---|\n| v |\n".as_bytes()).unwrap();
    assert_eq!(ps[0].style.as_deref(), Some("Heading2"));
    assert_eq!(ps[0].runs[0].text, "Head");
    let runs: Vec<(&str, bool, bool)> = ps[1].runs.iter().map(|r| (r.text.as_str(), r.bold, r.italic)).collect();
    assert_eq!(runs, vec![("A ", false, false), ("b", true, false), (" ", false, false), ("c", false, true)]);
    assert_eq!(ps[2].runs[0].text, "\u{2022} x");
    assert_eq!(ps[3].runs[0].text, "\u{2022} y");
    assert_eq!(warnings, vec!["tables are dropped in Markdown\u{2192}DOCX".to_string()]);
}

#[test]
fn convert_markdown_to_docx_packs() {
    let (b, rep) = convert(FormatId::Markdown, b"# T\n\nbody\n", Target::Docx).unwrap();
    assert!(b.starts_with(b"PK"));
    assert_eq!(rep.engine, "docx-rs");
    assert!(rep.lossy);
}

#[test]
fn text_passthrough_decodes_lossily() {
    let (b, _) = convert(FormatId::PlainText, b"a\xffb", Target::Text).unwrap();
    assert_eq!(String::from_utf8(b).unwrap(), "a\u{FFFD}b");
}

#[test]
fn adapter_extensions_name_the_same_target() {
    for (ext, f) in [("md", FormatId::Markdown), ("txt", FormatId::PlainText), ("docx", FormatId::Docx)] {
        let t = Target::from_ext(ext).unwrap();
        assert!(t.is_same_as(f));
        assert_eq!(llm_cleanup::formats::sniff::format_for_ext(ext), Some(f));
    }
}

#[test]
fn trim_agrees_with_std_whitespace_on_every_char() {
    for u in 0u32..=0x10FFFF {
        if let Some(c) = char::from_u32(u) {
            let s = format!("a{c}");
            let t = llm_cleanup::convert::textops::trim(&s);
            assert_eq!(t == "a", c.is_whitespace(), "U+{u:04X}");
        }
    }
}

#[test]
fn text_to_docx_package_holds_the_lines() {
    let (bytes, rep) = convert(FormatId::PlainText, b"first line\nsecond line\n", Target::Docx).unwrap();
    assert_eq!(rep.engine, "docx-rs");
    let mut archive = zip::ZipArchive::new(std::io::Cursor::new(bytes.as_slice())).unwrap();
    let mut xml = String::new();
    std::io::Read::read_to_string(&mut archive.by_name("word/document.xml").unwrap(), &mut xml).unwrap();
    assert!(xml.contains("first line"));
    assert!(xml.contains("second line"));
}

fn docx_with(document_xml: &str) -> Vec<u8> {
    let mut w = zip::ZipWriter::new(std::io::Cursor::new(Vec::new()));
    w.start_file("word/document.xml", zip::write::SimpleFileOptions::default()).unwrap();
    std::io::Write::write_all(&mut w, document_xml.as_bytes()).unwrap();
    w.finish().unwrap().into_inner()
}

#[test]
fn docx_paragraph_texts_one_per_paragraph() {
    let xml = "<w:body><w:p><w:r><w:t>a &amp; </w:t></w:r><w:r><w:tab/></w:r><w:r><w:t>b</w:t></w:r></w:p><w:p></w:p><w:p><w:r><w:t>c</w:t></w:r></w:p></w:body>";
    let texts = docx_paragraph_texts(&docx_with(xml)).unwrap();
    assert_eq!(texts, vec!["a & b".to_string(), String::new(), "c".to_string()]);
}
