use std::io::{Read, Write};
use llm_cleanup::engine::error::CoreError;
use llm_cleanup::engine::ir::{FormatId, Newline, SpanAnchor};
use llm_cleanup::engine::traits::{Edit, EditSet, Format};
use llm_cleanup::formats::docx::{Docx, xml_escape, xml_skeleton};
use llm_cleanup::formats::markdown::Markdown;
use llm_cleanup::formats::sniff::{format_for_path, formatter_for_path};
use llm_cleanup::formats::text::PlainText;

#[test]
fn markdown_spans_skip_code_and_keep_ranges() {
    let src = "# Head\n\nSome *text* here.\n\n```\ncode\n```\n";
    let doc = Markdown.parse(src.as_bytes()).unwrap();
    let texts: Vec<&str> = doc.spans.iter().map(|s| s.text.as_str()).collect();
    assert_eq!(texts, vec!["Head", "Some ", "text", " here."]);
    for s in &doc.spans {
        match &s.anchor {
            SpanAnchor::Bytes(r) => assert_eq!(&src[r.clone()], s.text),
            SpanAnchor::Segments(_) => panic!("markdown spans are byte-anchored"),
        }
    }
    assert_eq!(doc.meta.format, FormatId::Markdown);
    assert_eq!(doc.meta.newline, Newline::Lf);
}

#[test]
fn markdown_rejects_invalid_utf8() {
    match Markdown.parse(&[0x66, 0xFF, 0x66]) {
        Err(CoreError::Encoding(m)) => assert!(m.starts_with("markdown is not valid UTF-8: ")),
        other => panic!("unexpected: {other:?}"),
    }
}

#[test]
fn markdown_render_without_edits_is_identity() {
    let src = "A *b* c\r\n";
    let doc = Markdown.parse(src.as_bytes()).unwrap();
    let out = Markdown.render(&doc, &EditSet::empty()).unwrap();
    assert_eq!(out, src.as_bytes());
}

#[test]
fn markdown_skeleton_hides_prose() {
    let a = Markdown.skeleton("# One two\n".as_bytes()).unwrap();
    let b = Markdown.skeleton("# Three four five\n".as_bytes()).unwrap();
    assert_eq!(a, b);
    assert!(a.contains('\u{00B7}'));
    let c = Markdown.skeleton("## One two\n".as_bytes()).unwrap();
    assert_ne!(a, c);
}

#[test]
fn text_parse_excludes_bom_and_detects_crlf() {
    let src = "\u{FEFF}line one\r\nline two\r\n";
    let doc = PlainText.parse(src.as_bytes()).unwrap();
    assert!(doc.meta.had_bom);
    assert_eq!(doc.meta.newline, Newline::Crlf);
    assert_eq!(doc.spans.len(), 1);
    assert_eq!(doc.spans[0].text, "line one\r\nline two\r\n");
    match &doc.spans[0].anchor {
        SpanAnchor::Bytes(r) => assert_eq!(*r, 3..src.len()),
        SpanAnchor::Segments(_) => panic!("text spans are byte-anchored"),
    }
}

#[test]
fn text_skeleton_counts_lines() {
    assert_eq!(PlainText.skeleton(b"a\nb\nc").unwrap(), "lines=3");
    assert_eq!(PlainText.skeleton(b"").unwrap(), "lines=1");
    assert_eq!(PlainText.skeleton(b"x\n").unwrap(), "lines=2");
}

#[test]
fn text_render_applies_edit() {
    let doc = PlainText.parse("say \u{201C}hi\u{201D}".as_bytes()).unwrap();
    let edits = EditSet {
        edits: vec![Edit { span_index: 0, range: 4..7, replacement: "\"".to_string(), rule_id: "q".to_string() }],
    };
    let out = PlainText.render(&doc, &edits).unwrap();
    assert_eq!(String::from_utf8(out).unwrap(), "say \"hi\u{201D}");
}

#[test]
fn xml_escape_escapes_markup() {
    assert_eq!(xml_escape("a < b && c > d"), "a &lt; b &amp;&amp; c &gt; d");
    assert_eq!(xml_escape("plain"), "plain");
}

#[test]
fn docx_parse_of_raw_xml_fails_as_zip() {
    match Docx.parse(b"<w:document/>") {
        Err(CoreError::Parse(m)) => assert!(m.starts_with("not a valid .docx (zip) file: ")),
        other => panic!("unexpected: {other:?}"),
    }
}

#[test]
fn docx_skeleton_of_raw_xml_drops_run_text() {
    let a = xml_skeleton(b"<w:p><w:r><w:t xml:space=\"preserve\">Hello</w:t></w:r></w:p>").unwrap();
    let b = xml_skeleton(b"<w:p><w:r><w:t xml:space=\"preserve\">Bye</w:t></w:r></w:p>").unwrap();
    assert_eq!(a, b);
    assert_eq!(a, "<w:p><w:r><w:t xml:space=preserve></w:t></w:r></w:p>");
    let c = Docx.skeleton(b"<w:p><w:r><w:t>Hello</w:t></w:r></w:p>").unwrap();
    assert_eq!(c, "<w:p><w:r><w:t></w:t></w:r></w:p>");
}

#[test]
fn docx_skeleton_reports_malformed_xml() {
    match xml_skeleton(b"<w:p></w:q>") {
        Err(CoreError::Parse(m)) => assert!(m.starts_with("malformed document.xml: ")),
        other => panic!("unexpected: {other:?}"),
    }
}

#[test]
fn sniff_maps_extensions() {
    assert_eq!(format_for_path("notes/a.MD"), Some(FormatId::Markdown));
    assert_eq!(format_for_path("a.markdown"), Some(FormatId::Markdown));
    assert_eq!(format_for_path("a.txt"), Some(FormatId::PlainText));
    assert_eq!(format_for_path("b.docx"), Some(FormatId::Docx));
    assert_eq!(format_for_path("c.pdf"), None);
    assert_eq!(format_for_path("README"), None);
}

#[test]
fn formatter_for_unsupported_path_errors() {
    assert_eq!(formatter_for_path("x.md").ok().map(|f| f.id()), Some(FormatId::Markdown));
    match formatter_for_path("x.rtf") {
        Err(CoreError::UnsupportedFormat(m)) => assert_eq!(m, "x.rtf"),
        Err(other) => panic!("unexpected: {other:?}"),
        Ok(_) => panic!("unexpected success"),
    }
}

fn make_docx(document_xml: &str) -> Vec<u8> {
    let mut w = zip::ZipWriter::new(std::io::Cursor::new(Vec::new()));
    let opts = zip::write::SimpleFileOptions::default().compression_method(zip::CompressionMethod::Deflated);
    w.start_file("[Content_Types].xml", opts).unwrap();
    w.write_all(b"<Types/>").unwrap();
    w.start_file("word/document.xml", opts).unwrap();
    w.write_all(document_xml.as_bytes()).unwrap();
    w.finish().unwrap().into_inner()
}

#[test]
fn docx_groups_runs_per_paragraph_and_splits_at_breaks() {
    let xml = "<w:document><w:body><w:p><w:r><w:t>Hello </w:t></w:r><w:r><w:t>world</w:t></w:r><w:r><w:tab/></w:r><w:r><w:t>after</w:t></w:r></w:p><w:p><w:r><w:t>a &amp; b</w:t></w:r></w:p></w:body></w:document>";
    let doc = Docx.parse(&make_docx(xml)).unwrap();
    let texts: Vec<&str> = doc.spans.iter().map(|s| s.text.as_str()).collect();
    assert_eq!(texts, vec!["Hello world", "after", "a &amp; b"]);
    match &doc.spans[0].anchor {
        SpanAnchor::Segments(segs) => assert_eq!(segs.len(), 2),
        SpanAnchor::Bytes(_) => panic!("docx spans are run-anchored"),
    }
}

#[test]
fn docx_render_maps_edit_across_runs_and_escapes() {
    let xml = "<w:document><w:body><w:p><w:r><w:t>Hello </w:t></w:r><w:r><w:t>world</w:t></w:r></w:p></w:body></w:document>";
    let original = make_docx(xml);
    let doc = Docx.parse(&original).unwrap();
    let edits = EditSet {
        edits: vec![Edit { span_index: 0, range: 4..7, replacement: "<&>".to_string(), rule_id: "t".to_string() }],
    };
    let out = Docx.render(&doc, &edits).unwrap();
    let again = Docx.parse(&out).unwrap();
    assert_eq!(again.spans[0].text, "Hell&lt;&amp;&gt;orld");
    assert_eq!(Docx.skeleton(&original).unwrap(), Docx.skeleton(&out).unwrap());
}

#[test]
fn docx_run_ranges_are_inner_text_positions() {
    let xml = "<w:p><w:t>Hi</w:t></w:p>";
    let doc = Docx.parse(&make_docx(xml)).unwrap();
    assert_eq!(doc.source, xml.as_bytes());
    match &doc.spans[0].anchor {
        SpanAnchor::Segments(segs) => assert_eq!(segs, &vec![10..12]),
        SpanAnchor::Bytes(_) => panic!("docx spans are run-anchored"),
    }
}

#[test]
fn docx_render_copies_other_parts_and_replaces_the_document() {
    let xml = "<w:p><w:t>Hello world</w:t></w:p>";
    let original = make_docx(xml);
    let doc = Docx.parse(&original).unwrap();
    let edits = EditSet {
        edits: vec![Edit { span_index: 0, range: 5..6, replacement: "_".to_string(), rule_id: "t".to_string() }],
    };
    let out = Docx.render(&doc, &edits).unwrap();
    let mut archive = zip::ZipArchive::new(std::io::Cursor::new(out.as_slice())).unwrap();
    let names: Vec<String> = (0..archive.len()).map(|i| archive.by_index(i).unwrap().name().unwrap().to_string()).collect();
    assert_eq!(names, vec!["[Content_Types].xml".to_string(), "word/document.xml".to_string()]);
    let mut types = String::new();
    archive.by_name("[Content_Types].xml").unwrap().read_to_string(&mut types).unwrap();
    assert_eq!(types, "<Types/>");
    let mut body = String::new();
    archive.by_name("word/document.xml").unwrap().read_to_string(&mut body).unwrap();
    assert_eq!(body, "<w:p><w:t>Hello_world</w:t></w:p>");
}

#[test]
fn docx_missing_document_part_is_reported() {
    let mut w = zip::ZipWriter::new(std::io::Cursor::new(Vec::new()));
    w.start_file("other.xml", zip::write::SimpleFileOptions::default()).unwrap();
    w.write_all(b"<x/>").unwrap();
    let bytes = w.finish().unwrap().into_inner();
    match Docx.parse(&bytes) {
        Err(CoreError::Parse(m)) => assert!(m.starts_with("word/document.xml not found in .docx: ")),
        other => panic!("unexpected: {other:?}"),
    }
}

#[test]
fn sentences_follow_uax29() {
    let s = llm_cleanup::engine::ir::ProseSpan::new(SpanAnchor::Bytes(0..18), "Hi there. Bye now.".to_string());
    let r = s.sentences();
    assert_eq!(r, vec![0..10, 10..18]);
    assert_eq!(s.byte_range(), Some(0..18));
}

#[test]
fn formatter_follows_the_file_name_in_a_directory() {
    assert_eq!(format_for_path("a/B.MD"), Some(FormatId::Markdown));
    assert_eq!(formatter_for_path("docs/notes/x.docx").ok().map(|f| f.id()), Some(FormatId::Docx));
    assert_eq!(format_for_path("dir.md/README"), None);
    assert!(formatter_for_path("a/.md").is_err());
}

#[test]
fn docx_without_edits_renders_the_original_file() {
    let original = make_docx("<w:p><w:t>Plain words.</w:t></w:p>");
    let doc = Docx.parse(&original).unwrap();
    assert_eq!(Docx.render(&doc, &EditSet { edits: vec![] }).unwrap(), original);
    let rules = llm_cleanup::rules::registry::builtin_rules();
    let cx = llm_cleanup::engine::traits::Ctx::new(llm_cleanup::engine::level::CleanupLevel::Standard);
    let (out, rep) = llm_cleanup::engine::pipeline::clean(&Docx, &doc, &rules, &cx).unwrap();
    assert_eq!(out, original);
    assert!(!rep.changed);
}

#[test]
fn formats_of_paths_every_platform_agrees_on() {
    assert_eq!(format_for_path("C:x.md"), Some(FormatId::Markdown));
    assert_eq!(format_for_path("dir\\x.TXT"), Some(FormatId::PlainText));
    assert_eq!(formatter_for_path("C:notes.docx").ok().map(|f| f.id()), Some(FormatId::Docx));
}
