use llm_cleanup::engine::ir::{DocMeta, Document, FormatId, Newline, ProseSpan, SpanAnchor};
use llm_cleanup::engine::pipeline::clean;
use llm_cleanup::engine::traits::{Ctx, Format};
use llm_cleanup::rules::registry::builtin_rules;
use llm_cleanup::engine::level::CleanupLevel;
use llm_cleanup::formats::markdown::Markdown;
use llm_cleanup::formats::text::PlainText;
use llm_cleanup::testkit::{assert_idempotent, clean_str};

#[test]
fn markdown_preserves_structure_and_cleans_prose() {
    let input = "# Title\n\nHe said \u{201C}hi\u{201D} and left a \u{200B}zero-width space.\n\n```\ncode \u{201C}stays\u{201D} curly\n```\n";
    let (out, edits) = clean_str(&Markdown, input, CleanupLevel::Standard).unwrap();

    assert!(out.contains("# Title"), "heading marker preserved");
    assert!(out.contains("\"hi\""), "smart quotes straightened in prose");
    assert!(
        out.contains("code \u{201C}stays\u{201D} curly"),
        "code block left completely untouched"
    );
    assert!(!out.contains('\u{200B}'), "zero-width space removed");
    assert!(edits >= 3, "expected >= 3 edits, got {edits}");
}

#[test]
fn no_op_is_byte_identical() {
    let input = "Plain ascii text with no fingerprints at all.\n";
    let (out, edits) = clean_str(&PlainText, input, CleanupLevel::Light).unwrap();
    assert_eq!(out, input);
    assert_eq!(edits, 0);
}

#[test]
fn idempotent_typography() {
    let input =
        "Curly \u{201C}quotes\u{201D}, an apostrophe\u{2019}s, and an ellipsis\u{2026} here.\n";
    assert!(assert_idempotent(&PlainText, input, CleanupLevel::Aggressive).unwrap(), "cleaning is not idempotent");
}

#[test]
fn light_level_leaves_quotes_but_strips_invisibles() {
    let input = "Smart \u{201C}quotes\u{201D} stay\u{200B} at light.";
    let (out, _) = clean_str(&PlainText, input, CleanupLevel::Light).unwrap();
    assert!(out.contains('\u{201C}'), "light keeps curly quotes");
    assert!(!out.contains('\u{200B}'), "light strips zero-width space");
}

#[test]
fn strips_hidden_smuggling_and_watermark_chars() {
    let input = "Hi\u{E0041}\u{200B} there\u{202F}now a\u{FE0F} keep \u{2764}\u{FE0F} end.";
    let (out, _) = clean_str(&PlainText, input, CleanupLevel::Light).unwrap();
    assert!(!out.contains('\u{E0041}'), "Unicode tag char stripped");
    assert!(!out.contains('\u{200B}'), "zero-width space stripped");
    assert!(
        !out.contains('\u{202F}'),
        "narrow no-break space normalized"
    );
    assert!(
        out.contains("\u{2764}\u{FE0F}"),
        "legitimate emoji variation selector preserved"
    );
    assert!(
        out.contains("a keep"),
        "smuggled variation selector after ASCII removed"
    );
}

#[test]
fn strips_bidi_override_at_standard() {
    let input = "begin\u{202E}reversed end";
    let (out, _) = clean_str(&PlainText, input, CleanupLevel::Standard).unwrap();
    assert!(
        !out.contains('\u{202E}'),
        "bidi override (Trojan Source) stripped"
    );
}

#[test]
fn normalizes_exotic_spaces_at_standard() {
    let input = "thin\u{2009}space ideographic\u{3000}space.";
    let (out, _) = clean_str(&PlainText, input, CleanupLevel::Standard).unwrap();
    assert!(!out.contains('\u{2009}'), "thin space normalized");
    assert!(!out.contains('\u{3000}'), "ideographic space normalized");
    assert!(
        out.contains("thin space"),
        "exotic space becomes a regular space"
    );
}

#[test]
fn em_dash_becomes_comma_at_aggressive() {
    let (out, edits) = clean_str(&PlainText, "one \u{2014} two", CleanupLevel::Aggressive).unwrap();
    assert_eq!(out, "one, two");
    assert_eq!(edits, 1);
}

#[test]
fn em_dash_between_digits_is_kept() {
    let (out, edits) = clean_str(&PlainText, "1914\u{2014}1918", CleanupLevel::Aggressive).unwrap();
    assert_eq!(out, "1914\u{2014}1918");
    assert_eq!(edits, 0);
}

#[test]
fn ellipsis_expands_at_standard() {
    let (out, _) = clean_str(&PlainText, "wait\u{2026}", CleanupLevel::Standard).unwrap();
    assert_eq!(out, "wait...");
}

#[test]
fn markdown_image_alt_text_is_protected() {
    let input = "![a \u{201C}quoted\u{201D} alt](x.png) and \u{201C}prose\u{201D}\n";
    let (out, _) = clean_str(&Markdown, input, CleanupLevel::Standard).unwrap();
    assert!(out.contains("a \u{201C}quoted\u{201D} alt"));
    assert!(out.contains("\"prose\""));
}

#[test]
fn text_bom_is_kept() {
    let input = "\u{FEFF}a\u{2026}";
    let (out, _) = clean_str(&PlainText, input, CleanupLevel::Standard).unwrap();
    assert_eq!(out, "\u{FEFF}a...");
}

#[test]
fn overlapping_edits_keep_the_first() {
    let (out, edits) = clean_str(&PlainText, "a \u{2014} \u{2014} b", CleanupLevel::Aggressive).unwrap();
    assert_eq!(out, "a, \u{2014} b");
    assert_eq!(edits, 1);
    let (again, _) = clean_str(&PlainText, &out, CleanupLevel::Aggressive).unwrap();
    assert_eq!(again, "a,, b");
    assert!(!assert_idempotent(&PlainText, "a \u{2014} \u{2014} b", CleanupLevel::Aggressive).unwrap());
}

#[test]
fn flags_are_reported_not_applied() {
    let (out, edits) = clean_str(&PlainText, "x\u{2066}y", CleanupLevel::Aggressive).unwrap();
    assert_eq!(out, "x\u{2066}y");
    assert_eq!(edits, 0);
}

#[test]
fn report_changed_means_output_differs() {
    let rules = builtin_rules();
    let cx = Ctx::new(CleanupLevel::Standard);
    let plain = PlainText.parse(b"Nothing to do here.\n").unwrap();
    let (out, rep) = clean(&PlainText, &plain, &rules, &cx).unwrap();
    assert_eq!(out, plain.source);
    assert!(!rep.changed);
    let curly = PlainText.parse("He said \u{201C}hi\u{201D}.\n".as_bytes()).unwrap();
    let (out, rep) = clean(&PlainText, &curly, &rules, &cx).unwrap();
    assert_ne!(out, curly.source);
    assert!(rep.changed);
}

#[test]
fn sentences_partition_the_span() {
    let text = "Hi. Bye.";
    let s = ProseSpan::new(SpanAnchor::Bytes(0..text.len()), text.to_string());
    assert_eq!(s.sentences(), vec![0..4, 4..8]);
    let e = ProseSpan::new(SpanAnchor::Bytes(0..0), String::new());
    assert!(e.sentences().is_empty());
}

#[test]
fn documents_are_checked_against_their_source() {
    let meta = DocMeta { format: FormatId::PlainText, newline: Newline::Lf, had_bom: false };
    let src = b"Hello world".to_vec();
    let good = vec![ProseSpan::new(SpanAnchor::Bytes(6..11), "world".to_string())];
    assert!(Document::try_new(src.clone(), good, meta).is_some());
    let bad = vec![ProseSpan::new(SpanAnchor::Bytes(0..5), "world".to_string())];
    assert!(Document::try_new(src.clone(), bad, meta).is_none());
    let runs = vec![ProseSpan::new(SpanAnchor::Segments(vec![0..2, 6..8]), "Hewo".to_string())];
    assert!(Document::try_new(src.clone(), runs, meta).is_some());
    let outside = vec![ProseSpan::new(SpanAnchor::Segments(vec![0..2, 9..20]), "He".to_string())];
    assert!(Document::try_new(src, outside, meta).is_none());
}
