use llm_cleanup::cli::{
    Destination, cleaned_file_name, converted_file_name, destination, extra_extension_name,
    conversion_detail, level_from_i32, level_to_i32, plural, refuses_in_place, report_detail, resolve_target,
    skip_write, target_from_idx,
};
use llm_cleanup::convert::ConvertReport;
use llm_cleanup::engine::pipeline::CleanReport;
use llm_cleanup::convert::Target;
use llm_cleanup::engine::level::CleanupLevel;

#[test]
fn resolve_target_prefers_to_then_output_extension() {
    assert_eq!(resolve_target(Some("PDF"), Some("md")), Ok(Some(Target::Pdf)));
    assert_eq!(resolve_target(None, Some("docx")), Ok(Some(Target::Docx)));
    assert_eq!(resolve_target(None, Some("TXT")), Ok(Some(Target::Text)));
    assert_eq!(resolve_target(None, Some("xyz")), Ok(None));
    assert_eq!(resolve_target(None, None), Ok(None));
    assert_eq!(
        resolve_target(Some("rtf"), None),
        Err("unknown --to format: rtf (use md|txt|docx|pdf)".to_string())
    );
}

#[test]
fn names_of_written_files() {
    assert_eq!(cleaned_file_name(Some("foo"), Some("md")), "foo.cleaned.md");
    assert_eq!(cleaned_file_name(None, None), "output.cleaned.txt");
    assert_eq!(converted_file_name(Some("foo"), "md"), "foo.cleaned.md");
    assert_eq!(extra_extension_name(Some("foo.md"), "bak"), "foo.md.bak");
    assert_eq!(cleaned_file_name(Some("README"), None), "README.cleaned.txt");
    assert_eq!(extra_extension_name(None, "bak"), "output.bak");
    assert_eq!(plural(1), "");
    assert_eq!(plural(0), "s");
    assert_eq!(plural(2), "s");
}

#[test]
fn destination_order() {
    assert_eq!(destination(true, true, true), Destination::Output);
    assert_eq!(destination(false, true, true), Destination::Input);
    assert_eq!(destination(false, false, true), Destination::Converted);
    assert_eq!(destination(false, false, false), Destination::Cleaned);
}

#[test]
fn picker_positions() {
    for l in [CleanupLevel::Light, CleanupLevel::Standard, CleanupLevel::Aggressive] {
        assert_eq!(level_from_i32(level_to_i32(l)), l);
    }
    assert_eq!(level_from_i32(9), CleanupLevel::Standard);
    assert_eq!(target_from_idx(0), None);
    assert_eq!(target_from_idx(3), Some(Target::Docx));
    assert_eq!(target_from_idx(4), Some(Target::Pdf));
}

#[test]
fn write_decisions() {
    assert!(skip_write(false, 0));
    assert!(!skip_write(true, 0));
    assert!(!skip_write(false, 2));
    assert!(refuses_in_place(true, true));
    assert!(!refuses_in_place(true, false));
    assert!(!refuses_in_place(false, true));
}

#[test]
fn detail_texts() {
    let mut rep = CleanReport::default();
    assert_eq!(report_detail(&rep), "No AI fingerprints found. Your file is already clean.\n");
    rep.applied_by_rule = vec![("typo.quotes.straighten".to_string(), 2)];
    assert_eq!(report_detail(&rep), "Removed / normalized:\n    2 \u{00D7}  typo.quotes.straighten\n");
    let conv = ConvertReport { engine: "docx-rs".to_string(), lossy: true, warnings: vec![] };
    assert_eq!(conversion_detail("DOCX", &conv), "\nConvert to DOCX (via docx-rs):\n    formatting preserved\n");
    let conv = ConvertReport { engine: "e".to_string(), lossy: true, warnings: vec!["w".to_string()] };
    assert_eq!(conversion_detail("Text", &conv), "\nConvert to Text (via e):\n    \u{26A0} w\n");
}
