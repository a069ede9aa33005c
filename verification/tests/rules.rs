use llm_cleanup::engine::ir::{ProseSpan, SpanAnchor};
use llm_cleanup::engine::level::CleanupLevel;
use llm_cleanup::engine::traits::{Ctx, Rule};
use llm_cleanup::rules::lexicon::LexiconFlagRule;
use llm_cleanup::rules::registry::{builtin_rules, builtin_rules_with, load_builtin_pack, rules_with_pack, try_rules_with_pack};
use llm_cleanup::rules::schema::{Action, Category, Pack, PackMeta, RuleSpec};
use llm_cleanup::rules::typographic::{NormalizeEmDash, NormalizeQuotes, StripInvisibles};
use llm_cleanup::rules::unicode_hidden::{StripSmuggledChars, FlagBidiControls};

fn span(text: &str) -> ProseSpan {
    ProseSpan::new(SpanAnchor::Bytes(0..text.len()), text.to_string())
}

fn spec(id: &str, action: Action, terms: &[&str]) -> RuleSpec {
    RuleSpec {
        id: id.to_string(),
        description: String::new(),
        category: Category::Lexical,
        level: CleanupLevel::Standard,
        action,
        terms: terms.iter().map(|t| t.to_string()).collect(),
    }
}

fn pack(rules: Vec<RuleSpec>) -> Pack {
    Pack {
        schema_version: Pack::CURRENT_SCHEMA,
        pack: PackMeta { id: "p".to_string(), version: "1".to_string(), title: "t".to_string(), license: None },
        rules,
    }
}

#[test]
fn builtin_rules_are_the_code_rules_in_order() {
    let rules = builtin_rules();
    let ids: Vec<&str> = rules.iter().map(|r| r.id()).collect();
    assert_eq!(
        ids,
        vec![
            "typo.invisibles.strip",
            "unicode.smuggled.strip",
            "unicode.spaces.normalize",
            "unicode.bidi.strip-overrides",
            "unicode.bidi.flag",
            "typo.quotes.straighten",
            "typo.ellipsis.expand",
            "typo.em-dash.to-comma",
        ]
    );
    assert_eq!(rules[0].min_level(), CleanupLevel::Light);
    assert_eq!(rules[7].min_level(), CleanupLevel::Aggressive);
}

#[test]
fn pack_adds_flag_rules_with_terms_only() {
    let p = pack(vec![
        spec("lexical.delve", Action::Flag, &["delve"]),
        spec("lexical.empty", Action::Flag, &[]),
        spec("lexical.replace", Action::Replace, &["x"]),
    ]);
    let rules = rules_with_pack(&p);
    assert_eq!(rules.len(), 9);
    assert_eq!(rules[8].id(), "lexical.delve");
    assert!(try_rules_with_pack(&p).is_some());
}

#[test]
fn invisible_finding_has_exact_message_and_range() {
    let fs = StripInvisibles.detect(0, &span("a\u{200B}b"), &Ctx::new(CleanupLevel::Light));
    assert_eq!(fs.len(), 1);
    assert_eq!(fs[0].range, 1..4);
    assert_eq!(fs[0].message, "removed invisible character U+200B");
    assert_eq!(fs[0].replacement.as_deref(), Some(""));
}

#[test]
fn quotes_are_straightened() {
    let fs = NormalizeQuotes.detect(2, &span("\u{2018}x\u{2019}"), &Ctx::new(CleanupLevel::Standard));
    assert_eq!(fs.len(), 2);
    assert_eq!(fs[0].span_index, 2);
    assert_eq!(fs[1].range, 4..7);
    assert_eq!(fs[1].replacement.as_deref(), Some("'"));
}

#[test]
fn em_dash_variants() {
    let cx = Ctx::new(CleanupLevel::Aggressive);
    let fs = NormalizeEmDash.detect(0, &span("a\u{2014}b"), &cx);
    assert_eq!(fs[0].replacement.as_deref(), Some("--"));
    assert_eq!(fs[0].range, 1..4);
    let fs = NormalizeEmDash.detect(0, &span("a \u{2014} b"), &cx);
    assert_eq!(fs[0].replacement.as_deref(), Some(", "));
    assert_eq!(fs[0].range, 1..6);
    assert!(NormalizeEmDash.detect(0, &span("1\u{2014}2"), &cx).is_empty());
}

#[test]
fn smuggled_selector_after_ascii_only() {
    let cx = Ctx::new(CleanupLevel::Light);
    assert_eq!(StripSmuggledChars.detect(0, &span("a\u{FE0F}"), &cx).len(), 1);
    assert!(StripSmuggledChars.detect(0, &span("\u{2764}\u{FE0F}"), &cx).is_empty());
    assert_eq!(StripSmuggledChars.detect(0, &span("\u{E0041}"), &cx).len(), 1);
}

#[test]
fn bidi_controls_are_flagged_not_edited() {
    let fs = FlagBidiControls.detect(0, &span("x\u{2066}y"), &Ctx::new(CleanupLevel::Aggressive));
    assert_eq!(fs.len(), 1);
    assert!(fs[0].replacement.is_none());
}

#[test]
fn lexicon_matches_words_case_insensitively() {
    let r = LexiconFlagRule::new(
        "lexical.delve".to_string(),
        CleanupLevel::Standard,
        vec!["delve".to_string()],
        String::new(),
    );
    let fs = r.detect(0, &span("Delve, delved, DELVE"), &Ctx::new(CleanupLevel::Standard));
    assert_eq!(fs.len(), 2);
    assert_eq!(fs[0].range, 0..5);
    assert_eq!(fs[0].message, "possible AI-favored wording: \"Delve\"");
    assert_eq!(fs[1].range, 15..20);
    assert!(fs[0].replacement.is_none());
}

#[test]
fn lexicon_try_new_builds() {
    let r = LexiconFlagRule::try_new("x".to_string(), CleanupLevel::Light, vec!["a".to_string()], "m".to_string());
    assert!(r.is_some());
    assert_eq!(r.unwrap().id(), "x");
}

#[test]
fn pack_validation_errors() {
    let mut p = pack(vec![spec("a", Action::Flag, &[]), spec("a", Action::Flag, &[])]);
    assert_eq!(p.validate(), Err("duplicate rule id: a".to_string()));
    p.schema_version = 7;
    assert_eq!(p.validate(), Err("unsupported schema_version 7 (this build supports 1)".to_string()));
    let ok = pack(vec![spec("a", Action::Flag, &[])]);
    assert_eq!(ok.validate(), Ok(()));
}

#[test]
fn levels_parse_and_order() {
    assert_eq!(CleanupLevel::parse_name("STD"), Ok(CleanupLevel::Standard));
    assert_eq!(CleanupLevel::parse_name("a"), Ok(CleanupLevel::Aggressive));
    assert!(CleanupLevel::parse_name("max").is_err());
    assert!(CleanupLevel::Aggressive.includes(CleanupLevel::Light));
    assert!(!CleanupLevel::Light.includes(CleanupLevel::Standard));
    assert_eq!(CleanupLevel::Standard.name(), "standard");
}

#[test]
fn loaded_pack_adds_typographic_and_lexical_rules() {
    let loaded = load_builtin_pack(Ok(pack(vec![spec("lexical.delve", Action::Flag, &["delve", "tapestry"])])));
    assert!(loaded.is_ok());
    let rules = builtin_rules_with(&loaded);
    assert!(rules.iter().any(|r| r.id() == "typo.invisibles.strip"));
    assert!(rules.iter().any(|r| r.id().starts_with("lexical.")));
    assert_eq!(rules.len(), 9);
}

#[test]
fn pack_that_does_not_load_leaves_the_code_rules() {
    let loaded = load_builtin_pack(Err("bad yaml".to_string()));
    assert_eq!(loaded.as_ref().err().map(|e| e.as_str()), Some("failed to parse built-in template: bad yaml"));
    assert_eq!(builtin_rules_with(&loaded).len(), 8);
    let mut dup = pack(vec![spec("a", Action::Flag, &["x"]), spec("a", Action::Flag, &["y"])]);
    dup.schema_version = 1;
    assert_eq!(load_builtin_pack(Ok(dup)).err(), Some("duplicate rule id: a".to_string()));
}
