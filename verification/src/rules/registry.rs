//! The active rule set: built-in code rules, plus flag-only lexical rules from a pack.

use vstd::prelude::*;
use crate::engine::level::CleanupLevel;
use crate::engine::traits::Rule;
use crate::engine::ir::ProseSpanView;
use crate::engine::traits::FindingView;
use crate::rules::typographic::{CharTable, em_dash_spec, scan_spec};
use crate::rules::unicode_hidden::smuggled_spec;
use crate::engine::traits::Ctx;
use crate::rules::lexicon::{LexiconFlagRule, ac_buildable, ac_builds, default_lexicon_message, lexicon_spec, terms_view};
use crate::rules::schema::{Action, Pack, RuleSpec, rule_ids, validation};
use crate::rules::typographic::{NormalizeEllipsis, NormalizeEmDash, NormalizeQuotes, StripInvisibles};
use crate::rules::unicode_hidden::{FlagBidiControls, NormalizeExoticSpaces, StripBidiOverrides, StripSmuggledChars};

verus! {

/// Ids of the built-in code rules, in the order they run.
pub open spec fn builtin_ids() -> Seq<Seq<char>> {
    seq![
        "typo.invisibles.strip"@,
        "unicode.smuggled.strip"@,
        "unicode.spaces.normalize"@,
        "unicode.bidi.strip-overrides"@,
        "unicode.bidi.flag"@,
        "typo.quotes.straighten"@,
        "typo.ellipsis.expand"@,
        "typo.em-dash.to-comma"@,
    ]
}

/// Minimum levels of the built-in code rules, in the same order.
pub open spec fn builtin_levels() -> Seq<CleanupLevel> {
    seq![
        CleanupLevel::Light,
        CleanupLevel::Light,
        CleanupLevel::Standard,
        CleanupLevel::Standard,
        CleanupLevel::Aggressive,
        CleanupLevel::Standard,
        CleanupLevel::Standard,
        CleanupLevel::Aggressive,
    ]
}

/// What built-in rule `i` reports on a span's text.
pub open spec fn builtin_detect(i: int, idx: usize, text: Seq<char>) -> Seq<FindingView> {
    let id = builtin_ids()[i];
    if i == 0 {
        scan_spec(id, idx, text, CharTable::Invisibles)
    } else if i == 1 {
        smuggled_spec(id, idx, text)
    } else if i == 2 {
        scan_spec(id, idx, text, CharTable::ExoticSpaces)
    } else if i == 3 {
        scan_spec(id, idx, text, CharTable::BidiOverrides)
    } else if i == 4 {
        scan_spec(id, idx, text, CharTable::BidiControls)
    } else if i == 5 {
        scan_spec(id, idx, text, CharTable::Quotes)
    } else if i == 6 {
        scan_spec(id, idx, text, CharTable::Ellipsis)
    } else {
        em_dash_spec(id, idx, text)
    }
}

/// The built-in rule set: eight code rules with these ids, levels and detections, in order.
pub open spec fn builtin_rule_set(r: Seq<Box<dyn Rule>>) -> bool {
    &&& r.len() == 8
    &&& forall|i: int| 0 <= i < 8 ==> (#[trigger] r[i]).spec_id() == builtin_ids()[i]
        && r[i].spec_min_level() == builtin_levels()[i]
    &&& forall|i: int, idx: usize, span: ProseSpanView, cx: Ctx| 0 <= i < 8 ==> #[trigger] r[i].spec_detect(idx, span, cx)
        == builtin_detect(i, idx, span.text)
}

/// The built-in code rules: invisible-character hygiene and typographic normalization. This
/// is the whole rule set when the built-in pack does not load; `builtin_rules_with` adds the
/// pack's lexical rules when it does.
pub fn builtin_rules() -> (r: Vec<Box<dyn Rule>>)
    ensures
        builtin_rule_set(r@),
{
    let rules: Vec<Box<dyn Rule>> = vec![
        Box::new(StripInvisibles),
        Box::new(StripSmuggledChars),
        Box::new(NormalizeExoticSpaces),
        Box::new(StripBidiOverrides),
        Box::new(FlagBidiControls),
        Box::new(NormalizeQuotes),
        Box::new(NormalizeEllipsis),
        Box::new(NormalizeEmDash),
    ];
    rules
}

/// The pack rules that become lexicon rules: flag-only rules with a term list.
pub open spec fn materialized(spec: RuleSpec) -> bool {
    spec.action == Action::Flag && spec.terms@.len() > 0
}

/// Every term list the pack turns into a rule is accepted by the matcher.
pub open spec fn pack_buildable(pack: Pack) -> bool {
    forall|i: int| 0 <= i < pack.rules@.len() && materialized(#[trigger] pack.rules@[i]) ==> ac_buildable(
        terms_view(pack.rules@[i].terms@),
    )
}

/// The pack rules that become rules, in pack order.
pub open spec fn materialized_specs(specs: Seq<RuleSpec>) -> Seq<RuleSpec>
    decreases specs.len(),
{
    if specs.len() == 0 {
        Seq::empty()
    } else {
        materialized_specs(specs.drop_last()) + if materialized(specs.last()) {
            seq![specs.last()]
        } else {
            Seq::empty()
        }
    }
}

/// The message a lexicon rule built from `spec` reports.
pub open spec fn spec_message_of(spec: RuleSpec) -> Seq<char> {
    if spec.description@.len() == 0 { default_lexicon_message() } else { spec.description@ }
}

/// The rule set of `rules_with_pack`: the built-in rules, then one lexicon rule per
/// materialized pack rule.
pub open spec fn pack_rule_set(r: Seq<Box<dyn Rule>>, specs: Seq<RuleSpec>) -> bool {
    let m = materialized_specs(specs);
    &&& r.len() == 8 + m.len()
    &&& forall|i: int| 0 <= i < 8 ==> (#[trigger] r[i]).spec_id() == builtin_ids()[i]
        && r[i].spec_min_level() == builtin_levels()[i]
    &&& forall|i: int, idx: usize, span: ProseSpanView, cx: Ctx| 0 <= i < 8 ==> #[trigger] r[i].spec_detect(idx, span, cx)
        == builtin_detect(i, idx, span.text)
    &&& forall|i: int| 8 <= i < r.len() ==> (#[trigger] r[i]).spec_id() == m[i - 8].id@
        && r[i].spec_min_level() == m[i - 8].level
    &&& forall|i: int, idx: usize, span: ProseSpanView, cx: Ctx| 8 <= i < r.len() ==> #[trigger] r[i].spec_detect(idx, span, cx)
        == lexicon_spec(m[i - 8].id@, terms_view(m[i - 8].terms@), spec_message_of(m[i - 8]), idx, span.text)
}

fn clone_terms(t: &Vec<String>) -> (c: Vec<String>)
    ensures
        terms_view(c@) == terms_view(t@),
{
    let mut c: Vec<String> = Vec::new();
    let mut i: usize = 0;
    while i < t.len()
        invariant
            i <= t@.len(),
            terms_view(c@) == terms_view(t@).take(i as int),
        decreases t@.len() - i,
    {
        let ghost before = terms_view(c@);
        c.push(t[i].clone());
        assert(terms_view(c@) =~= before.push(t@[i as int]@));
        assert(terms_view(t@).take(i + 1) =~= before.push(t@[i as int]@));
        i = i + 1;
    }
    assert(terms_view(t@).take(t@.len() as int) =~= terms_view(t@));
    c
}

/// The built-in code rules followed by one flag-only lexicon rule per pack rule whose action
/// is `Flag` and whose term list is not empty. (Replace/Delete actions are not materialized.)
pub fn rules_with_pack(pack: &Pack) -> (r: Vec<Box<dyn Rule>>)
    requires
        pack_buildable(*pack),
    ensures
        pack_rule_set(r@, pack.rules@),
{
    let mut rules = builtin_rules();
    let mut i: usize = 0;
    while i < pack.rules.len()
        invariant
            i <= pack.rules@.len(),
            pack_buildable(*pack),
            pack_rule_set(rules@, pack.rules@.take(i as int)),
        decreases pack.rules@.len() - i,
    {
        let spec = &pack.rules[i];
        let ghost m0 = materialized_specs(pack.rules@.take(i as int));
        proof {
            assert(pack.rules@.take(i + 1).drop_last() =~= pack.rules@.take(i as int));
            assert(pack.rules@.take(i + 1).last() == pack.rules@[i as int]);
        }
        if spec.action == Action::Flag && spec.terms.len() > 0 {
            proof {
                assert(materialized(pack.rules@[i as int]));
            }
            let rule = LexiconFlagRule::new(spec.id.clone(), spec.level, clone_terms(&spec.terms), spec.description.clone());
            let ghost before = rules@;
            let mut one: Vec<Box<dyn Rule>> = vec![Box::new(rule)];
            let ghost o = one@;
            proof {
                assert(o[0].spec_id() == spec.id@);
                assert(o[0].spec_min_level() == spec.level);
                assert forall|idx: usize, span: ProseSpanView, cx: Ctx| #[trigger] o[0].spec_detect(idx, span, cx)
                    == lexicon_spec(spec.id@, terms_view(spec.terms@), spec_message_of(*spec), idx, span.text) by {
                    assert(o[0].spec_detect(idx, span, cx) == rule.spec_detect(idx, span, cx));
                }
            }
            rules.append(&mut one);
            proof {
                assert(rules@ == before + o);
                let m1 = materialized_specs(pack.rules@.take(i + 1));
                assert(m1 == m0.push(*spec));
                assert forall|k: int| 8 <= k < rules@.len() implies (#[trigger] rules@[k]).spec_id() == m1[k - 8].id@
                    && rules@[k].spec_min_level() == m1[k - 8].level by {
                    if k < rules@.len() - 1 {
                        assert(rules@[k] == before[k]);
                    } else {
                        assert(rules@[k] == o[0]);
                    }
                }
                assert forall|k: int, idx: usize, span: ProseSpanView, cx: Ctx| 8 <= k < rules@.len() implies #[trigger] rules@[k].spec_detect(idx, span, cx)
                    == lexicon_spec(m1[k - 8].id@, terms_view(m1[k - 8].terms@), spec_message_of(m1[k - 8]), idx, span.text) by {
                    if k < rules@.len() - 1 {
                        assert(rules@[k] == before[k]);
                        assert(before[k].spec_detect(idx, span, cx) == lexicon_spec(m0[k - 8].id@, terms_view(m0[k - 8].terms@), spec_message_of(m0[k - 8]), idx, span.text));
                    } else {
                        assert(rules@[k] == o[0]);
                    }
                }
                assert forall|k: int| 0 <= k < 8 implies (#[trigger] rules@[k]).spec_id() == builtin_ids()[k]
                    && rules@[k].spec_min_level() == builtin_levels()[k] by {
                    assert(rules@[k] == before[k]);
                }
                assert forall|k: int, idx: usize, span: ProseSpanView, cx: Ctx| 0 <= k < 8 implies #[trigger] rules@[k].spec_detect(
                    idx,
                    span,
                    cx,
                ) == builtin_detect(k, idx, span.text) by {
                    assert(rules@[k] == before[k]);
                    assert(before[k].spec_detect(idx, span, cx) == builtin_detect(k, idx, span.text));
                }
            }
        } else {
            proof {
                assert(materialized_specs(pack.rules@.take(i + 1)) =~= m0);
            }
        }
        i = i + 1;
    }
    proof {
        assert(pack.rules@.take(pack.rules@.len() as int) =~= pack.rules@);
    }
    rules
}

/// `rules_with_pack` when every term list the pack turns into a rule is accepted by the
/// matcher, else `None`.
pub fn try_rules_with_pack(pack: &Pack) -> (r: Option<Vec<Box<dyn Rule>>>)
    ensures
        r is Some <==> pack_buildable(*pack),
        r matches Some(v) ==> pack_rule_set(v@, pack.rules@),
{
    let mut i: usize = 0;
    while i < pack.rules.len()
        invariant
            i <= pack.rules@.len(),
            forall|j: int| 0 <= j < i && materialized(#[trigger] pack.rules@[j]) ==> ac_buildable(
                terms_view(pack.rules@[j].terms@),
            ),
        decreases pack.rules@.len() - i,
    {
        let spec = &pack.rules[i];
        if spec.action == Action::Flag && spec.terms.len() > 0 {
            if !ac_builds(&spec.terms) {
                return None;
            }
        }
        i = i + 1;
    }
    Some(rules_with_pack(pack))
}

/// Accept the parsed built-in pack: a parse failure is reported as
/// `failed to parse built-in template: ...`; a parsed pack must pass `Pack::validate`.
pub fn load_builtin_pack(parsed: Result<Pack, String>) -> (r: Result<Pack, String>)
    ensures
        match parsed {
            Err(e) => r matches Err(m) && m@ == "failed to parse built-in template: "@ + e@,
            Ok(p) => match validation(p.schema_version, rule_ids(p.rules@)) {
                Ok(()) => r == Ok::<Pack, String>(p),
                Err(msg) => r matches Err(m) && m@ == msg,
            },
        },
{
    match parsed {
        Err(e) => Err(crate::text::prefixed("failed to parse built-in template: ", e.as_str())),
        Ok(p) => match p.validate() {
            Ok(()) => Ok(p),
            Err(m) => Err(m),
        },
    }
}

/// The active rule set: the built-in code rules, then, when the built-in pack loaded, one
/// flag-only lexicon rule per pack rule whose action is `Flag` and whose term list is not
/// empty, in pack order.
pub fn builtin_rules_with(loaded: &Result<Pack, String>) -> (r: Vec<Box<dyn Rule>>)
    requires
        loaded matches Ok(p) ==> pack_buildable(*p),
    ensures
        match loaded {
            Ok(p) => pack_rule_set(r@, p.rules@),
            Err(_) => builtin_rule_set(r@),
        },
{
    match loaded {
        Ok(p) => rules_with_pack(p),
        Err(_) => builtin_rules(),
    }
}

}
