//! Running the whole pipeline over in-memory documents: the helpers behind the checks that
//! make the tool trustworthy (structure preservation, no-op byte identity, idempotency).

use vstd::prelude::*;
use vstd::utf8::*;
use crate::engine::error::CoreError;
use crate::engine::ir::Document;
use crate::engine::level::CleanupLevel;
use crate::engine::pipeline::{CleanReport, clean, clean_post};
use crate::engine::traits::{Ctx, Format, Rule};
use crate::rules::registry::{builtin_rule_set, builtin_rules};
use crate::text::{decode_utf8_bytes, prefixed, utf8, utf8_error_text};

verus! {

/// The context of a run at a level.
pub open spec fn ctx_of(level: CleanupLevel) -> Ctx {
    Ctx { level, dry_run: false }
}

/// The message of cleaned output that is not text.
pub open spec fn not_text_message(out: Seq<u8>) -> Seq<char> {
    "cleaned output is not UTF-8: "@ + utf8_error_text(out)
}

/// What cleaning an in-memory text gives: the input parsed by the format, cleaned with the
/// built-in rules at the level, and the output read back as text, with the number of edits
/// applied; or the error of whichever step failed.
pub open spec fn clean_str_post<F: Format + ?Sized>(fmt: &F, input: Seq<char>, level: CleanupLevel, r: Result<(String, usize), CoreError>) -> bool {
    match r {
        Ok((s, n)) => exists|d: Document, rules: Seq<Box<dyn Rule>>, out: Vec<u8>, rep: CleanReport|
            #[trigger] fmt.parse_post(utf8(input), Ok(d)) && builtin_rule_set(rules) && #[trigger] clean_post(
                fmt,
                d,
                rules,
                ctx_of(level),
                Ok((out, rep)),
            ) && out@ == utf8(s@) && n == rep.edits_applied,
        Err(e) => {
            ||| fmt.parse_post(utf8(input), Err(e))
            ||| exists|d: Document, rules: Seq<Box<dyn Rule>>|
                #[trigger] fmt.parse_post(utf8(input), Ok(d)) && builtin_rule_set(rules) && #[trigger] clean_post(
                    fmt,
                    d,
                    rules,
                    ctx_of(level),
                    Err(e),
                )
            ||| exists|d: Document, rules: Seq<Box<dyn Rule>>, out: Vec<u8>, rep: CleanReport|
                #[trigger] fmt.parse_post(utf8(input), Ok(d)) && builtin_rule_set(rules) && #[trigger] clean_post(
                    fmt,
                    d,
                    rules,
                    ctx_of(level),
                    Ok((out, rep)),
                ) && !valid_utf8(out@) && (e matches CoreError::Encoding(m) && m@ == not_text_message(out@))
        },
    }
}

/// Clean an in-memory document and return the output text and the number of edits applied.
pub fn clean_str<F: Format + ?Sized>(fmt: &F, input: &str, level: CleanupLevel) -> (r: Result<(String, usize), CoreError>)
    ensures
        clean_str_post(fmt, input@, level, r),
{
    let bytes = input.as_bytes();
    let doc = match fmt.parse(bytes) {
        Ok(d) => d,
        Err(e) => {
            return Err(e);
        },
    };
    let rules = builtin_rules();
    let cx = Ctx::new(level);
    let (out, report) = match clean(fmt, &doc, rules.as_slice(), &cx) {
        Ok(x) => x,
        Err(e) => {
            assert(fmt.parse_post(utf8(input@), Ok(doc)));
            assert(clean_post(fmt, doc, rules@, ctx_of(level), Err(e)));
            return Err(e);
        },
    };
    assert(fmt.parse_post(utf8(input@), Ok(doc)));
    assert(clean_post(fmt, doc, rules@, ctx_of(level), Ok((out, report))));
    match decode_utf8_bytes(out.as_slice()) {
        Ok(s) => {
            proof {
                decode_utf8_encode_utf8(out@);
            }
            Ok((s, report.edits_applied))
        },
        Err(m) => Err(CoreError::Encoding(prefixed("cleaned output is not UTF-8: ", m.as_str()))),
    }
}

/// Clean a text, clean the result again, and tell whether the second pass left it unchanged:
/// `clean(clean(x)) == clean(x)`.
pub fn assert_idempotent<F: Format + ?Sized>(fmt: &F, input: &str, level: CleanupLevel) -> (r: Result<bool, CoreError>)
    ensures
        match r {
            Ok(b) => exists|once: String, n1: usize, twice: String, n2: usize|
                #[trigger] clean_str_post(fmt, input@, level, Ok((once, n1))) && #[trigger] clean_str_post(
                    fmt,
                    once@,
                    level,
                    Ok((twice, n2)),
                ) && b == (once@ == twice@),
            Err(e) => clean_str_post(fmt, input@, level, Err(e)) || exists|once: String, n1: usize|
                #[trigger] clean_str_post(fmt, input@, level, Ok((once, n1))) && clean_str_post(fmt, once@, level, Err(e)),
        },
{
    let (once, n1) = match clean_str(fmt, input, level) {
        Ok(x) => x,
        Err(e) => {
            return Err(e);
        },
    };
    let (twice, n2) = match clean_str(fmt, once.as_str(), level) {
        Ok(x) => x,
        Err(e) => {
            assert(clean_str_post(fmt, input@, level, Ok((once, n1))));
            return Err(e);
        },
    };
    assert(clean_str_post(fmt, input@, level, Ok((once, n1))));
    assert(clean_str_post(fmt, once@, level, Ok((twice, n2))));
    Ok(crate::text::str_eq(once.as_str(), twice.as_str()))
}

}
