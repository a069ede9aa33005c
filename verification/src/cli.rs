//! The decisions of the command line and the desktop front end, apart from their I/O: which
//! output format was asked for, where the result goes, and how choices map to values.

use vstd::prelude::*;
use crate::convert::{Target, target_of_ext};
use crate::engine::level::CleanupLevel;
use crate::convert::{ConvertReport, ConvertReportView};
use crate::engine::group::grouping_view;
use crate::engine::pipeline::CleanReport;
use crate::text::{decimal, lower_ascii_seq, push_decimal, str_to_string, string_push_str};

verus! {

/// The message of an unknown `--to` format.
pub open spec fn unknown_target_message(t: Seq<char>) -> Seq<char> {
    "unknown --to format: "@ + t + " (use md|txt|docx|pdf)"@
}

/// The target a run asks for: from `--to` when given (an unknown name is an error), else from
/// the extension of the output path, else none.
pub open spec fn resolved_target(to: Option<Seq<char>>, output_ext: Option<Seq<char>>) -> Result<Option<Target>, Seq<char>> {
    match to {
        Some(t) => match target_of_ext(lower_ascii_seq(t)) {
            Some(x) => Ok(Some(x)),
            None => Err(unknown_target_message(t)),
        },
        None => match output_ext {
            Some(e) => Ok(target_of_ext(lower_ascii_seq(e))),
            None => Ok(None),
        },
    }
}

/// The view of an optional string slice.
pub open spec fn opt_view(o: Option<&str>) -> Option<Seq<char>> {
    match o {
        Some(s) => Some(s@),
        None => None,
    }
}

/// Resolve the conversion target from `--to`, else from the extension of the `-o` path.
pub fn resolve_target(to: Option<&str>, output_ext: Option<&str>) -> (r: Result<Option<Target>, String>)
    ensures
        match resolved_target(opt_view(to), opt_view(output_ext)) {
            Ok(x) => r == Ok::<Option<Target>, String>(x),
            Err(m) => r matches Err(s) && s@ == m,
        },
{
    match to {
        Some(t) => match Target::from_ext(t) {
            Some(x) => Ok(Some(x)),
            None => {
                let mut m = str_to_string("unknown --to format: ");
                string_push_str(&mut m, t);
                string_push_str(&mut m, " (use md|txt|docx|pdf)");
                Err(m)
            },
        },
        None => match output_ext {
            Some(e) => Ok(Target::from_ext(e)),
            None => Ok(None),
        },
    }
}

/// `""` for one, `"s"` otherwise.
pub fn plural(n: usize) -> (s: &'static str)
    ensures
        s@ == (if n == 1 { ""@ } else { "s"@ }),
{
    if n == 1 {
        ""
    } else {
        "s"
    }
}

/// An optional name, or a fallback.
pub open spec fn or_else(o: Option<Seq<char>>, d: Seq<char>) -> Seq<char> {
    match o {
        Some(s) => s,
        None => d,
    }
}

fn str_or(o: Option<&str>, d: &str) -> (r: String)
    ensures
        r@ == or_else(
            match o {
                Some(s) => Some(s@),
                None => None,
            },
            d@,
        ),
{
    match o {
        Some(s) => str_to_string(s),
        None => str_to_string(d),
    }
}

/// The file name of a cleaned copy: `foo.md` gives `foo.cleaned.md` (stem `output` and
/// extension `txt` when the path has none).
pub fn cleaned_file_name(stem: Option<&str>, ext: Option<&str>) -> (r: String)
    ensures
        r@ == or_else(
            match stem {
                Some(s) => Some(s@),
                None => None,
            },
            "output"@,
        ) + ".cleaned."@ + or_else(
            match ext {
                Some(e) => Some(e@),
                None => None,
            },
            "txt"@,
        ),
{
    let mut r = str_or(stem, "output");
    string_push_str(&mut r, ".cleaned.");
    let e = str_or(ext, "txt");
    string_push_str(&mut r, e.as_str());
    r
}

/// The file name of a converted copy: `foo.docx` and `md` give `foo.cleaned.md`.
pub fn converted_file_name(stem: Option<&str>, ext: &str) -> (r: String)
    ensures
        r@ == or_else(
            match stem {
                Some(s) => Some(s@),
                None => None,
            },
            "output"@,
        ) + ".cleaned."@ + ext@,
{
    let mut r = str_or(stem, "output");
    string_push_str(&mut r, ".cleaned.");
    string_push_str(&mut r, ext);
    r
}

/// A file name with an extra extension: `foo.md` and `bak` give `foo.md.bak`.
pub fn extra_extension_name(file_name: Option<&str>, extra: &str) -> (r: String)
    ensures
        r@ == or_else(
            match file_name {
                Some(s) => Some(s@),
                None => None,
            },
            "output"@,
        ) + "."@ + extra@,
{
    let mut r = str_or(file_name, "output");
    string_push_str(&mut r, ".");
    string_push_str(&mut r, extra);
    r
}

/// Where a cleaned (or converted) result is written.
#[derive(Debug, Clone, Copy, PartialEq, Eq, Structural)]
pub enum Destination {
    /// The path given with `-o`.
    Output,
    /// The input itself (`--in-place`).
    Input,
    /// A sibling named for the target format.
    Converted,
    /// A sibling named `*.cleaned.*`.
    Cleaned,
}

/// Choose where to write: `-o` first, then the input in place, then a converted or cleaned
/// sibling.
pub fn destination(has_output: bool, in_place: bool, converted: bool) -> (d: Destination)
    ensures
        d == (if has_output {
            Destination::Output
        } else if in_place {
            Destination::Input
        } else if converted {
            Destination::Converted
        } else {
            Destination::Cleaned
        }),
{
    if has_output {
        Destination::Output
    } else if in_place {
        Destination::Input
    } else if converted {
        Destination::Converted
    } else {
        Destination::Cleaned
    }
}

/// The level at a position of the level picker (`Light`, `Standard`, `Aggressive`; any other
/// position is `Standard`).
pub open spec fn level_at(n: int) -> CleanupLevel {
    if n == 0 {
        CleanupLevel::Light
    } else if n == 2 {
        CleanupLevel::Aggressive
    } else {
        CleanupLevel::Standard
    }
}

/// The target at a position of the "convert to" picker (position 0 keeps the input's format).
pub open spec fn target_at(n: int) -> Option<Target> {
    if n == 1 {
        Some(Target::Markdown)
    } else if n == 2 {
        Some(Target::Text)
    } else if n == 3 {
        Some(Target::Docx)
    } else if n == 4 {
        Some(Target::Pdf)
    } else {
        None
    }
}

/// The level at a position of the level picker.
pub fn level_from_i32(n: i32) -> (l: CleanupLevel)
    ensures
        l == level_at(n as int),
{
    if n == 0 {
        CleanupLevel::Light
    } else if n == 2 {
        CleanupLevel::Aggressive
    } else {
        CleanupLevel::Standard
    }
}

/// The position of a level in the level picker.
pub fn level_to_i32(l: CleanupLevel) -> (n: i32)
    ensures
        n == crate::engine::level::level_rank(l),
{
    match l {
        CleanupLevel::Light => 0,
        CleanupLevel::Standard => 1,
        CleanupLevel::Aggressive => 2,
    }
}

/// The target at a position of the "convert to" picker.
pub fn target_from_idx(n: i32) -> (t: Option<Target>)
    ensures
        t == target_at(n as int),
{
    if n == 1 {
        Some(Target::Markdown)
    } else if n == 2 {
        Some(Target::Text)
    } else if n == 3 {
        Some(Target::Docx)
    } else if n == 4 {
        Some(Target::Pdf)
    } else {
        None
    }
}

/// A level's picker position gives the level back.
pub proof fn lemma_level_position_roundtrip(l: CleanupLevel)
    ensures
        level_at(crate::engine::level::level_rank(l)) == l,
{
}

/// Whether writing is skipped because the file is already clean: same format, and no edit was
/// applied.
pub fn skip_write(converting: bool, edits_applied: usize) -> (b: bool)
    ensures
        b == (!converting && edits_applied == 0),
{
    !converting && edits_applied == 0
}

/// Whether the request is refused: an in-place write cannot change the file format.
pub fn refuses_in_place(in_place: bool, converting: bool) -> (b: bool)
    ensures
        b == (in_place && converting),
{
    in_place && converting
}

/// One indented `count ×  rule` line per rule, in order.
pub open spec fn count_lines(g: Seq<(Seq<char>, usize)>) -> Seq<char>
    decreases g.len(),
{
    if g.len() == 0 {
        Seq::empty()
    } else {
        count_lines(g.drop_last()) + "    "@ + decimal(g.last().1 as nat) + " \u{00D7}  "@ + g.last().0 + "\n"@
    }
}

/// The summary of a clean shown to the user: what was removed or normalized and what was
/// flagged, per rule, or that the file is already clean.
pub open spec fn report_detail_text(applied: Seq<(Seq<char>, usize)>, has_flags: bool, flagged: Seq<(Seq<char>, usize)>) -> Seq<char> {
    if applied.len() == 0 && !has_flags {
        "No AI fingerprints found. Your file is already clean.\n"@
    } else {
        (if applied.len() > 0 {
            "Removed / normalized:\n"@ + count_lines(applied)
        } else {
            Seq::empty()
        }) + (if flagged.len() > 0 {
            "\nFlagged for your review (left unchanged):\n"@ + count_lines(flagged)
        } else {
            Seq::empty()
        })
    }
}

fn push_count_lines(out: &mut String, g: &Vec<(String, usize)>)
    ensures
        final(out)@ == old(out)@ + count_lines(grouping_view(g@)),
{
    let ghost gv = grouping_view(g@);
    let ghost start = out@;
    let mut i: usize = 0;
    while i < g.len()
        invariant
            i <= g@.len(),
            gv == grouping_view(g@),
            out@ == start + count_lines(gv.take(i as int)),
        decreases g@.len() - i,
    {
        proof {
            assert(gv.take(i + 1).drop_last() =~= gv.take(i as int));
            assert(gv.take(i + 1).last() == (g@[i as int].0@, g@[i as int].1));
        }
        string_push_str(out, "    ");
        push_decimal(out, g[i].1 as u128);
        string_push_str(out, " \u{00D7}  ");
        string_push_str(out, g[i].0.as_str());
        string_push_str(out, "\n");
        proof {
            assert(out@ =~= start + count_lines(gv.take(i + 1)));
        }
        i = i + 1;
    }
    assert(gv.take(g@.len() as int) =~= gv);
}

/// The summary of a clean shown to the user.
pub fn report_detail(report: &CleanReport) -> (s: String)
    ensures
        s@ == report_detail_text(
            grouping_view(report.applied_by_rule@),
            report.flags@.len() > 0,
            grouping_view(report.flagged_by_rule@),
        ),
{
    let mut d = String::new();
    if report.applied_by_rule.len() == 0 && report.flags.len() == 0 {
        string_push_str(&mut d, "No AI fingerprints found. Your file is already clean.\n");
        return d;
    }
    if report.applied_by_rule.len() > 0 {
        string_push_str(&mut d, "Removed / normalized:\n");
        push_count_lines(&mut d, &report.applied_by_rule);
    }
    if report.flagged_by_rule.len() > 0 {
        string_push_str(&mut d, "\nFlagged for your review (left unchanged):\n");
        push_count_lines(&mut d, &report.flagged_by_rule);
    }
    d
}

/// One indented warning line per warning.
pub open spec fn warning_lines(ws: Seq<Seq<char>>) -> Seq<char>
    decreases ws.len(),
{
    if ws.len() == 0 {
        Seq::empty()
    } else {
        warning_lines(ws.drop_last()) + "    \u{26A0} "@ + ws.last() + "\n"@
    }
}

/// The note on a conversion shown to the user: the target and the engine, then its warnings,
/// or that formatting was preserved when there are none.
pub open spec fn conversion_detail_text(label: Seq<char>, rep: ConvertReportView) -> Seq<char> {
    "\nConvert to "@ + label + " (via "@ + rep.engine + "):\n"@ + (if rep.warnings.len() == 0 {
        "    formatting preserved\n"@
    } else {
        Seq::empty()
    }) + warning_lines(rep.warnings)
}

/// The note on a conversion shown to the user.
pub fn conversion_detail(label: &str, rep: &ConvertReport) -> (s: String)
    ensures
        s@ == conversion_detail_text(label@, rep@),
{
    let ghost ws = rep@.warnings;
    let mut d = String::new();
    string_push_str(&mut d, "\nConvert to ");
    string_push_str(&mut d, label);
    string_push_str(&mut d, " (via ");
    string_push_str(&mut d, rep.engine.as_str());
    string_push_str(&mut d, "):\n");
    if rep.warnings.len() == 0 {
        string_push_str(&mut d, "    formatting preserved\n");
    }
    let ghost start = d@;
    let mut i: usize = 0;
    while i < rep.warnings.len()
        invariant
            i <= ws.len(),
            ws == rep@.warnings,
            d@ == start + warning_lines(ws.take(i as int)),
        decreases ws.len() - i,
    {
        proof {
            assert(ws.take(i + 1).drop_last() =~= ws.take(i as int));
            assert(ws.take(i + 1).last() == rep.warnings@[i as int]@);
        }
        string_push_str(&mut d, "    \u{26A0} ");
        string_push_str(&mut d, rep.warnings[i].as_str());
        string_push_str(&mut d, "\n");
        proof {
            assert(d@ =~= start + warning_lines(ws.take(i + 1)));
        }
        i = i + 1;
    }
    assert(ws.take(ws.len() as int) =~= ws);
    d
}

}
