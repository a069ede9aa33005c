//! Choosing a format adapter from a file name.

use vstd::prelude::*;
use crate::engine::error::CoreError;
use crate::engine::ir::{Document, FormatId};
use crate::engine::traits::{EditView, Format};
use crate::formats::docx::Docx;
use crate::formats::markdown::Markdown;
use crate::formats::text::PlainText;
use crate::text::{ascii_lowercase, lower_ascii_seq, str_eq, str_to_string};

verus! {

/// `e`, after a `.`, stands somewhere in `path`.
pub open spec fn follows_dot_in(path: Seq<char>, e: Seq<char>) -> bool {
    exists|i: int| 0 <= i && i + e.len() + 1 <= path.len() && #[trigger] path.subrange(i, i + e.len() + 1) == seq!['.'] + e
}

/// The index of the last `.` of `s`, or -1 when it has none.
pub open spec fn last_dot(s: Seq<char>) -> int
    decreases s.len(),
{
    if s.len() == 0 {
        -1
    } else if s.last() == '.' {
        s.len() - 1
    } else {
        last_dot(s.drop_last())
    }
}

/// The extension of a file name: what follows its last `.`, when that `.` is not its
/// first character.
pub open spec fn name_extension(s: Seq<char>) -> Option<Seq<char>> {
    let i = last_dot(s);
    if i > 0 {
        Some(s.subrange(i + 1, s.len() as int))
    } else {
        None
    }
}

/// The index of the last `/` of `s`, or -1 when it has none.
pub open spec fn last_slash(s: Seq<char>) -> int
    decreases s.len(),
{
    if s.len() == 0 {
        -1
    } else if s.last() == '/' {
        s.len() - 1
    } else {
        last_slash(s.drop_last())
    }
}

/// What follows the last `/` of a path (the whole path when it has none).
pub open spec fn last_component(s: Seq<char>) -> Seq<char> {
    s.subrange(last_slash(s) + 1, s.len() as int)
}

/// A path whose file name is its last `/`-component on every platform: `/` is a separator
/// everywhere; with no `\` and no `:`, and not starting with `//`, there is no other separator
/// and no Windows prefix. That component must be a name: not empty, `.` or `..`.
pub open spec fn is_plain_path(s: Seq<char>) -> bool {
    let c = last_component(s);
    &&& !s.contains('\\')
    &&& !s.contains(':')
    &&& !(s.len() >= 2 && s[0] == '/' && s[1] == '/')
    &&& c.len() > 0
    &&& c != "."@
    &&& c != ".."@
}

/// The index of the last `/`, `\` or `:` of `s`, or -1 when it has none.
pub open spec fn last_break(s: Seq<char>) -> int
    decreases s.len(),
{
    if s.len() == 0 {
        -1
    } else if s.last() == '/' || s.last() == '\\' || s.last() == ':' {
        s.len() - 1
    } else {
        last_break(s.drop_last())
    }
}

/// What follows the last `/`, `\` or `:` of a path (the whole path when it has none).
pub open spec fn tail_name(s: Seq<char>) -> Seq<char> {
    s.subrange(last_break(s) + 1, s.len() as int)
}

/// A path whose extension every platform agrees on. Not starting with two separators, it has
/// no UNC, device or verbatim prefix; a drive prefix (`C:`) ends at a `:`. Every platform's
/// file name then ends with the part after the last `/`, `\` or `:`; when that part is not
/// `..` and holds a `.` after its first character, the file name's extension is what follows
/// that part's last `.`.
pub open spec fn has_sure_extension(s: Seq<char>) -> bool {
    let t = tail_name(s);
    &&& !(s.len() >= 2 && (s[0] == '/' || s[0] == '\\') && (s[1] == '/' || s[1] == '\\'))
    &&& t != ".."@
    &&& last_dot(t) > 0
}

/// The format a plain path names by its file name's extension.
pub open spec fn path_format(s: Seq<char>) -> Option<FormatId> {
    match name_extension(last_component(s)) {
        Some(e) => format_of_ext(lower_ascii_seq(e)),
        None => None,
    }
}

/// `std::path::Path::extension` of the path, as a string (`None` when there is none, or when
/// it is not valid UTF-8). By its documentation the extension is what follows the last `.`
/// of the file name, and there is none without a `.`, or when the name begins with its only
/// `.`. Which part of a path is the file name depends on the platform's separators and
/// prefixes; for a plain path it is the last `/`-component on every platform, and a path with
/// a sure extension (`has_sure_extension`) has the same extension everywhere. Of any path the
/// contract states that a path without `.` has no extension, and that an extension holds no
/// `.` and follows a `.` of the path.
#[verifier::external_body]
pub(crate) fn path_extension(path: &str) -> (r: Option<String>)
    ensures
        !path@.contains('.') ==> r is None,
        is_plain_path(path@) ==> match r {
            Some(e) => name_extension(last_component(path@)) == Some(e@),
            None => name_extension(last_component(path@)) is None,
        },
        has_sure_extension(path@) ==> match r {
            Some(e) => name_extension(tail_name(path@)) == Some(e@),
            None => false,
        },
        r matches Some(e) ==> !e@.contains('.') && follows_dot_in(path@, e@),
{
    std::path::Path::new(path).extension().and_then(|e| e.to_str()).map(|e| e.to_string())
}

/// The format of a lower-case extension.
pub open spec fn format_of_ext(ext: Seq<char>) -> Option<FormatId> {
    if ext == "md"@ || ext == "markdown"@ || ext == "mdown"@ || ext == "mkd"@ {
        Some(FormatId::Markdown)
    } else if ext == "txt"@ || ext == "text"@ {
        Some(FormatId::PlainText)
    } else if ext == "docx"@ {
        Some(FormatId::Docx)
    } else {
        None
    }
}

/// The format of an extension, compared without regard to ASCII case.
pub fn format_for_ext(ext: &str) -> (r: Option<FormatId>)
    ensures
        r == format_of_ext(lower_ascii_seq(ext@)),
{
    let e = ascii_lowercase(ext);
    let e = e.as_str();
    if str_eq(e, "md") || str_eq(e, "markdown") || str_eq(e, "mdown") || str_eq(e, "mkd") {
        Some(FormatId::Markdown)
    } else if str_eq(e, "txt") || str_eq(e, "text") {
        Some(FormatId::PlainText)
    } else if str_eq(e, "docx") {
        Some(FormatId::Docx)
    } else {
        None
    }
}

/// The format a path with a sure extension names.
pub open spec fn sure_format(s: Seq<char>) -> Option<FormatId> {
    format_of_ext(lower_ascii_seq(name_extension(tail_name(s))->Some_0))
}

/// What `format_for_path` promises of its result `r` for `path`.
pub open spec fn format_for_path_post(path: Seq<char>, r: Option<FormatId>) -> bool {
    &&& !path.contains('.') ==> r is None
    &&& is_plain_path(path) ==> r == path_format(path)
    &&& has_sure_extension(path) ==> r == sure_format(path)
    &&& r matches Some(f) ==> exists|e: Seq<char>|
        #![trigger format_of_ext(lower_ascii_seq(e))]
        !e.contains('.') && follows_dot_in(path, e) && format_of_ext(lower_ascii_seq(e)) == Some(f)
}

/// Determine the format from a file extension. Which extension a path has is up to the
/// platform's path rules (`std::path::Path::extension`); the format is then the one
/// `format_for_ext` gives for it.
pub fn format_for_path(path: &str) -> (r: Option<FormatId>)
    ensures
        format_for_path_post(path@, r),
{
    match path_extension(path) {
        Some(e) => {
            let r = format_for_ext(e.as_str());
            assert(r matches Some(f) ==> format_of_ext(lower_ascii_seq(e@)) == Some(f));
            r
        },
        None => None,
    }
}

/// `a` behaves as the adapter `b`: the same contracts for parsing, rendering and
/// fingerprinting.
pub open spec fn acts_as<A: Format + ?Sized, B: Format>(a: &A, b: &B) -> bool {
    &&& forall|bytes: Seq<u8>, p: Result<Document, CoreError>| #[trigger] a.parse_post(bytes, p) == b.parse_post(bytes, p)
    &&& forall|d: Document| #[trigger] a.doc_ok(d) == b.doc_ok(d)
    &&& forall|d: Document, e: Seq<EditView>, o: Result<Vec<u8>, CoreError>| #[trigger] a.render_post(d, e, o) == b.render_post(
        d,
        e,
        o,
    )
    &&& forall|bytes: Seq<u8>, o: Result<String, CoreError>| #[trigger] a.skeleton_post(bytes, o) == b.skeleton_post(bytes, o)
}

/// `a` is the adapter of format `f`.
pub open spec fn adapter_of<A: Format + ?Sized>(a: &A, f: FormatId) -> bool {
    &&& a.spec_id() == f
    &&& match f {
        FormatId::Markdown => acts_as(a, &Markdown),
        FormatId::PlainText => acts_as(a, &PlainText),
        FormatId::Docx => acts_as(a, &Docx),
    }
}

/// The adapter of a format, or the unsupported-format error naming `path` when there is none.
pub fn formatter_for(format: Option<FormatId>, path: &str) -> (r: Result<Box<dyn Format>, CoreError>)
    ensures
        match format {
            Some(f) => r matches Ok(b) && adapter_of(&*b, f),
            None => r matches Err(CoreError::UnsupportedFormat(m)) && m@ == path@,
        },
{
    match format {
        Some(FormatId::Markdown) => Ok(Box::new(Markdown)),
        Some(FormatId::PlainText) => Ok(Box::new(PlainText)),
        Some(FormatId::Docx) => Ok(Box::new(Docx)),
        None => Err(CoreError::UnsupportedFormat(str_to_string(path))),
    }
}

/// The adapter of format `f`, or the unsupported-format error naming `path` when there is none.
pub open spec fn formatter_result(f: Option<FormatId>, path: Seq<char>, r: Result<Box<dyn Format>, CoreError>) -> bool {
    match f {
        Some(x) => r matches Ok(b) && adapter_of(&*b, x),
        None => r matches Err(CoreError::UnsupportedFormat(m)) && m@ == path,
    }
}

/// Build the right format adapter for a path, or fail if the extension is unsupported: the
/// adapter of the format `format_for_path` finds for the path.
pub fn formatter_for_path(path: &str) -> (r: Result<Box<dyn Format>, CoreError>)
    ensures
        match r {
            Ok(b) => adapter_of(&*b, b.spec_id()),
            Err(e) => e matches CoreError::UnsupportedFormat(m) && m@ == path@,
        },
        !path@.contains('.') ==> r is Err,
        is_plain_path(path@) ==> match path_format(path@) {
            Some(f) => r matches Ok(b) && adapter_of(&*b, f),
            None => r is Err,
        },
        has_sure_extension(path@) ==> match sure_format(path@) {
            Some(f) => r matches Ok(b) && adapter_of(&*b, f),
            None => r is Err,
        },
        r matches Ok(b) ==> exists|e: Seq<char>|
            #![trigger format_of_ext(lower_ascii_seq(e))]
            !e.contains('.') && follows_dot_in(path@, e) && format_of_ext(lower_ascii_seq(e)) == Some(b.spec_id()),
        exists|f: Option<FormatId>| format_for_path_post(path@, f) && #[trigger] formatter_result(f, path@, r),
{
    let f = format_for_path(path);
    let r = formatter_for(f, path);
    assert(formatter_result(f, path@, r));
    r
}

}
