use vstd::prelude::*;
use crate::text::ascii_lowercase;

verus! {

/// Cleanup aggressiveness. Ordering matters: `Light < Standard < Aggressive`, so a rule
/// whose minimum level is `min` is active whenever `current >= min`.
#[derive(Debug, Clone, Copy, PartialEq, Eq, PartialOrd, Ord, Hash, Structural)]
pub enum CleanupLevel {
    /// Invisible/zero-width character hygiene only. Safe to run on anything.
    Light,
    /// + visible-punctuation normalization and safe phrase handling.
    Standard,
    /// + stylistic flags and opt-in lexical/typographic rewriting.
    Aggressive,
}

/// Position of a level in the order `Light < Standard < Aggressive`.
pub open spec fn level_rank(l: CleanupLevel) -> int {
    match l {
        CleanupLevel::Light => 0,
        CleanupLevel::Standard => 1,
        CleanupLevel::Aggressive => 2,
    }
}

/// The lowercase name of a level.
pub open spec fn level_name(l: CleanupLevel) -> Seq<char> {
    match l {
        CleanupLevel::Light => "light"@,
        CleanupLevel::Standard => "standard"@,
        CleanupLevel::Aggressive => "aggressive"@,
    }
}

/// The level that an (already lowercased) name or abbreviation denotes.
pub open spec fn level_of_name(s: Seq<char>) -> Option<CleanupLevel> {
    if s == "light"@ || s == "l"@ {
        Some(CleanupLevel::Light)
    } else if s == "standard"@ || s == "std"@ || s == "s"@ {
        Some(CleanupLevel::Standard)
    } else if s == "aggressive"@ || s == "aggr"@ || s == "a"@ {
        Some(CleanupLevel::Aggressive)
    } else {
        None
    }
}

impl CleanupLevel {
    /// The default level is `Standard`.
    pub fn default_level() -> (l: CleanupLevel)
        ensures
            l == CleanupLevel::Standard,
    {
        CleanupLevel::Standard
    }

    /// True if a rule whose minimum level is `min` should run at `self`.
    pub fn includes(self, min: CleanupLevel) -> (b: bool)
        ensures
            b == (level_rank(self) >= level_rank(min)),
    {
        self.rank() >= min.rank()
    }

    /// Position in the order `Light < Standard < Aggressive`.
    pub fn rank(self) -> (r: u8)
        ensures
            r == level_rank(self),
    {
        match self {
            CleanupLevel::Light => 0,
            CleanupLevel::Standard => 1,
            CleanupLevel::Aggressive => 2,
        }
    }

    /// The lowercase display name (`light`, `standard`, `aggressive`).
    pub fn name(self) -> (s: &'static str)
        ensures
            s@ == level_name(self),
    {
        match self {
            CleanupLevel::Light => "light",
            CleanupLevel::Standard => "standard",
            CleanupLevel::Aggressive => "aggressive",
        }
    }

    /// Parse a level name, ASCII-case-insensitively, accepting the abbreviations
    /// `l`, `std`, `s`, `aggr` and `a`.
    pub fn parse_name(s: &str) -> (r: Result<CleanupLevel, String>)
        ensures
            r is Ok <==> level_of_name(crate::text::lower_ascii_seq(s@)) is Some,
            r matches Ok(l) ==> level_of_name(crate::text::lower_ascii_seq(s@)) == Some(l),
            r matches Err(m) ==> m@ == "unknown cleanup level: "@ + crate::text::lower_ascii_seq(s@),
    {
        let low = ascii_lowercase(s);
        let t = low.as_str();
        proof {
            reveal_strlit("light");
            reveal_strlit("l");
            reveal_strlit("standard");
            reveal_strlit("std");
            reveal_strlit("s");
            reveal_strlit("aggressive");
            reveal_strlit("aggr");
            reveal_strlit("a");
        }
        if crate::text::str_eq(t, "light") || crate::text::str_eq(t, "l") {
            Ok(CleanupLevel::Light)
        } else if crate::text::str_eq(t, "standard") || crate::text::str_eq(t, "std")
            || crate::text::str_eq(t, "s") {
            Ok(CleanupLevel::Standard)
        } else if crate::text::str_eq(t, "aggressive") || crate::text::str_eq(t, "aggr")
            || crate::text::str_eq(t, "a") {
            Ok(CleanupLevel::Aggressive)
        } else {
            let mut msg = String::new();
            crate::text::string_push_str(&mut msg, "unknown cleanup level: ");
            crate::text::string_push_str(&mut msg, t);
            Err(msg)
        }
    }
}

impl Default for CleanupLevel {
    /// The default level is `Standard`.
    fn default() -> (l: CleanupLevel)
        ensures
            l == CleanupLevel::Standard,
    {
        CleanupLevel::Standard
    }
}

impl std::str::FromStr for CleanupLevel {
    type Err = String;

    /// Parse a level name, as `parse_name` does.
    fn from_str(s: &str) -> (r: Result<CleanupLevel, String>)
        ensures
            r is Ok <==> level_of_name(crate::text::lower_ascii_seq(s@)) is Some,
            r matches Ok(l) ==> level_of_name(crate::text::lower_ascii_seq(s@)) == Some(l),
            r matches Err(m) ==> m@ == "unknown cleanup level: "@ + crate::text::lower_ascii_seq(s@),
    {
        CleanupLevel::parse_name(s)
    }
}

/// Parsing a level's own name gives the level back.
pub proof fn lemma_level_name_roundtrip(l: CleanupLevel)
    ensures
        level_of_name(crate::text::lower_ascii_seq(level_name(l))) == Some(l),
{
    reveal_strlit("light");
    reveal_strlit("l");
    reveal_strlit("standard");
    reveal_strlit("std");
    reveal_strlit("s");
    reveal_strlit("aggressive");
    reveal_strlit("aggr");
    reveal_strlit("a");
    crate::text::lemma_lower_ascii_seq_of_lower(level_name(l));
}

/// Inclusion is the order of levels: reflexive and transitive.
pub proof fn lemma_includes_order(a: CleanupLevel, b: CleanupLevel, c: CleanupLevel)
    ensures
        level_rank(a) >= level_rank(a),
        level_rank(a) >= level_rank(b) && level_rank(b) >= level_rank(c) ==> level_rank(a) >= level_rank(c),
        level_rank(a) >= level_rank(b) && level_rank(b) >= level_rank(a) ==> a == b,
{
}

}
