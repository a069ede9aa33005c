//! The template-pack model: a versioned, shareable set of declarative rules.

use vstd::prelude::*;
use crate::engine::level::CleanupLevel;
use crate::text::{decimal, push_decimal, string_push_str};

verus! {

/// A template pack: a versioned, shareable set of detection rules.
#[derive(Debug)]
pub struct Pack {
    pub schema_version: u32,
    pub pack: PackMeta,
    pub rules: Vec<RuleSpec>,
}

#[derive(Debug)]
pub struct PackMeta {
    pub id: String,
    pub version: String,
    pub title: String,
    pub license: Option<String>,
}

/// One declarative rule.
#[derive(Debug)]
pub struct RuleSpec {
    pub id: String,
    pub description: String,
    pub category: Category,
    pub level: CleanupLevel,
    pub action: Action,
    /// Term/phrase list for lexical & phrasal rules.
    pub terms: Vec<String>,
}

#[derive(Debug, Clone, Copy, PartialEq, Eq, Structural)]
pub enum Category {
    Typographic,
    Lexical,
    Phrasal,
    Stylistic,
    /// Structure-level rules (`structural` in template packs).
    Structure,
}

#[derive(Debug, Clone, Copy, PartialEq, Eq, Structural)]
pub enum Action {
    /// Detect and report only — never auto-edit (the honest default).
    Flag,
    Replace,
    Delete,
}

impl Action {
    /// The default action is `Flag`.
    pub fn default_action() -> (a: Action)
        ensures
            a == Action::Flag,
    {
        Action::Flag
    }
}

/// Ids of a pack's rules, in order.
pub open spec fn rule_ids(rules: Seq<RuleSpec>) -> Seq<Seq<char>> {
    rules.map_values(|r: RuleSpec| r.id@)
}

/// Index of the first id that repeats an earlier one, if any.
pub open spec fn first_duplicate(ids: Seq<Seq<char>>) -> Option<int>
    decreases ids.len(),
{
    if ids.len() == 0 {
        None
    } else {
        match first_duplicate(ids.drop_last()) {
            Some(k) => Some(k),
            None => if ids.drop_last().contains(ids.last()) {
                Some(ids.len() - 1)
            } else {
                None
            },
        }
    }
}

/// What `Pack::validate` returns.
pub open spec fn validation(schema_version: u32, ids: Seq<Seq<char>>) -> Result<(), Seq<char>> {
    if schema_version != Pack::CURRENT_SCHEMA {
        Err(
            "unsupported schema_version "@ + decimal(schema_version as nat) + " (this build supports "@
                + decimal(Pack::CURRENT_SCHEMA as nat) + ")"@,
        )
    } else {
        match first_duplicate(ids) {
            Some(k) => Err("duplicate rule id: "@ + ids[k]),
            None => Ok(()),
        }
    }
}

proof fn lemma_first_duplicate_prefix(ids: Seq<Seq<char>>, n: int)
    requires
        0 <= n <= ids.len(),
        first_duplicate(ids.take(n)) is Some,
    ensures
        first_duplicate(ids) == first_duplicate(ids.take(n)),
    decreases ids.len() - n,
{
    if n < ids.len() {
        assert(ids.take(n + 1).drop_last() =~= ids.take(n));
        lemma_first_duplicate_prefix(ids, n + 1);
    } else {
        assert(ids.take(n) =~= ids);
    }
}

impl Pack {
    /// The schema version this build understands.
    pub const CURRENT_SCHEMA: u32 = 1;

    /// Minimal semantic validation: the schema version is supported and rule ids are unique.
    pub fn validate(&self) -> (r: Result<(), String>)
        ensures
            match validation(self.schema_version, rule_ids(self.rules@)) {
                Ok(()) => r is Ok,
                Err(msg) => r matches Err(m) && m@ == msg,
            },
    {
        if self.schema_version != Pack::CURRENT_SCHEMA {
            let mut msg = String::new();
            string_push_str(&mut msg, "unsupported schema_version ");
            push_decimal(&mut msg, self.schema_version as u128);
            string_push_str(&mut msg, " (this build supports ");
            push_decimal(&mut msg, Pack::CURRENT_SCHEMA as u128);
            string_push_str(&mut msg, ")");
            assert(msg@ =~= "unsupported schema_version "@ + decimal(self.schema_version as nat)
                + " (this build supports "@ + decimal(Pack::CURRENT_SCHEMA as nat) + ")"@);
            return Err(msg);
        }
        let ghost ids = rule_ids(self.rules@);
        let mut seen: Vec<Vec<char>> = Vec::new();
        let mut i: usize = 0;
        while i < self.rules.len()
            invariant
                i <= self.rules@.len(),
                self.schema_version == Pack::CURRENT_SCHEMA,
                ids == rule_ids(self.rules@),
                seen@.map_values(|v: Vec<char>| v@) == ids.take(i as int),
                first_duplicate(ids.take(i as int)) is None,
            decreases self.rules@.len() - i,
        {
            let id = crate::text::string_to_chars(self.rules[i].id.as_str());
            let ghost sv = seen@.map_values(|v: Vec<char>| v@);
            let mut j: usize = 0;
            let mut dup = false;
            while j < seen.len()
                invariant
                    j <= seen@.len(),
                    sv == seen@.map_values(|v: Vec<char>| v@),
                    !dup ==> forall|t: int| 0 <= t < j ==> sv[t] != id@,
                    dup ==> sv.contains(id@),
                decreases seen@.len() - j,
            {
                if crate::text::chars_eq(&seen[j], &id) {
                    dup = true;
                    assert(sv[j as int] == id@);
                }
                j = j + 1;
            }
            proof {
                assert(ids.take(i + 1).drop_last() =~= ids.take(i as int));
                assert(ids.take(i + 1).last() == id@);
                assert(ids[i as int] == id@);
            }
            if dup {
                let mut msg = String::new();
                string_push_str(&mut msg, "duplicate rule id: ");
                string_push_str(&mut msg, self.rules[i].id.as_str());
                proof {
                    assert(sv == ids.take(i as int));
                    assert(ids.take(i + 1).drop_last().contains(ids.take(i + 1).last()));
                    assert(first_duplicate(ids.take(i + 1)) == Some(i as int));
                    lemma_first_duplicate_prefix(ids, i + 1);
                    assert(msg@ =~= "duplicate rule id: "@ + ids[i as int]);
                }
                return Err(msg);
            }
            let ghost before = seen@.map_values(|v: Vec<char>| v@);
            seen.push(id);
            proof {
                assert(seen@.map_values(|v: Vec<char>| v@) =~= before.push(id@));
                if sv.contains(id@) {
                    let t = choose|t: int| 0 <= t < sv.len() && sv[t] == id@;
                    assert(false);
                }
            }
            i = i + 1;
        }
        proof {
            assert(ids.take(ids.len() as int) =~= ids);
        }
        Ok(())
    }
}

}
