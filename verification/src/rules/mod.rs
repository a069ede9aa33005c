//! Detection rules. Typographic and hidden-character normalization are built-in code rules
//! (deterministic, Unicode-exact); lexical rules are built from a template pack's term lists.

pub mod lexicon;
pub mod registry;
pub mod scan;
pub mod schema;
pub mod typographic;
pub mod unicode_hidden;
