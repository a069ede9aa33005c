//! Strip AI-generated fingerprints from documents without breaking their formatting.

pub mod cli;
pub mod convert;
pub mod engine;
pub mod formats;
pub mod rules;
pub mod seqsort;
pub mod testkit;
pub mod text;

use vstd::prelude::*;

verus! {
}
