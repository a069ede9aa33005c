//! The format-agnostic heart of the library: prose spans overlaid on the original bytes,
//! rules that only see prose, and a splice that copies every structural byte verbatim.

pub mod error;
pub mod group;
pub mod ir;
pub mod level;
pub mod pipeline;
pub mod splice;
pub mod traits;
