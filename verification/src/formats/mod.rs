//! Format adapters. Each parses bytes into prose spans and renders edits by splicing into the
//! original bytes (never by reserializing).

pub mod docx;
pub mod markdown;
pub mod package;
pub mod sniff;
pub mod md_events;
pub mod text;
pub mod xml;
