//! Keeps hand-written scripting documentation in step with the native
//! function surface: scans declaration tables, extracts implementation
//! bodies by brace counting, infers parameter and return signatures from
//! fixed call idioms, reconciles the result against documentation files,
//! and canonicalizes documentation files into alphabetical order.

pub mod doc_gen;
pub mod doc_sort;
pub mod source_parser;
pub mod text;
