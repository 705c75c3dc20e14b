//! Path queries over XML documents.
pub mod xml;
pub mod text;
pub mod wildcard;
pub mod number;
pub mod path;
pub mod semantics;
pub mod item;
pub mod engine;
pub mod modifiers;
pub mod lockstep;
pub mod many;
pub mod grammar;
pub mod result;
pub mod query;
pub mod modifier_laws;
pub mod laws;
pub mod path_laws;
pub mod reading_laws;
pub mod result_laws;
pub mod lockstep_laws;
pub mod borrow_laws;
pub mod once_laws;
pub mod xml_laws;
pub mod text_laws;
pub mod compare_laws;
pub mod content_laws;
pub mod wildcard_laws;
pub mod grammar_laws;
pub mod step_laws;
pub mod filter_laws;
pub mod query_laws;
pub mod validity_laws;
pub mod predicate_laws;
pub mod error_laws;
