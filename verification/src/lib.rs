//! Device-tree sources: their parts, their analysis, and projects made of them.

pub mod data;
pub mod error_codes;
pub mod ast;
pub mod keyed;
pub mod graph;
pub mod import_guard;
pub mod diagnostics;
pub mod text;
pub mod path;
pub mod display;
pub mod context;
pub mod loader;
pub mod project;
pub mod tree;
pub mod analysis;
pub mod parse;
pub mod server;
pub mod analysis_laws;
pub mod parse_laws;
pub mod project_laws;
pub mod place_laws;
pub mod search_laws;
pub mod finding_laws;
pub mod symbol_laws;
pub mod cursor_laws;
pub mod context_laws;
pub mod tree_laws;
pub mod request_laws;
pub mod writing_laws;
pub mod run_laws;
pub mod listing_laws;
pub mod order_laws;
pub mod lookup_laws;
