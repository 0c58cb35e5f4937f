//! Completion of option names for devenv's Nix configuration files.
//!
//! The engine keeps the text of every open document, resolves the scope in
//! which the cursor stands from the syntax tree of the document, reads the
//! dotted path typed before the cursor, and looks both up in the schema of
//! the options.

pub mod backend;
pub mod chars;
pub mod lines;
pub mod parser;
pub mod path;
pub mod schema;
pub mod store;
pub mod syntax;
