//! Parsing of mixed-dialect note text into editable block trees.
pub mod detector;
pub mod document;
pub mod error;
pub mod format;
pub mod manager;
pub mod managers;
pub mod markdown;
pub mod models;
pub mod org;
pub mod parsers;
pub mod registry;
pub mod repo;
pub mod syntax;
pub mod text;
pub mod tree;
pub mod vault;
