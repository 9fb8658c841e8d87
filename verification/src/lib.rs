//! A project-scaffolding core: a configuration language (lexer, parser,
//! type checker), a layered value and type model with merge rules, and a
//! delimiter-configurable template substitution engine, all with verified
//! contracts.

pub mod args;
pub mod config;
pub mod config_files;
pub mod contents;
pub mod delimit;
pub mod diag;
pub mod indicator;
pub mod indicators;
pub mod keys;
pub mod replacer;
pub mod text;
pub mod values;
