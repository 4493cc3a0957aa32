//! Running shell scripts from frozen copies: the decisions, without the I/O.

pub mod cache;
pub mod checksum;
pub mod cli;
pub mod config;
pub mod expansions;
pub mod freezer;
pub mod frontmatter;
pub mod interpreter;
pub mod laws;
pub mod loader;
pub mod parser;
pub mod pin;
pub mod rewrite;
pub mod run;
pub mod shebang;
pub mod shell;
pub mod sites;
pub mod subscripts;
pub mod substitutions;
pub mod text;
