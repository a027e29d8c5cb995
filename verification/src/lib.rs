//! Alias runner library: command-line parsing, configuration trees read from
//! TOML and merged, placeholder templates, shell quoting, the decisions of a
//! run, and the text that the runner prints.
pub mod text;
pub mod error;
pub mod shell;
pub mod render;
pub mod cli;
pub mod config;
pub mod toml_doc;
pub mod schema;
pub mod resolver;
pub mod output;
pub mod run;
pub mod folding;
