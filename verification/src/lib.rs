//! plainmark: the verified core of a plain-Markdown notes app.
pub mod config;
pub mod daily;
pub mod error;
pub mod fs_ops;
pub mod index;
pub mod markdown;
pub mod parse;
pub mod paths;
pub mod query;
pub mod text;
pub mod tree;
pub mod vault;
pub mod watcher;
