//! A static-blog build pipeline: remote markdown entries are turned into
//! syntax-highlighted HTML pages, a freshness cache decides which pages need
//! re-rendering, and templates are filled to produce the final site.
pub mod bytemap;
pub mod bytes;
pub mod cache;
pub mod config;
pub mod errors;
pub mod gist;
pub mod highlight;
pub mod lits;
pub mod parsers;
pub mod template;
