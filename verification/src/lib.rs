//! Dependency-manifest and lockfile parsing for the Depsy language server.
//!
//! Every parser works on the UTF-8 bytes of its input and reports spans as
//! byte offsets within a line.

pub mod text;
pub mod parsers;
pub mod config;
pub mod auth;
pub mod cache;
pub mod scan;
