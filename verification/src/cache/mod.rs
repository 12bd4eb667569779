//! Caches of results fetched from package registries and advisory services.

pub mod advisory;
