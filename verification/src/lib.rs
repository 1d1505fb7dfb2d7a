//! A directory-scoped key-value configuration store.
//!
//! Key/value pairs are attached to absolute directory paths and looked up
//! from a working directory or any of its descendants, with values defined
//! closer to the queried directory overriding values defined at ancestors.

pub mod config;
pub mod json;
pub mod opts;
pub mod paths;
pub mod projector;
pub mod store;
pub mod strings;

pub use paths::parent;
pub use store::default_data;
