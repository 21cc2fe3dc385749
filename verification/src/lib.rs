//! nordocs — the document model, file formats and rules of the nordocs
//! Typst toolset, with their contracts proved by Verus.
pub mod text;
pub mod error;
pub mod model;
pub mod inputs;
pub mod doctree;
pub mod schema;
pub mod validation;
pub mod xml;
pub mod markdown;
pub mod cli;
pub mod preview;
pub mod authoring;
pub mod item;
pub mod ffi;
pub mod commands;

pub use error::Error;
pub mod fatfile;
