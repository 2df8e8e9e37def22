//! JSON Document Transforms: a transform is a JSON object that mixes overlay
//! data with `@jdt.*` verbs, and is folded into a copy of a source document.
//!
//! Every executable function carries a contract over a mathematical model:
//! of JSON values in [`json`], of paths in [`path`], of selectors in
//! [`jsonpath`] and [`parser`], and of the interpreter in [`transform`]. The
//! interpreter itself is in [`engine`]. What holds of every document,
//! selector and transform is proved in [`identities`], [`overlay`],
//! [`deletion`], [`render`] and [`wellformed`].
pub mod deletion;
pub mod engine;
pub mod identities;
pub mod json;
pub mod jsonpath;
pub mod overlay;
pub mod parser;
pub mod path;
pub mod render;
pub mod text;
pub mod transform;
pub mod wellformed;

pub use crate::engine::apply;
pub use crate::json::{JsonNumber, JsonObject, JsonValue};
pub use crate::jsonpath::{JsonPath, JsonPathError};
pub use crate::path::PathItem;
pub use crate::text::strip_bom;
pub use crate::transform::JdtError;
