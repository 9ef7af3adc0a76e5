//! Composable configuration documents.
//!
//! A document may extend base documents, whose values it overrides, and may
//! include other documents at any node. [`handle_yaml`] resolves a document
//! into one tree in which the extensions are merged and the inclusions are
//! replaced. It reads no file itself: what is known of the files stands in a
//! [`Store`], and where the store lacks an answer the resolution returns the
//! question.

pub mod error;
pub mod keys;
pub mod merge;
pub mod merge_laws;
pub mod path;
pub mod resolve;
pub mod resolve_laws;
pub mod store;
pub mod value;

pub use crate::error::{Error, ErrorKind};
pub use crate::merge::{merge_mapping, merge_value};
pub use crate::resolve::{
    extend_by, from_relative_path, handle_extends, handle_include, handle_mapping_yaml,
    handle_yaml, load_include, locate, resolve_document, target_of, Halt,
};
pub use crate::store::{Loaded, Request, Store};
pub use crate::value::{Mapping, Number, TaggedValue, Value};
