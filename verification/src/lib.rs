//! Typed model of a document database's REST interface: field values,
//! documents, structured queries and transaction options, each with its
//! validation rules and its mapping to and from JSON.
//!
//! Every type that crosses the wire has a mathematical view, an `encode` that
//! says which JSON tree it is sent as or why it is refused, and a `decode`
//! that says which value a tree stands for. The executable functions are
//! proved against those, and so are the round trips, through trees and
//! through text.

pub mod error;
pub mod text;
pub mod number;
pub mod decimal;
pub mod json;
pub mod parse;
pub mod wire;
pub mod firestore;
pub mod value;
pub mod collection;
pub mod transaction;
pub mod document;
pub mod query;

pub use collection::{CollectionSelector, Cursor};
pub use document::{Document, FieldFilter, FieldReference, MAX_DOCUMENT_BYTES};
pub use error::Error;
pub use firestore::{Firestore, ProjectMethods};
pub use json::Json;
pub use query::{
    CompositeFilter, Filter, Order, Projection, RunQueryRequest, RunQueryResponse,
    StructuredQuery, UnaryFilter,
};
pub use transaction::{ReadOnly, ReadWrite, TransactionOptions};
pub use value::{ArrayValue, Double, Empty, LatLng, MapValue, Value};
pub use wire::{deserialize, serialize, validate, Wire};
