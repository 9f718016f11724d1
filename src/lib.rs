//! A JSON text parser that is generic over the caller's value representation.
//!
//! The parser reads a slice of characters through a cursor and builds the
//! document with the operations of four traits (`Value`, `Array`, `Object`,
//! `Null`) that the caller implements. What it returns is stated against the
//! grammar in `grammar`; `value` holds a ready-made representation.
pub mod grammar;
pub mod laws;
pub mod model;
pub mod parser;
pub mod scan;
pub mod value;

pub use grammar::is_space;
pub use model::{Array, Decimal, Null, Number, Object, Value};
pub use parser::parse;
pub use value::{JsonArray, JsonObject, JsonValue};
