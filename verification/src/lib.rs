//! A single-pass, event-driven JSON scanner. It consumes one JSON document
//! as bytes and records, for every scalar or composite value encountered, an
//! event holding a JSONPath-like location, a type tag and the raw text of
//! the value — without ever building the document as a tree.

pub mod laws;
pub mod model;
pub mod parser;

pub use model::JsonType;
pub use model::ParseError;
pub use parser::Event;
pub use parser::JsonParser;
pub use parser::json_parse;
