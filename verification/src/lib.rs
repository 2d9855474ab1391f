//! A codec for a line-oriented, length-prefixed wire protocol of the kind
//! key-value servers speak: a parser from bytes to a small closed set of
//! wire types, and a mapping layer between those wire types and an
//! abstract structured-value model.

pub mod decimal;
pub mod wire;
pub mod text;
pub mod parser;
pub mod error;
pub mod value;
pub mod ser;
pub mod de;
pub mod laws;

pub use de::deserialize;
pub use parser::parse;
pub use ser::serialize;
