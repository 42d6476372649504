//! A zero-decode JSON parser and serializer: a structural scanner that turns
//! JSON bytes into a tape of token offsets, a tape-driven parser, a lazily
//! decoded string type, a dynamic JSON value, and a JSON writer with exact
//! string escaping.

pub mod arena;
pub mod bytes;
pub mod deser;
pub mod error;
pub mod fast_user;
pub mod laws;
pub mod number;
pub mod parse;
pub mod scanner;
pub mod schema;
pub mod serde_ser;
pub mod serialize;
pub mod string;
pub mod utf8;
pub mod value;
pub mod view;

pub use arena::Scratchpad;
pub use deser::{from_slice, from_str, Deserialize};
pub use error::{Error, Result};
pub use fast_user::FastUser;
pub use parse::Parser;
pub use string::KString;
pub use value::Value;
pub use view::KView;
