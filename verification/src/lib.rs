//! # Skytable client
//!
//! The building blocks of a client for the Skytable key-value database: the
//! decoder for the response packets that the server sends
//! ([`deserializer::parse`]), the encoder for the query packets that the
//! client sends ([`Query`]) and the settings of a connection ([`Config`]).
//!
//! Nothing in this library reads from or writes to a connection. It turns
//! bytes into values and values into bytes, and says of every function what
//! the result is.

use vstd::prelude::*;

pub mod config;
pub mod corruption;
pub mod decimal;
pub mod deserializer;
pub mod frames;
pub mod query;
pub mod respcode;
pub mod truncation;
pub mod wellformed;

pub use config::Config;
pub use deserializer::ClientResult;
pub use deserializer::DataGroup;
pub use deserializer::DataType;
pub use query::Query;
pub use respcode::RespCode;

verus! {

/// # Responses
///
/// This enum represents responses returned by the server. This can either be a single item,
/// or a parse error if the server returned some data but it couldn't be parsed into the
/// expected type, or an invalid response in the event the server sent some invalid data.
///
/// ## Notes
/// - This enum is `#[non_exhaustive]` as more types of responses can be added in the future
/// - The `Response::Item` field is just a simple abstraction provided by this client library;
///   the protocol doesn't discriminate between single and multiple elements returned in a
///   data group. That is to say if an action like `GET x` returns (and will return) a single
///   element in a datagroup, then it is passed into this variant; the protocol always sends
///   arrays
#[derive(Debug, PartialEq)]
#[non_exhaustive]
pub enum Response {
    /// The server sent an invalid response
    InvalidResponse,
    /// A single item
    ///
    /// This is a client abstraction for a datagroup that only has one element
    Item(DataType),
    /// We failed to parse data
    ParseError,
}

} // verus!
