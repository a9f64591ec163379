//! Client-side data model and wire codec for a time-series database's
//! HTTP write/query API.
//!
//! The heart of the crate is the line-protocol encoder, which turns typed
//! points into the database's escaped, line-oriented text format, and the
//! response decoder, which classifies HTTP status/body pairs into a closed
//! error taxonomy and splits chunked query responses into their JSON
//! documents. Every function here carries a contract that pins its result
//! down exactly.

pub mod error;
pub mod keys;
pub mod response;
pub mod serialization;

pub use error::Error;
pub use keys::Node;
pub use keys::Point;
pub use keys::Query;
pub use keys::Scalar;
pub use keys::Series;
pub use keys::Points;
pub use keys::Precision;
pub use keys::Value;
