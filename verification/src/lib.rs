//! Symbolic addressing and type marshaling for an ADS fieldbus client.
//!
//! A remote controller exposes named variables whose binary layout is
//! discovered at connection time from two uploaded schema blobs: a symbol
//! table and a data-type table.  This crate parses those blobs into an
//! immutable directory, resolves dotted/bracketed path strings to a symbol
//! and its effective data type, encodes typed values into the device's byte
//! layout and decodes raw bytes back, and enumerates leaf paths matching a
//! structural predicate.  All transport I/O stays outside: callers hand this
//! crate plain bytes and get plain bytes back.

pub mod array;
pub mod client;
pub mod codec;
pub mod error;
pub mod filters;
pub mod laws;
pub mod literals;
pub mod numbers;
pub mod notifications;
pub mod resolve;
pub mod schema;
pub mod state;
pub mod text;
pub mod variables;

pub use client::{Client, ClientBuilder};
pub use error::AdsError;
pub use state::State;
pub use variables::{StartIndex, Variable};
