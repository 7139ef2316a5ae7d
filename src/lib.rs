//! A CBOR (RFC 8949) codec over borrowed byte buffers: header codec, kind
//! classifier, visiting and navigating decoder, typed decode and encoder.

pub mod decoder;
pub mod encoder;
pub mod error;
pub mod header;
pub mod kind;
pub mod value;

pub use decoder::{CBORIter, Decode, Event, EventLog, NullVisitor, Visitor, CBOR};
pub use encoder::{array_cbor_encode, array_cbor_size, Encode};
pub use error::Error;
pub use header::{decode_header, encode_header, header_size};
pub use kind::{Float, Kind};
