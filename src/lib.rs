//! Typed argument encoder for a message-bus command-line client.
//!
//! Each argument is a `type:value` string; the encoder turns an ordered list
//! of them into an ordered message body, or the first error it meets.
pub mod bus_text;
pub mod encoder;
pub mod float_text;
pub mod laws;
pub mod model;
pub mod number;
pub mod text;

pub use encoder::{build_body, parse_field, parse_scalar};
pub use model::{Body, DictEntry, EncodeError, Field, Scalar, ScalarKind, ValueCause};
