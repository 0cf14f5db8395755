//! A JSON encoder that writes into a byte buffer of fixed capacity.
//!
//! `ser::to_string` and `ser::to_vec` encode a `value::Value`; a `ser::Serializer` takes the
//! same calls one value at a time. The capacity is fixed when the output is set up, every
//! append stores all of its bytes or none, and an output that does not fit is an error,
//! never a shortened text.
//!
//! Two limits are part of the format as it is written here:
//!
//! - A string goes out between quotes as it is. A quote, a backslash or a control character
//!   in it is not escaped, so the text is JSON only where the strings hold none of these.
//! - A field whose optional value is absent is written with the value `null`; it is not left
//!   out of its structure.
//!
//! Every function states what it writes as a `script::Script`, and `grammar` relates the
//! scripts to the text that the JSON grammar gives.

pub mod buffer;
pub mod grammar;
pub mod number;
pub mod scratch;
pub mod script;
pub mod ser;
pub mod value;
