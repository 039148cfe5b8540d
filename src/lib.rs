//! Decoding of protocol buffer messages into a generic value tree, guided by
//! message descriptors that are known only at run time.
//!
//!   * [`wire`] reads the primitive encodings of the wire format.
//!   * [`descriptor`] holds the schema: messages, fields and their types.
//!   * [`value`] holds the decoded value tree and the merge engine.
//!   * [`error`] holds the failures that decoding reports.

pub mod descriptor;
pub mod error;
pub mod laws;
pub mod value;

pub mod wire;

pub use crate::error::Error;
