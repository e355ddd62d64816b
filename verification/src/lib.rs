//! A composable binary serialization framework for dynamically-typed values.
//!
//! Runtime values of a rich host value model (booleans, integers, floats,
//! complex numbers, strings, byte blobs, homogeneous numeric arrays, lists,
//! sets, tuples, mappings, records, optional values, tagged unions and an
//! opaque fallback) are converted into a flat byte buffer and back, with a
//! fixed wire layout.  A codec descriptor subsystem makes a codec
//! configuration tree itself serializable, so that the same codec topology
//! can be rebuilt in a second process.

pub mod codec;
pub mod descriptor;
pub mod errors;
pub mod init;
pub mod pool;
pub mod tag;
pub mod utf8;
pub mod value;

pub mod wire;
