//! Error kinds of the framework.
//!
//! Decode failures are always fatal to the current call and are propagated
//! to the caller; nothing is retried internally.  Construction failures are
//! raised once at codec or descriptor build time, before any data flows.

use vstd::prelude::*;

verus! {

/// A failure while reading values back out of a byte buffer.
#[derive(Clone, Copy, Debug, PartialEq, Eq, Structural)]
pub enum DecodeError {
    /// The remaining buffer is shorter than the bytes the wire layout needs.
    TooShort,
    /// A boolean slot held a byte other than 0 or 1.
    BadBool(u8),
    /// A string payload was not valid UTF-8.
    BadUtf8,
    /// A discriminant byte named no known variant.
    BadTag(u8),
    /// A stored union index was at or beyond the option count.
    BadIndex(u64),
    /// A numeric-array payload did not match the product of its shape.
    BadShape,
    /// A stored length does not fit this platform's address width.
    BadLength,
}

/// A failure while writing a value into a byte buffer.
#[derive(Clone, Copy, Debug, PartialEq, Eq, Structural)]
pub enum EncodeError {
    /// The value does not match the codec's expected shape.
    Mismatch,
    /// A union selector chose an index at or beyond the option count.
    BadIndex(u64),
}

/// A failure while building a codec from its configuration.
#[derive(Clone, Copy, Debug, PartialEq, Eq, Structural)]
pub enum ConstructionError {
    /// A field name in the init strategy names no declared field.
    UnknownField,
    /// The allocation pool's minimum size exceeds its maximum.
    PoolBounds,
    /// A fixed shape describes a payload beyond this platform's address
    /// width, so no buffer of that frame can exist.
    FrameOverflow,
    /// The descriptor delegates to a host-side strategy object, which only
    /// the host layer can run.
    HostOnly,
}

/// The operator declined to rebuild a descriptor that embeds host objects.
#[derive(Clone, Copy, Debug, PartialEq, Eq, Structural)]
pub enum SecurityAbort {
    /// Reconstruction was declined; nothing was rebuilt.
    Declined,
}

} // verus!
