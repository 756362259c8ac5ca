//! Errors reported while building a `SubStr` collection.

use vstd::prelude::*;

verus! {

/// An error raised while validating the input collection.
///
/// Construction errors are fatal for the build attempt: no partial
/// collection is produced, and the caller must retry with a corrected
/// input set.
#[derive(Debug, Clone, Copy, PartialEq, Eq, Structural)]
pub enum Error {
    /// Some input string is longer than 255 bytes; the payload is the
    /// byte length of the longest input string.
    StringTooLong(usize),
    /// The input collection is empty, so no maximum string length can
    /// be computed.
    NoMaxStringLen,
}

} // verus!
