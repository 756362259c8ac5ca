//! A compact collection of byte strings.
//!
//! `SubStr` stores a collection of byte strings as one shared storage
//! buffer plus a table with the location and length of each string.
//! During the build process substrings are identified: `sub` can be
//! stored inside `substring`, and strings are fused through shared
//! suffix/prefix boundaries, so that the shared buffer is often much
//! shorter than the naive concatenation of the inputs.
//!
//! The collection is immutable once built; it is produced by `Builder`.

pub mod builder;
pub mod bytes;
pub mod errors;
pub mod packed;
pub mod search;

pub use builder::Builder;
pub use errors::Error;
pub use packed::Iter;
pub use packed::SubStr;
