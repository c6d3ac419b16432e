//! Typed codec layer for textual protocol header fields.
//!
//! The crate converts between a header field's wire form (one or more raw
//! byte lines, [`Raw`](raw::Raw)) and a strongly typed in-memory value, and
//! offers write-once cache cells ([`cell`]) so a typed view of a raw field
//! is computed at most once.  Every decoder is total: for arbitrary input
//! bytes it returns either a value or an [`Error`], never panicking.

use vstd::prelude::*;

pub mod access_control_allow_credentials;
pub mod access_control_allow_origin;
pub mod accept_ranges;
pub mod cell;
pub mod cookie;
pub mod date;
pub mod header;
pub mod last_event_id;
pub mod parsing;
pub mod referrer_policy;
pub mod preference_applied;
pub mod quality;
pub mod raw;
pub mod text;
pub mod warning;

verus! {

/// Failure to decode a header field from its raw bytes.
///
/// Decoding errors are recoverable: a caller treats the field as absent or
/// invalid.  They are never raised for correct wire input.
#[derive(Clone, Copy, Debug, PartialEq, Eq, Structural)]
pub enum Error {
    /// The bytes do not satisfy the field's grammar.
    Header,
    /// The bytes are not valid UTF-8 where text is required.
    Utf8,
}

} // verus!
