//! Why a decode or an encode gave up.
use vstd::prelude::*;

verus! {

/// The ways a decode or an encode can fail; each one ends the whole call.
#[derive(Clone, Copy, Debug, PartialEq, Eq, Structural)]
pub enum Error {
    /// A major type outside {0, 2, 3, 4, 5, 7}, or an additional type above 26.
    MalformedHeader,
    /// A simple value (major type 7) other than null.
    UnsupportedSimpleValue,
    /// A map key that is not a text string.
    InvalidMapKey,
    /// A text string whose bytes are not well-formed UTF-8.
    TextDecodeError,
    /// A count or integer too large for the encoder (above 255).
    Unrepresentable,
    /// The input ended before an item was complete.
    Truncated,
}

} // verus!
