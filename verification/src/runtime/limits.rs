//! Size limits that hold for source text and for data off the wire.

use vstd::prelude::*;

verus! {

/// The longest identifier, in bytes.
pub const MAX_IDENTIFIER_LENGTH: usize = 256;

/// The longest string literal, in bytes.
pub const MAX_STRING_LITERAL_LENGTH: usize = 4096;

} // verus!
