//! Constants describing the header fields of a packed trie stream.

use vstd::prelude::*;

verus! {

/// Character indicating terminus in a packed string.
pub const TERMINAL: char = '\0';

/// Header version this implementation accepts.
pub const VERSION: u32 = 0;

/// Width of the header field storing the entire header width (including the
/// char table).  The value is given in base-64 characters.
pub const HEADER_WIDTH_FIELD: usize = 10;

/// Width of the version field.
pub const VERSION_FIELD: usize = 10;

/// Width of the header field holding the sign of the pointer offset.
pub const OFFSET_SIGN_FIELD: usize = 1;

/// Width of the header field holding the unsigned value of the offset.
pub const OFFSET_VAL_FIELD: usize = 21;

/// Width of the header field holding the width of the char index in a word.
pub const CHAR_WIDTH_FIELD: usize = 8;

/// Width of the header field holding the width of the pointer in a word.
pub const POINTER_WIDTH_FIELD: usize = 8;

/// The base-64 character at which the alphabet table starts: the first 6-bit
/// boundary at or after the 58 bits of fixed header fields.
pub const ALPHABET_START_CHAR: usize = 10;

} // verus!
