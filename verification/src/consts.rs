//! Constants of the yEnc wire format.

use vstd::prelude::*;

verus! {

/// Offset added to every raw byte on the way to the wire.
pub const OFFSET: u8 = 42;

/// Extra offset applied to the byte that follows an escape marker.
pub const ESCAPE_OFFSET: u8 = 64;

/// The escape marker, ASCII `=`.
pub const ESCAPE_CHAR: u8 = 61;

/// Default wrap width for encoded output lines.
pub const LINE_LENGTH: usize = 128;

} // verus!
