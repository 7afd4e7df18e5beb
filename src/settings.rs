use vstd::prelude::*;

verus! {

/// Number of entries in an image's palette-substitution table.
pub const COLOR_COUNT: u32 = 256;

/// Number of sound channels a piece of music holds a sequence for.
pub const CHANNEL_COUNT: u32 = 4;

} // verus!
