//! Four-byte tags, as font tables name scripts, languages, features and axes.

use vstd::prelude::*;

verus! {

/// The number that four bytes spell, the first byte counting most.
pub open spec fn be_value(b0: u8, b1: u8, b2: u8, b3: u8) -> u32 {
    (b0 as int * 0x100_0000 + b1 as int * 0x1_0000 + b2 as int * 0x100 + b3 as int) as u32
}

/// A tag of four bytes, held as the number that they spell. Tags are ordered
/// as their bytes are.
#[derive(Clone, Copy, Debug, PartialEq, Eq, PartialOrd, Ord, Hash, Structural)]
pub struct Tag(pub u32);

impl Tag {
    /// The tag with the given bytes.
    pub fn new(raw: &[u8; 4]) -> (tag: Tag)
        ensures
            tag.0 == be_value(raw@[0], raw@[1], raw@[2], raw@[3]),
    {
        Tag(
            raw[0] as u32 * 0x100_0000 + raw[1] as u32 * 0x1_0000 + raw[2] as u32 * 0x100
                + raw[3] as u32,
        )
    }

    /// The bytes of the tag.
    pub fn to_be_bytes(self) -> (raw: [u8; 4])
        ensures
            self.0 == be_value(raw@[0], raw@[1], raw@[2], raw@[3]),
    {
        let value: u32 = self.0;
        [
            (value / 0x100_0000) as u8,
            (value / 0x1_0000 % 0x100) as u8,
            (value / 0x100 % 0x100) as u8,
            (value % 0x100) as u8,
        ]
    }
}

} // verus!
