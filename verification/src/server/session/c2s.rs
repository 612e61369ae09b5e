//! Messages a client sends.
use vstd::prelude::*;

verus! {

pub const INPUT: u8 = 0x10;
pub const CHECKSUM: u8 = 0x11;
pub const ROLE: u8 = 0x12;

} // verus!
