//! Messages the server sends.
use vstd::prelude::*;

verus! {

pub const WELCOME: u8 = 1;
pub const FRAME: u8 = 2;
pub const DESYNC: u8 = 3;
pub const INFO: u8 = 4;

} // verus!
