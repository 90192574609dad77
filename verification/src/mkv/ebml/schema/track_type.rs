//! TrackType values.

use vstd::prelude::*;

verus! {

pub const VIDEO: u64 = 1;
pub const AUDIO: u64 = 2;
pub const COMPLEX: u64 = 3;
pub const LOGO: u64 = 0x10;
pub const SUBTITLE: u64 = 0x11;
pub const BUTTONS: u64 = 0x12;
pub const CONTROL: u64 = 0x20;
pub const METADATA: u64 = 0x21;

} // verus!
