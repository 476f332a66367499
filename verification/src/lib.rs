//! A library to manipulate images of Intel bubble memories as stored by MAME:
//! bootloops, storage loops, Fire-code protected pages and the logical/physical
//! address mapping of the devices.

pub mod bits;
pub mod bootloop;
pub mod channel;
pub mod converter;
pub mod fire;
pub mod hex;
pub mod memory;
pub mod random;
pub mod storage_loop;
pub mod sync;
pub mod ui;

use vstd::prelude::*;

verus! {

/// An address in a storage loop (physical) or a logical page number.
pub type Address = u16;

/// Bits stored in one storage loop of the device.
pub const BITS_PER_LOOP: usize = 4096;
/// Storage loops per quad.
pub const LOOPS_PER_QUAD: usize = 80;
/// Quads per channel.
pub const QUADS_PER_CH: usize = 2;
/// Channels per device.
pub const CH_PER_MEM: usize = 2;
/// Size of a channel bootloop.
pub const CH_BL_SIZE: usize = 160;
/// Size of the device bootloop.
pub const BL_SIZE: usize = 320;
/// Size of an encoded loop, in bytes.
pub const ENC_LOOP_SIZE: usize = 512;
/// Count of valid logical addresses.
pub const LOG_ADDRS: u16 = 2048;
/// Size of a logical page with error correction enabled, in bytes.
pub const LOG_PAGE_SIZE: usize = 64;
/// Size of a full memory image, in bytes.
pub const IMG_SIZE: usize = 131072;

} // verus!
