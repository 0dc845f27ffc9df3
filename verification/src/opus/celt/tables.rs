//! Fixed parameters of the CELT layer (RFC 6716).
use vstd::prelude::*;

verus! {

/// Fractional bits of the allocation's bit counts.
pub const BITRES: i32 = 3;
/// Most fine-energy bits per band and channel.
pub const MAX_FINE_BITS: i32 = 8;
/// Offset of the fine-energy allocation, in 1/8 bit.
pub const FINE_OFFSET: i32 = 21;
pub const QTHETA_OFFSET: i32 = 4;
pub const QTHETA_OFFSET_TWOPHASE: i32 = 16;
/// Number of pseudo-pulse levels kept per band size.
pub const MAX_PSEUDO: i32 = 40;
pub const LOG_MAX_PSEUDO: i32 = 6;
/// Largest pulse count that a band is ever coded with.
pub const CELT_MAX_PULSES: i32 = 128;
/// Number of rows of the static allocation table.
pub const BITALLOC_SIZE: i32 = 11;

} // verus!
