//! TIFF structures as Exif items carry them.

use crate::bytes::{int16, int32, matches_at, occurs_at, read16, read32};
use vstd::prelude::*;

verus! {

/// The byte-order mark `II` of little-endian TIFF data.
pub const TIFF_II: [u8; 2] = [0x49, 0x49];

/// The byte-order mark `MM` of big-endian TIFF data.
pub const TIFF_MM: [u8; 2] = [0x4d, 0x4d];

/// Whether a TIFF byte-order mark stands at `p`.
pub open spec fn tiff_mark_at(s: Seq<u8>, p: int) -> bool {
    occurs_at(s, TIFF_II@, p) || occurs_at(s, TIFF_MM@, p)
}

/// Whether TIFF data starting at `p` is little-endian.
pub open spec fn tiff_little(s: Seq<u8>, p: int) -> bool {
    occurs_at(s, TIFF_II@, p)
}

/// The byte order that the mark at `p` declares; `None` where there is no mark.
pub fn tiff_order(data: &[u8], p: usize) -> (r: Option<bool>)
    ensures
        r is Some <==> tiff_mark_at(data@, p as int),
        r matches Some(little) ==> little == tiff_little(data@, p as int),
{
    if matches_at(data, TIFF_II.as_slice(), p) {
        Some(true)
    } else if matches_at(data, TIFF_MM.as_slice(), p) {
        Some(false)
    } else {
        None
    }
}

/// A 16-bit integer at `p`, where it lies in the data.
pub open spec fn int16_at(s: Seq<u8>, p: int, little: bool) -> Option<int> {
    if 0 <= p && p + 2 <= s.len() {
        Some(int16(s, p, little))
    } else {
        None
    }
}

/// A 32-bit integer at `p`, where it lies in the data.
pub open spec fn int32_at(s: Seq<u8>, p: int, little: bool) -> Option<int> {
    if 0 <= p && p + 4 <= s.len() {
        Some(int32(s, p, little))
    } else {
        None
    }
}

/// A 16-bit integer at `base + p`, where it lies in the data.
pub fn get16(data: &[u8], base: usize, p: usize, little: bool) -> (r: Option<u16>)
    requires
        base <= data.len(),
    ensures
        match r {
            Some(v) => int16_at(data@, base + p, little) == Some(v as int),
            None => int16_at(data@, base + p, little) is None,
        },
{
    if p > data.len() - base || data.len() - base - p < 2 {
        None
    } else {
        Some(read16(data, base + p, little))
    }
}

/// A 32-bit integer at `base + p`, where it lies in the data.
pub fn get32(data: &[u8], base: usize, p: usize, little: bool) -> (r: Option<u32>)
    requires
        base <= data.len(),
    ensures
        match r {
            Some(v) => int32_at(data@, base + p, little) == Some(v as int),
            None => int32_at(data@, base + p, little) is None,
        },
{
    if p > data.len() - base || data.len() - base - p < 4 {
        None
    } else {
        Some(read32(data, base + p, little))
    }
}

} // verus!
