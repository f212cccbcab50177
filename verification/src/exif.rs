//! EXIF UserComment binary patching for OPPO ProXDR compatibility.
//!
//! OPPO/OnePlus/realme devices store a private UHDR routing flag inside the
//! EXIF UserComment tag (tag 0x9286) as an ASCII string like:
//!
//! ```text
//! ASCIIOplus_12345678
//! ```
//!
//! Five known prefixes are supported:
//!
//! ```text
//! ASCIIOplus_  ASCIIoppo_  Oplus_  oplus_  oppo_
//! ```
//!
//! ## Modes
//!
//! | Mode   | Operation                 | Effect |
//! |--------|---------------------------|--------|
//! | `off`          | No patch                                      | Clean Apple/ISO output |
//! | `auto`         | No patch                                      | Preserve source routing |
//! | `on` / `tail`  | `flags \| 0x20000000`                         | Activate OPPO Gallery UHDR routing |
//! | `iso`          | `(flags & ~0x20000000) \| 0x00200000`          | Prefer ISO UHDR routing |
//! | `iso-no-local` | `(flags & ~0x20040000) \| 0x00200000`          | ISO routing without local HDR |
//! | `iso-graph`    | `flags & ~0x20200000`                          | Remove OPPO/ISO routing bits |

use crate::bytes::{
    append, append_zeros, be32, copy_range, int16, int32, matches_at, occurs_at, opt_bytes,
    overwritten, pad4, push32_low, put32, read16, read32, zeros,
};
use crate::convert::distance;
use crate::isobmff::{BoxHeader, BoxView, IlocEntry, IlocView, ItemInfo, ItemView};
use crate::items::{find_iloc, find_item, iloc_for, item_typed};
use crate::seqs::{first_where, told, views};
use crate::text::{decimal, decimal_text, join, padded_ascii, padded_decimal};
use crate::tiff::{TIFF_II, get16, int16_at, tiff_little, tiff_mark_at, tiff_order};
use vstd::prelude::*;
use vstd::string::*;
use vstd::utf8::*;

verus! {

broadcast use vstd::std_specs::hash::group_hash_axioms;

/// The UHDR routing bit that OPPO Gallery checks in the UserComment tag-flag.
pub const OPPO_ULTRA_HDR_FLAG: u32 = 0x2000_0000;

/// The ISO UHDR routing bit stored by OPPO-family cameras.
pub const ISO_ULTRA_HDR_FLAG: u32 = 0x0020_0000;

/// The local HDR routing bit stored by OPPO-family cameras.
pub const LOCAL_HDR_FLAG: u32 = 0x0004_0000;

/// `ASCIIOplus_`
pub const PREFIX_ASCII_OPLUS: [u8; 11] = [
    0x41, 0x53, 0x43, 0x49, 0x49, 0x4f, 0x70, 0x6c, 0x75, 0x73, 0x5f,
];

/// `ASCIIoppo_`
pub const PREFIX_ASCII_OPPO: [u8; 10] = [
    0x41, 0x53, 0x43, 0x49, 0x49, 0x6f, 0x70, 0x70, 0x6f, 0x5f,
];

/// `Oplus_`
pub const PREFIX_OPLUS: [u8; 6] = [0x4f, 0x70, 0x6c, 0x75, 0x73, 0x5f];

/// `oplus_`
pub const PREFIX_LOWER_OPLUS: [u8; 6] = [0x6f, 0x70, 0x6c, 0x75, 0x73, 0x5f];

/// `oppo_`
pub const PREFIX_OPPO: [u8; 5] = [0x6f, 0x70, 0x70, 0x6f, 0x5f];

// ---------------------------------------------------------------------------
// Types
// ---------------------------------------------------------------------------

/// OPPO compatibility mode.
#[derive(Debug, Clone, Copy, PartialEq, Eq, Structural)]
pub enum OppoCompat {
    /// Clean ISO output - no UserComment patching.
    Off,
    /// Preserve the source routing flags while emitting OPPO-compatible output.
    Auto,
    /// Activate OPPO Gallery UHDR routing.
    On,
    /// Activate OPPO routing while preserving the complete camera tail.
    Tail,
    /// Prefer the ISO UHDR routing bit over the OPPO routing bit.
    Iso,
    /// ISO routing with the local HDR bit removed.
    IsoNoLocal,
    /// Remove both OPPO and ISO routing bits.
    IsoGraph,
}

/// EXIF orientation values used to align an auxiliary gain map with the
/// primary image. The transform maps source storage coordinates to the
/// primary image's presentation coordinates.
#[derive(Debug, Clone, Copy, PartialEq, Eq, Structural)]
pub enum ExifOrientation {
    Normal,
    FlipHorizontal,
    Rotate180,
    FlipVertical,
    Transpose,
    Rotate90Clockwise,
    Transverse,
    Rotate90CounterClockwise,
}

/// The orientation that an EXIF value stands for.
pub open spec fn orientation_of(value: int) -> Option<ExifOrientation> {
    if value == 1 {
        Some(ExifOrientation::Normal)
    } else if value == 2 {
        Some(ExifOrientation::FlipHorizontal)
    } else if value == 3 {
        Some(ExifOrientation::Rotate180)
    } else if value == 4 {
        Some(ExifOrientation::FlipVertical)
    } else if value == 5 {
        Some(ExifOrientation::Transpose)
    } else if value == 6 {
        Some(ExifOrientation::Rotate90Clockwise)
    } else if value == 7 {
        Some(ExifOrientation::Transverse)
    } else if value == 8 {
        Some(ExifOrientation::Rotate90CounterClockwise)
    } else {
        None
    }
}

impl ExifOrientation {
    /// The EXIF value of an orientation.
    pub open spec fn number(self) -> int {
        match self {
            ExifOrientation::Normal => 1,
            ExifOrientation::FlipHorizontal => 2,
            ExifOrientation::Rotate180 => 3,
            ExifOrientation::FlipVertical => 4,
            ExifOrientation::Transpose => 5,
            ExifOrientation::Rotate90Clockwise => 6,
            ExifOrientation::Transverse => 7,
            ExifOrientation::Rotate90CounterClockwise => 8,
        }
    }

    /// Whether width and height trade places.
    pub open spec fn transposes(self) -> bool {
        self.number() >= 5
    }

    /// The counter-clockwise quarter turns that stand for the orientation.
    pub open spec fn turns(self) -> int {
        match self {
            ExifOrientation::Rotate180 => 2,
            ExifOrientation::Rotate90Clockwise => 3,
            ExifOrientation::Rotate90CounterClockwise => 1,
            _ => 0,
        }
    }

    /// The presented size of an image of the given stored size.
    pub open spec fn presented(self, width: u32, height: u32) -> (u32, u32) {
        if self.transposes() {
            (height, width)
        } else {
            (width, height)
        }
    }

    pub fn from_u16(value: u16) -> (r: Result<Self, String>)
        ensures
            r is Ok <==> orientation_of(value as int) is Some,
            r matches Ok(o) ==> orientation_of(value as int) == Some(o),
            r matches Err(e) ==> e@ == "unsupported EXIF orientation: "@ + decimal_text(value as int),
    {
        match value {
            1 => Ok(ExifOrientation::Normal),
            2 => Ok(ExifOrientation::FlipHorizontal),
            3 => Ok(ExifOrientation::Rotate180),
            4 => Ok(ExifOrientation::FlipVertical),
            5 => Ok(ExifOrientation::Transpose),
            6 => Ok(ExifOrientation::Rotate90Clockwise),
            7 => Ok(ExifOrientation::Transverse),
            8 => Ok(ExifOrientation::Rotate90CounterClockwise),
            _ => Err(join("unsupported EXIF orientation: ", decimal(value as u64).as_str())),
        }
    }

    pub fn to_u16(self) -> (r: u16)
        ensures
            r == self.number(),
    {
        match self {
            ExifOrientation::Normal => 1,
            ExifOrientation::FlipHorizontal => 2,
            ExifOrientation::Rotate180 => 3,
            ExifOrientation::FlipVertical => 4,
            ExifOrientation::Transpose => 5,
            ExifOrientation::Rotate90Clockwise => 6,
            ExifOrientation::Transverse => 7,
            ExifOrientation::Rotate90CounterClockwise => 8,
        }
    }

    /// HEIF `irot` stores counter-clockwise quarter turns. Mirror-only EXIF
    /// orientations cannot be expressed by `irot`, so they use zero turns.
    pub fn irot_quarter_turns_ccw(self) -> (r: u8)
        ensures
            r == self.turns(),
    {
        match self {
            ExifOrientation::Rotate180 => 2,
            ExifOrientation::Rotate90Clockwise => 3,
            ExifOrientation::Rotate90CounterClockwise => 1,
            _ => 0,
        }
    }

    pub fn swaps_axes(self) -> (r: bool)
        ensures
            r == self.transposes(),
    {
        match self {
            ExifOrientation::Transpose | ExifOrientation::Rotate90Clockwise
            | ExifOrientation::Transverse | ExifOrientation::Rotate90CounterClockwise => true,
            _ => false,
        }
    }

    pub fn output_dimensions(self, width: u32, height: u32) -> (r: (u32, u32))
        ensures
            r == self.presented(width, height),
    {
        if self.swaps_axes() {
            (height, width)
        } else {
            (width, height)
        }
    }
}

/// The EXIF value of an orientation stands for that orientation, and an
/// orientation that a value stands for has that value.
pub proof fn orientation_numbers_round_trip(o: ExifOrientation, value: int)
    ensures
        orientation_of(o.number()) == Some(o),
        orientation_of(value) matches Some(p) ==> p.number() == value,
{
}

/// Presenting twice gives back the stored size.
pub proof fn presenting_twice_keeps_size(o: ExifOrientation, width: u32, height: u32)
    ensures
        ({
            let once = o.presented(width, height);
            o.presented(once.0, once.1) == (width, height)
        }),
{
}

// ---------------------------------------------------------------------------
// Exif orientation
// ---------------------------------------------------------------------------

/// Where the TIFF data of an Exif payload starts, or why it has none.
pub open spec fn exif_tiff_start(blob: Seq<u8>) -> Result<int, Seq<char>> {
    if tiff_mark_at(blob, 0) {
        Ok(0)
    } else if blob.len() < 4 {
        Err("Exif item is shorter than its TIFF offset"@)
    } else if be32(blob, 0) + 4 > usize::MAX {
        Err("Exif TIFF offset overflow"@)
    } else if tiff_mark_at(blob, be32(blob, 0)) {
        Ok(be32(blob, 0))
    } else if tiff_mark_at(blob, be32(blob, 0) + 4) {
        Ok(be32(blob, 0) + 4)
    } else {
        Err("Exif TIFF offset is outside the Exif item or not a TIFF header"@)
    }
}

/// The first IFD entry for a tag among the entries from the `i`-th on.
pub open spec fn entry_tagged(s: Seq<u8>, first: int, i: int, n: int, tag: int, little: bool) -> Option<
    int,
>
    decreases n - i,
{
    if i >= n {
        None
    } else if int16(s, first + 12 * i, little) == tag {
        Some(first + 12 * i)
    } else {
        entry_tagged(s, first, i + 1, n, tag, little)
    }
}

/// The orientation that the IFD entry at `e` holds.
pub open spec fn orientation_entry(s: Seq<u8>, e: int, little: bool) -> Result<
    ExifOrientation,
    Seq<char>,
> {
    let field_type = int16(s, e + 2, little);
    if int32(s, e + 4, little) != 1 {
        Err("EXIF orientation must contain exactly one value"@)
    } else if field_type != 3 && field_type != 4 {
        Err("unsupported EXIF orientation field type "@ + decimal_text(field_type))
    } else {
        let value = if field_type == 3 {
            int16(s, e + 8, little)
        } else {
            int32(s, e + 8, little)
        };
        match orientation_of(value) {
            Some(o) => Ok(o),
            None => Ok(ExifOrientation::Normal),
        }
    }
}

/// The orientation that TIFF data declares: normal where it declares none or one
/// out of range.
pub open spec fn tiff_orientation(t: Seq<u8>) -> Result<ExifOrientation, Seq<char>> {
    let little = tiff_little(t, 0);
    if t.len() < 8 {
        Err("Exif TIFF header is truncated"@)
    } else if int16(t, 2, little) != 42 {
        Err("Exif TIFF magic is invalid"@)
    } else {
        let ifd = int32(t, 4, little);
        if ifd == 0 {
            Ok(ExifOrientation::Normal)
        } else if ifd + 2 > t.len() {
            Err("Exif TIFF u16 is truncated"@)
        } else {
            let n = int16(t, ifd, little);
            if ifd + 2 + 12 * n + 4 > t.len() {
                Err("Exif IFD0 is truncated"@)
            } else {
                match entry_tagged(t, ifd + 2, 0, n, 0x0112, little) {
                    None => Ok(ExifOrientation::Normal),
                    Some(e) => orientation_entry(t, e, little),
                }
            }
        }
    }
}

/// The orientation that an Exif payload declares.
pub open spec fn exif_orientation(blob: Seq<u8>) -> Result<ExifOrientation, Seq<char>> {
    match exif_tiff_start(blob) {
        Err(e) => Err(e),
        Ok(start) => tiff_orientation(blob.subrange(start, blob.len() as int)),
    }
}

/// What an orientation result says.
pub open spec fn orientation_told(r: Result<ExifOrientation, String>) -> Result<
    ExifOrientation,
    Seq<char>,
> {
    match r {
        Ok(o) => Ok(o),
        Err(e) => Err(e@),
    }
}

fn find_tiff_start(blob: &[u8]) -> (r: Result<usize, String>)
    ensures
        match r {
            Ok(p) => exif_tiff_start(blob@) == Ok::<int, Seq<char>>(p as int) && tiff_mark_at(
                blob@,
                p as int,
            ),
            Err(e) => exif_tiff_start(blob@) == Err::<int, Seq<char>>(e@),
        },
{
    if tiff_order(blob, 0).is_some() {
        return Ok(0);
    }
    if blob.len() < 4 {
        return Err("Exif item is shorter than its TIFF offset".to_string());
    }
    let offset: usize = read32(blob, 0, false) as usize;
    if offset > usize::MAX - 4 {
        return Err("Exif TIFF offset overflow".to_string());
    }
    if tiff_order(blob, offset).is_some() {
        return Ok(offset);
    }
    if tiff_order(blob, offset + 4).is_some() {
        return Ok(offset + 4);
    }
    Err("Exif TIFF offset is outside the Exif item or not a TIFF header".to_string())
}

/// The first IFD entry for a tag among `n` entries.
pub fn find_entry(data: &[u8], first: usize, n: usize, tag: u16, little: bool) -> (r: Option<usize>)
    requires
        n <= 0xffff,
        first + 12 * n <= data.len(),
    ensures
        match r {
            Some(e) => entry_tagged(data@, first as int, 0, n as int, tag as int, little) == Some(
                e as int,
            ) && first <= e && e + 12 <= first + 12 * n,
            None => entry_tagged(data@, first as int, 0, n as int, tag as int, little) is None,
        },
{
    let mut i: usize = 0;
    while i < n
        invariant
            i <= n,
            n <= 0xffff,
            first + 12 * n <= data.len(),
            entry_tagged(data@, first as int, 0, n as int, tag as int, little) == entry_tagged(
                data@,
                first as int,
                i as int,
                n as int,
                tag as int,
                little,
            ),
        decreases n - i,
    {
        if read16(data, first + 12 * i, little) == tag {
            return Some(first + 12 * i);
        }
        i = i + 1;
    }
    None
}

fn read_orientation_entry(data: &[u8], e: usize, little: bool) -> (r: Result<ExifOrientation, String>)
    requires
        e + 12 <= data.len(),
    ensures
        orientation_told(r) == orientation_entry(data@, e as int, little),
{
    let field_type: u16 = read16(data, e + 2, little);
    if read32(data, e + 4, little) != 1 {
        return Err("EXIF orientation must contain exactly one value".to_string());
    }
    let value: u32 = if field_type == 3 {
        read16(data, e + 8, little) as u32
    } else if field_type == 4 {
        read32(data, e + 8, little)
    } else {
        return Err(
            join("unsupported EXIF orientation field type ", decimal(field_type as u64).as_str()),
        );
    };
    if 1 <= value && value <= 8 {
        ExifOrientation::from_u16(value as u16)
    } else {
        Ok(ExifOrientation::Normal)
    }
}

/// Read the EXIF orientation from an Exif payload.
///
/// Accepts either a bare TIFF payload (the bytes after the `Exif\0\0` JPEG
/// APP1 prefix) or a HEIF Exif item body whose leading 4-byte field points at
/// the TIFF header.
pub fn parse_exif_orientation(exif_blob: &[u8]) -> (r: Result<ExifOrientation, String>)
    ensures
        orientation_told(r) == exif_orientation(exif_blob@),
{
    let start: usize = match find_tiff_start(exif_blob) {
        Ok(p) => p,
        Err(e) => {
            return Err(e);
        },
    };
    let tiff: &[u8] = vstd::slice::slice_subrange(exif_blob, start, exif_blob.len());
    assert(tiff_mark_at(exif_blob@, start as int));
    if tiff.len() < 8 {
        return Err("Exif TIFF header is truncated".to_string());
    }
    let little: bool = matches_at(tiff, TIFF_II.as_slice(), 0);
    if read16(tiff, 2, little) != 42 {
        return Err("Exif TIFF magic is invalid".to_string());
    }
    let ifd: usize = read32(tiff, 4, little) as usize;
    if ifd == 0 {
        return Ok(ExifOrientation::Normal);
    }
    let n: usize = match get16(tiff, 0, ifd, little) {
        Some(v) => v as usize,
        None => {
            return Err("Exif TIFF u16 is truncated".to_string());
        },
    };
    if tiff.len() - ifd - 2 < 12 * n + 4 {
        return Err("Exif IFD0 is truncated".to_string());
    }
    match find_entry(tiff, ifd + 2, n, 0x0112, little) {
        None => Ok(ExifOrientation::Normal),
        Some(e) => read_orientation_entry(tiff, e, little),
    }
}

/// The payload that an item's extents name from the `i`-th on, or why there is
/// none.
pub open spec fn item_payload_from(s: Seq<u8>, e: IlocView, idat: Option<BoxView>, i: int, acc: Seq<u8>) -> Result<
    Seq<u8>,
    Seq<char>,
>
    decreases e.extents.len() - i,
{
    let item = "item "@ + decimal_text(e.item_id as int);
    if i >= e.extents.len() {
        Ok(acc)
    } else if e.construction_method == 1 && idat is None {
        Err(item + " references missing idat"@)
    } else if e.construction_method > 1 {
        Err(
            item + " has unsupported construction method "@ + decimal_text(
                e.construction_method as int,
            ),
        )
    } else {
        let base = if e.construction_method == 1 {
            idat->0.data_start
        } else {
            0
        };
        let start = base + e.extents[i].0;
        let end = start + e.extents[i].1;
        if e.extents[i].0 > usize::MAX {
            Err("item offset exceeds usize"@)
        } else if start > usize::MAX {
            Err("item offset overflow"@)
        } else if e.extents[i].1 > usize::MAX {
            Err("item length exceeds usize"@)
        } else if end > usize::MAX {
            Err("item extent overflow"@)
        } else if end > s.len() {
            Err(item + " extent is outside the file"@)
        } else {
            item_payload_from(s, e, idat, i + 1, acc + s.subrange(start, end))
        }
    }
}

/// The payload that an item's extents name, or why there is none.
pub open spec fn item_payload_of(s: Seq<u8>, e: IlocView, idat: Option<BoxView>) -> Result<
    Seq<u8>,
    Seq<char>,
> {
    if e.extents.len() == 0 {
        Err("item "@ + decimal_text(e.item_id as int) + " has no extents"@)
    } else {
        item_payload_from(s, e, idat, 0, Seq::empty())
    }
}

/// The view of an optional box.
pub open spec fn opt_box(b: Option<&BoxHeader>) -> Option<BoxView> {
    match b {
        Some(h) => Some(h@),
        None => None,
    }
}

fn item_text(item_id: u32, rest: &str) -> (r: String)
    ensures
        r@ == "item "@ + decimal_text(item_id as int) + rest@,
{
    join(join("item ", decimal(item_id as u64).as_str()).as_str(), rest)
}

/// The payload that an item's extents name.
pub fn read_heif_item_payload(data: &[u8], entry: &IlocEntry, idat: Option<&BoxHeader>) -> (r: Result<
    Vec<u8>,
    String,
>)
    ensures
        told(r) == item_payload_of(data@, entry@, opt_box(idat)),
{
    if entry.extents.len() == 0 {
        return Err(item_text(entry.item_id, " has no extents"));
    }
    let mut payload: Vec<u8> = Vec::new();
    let mut i: usize = 0;
    while i < entry.extents.len()
        invariant
            0 < entry.extents@.len(),
            i <= entry.extents@.len(),
            item_payload_of(data@, entry@, opt_box(idat)) == item_payload_from(
                data@,
                entry@,
                opt_box(idat),
                i as int,
                payload@,
            ),
        decreases entry.extents@.len() - i,
    {
        let (offset, length) = entry.extents[i];
        let base: usize = if entry.construction_method == 0 {
            0
        } else if entry.construction_method == 1 {
            match idat {
                Some(b) => b.data_start,
                None => {
                    return Err(item_text(entry.item_id, " references missing idat"));
                },
            }
        } else {
            let text: String = item_text(entry.item_id, " has unsupported construction method ");
            return Err(
                join(text.as_str(), decimal(entry.construction_method as u64).as_str()),
            );
        };
        if offset > usize::MAX as u64 {
            return Err("item offset exceeds usize".to_string());
        }
        let offset: usize = offset as usize;
        if offset > usize::MAX - base {
            return Err("item offset overflow".to_string());
        }
        let start: usize = base + offset;
        if length > usize::MAX as u64 {
            return Err("item length exceeds usize".to_string());
        }
        let length: usize = length as usize;
        if length > usize::MAX - start {
            return Err("item extent overflow".to_string());
        }
        let end: usize = start + length;
        if end > data.len() {
            return Err(item_text(entry.item_id, " extent is outside the file"));
        }
        append(&mut payload, vstd::slice::slice_subrange(data, start, end));
        i = i + 1;
    }
    Ok(payload)
}

/// The orientation that the Exif item of a file declares, normal where there is
/// no such item.
pub open spec fn heif_orientation(
    s: Seq<u8>,
    items: Seq<ItemView>,
    entries: Seq<IlocView>,
    idat: Option<BoxView>,
) -> Result<ExifOrientation, Seq<char>> {
    match first_where(items, item_typed("Exif"@)) {
        None => Ok(ExifOrientation::Normal),
        Some(it) => match first_where(entries, iloc_for(it.item_id)) {
            None => Err("Exif item "@ + decimal_text(it.item_id as int) + " has no iloc entry"@),
            Some(e) => match item_payload_of(s, e, idat) {
                Err(text) => Err(text),
                Ok(blob) => exif_orientation(blob),
            },
        },
    }
}

/// Read the primary image's EXIF orientation from an HEIF Exif item.
///
/// Missing EXIF, a missing orientation tag, or an out-of-range orientation
/// value (e.g. OPPO X9s Pro exports write 0) all map to orientation 1,
/// matching ImageIO. A structurally malformed Exif item is still an error
/// because silently using an unaligned gain map would produce visibly
/// incorrect HDR output.
pub fn read_heif_exif_orientation(
    data: &[u8],
    items: &Vec<ItemInfo>,
    iloc_entries: &Vec<IlocEntry>,
    idat: Option<&BoxHeader>,
) -> (r: Result<ExifOrientation, String>)
    ensures
        orientation_told(r) == heif_orientation(
            data@,
            views(items@),
            views(iloc_entries@),
            opt_box(idat),
        ),
{
    let id: u32 = match find_item(items, "Exif") {
        None => {
            return Ok(ExifOrientation::Normal);
        },
        Some(it) => it.item_id,
    };
    match find_iloc(iloc_entries, id) {
        None => Err(
            join(
                join("Exif item ", decimal(id as u64).as_str()).as_str(),
                " has no iloc entry",
            ),
        ),
        Some(e) => match read_heif_item_payload(data, e, idat) {
            Err(text) => Err(text),
            Ok(blob) => parse_exif_orientation(blob.as_slice()),
        },
    }
}

// ---------------------------------------------------------------------------
// Orientation rewriting
// ---------------------------------------------------------------------------

/// The IFD entry that holds the orientation, where TIFF data has one: the search
/// ends at the first entry that the data cuts short.
pub open spec fn orientation_slot_from(t: Seq<u8>, ifd: int, i: int, n: int, little: bool) -> Option<
    int,
>
    decreases n - i,
{
    let entry = ifd + 2 + 12 * i;
    if i >= n || entry + 12 > t.len() {
        None
    } else if int16(t, entry, little) == 0x0112 {
        Some(entry)
    } else {
        orientation_slot_from(t, ifd, i + 1, n, little)
    }
}

/// The IFD entry that holds the orientation, where TIFF data has one.
pub open spec fn orientation_slot(t: Seq<u8>) -> Option<int> {
    let little = tiff_little(t, 0);
    if t.len() < 8 || !tiff_mark_at(t, 0) || int16(t, 2, little) != 42 || int32(t, 4, little) + 2
        > t.len() {
        None
    } else {
        let ifd = int32(t, 4, little);
        orientation_slot_from(t, ifd, 0, int16(t, ifd, little), little)
    }
}

/// TIFF data with its orientation set to normal.
pub open spec fn normalized(t: Seq<u8>) -> Seq<u8> {
    match orientation_slot(t) {
        None => t,
        Some(e) => if tiff_little(t, 0) {
            t.update(e + 8, 1u8).update(e + 9, 0u8)
        } else {
            t.update(e + 8, 0u8).update(e + 9, 1u8)
        },
    }
}

fn find_orientation_slot(tiff: &[u8]) -> (r: Option<usize>)
    ensures
        match r {
            Some(e) => orientation_slot(tiff@) == Some(e as int) && e + 12 <= tiff@.len(),
            None => orientation_slot(tiff@) is None,
        },
{
    if tiff.len() < 8 {
        return None;
    }
    let little: bool = match tiff_order(tiff, 0) {
        Some(l) => l,
        None => {
            return None;
        },
    };
    if read16(tiff, 2, little) != 42 {
        return None;
    }
    let ifd: usize = read32(tiff, 4, little) as usize;
    if ifd > tiff.len() - 2 {
        return None;
    }
    let n: usize = read16(tiff, ifd, little) as usize;
    let mut i: usize = 0;
    while i < n
        invariant
            i <= n,
            n <= 0xffff,
            ifd + 2 <= tiff.len(),
            orientation_slot(tiff@) == orientation_slot_from(
                tiff@,
                ifd as int,
                i as int,
                n as int,
                little,
            ),
        decreases n - i,
    {
        if tiff.len() - ifd - 2 < 12 * i + 12 {
            return None;
        }
        let entry: usize = ifd + 2 + 12 * i;
        if read16(tiff, entry, little) == 0x0112 {
            return Some(entry);
        }
        i = i + 1;
    }
    None
}

/// Force the TIFF's IFD0 Orientation tag to 1 (Normal), in place.
///
/// Platform codecs (Flutter/Skia, ImageIO, MediaCodec) already rotate pixels
/// into presentation orientation while decoding, so a carried-forward Exif
/// that still says "Rotate 90 CW" makes viewers rotate a second time. Returns
/// whether an Orientation tag was actually rewritten.
pub fn normalize_tiff_orientation(tiff: &mut [u8]) -> (r: bool)
    ensures
        r == (orientation_slot(old(tiff)@) is Some),
        final(tiff)@ == normalized(old(tiff)@),
{
    match find_orientation_slot(tiff) {
        None => false,
        Some(entry) => {
            let little: bool = matches_at(tiff, TIFF_II.as_slice(), 0);
            let len: usize = tiff.len();
            assert(entry + 12 <= len);
            if little {
                tiff[entry + 8] = 1u8;
                tiff[entry + 9] = 0u8;
            } else {
                tiff[entry + 8] = 0u8;
                tiff[entry + 9] = 1u8;
            }
            true
        },
    }
}

/// The entry that is normalized is the one that is read.
proof fn lemma_slot_is_read(t: Seq<u8>, u: Seq<u8>, ifd: int, i: int, n: int, little: bool)
    requires
        0 <= ifd,
        0 <= i,
        ifd + 2 + 12 * n <= t.len(),
        t.len() == u.len(),
        match orientation_slot_from(t, ifd, i, n, little) {
            Some(e) => forall|k: int| 0 <= k < e + 8 ==> #[trigger] t[k] == u[k],
            None => t == u,
        },
    ensures
        entry_tagged(t, ifd + 2, i, n, 0x0112, little) == orientation_slot_from(
            t,
            ifd,
            i,
            n,
            little,
        ),
        entry_tagged(u, ifd + 2, i, n, 0x0112, little) == orientation_slot_from(
            t,
            ifd,
            i,
            n,
            little,
        ),
        orientation_slot_from(t, ifd, i, n, little) matches Some(e) ==> ifd + 2 + 12 * i <= e && e
            + 12 <= t.len(),
    decreases n - i,
{
    if i < n {
        let entry = ifd + 2 + 12 * i;
        if int16(t, entry, little) != 0x0112 {
            lemma_slot_is_read(t, u, ifd, i + 1, n, little);
        }
        if orientation_slot_from(t, ifd, i, n, little) is Some {
            assert(t[entry] == u[entry] && t[entry + 1] == u[entry + 1]);
        }
    }
}

proof fn lemma_normal_value(t: Seq<u8>, e: int, little: bool)
    requires
        0 <= e,
        e + 12 <= t.len(),
        orientation_entry(t, e, little) is Ok,
    ensures
        ({
            let u = if little {
                t.update(e + 8, 1u8).update(e + 9, 0u8)
            } else {
                t.update(e + 8, 0u8).update(e + 9, 1u8)
            };
            orientation_entry(u, e, little) == Ok::<ExifOrientation, Seq<char>>(
                ExifOrientation::Normal,
            )
        }),
{
}

/// TIFF data whose orientation was set to normal declares the normal orientation, and
/// nothing else in it changes.
pub proof fn normalized_tiffs_are_normal(t: Seq<u8>)
    requires
        tiff_mark_at(t, 0),
        tiff_orientation(t) is Ok,
    ensures
        tiff_orientation(normalized(t)) == Ok::<ExifOrientation, Seq<char>>(ExifOrientation::Normal),
        normalized(t).len() == t.len(),
        forall|k: int|
            0 <= k < t.len() && (orientation_slot(t) matches Some(e) ==> k != e + 8 && k != e + 9)
                ==> #[trigger] normalized(t)[k] == t[k],
{
    let u = normalized(t);
    let little = tiff_little(t, 0);
    let ifd = int32(t, 4, little);
    match orientation_slot(t) {
        None => {
            if ifd != 0 {
                lemma_slot_is_read(t, u, ifd, 0, int16(t, ifd, little), little);
            }
        },
        Some(e) => {
            lemma_slot_place(t, ifd, 0, int16(t, ifd, little), little);
            assert forall|k: int| 0 <= k < e + 8 implies #[trigger] t[k] == u[k] by {}
            assert(u.subrange(0, 2) =~= t.subrange(0, 2));
            assert(tiff_little(u, 0) == little);
            if ifd != 0 {
                assert(t[ifd] == u[ifd] && t[ifd + 1] == u[ifd + 1]);
                lemma_slot_is_read(t, u, ifd, 0, int16(t, ifd, little), little);
                lemma_normal_value(t, e, little);
            }
        },
    }
}

proof fn lemma_slot_place(t: Seq<u8>, ifd: int, i: int, n: int, little: bool)
    requires
        0 <= ifd,
        0 <= i,
    ensures
        orientation_slot_from(t, ifd, i, n, little) matches Some(e) ==> ifd + 2 <= e && e + 12
            <= t.len(),
    decreases n - i,
{
    if i < n {
        lemma_slot_place(t, ifd, i + 1, n, little);
    }
}

// ---------------------------------------------------------------------------
// Routing flags
// ---------------------------------------------------------------------------

/// The mode that a number selects.
pub open spec fn compat_of(v: u8) -> OppoCompat {
    if v == 1 {
        OppoCompat::Auto
    } else if v == 2 {
        OppoCompat::On
    } else if v == 3 {
        OppoCompat::Tail
    } else if v == 4 {
        OppoCompat::Iso
    } else if v == 5 {
        OppoCompat::IsoNoLocal
    } else if v == 6 {
        OppoCompat::IsoGraph
    } else {
        OppoCompat::Off
    }
}

impl OppoCompat {
    /// Whether the mode changes the routing flags.
    pub open spec fn patches(self) -> bool {
        self != OppoCompat::Off && self != OppoCompat::Auto
    }

    pub fn from_u8(v: u8) -> (r: Self)
        ensures
            r == compat_of(v),
    {
        match v {
            1 => OppoCompat::Auto,
            2 => OppoCompat::On,
            3 => OppoCompat::Tail,
            4 => OppoCompat::Iso,
            5 => OppoCompat::IsoNoLocal,
            6 => OppoCompat::IsoGraph,
            _ => OppoCompat::Off,
        }
    }

    /// Whether the UserComment needs to be patched at all.
    pub fn wants_patch(self) -> (r: bool)
        ensures
            r == self.patches(),
    {
        match self {
            OppoCompat::On | OppoCompat::Tail | OppoCompat::Iso | OppoCompat::IsoNoLocal
            | OppoCompat::IsoGraph => true,
            _ => false,
        }
    }

    /// Whether to SET the UHDR routing flag (activation path).
    pub fn wants_activation(self) -> (r: bool)
        ensures
            r == (self == OppoCompat::On || self == OppoCompat::Tail),
    {
        match self {
            OppoCompat::On | OppoCompat::Tail => true,
            _ => false,
        }
    }

    /// Whether this mode writes OPPO-oriented gain-map and tail metadata.
    pub fn wants_oppo_compat(self) -> (r: bool)
        ensures
            r == (self != OppoCompat::Off),
    {
        match self {
            OppoCompat::Off => false,
            _ => true,
        }
    }

    /// Whether this mode wants OPPO-oriented output (RGB gain map, 142B tmap,
    /// BT.2020 PQ colr).
    pub fn wants_oppo_rgb(self) -> (r: bool)
        ensures
            r == (self != OppoCompat::Off),
    {
        self.wants_oppo_compat()
    }
}

/// The routing flags that a mode makes of given ones.
pub open spec fn target_flags(source: u32, mode: OppoCompat) -> u32 {
    match mode {
        OppoCompat::Off | OppoCompat::Auto => source,
        OppoCompat::On | OppoCompat::Tail => source | OPPO_ULTRA_HDR_FLAG,
        OppoCompat::Iso => (source & !OPPO_ULTRA_HDR_FLAG) | ISO_ULTRA_HDR_FLAG,
        OppoCompat::IsoNoLocal => (source & !OPPO_ULTRA_HDR_FLAG & !LOCAL_HDR_FLAG)
            | ISO_ULTRA_HDR_FLAG,
        OppoCompat::IsoGraph => source & !OPPO_ULTRA_HDR_FLAG & !ISO_ULTRA_HDR_FLAG,
    }
}

/// Compute the desired OPPO-family UserComment routing flags for `mode`.
pub fn target_oppo_tag_flags(source: u32, mode: OppoCompat) -> (r: u32)
    ensures
        r == target_flags(source, mode),
{
    match mode {
        OppoCompat::Off | OppoCompat::Auto => source,
        OppoCompat::On | OppoCompat::Tail => source | OPPO_ULTRA_HDR_FLAG,
        OppoCompat::Iso => (source & !OPPO_ULTRA_HDR_FLAG) | ISO_ULTRA_HDR_FLAG,
        OppoCompat::IsoNoLocal => (source & !OPPO_ULTRA_HDR_FLAG & !LOCAL_HDR_FLAG)
            | ISO_ULTRA_HDR_FLAG,
        OppoCompat::IsoGraph => source & !OPPO_ULTRA_HDR_FLAG & !ISO_ULTRA_HDR_FLAG,
    }
}

/// Routing flags that a mode has set stay as they are when it sets them again.
pub proof fn target_flags_settle(source: u32, mode: OppoCompat)
    ensures
        target_flags(target_flags(source, mode), mode) == target_flags(source, mode),
{
    assert(forall|s: u32| #![auto] (s | 0x2000_0000u32) | 0x2000_0000u32 == s | 0x2000_0000u32)
        by (bit_vector);
    assert(forall|s: u32|
        #![auto]
        (((s & !0x2000_0000u32) | 0x0020_0000u32) & !0x2000_0000u32) | 0x0020_0000u32 == (s
            & !0x2000_0000u32) | 0x0020_0000u32) by (bit_vector);
    assert(forall|s: u32|
        #![auto]
        (((s & !0x2000_0000u32 & !0x0004_0000u32) | 0x0020_0000u32) & !0x2000_0000u32
            & !0x0004_0000u32) | 0x0020_0000u32 == (s & !0x2000_0000u32 & !0x0004_0000u32)
            | 0x0020_0000u32) by (bit_vector);
    assert(forall|s: u32|
        #![auto]
        (s & !0x2000_0000u32 & !0x0020_0000u32) & !0x2000_0000u32 & !0x0020_0000u32 == s
            & !0x2000_0000u32 & !0x0020_0000u32) by (bit_vector);
}

/// A mode changes no flag but the three routing bits.
pub proof fn target_flags_touch_routing_bits_only(source: u32, mode: OppoCompat)
    ensures
        target_flags(source, mode) & !0x2024_0000u32 == source & !0x2024_0000u32,
{
    assert((source | 0x2000_0000u32) & !0x2024_0000u32 == source & !0x2024_0000u32) by (bit_vector);
    assert(((source & !0x2000_0000u32) | 0x0020_0000u32) & !0x2024_0000u32 == source
        & !0x2024_0000u32) by (bit_vector);
    assert(((source & !0x2000_0000u32 & !0x0004_0000u32) | 0x0020_0000u32) & !0x2024_0000u32
        == source & !0x2024_0000u32) by (bit_vector);
    assert((source & !0x2000_0000u32 & !0x0020_0000u32) & !0x2024_0000u32 == source
        & !0x2024_0000u32) by (bit_vector);
}

/// A located OPPO tag-flag within a byte buffer.
#[derive(Debug, Clone)]
pub struct TagFlag {
    /// Which prefix was matched (e.g. "ASCIIOplus_").
    pub prefix: String,
    /// Offset of the prefix start in the buffer.
    pub offset: usize,
    /// Offset of the first digit character.
    pub digits_start: usize,
    /// Offset one past the last digit character.
    pub digits_end: usize,
    /// The parsed integer value.
    pub value: u32,
}

/// What a located tag-flag says.
#[verifier::ext_equal]
pub struct TagFlagView {
    pub prefix: Seq<char>,
    pub offset: int,
    pub digits_start: int,
    pub digits_end: int,
    pub value: u32,
}

impl View for TagFlag {
    type V = TagFlagView;

    open spec fn view(&self) -> TagFlagView {
        TagFlagView {
            prefix: self.prefix@,
            offset: self.offset as int,
            digits_start: self.digits_start as int,
            digits_end: self.digits_end as int,
            value: self.value,
        }
    }
}

/// The tag-flag prefix that stands at `pos`, the most specific first: its text
/// and its length.
pub open spec fn prefix_at(s: Seq<u8>, pos: int) -> Option<(Seq<char>, int)> {
    if occurs_at(s, PREFIX_ASCII_OPLUS@, pos) {
        Some(("ASCIIOplus_"@, 11))
    } else if occurs_at(s, PREFIX_ASCII_OPPO@, pos) {
        Some(("ASCIIoppo_"@, 10))
    } else if occurs_at(s, PREFIX_OPLUS@, pos) {
        Some(("Oplus_"@, 6))
    } else if occurs_at(s, PREFIX_LOWER_OPLUS@, pos) {
        Some(("oplus_"@, 6))
    } else if occurs_at(s, PREFIX_OPPO@, pos) {
        Some(("oppo_"@, 5))
    } else {
        None
    }
}

/// Whether a byte is a decimal digit.
pub open spec fn is_digit(b: u8) -> bool {
    0x30 <= b <= 0x39
}

/// Where the decimal digits from `p` on end.
pub open spec fn digits_end(s: Seq<u8>, p: int) -> int
    decreases s.len() - p,
{
    if p < s.len() && is_digit(s[p]) {
        digits_end(s, p + 1)
    } else {
        p
    }
}

/// The value of the decimal digits in `s`.
pub open spec fn digits_value(s: Seq<u8>) -> int
    decreases s.len(),
{
    if s.len() == 0 {
        0
    } else {
        digits_value(s.drop_last()) * 10 + (s.last() - 0x30)
    }
}

/// The tag-flags from `pos` on: a prefix with digits whose value fits 32 bits.
/// The search goes on right behind a prefix.
pub open spec fn tag_flags_from(s: Seq<u8>, pos: int, acc: Seq<TagFlagView>) -> Seq<TagFlagView>
    decreases s.len() - pos,
{
    if pos >= s.len() {
        acc
    } else {
        match prefix_at(s, pos) {
            None => tag_flags_from(s, pos + 1, acc),
            Some((prefix, len)) => {
                let start = pos + len;
                let end = digits_end(s, start);
                let value = digits_value(s.subrange(start, end));
                if end > start && value <= u32::MAX {
                    tag_flags_from(
                        s,
                        start,
                        acc.push(
                            TagFlagView {
                                prefix,
                                offset: pos,
                                digits_start: start,
                                digits_end: end,
                                value: value as u32,
                            },
                        ),
                    )
                } else {
                    tag_flags_from(s, start, acc)
                }
            },
        }
    }
}

fn match_prefix(data: &[u8], pos: usize) -> (r: Option<(String, usize)>)
    requires
        pos < data.len(),
    ensures
        match r {
            Some((text, len)) => prefix_at(data@, pos as int) == Some((text@, len as int)) && pos + len
                <= data@.len() && len >= 5,
            None => prefix_at(data@, pos as int) is None,
        },
{
    assert(PREFIX_ASCII_OPLUS@.len() == 11);
    assert(PREFIX_ASCII_OPPO@.len() == 10);
    assert(PREFIX_OPLUS@.len() == 6);
    assert(PREFIX_LOWER_OPLUS@.len() == 6);
    assert(PREFIX_OPPO@.len() == 5);
    if matches_at(data, PREFIX_ASCII_OPLUS.as_slice(), pos) {
        Some(("ASCIIOplus_".to_string(), 11))
    } else if matches_at(data, PREFIX_ASCII_OPPO.as_slice(), pos) {
        Some(("ASCIIoppo_".to_string(), 10))
    } else if matches_at(data, PREFIX_OPLUS.as_slice(), pos) {
        Some(("Oplus_".to_string(), 6))
    } else if matches_at(data, PREFIX_LOWER_OPLUS.as_slice(), pos) {
        Some(("oplus_".to_string(), 6))
    } else if matches_at(data, PREFIX_OPPO.as_slice(), pos) {
        Some(("oppo_".to_string(), 5))
    } else {
        None
    }
}

/// Where the decimal digits from `start` on end.
pub fn find_digits_end(data: &[u8], start: usize) -> (r: usize)
    requires
        start <= data.len(),
    ensures
        r == digits_end(data@, start as int),
        start <= r <= data@.len(),
        forall|i: int| start <= i < r ==> is_digit(#[trigger] data@[i]),
{
    let mut p: usize = start;
    while p < data.len() && data[p] >= 0x30 && data[p] <= 0x39
        invariant
            start <= p <= data@.len(),
            digits_end(data@, start as int) == digits_end(data@, p as int),
            forall|i: int| start <= i < p ==> is_digit(#[trigger] data@[i]),
        decreases data@.len() - p,
    {
        p = p + 1;
    }
    p
}

/// The value of decimal digits, where it fits 64 bits.
pub fn parse_digits(data: &[u8], start: usize, end: usize) -> (r: Option<u64>)
    requires
        start <= end <= data.len(),
        forall|i: int| start <= i < end ==> is_digit(#[trigger] data@[i]),
    ensures
        match r {
            Some(v) => digits_value(data@.subrange(start as int, end as int)) == v,
            None => digits_value(data@.subrange(start as int, end as int)) > u64::MAX,
        },
{
    let mut value: u64 = 0;
    let mut over: bool = false;
    let mut i: usize = start;
    let ghost s = data@;
    while i < end
        invariant
            start <= i <= end <= data.len(),
            s == data@,
            forall|j: int| start <= j < end ==> is_digit(#[trigger] s[j]),
            !over ==> digits_value(s.subrange(start as int, i as int)) == value,
            over ==> digits_value(s.subrange(start as int, i as int)) > u64::MAX,
        decreases end - i,
    {
        assert(s.subrange(start as int, i + 1).drop_last() =~= s.subrange(start as int, i as int));
        assert(s.subrange(start as int, i + 1).last() == s[i as int]);
        assert(is_digit(s[i as int]));
        let d: u64 = (data[i] - 0x30) as u64;
        if !over {
            if value > (u64::MAX - d) / 10 {
                over = true;
            } else {
                value = value * 10 + d;
            }
        }
        i = i + 1;
    }
    if over {
        None
    } else {
        Some(value)
    }
}

/// Find all OPPO UserComment tag-flag strings in `data`.
///
/// Scans for any of the five known prefixes followed by decimal digits.
pub fn find_oppo_tagflags(data: &[u8]) -> (r: Vec<TagFlag>)
    ensures
        views(r@) == tag_flags_from(data@, 0, Seq::empty()),
        forall|i: int|
            0 <= i < r@.len() ==> (#[trigger] r@[i]).offset <= r@[i].digits_start
                && r@[i].digits_start <= r@[i].digits_end && r@[i].digits_end <= data@.len(),
{
    let mut results: Vec<TagFlag> = Vec::new();
    let mut pos: usize = 0;
    assert(views(results@) =~= Seq::empty());
    while pos < data.len()
        invariant
            pos <= data@.len(),
            tag_flags_from(data@, 0, Seq::empty()) == tag_flags_from(
                data@,
                pos as int,
                views(results@),
            ),
            forall|i: int|
                0 <= i < results@.len() ==> (#[trigger] results@[i]).offset
                    <= results@[i].digits_start && results@[i].digits_start
                    <= results@[i].digits_end && results@[i].digits_end <= data@.len(),
        decreases data@.len() - pos,
    {
        match match_prefix(data, pos) {
            None => {
                pos = pos + 1;
            },
            Some((prefix, len)) => {
                let start: usize = pos + len;
                let end: usize = find_digits_end(data, start);
                if end > start {
                    match parse_digits(data, start, end) {
                        Some(value) => {
                            if value <= u32::MAX as u64 {
                                let ghost before = results@;
                                let tag: TagFlag = TagFlag {
                                    prefix,
                                    offset: pos,
                                    digits_start: start,
                                    digits_end: end,
                                    value: value as u32,
                                };
                                results.push(tag);
                                assert(views(results@) =~= views(before).push(tag@));
                            }
                        },
                        None => {},
                    }
                }
                pos = start;
            },
        }
    }
    results
}

// ---------------------------------------------------------------------------
// Patching
// ---------------------------------------------------------------------------

/// The digits that replace those of a tag-flag, where the mode changes its value.
pub open spec fn adjusted_digits(tag: TagFlagView, mode: OppoCompat) -> Option<Seq<u8>> {
    if !mode.patches() || target_flags(tag.value, mode) == tag.value {
        None
    } else {
        Some(
            padded_ascii(target_flags(tag.value, mode) as int, tag.digits_end - tag.digits_start),
        )
    }
}

/// Compute the adjusted UserComment tag-flag bytes for the given mode.
///
/// Returns `None` if no change is needed (the value already matches the
/// desired state).
///
/// When a change IS needed, returns `(digits_start, digits_end, replacement_bytes)`
/// where the replacement is the new digit string, zero-padded to the same width
/// as the digits that it replaces.
pub fn adjust_oppo_usercomment(tag: &TagFlag, mode: OppoCompat) -> (r: Option<
    (usize, usize, Vec<u8>),
>)
    requires
        tag.digits_start <= tag.digits_end,
    ensures
        match r {
            None => adjusted_digits(tag@, mode) is None,
            Some((start, end, digits)) => start == tag.digits_start && end == tag.digits_end
                && adjusted_digits(tag@, mode) == Some(digits@) && digits@.len() <= end - start + 20,
        },
{
    if !mode.wants_patch() {
        return None;
    }
    let new_value: u32 = target_oppo_tag_flags(tag.value, mode);
    if new_value == tag.value {
        return None;
    }
    let width: usize = tag.digits_end - tag.digits_start;
    Some((tag.digits_start, tag.digits_end, padded_decimal(new_value as u64, width)))
}

/// Result of patching the OPPO UserComment inside the source Exif item.
#[derive(Debug, Clone, Copy, PartialEq, Eq)]
pub struct OppoUserCommentPatch {
    /// Absolute offset range (in the source file) of the Exif item extent
    /// whose payload grew/shrunk.
    pub source_range: (usize, usize),
    /// Byte delta applied to the Exif extent (positive = grew).
    pub delta: i64,
}

/// The location entry of the Exif item.
pub open spec fn exif_location(items: Seq<ItemView>, entries: Seq<IlocView>) -> Option<IlocView> {
    match first_where(items, item_typed("Exif"@)) {
        None => None,
        Some(it) => first_where(entries, iloc_for(it.item_id)),
    }
}

/// Locate the iloc entry of the source Exif item.
pub fn find_exif_iloc_entry<'a>(
    items: &'a Vec<ItemInfo>,
    iloc_entries: &'a Vec<IlocEntry>,
) -> (r: Option<&'a IlocEntry>)
    ensures
        match r {
            Some(e) => exif_location(views(items@), views(iloc_entries@)) == Some(e@),
            None => exif_location(views(items@), views(iloc_entries@)) is None,
        },
{
    match find_item(items, "Exif") {
        None => None,
        Some(it) => find_iloc(iloc_entries, it.item_id),
    }
}

/// An extent after a patch: as it was before the patched one, moved behind it,
/// grown where it is the patched one, `None` where it straddles its boundary.
pub open spec fn adjusted_extent(offset: u64, length: u64, patch: Option<OppoUserCommentPatch>) -> Option<
    (u64, u64),
> {
    match patch {
        None => Some((offset, length)),
        Some(p) => if p.delta == 0 {
            Some((offset, length))
        } else if offset + length > u64::MAX {
            None
        } else if offset + length <= p.source_range.0 {
            Some((offset, length))
        } else if offset >= p.source_range.1 {
            Some((((offset + p.delta) % 0x1_0000_0000_0000_0000) as u64, length))
        } else if offset <= p.source_range.0 && offset + length >= p.source_range.1 {
            Some((offset, ((length + p.delta) % 0x1_0000_0000_0000_0000) as u64))
        } else {
            None
        },
    }
}

fn add_delta(v: u64, delta: i64) -> (r: u64)
    ensures
        r == (v + delta) % 0x1_0000_0000_0000_0000,
{
    if delta >= 0 {
        v.wrapping_add(delta as u64)
    } else {
        v.wrapping_sub((0 - delta as i128) as u64)
    }
}

/// Adjust a construction-method-0 item extent for the bytes inserted/removed
/// inside the Exif item.
///
/// - extent entirely before the Exif item: unchanged
/// - extent entirely after: offset shifted by `delta`
/// - the Exif item itself (patch lies inside it): length grows by `delta`, offset kept
/// - any other extent straddling the boundary: `None` (invalid container)
pub fn adjusted_extent_for_patch(
    offset: u64,
    length: u64,
    patch: Option<&OppoUserCommentPatch>,
) -> (r: Option<(u64, u64)>)
    ensures
        r == adjusted_extent(
            offset,
            length,
            match patch {
                Some(p) => Some(*p),
                None => None,
            },
        ),
{
    let patch: &OppoUserCommentPatch = match patch {
        Some(p) => p,
        None => {
            return Some((offset, length));
        },
    };
    if patch.delta == 0 {
        return Some((offset, length));
    }
    if length > u64::MAX - offset {
        return None;
    }
    let upper: u64 = offset + length;
    let patch_lower: u64 = patch.source_range.0 as u64;
    let patch_upper: u64 = patch.source_range.1 as u64;
    if upper <= patch_lower {
        return Some((offset, length));
    }
    if offset >= patch_upper {
        return Some((add_delta(offset, patch.delta), length));
    }
    if offset <= patch_lower && upper >= patch_upper {
        return Some((offset, add_delta(length, patch.delta)));
    }
    None
}

/// The entries of the IFD at `ifd` from the `i`-th on: the UserComment entry
/// where one comes, and `pending` with the IFDs that entries before it point to.
/// `None` where an entry lies past the data.
pub open spec fn scan_ifd(s: Seq<u8>, ifd: int, i: int, n: int, little: bool, pending: Seq<u32>) -> Option<
    (Option<int>, Seq<u32>),
>
    decreases n - i,
{
    let entry = ifd + 2 + 12 * i;
    if i >= n {
        Some((None, pending))
    } else if entry + 12 > s.len() {
        None
    } else {
        let tag = int16(s, entry, little);
        if tag == 0x9286 {
            Some((Some(entry), pending))
        } else if tag == 0x8769 || tag == 0x8825 {
            scan_ifd(s, ifd, i + 1, n, little, pending.push(int32(s, entry + 8, little) as u32))
        } else {
            scan_ifd(s, ifd, i + 1, n, little, pending)
        }
    }
}

/// The UserComment entry of TIFF data that starts at `start`: the IFDs in
/// `pending` are searched last first, each once, with those that they point to.
/// No more than `budget` of them can start in the data. `None` where there is no
/// such entry or a searched IFD is malformed.
pub open spec fn user_comment_entry(
    s: Seq<u8>,
    start: int,
    little: bool,
    pending: Seq<u32>,
    visited: Set<u32>,
    budget: nat,
) -> Option<int>
    decreases budget, pending.len(),
{
    if pending.len() == 0 {
        None
    } else {
        let ifd = start + pending.last();
        let rest = pending.drop_last();
        if visited.contains(pending.last()) {
            user_comment_entry(s, start, little, rest, visited, budget)
        } else if budget == 0 {
            None
        } else {
            match int16_at(s, ifd, little) {
                None => None,
                Some(n) => if n > 4096 {
                    None
                } else {
                    match scan_ifd(s, ifd, 0, n, little, rest) {
                        None => None,
                        Some((Some(entry), _)) => Some(entry),
                        Some((None, more)) => user_comment_entry(
                            s,
                            start,
                            little,
                            more,
                            visited.insert(pending.last()),
                            (budget - 1) as nat,
                        ),
                    }
                },
            }
        }
    }
}

/// A UserComment value with the digits of its first tag-flag adjusted.
pub open spec fn adjusted_comment(value: Seq<u8>, mode: OppoCompat) -> Option<Seq<u8>> {
    let tags = tag_flags_from(value, 0, Seq::empty());
    if tags.len() == 0 {
        None
    } else {
        match adjusted_digits(tags[0], mode) {
            None => None,
            Some(digits) => Some(
                value.take(tags[0].digits_start) + digits + value.skip(tags[0].digits_end),
            ),
        }
    }
}

/// Where the value of the UserComment entry at `entry` lies: inline, or at the
/// offset that the entry names.
pub open spec fn comment_range(x: Seq<u8>, start: int, entry: int, little: bool) -> Option<(int, int)> {
    let count = int32(x, entry + 4, little);
    let at = if count <= 4 {
        entry + 8
    } else {
        start + int32(x, entry + 8, little)
    };
    if int16(x, entry + 2, little) != 7 || count == 0 || at + count > x.len() {
        None
    } else {
        Some((at, at + count))
    }
}

/// An Exif payload with an adjusted UserComment: the new value stands behind the
/// old payload, on a multiple of four, and the entry names its length and place.
pub open spec fn exif_with_comment(x: Seq<u8>, mode: OppoCompat) -> Option<Seq<u8>> {
    let start = 4 + be32(x, 0);
    if x.len() < 12 || start + 8 > x.len() || !tiff_mark_at(x, start) {
        None
    } else {
        let little = tiff_little(x, start);
        if int16(x, start + 2, little) != 42 {
            None
        } else {
            match user_comment_entry(
                x,
                start,
                little,
                seq![int32(x, start + 4, little) as u32],
                Set::empty(),
                x.len(),
            ) {
                None => None,
                Some(entry) => match comment_range(x, start, entry, little) {
                    None => None,
                    Some((from, to)) => match adjusted_comment(x.subrange(from, to), mode) {
                        None => None,
                        Some(value) => {
                            let padded = x + zeros(pad4(x.len() as int) as nat);
                            Some(
                                overwritten(
                                    padded + value,
                                    entry + 4,
                                    put32(value.len() as int, little) + put32(
                                        padded.len() - start,
                                        little,
                                    ),
                                ),
                            )
                        },
                    },
                },
            }
        }
    }
}

/// Media data with the UserComment of its Exif item adjusted, and how the Exif
/// item grew. `None` where nothing is to be changed.
pub open spec fn patched_media(mdat: Seq<u8>, mdat_start: int, e: IlocView, mode: OppoCompat) -> Option<
    (Seq<u8>, OppoUserCommentPatch),
> {
    if e.construction_method != 0 || e.extents.len() != 1 {
        None
    } else {
        let (offset, length) = e.extents[0];
        let from = offset - mdat_start;
        let to = from + length;
        if length == 0 || from < 0 || to > mdat.len() {
            None
        } else {
            match exif_with_comment(mdat.subrange(from, to), mode) {
                None => None,
                Some(x) => Some(
                    (
                        mdat.take(from) + x + mdat.skip(to),
                        OppoUserCommentPatch {
                            source_range: (offset as usize, (offset + length) as usize),
                            delta: (x.len() - length) as i64,
                        },
                    ),
                ),
            }
        }
    }
}

fn scan_one_ifd(data: &[u8], ifd: usize, n: usize, little: bool, pending: &mut Vec<u32>) -> (r: Option<
    Option<usize>,
>)
    requires
        n <= 4096,
        ifd + 2 <= data.len(),
    ensures
        match r {
            None => scan_ifd(data@, ifd as int, 0, n as int, little, old(pending)@) is None,
            Some(None) => scan_ifd(data@, ifd as int, 0, n as int, little, old(pending)@) == Some(
                (None::<int>, final(pending)@),
            ),
            Some(Some(e)) => scan_ifd(data@, ifd as int, 0, n as int, little, old(pending)@) == Some(
                (Some(e as int), final(pending)@),
            ) && e + 12 <= data@.len(),
        },
{
    let mut i: usize = 0;
    let ghost all = scan_ifd(data@, ifd as int, 0, n as int, little, old(pending)@);
    while i < n
        invariant
            i <= n,
            n <= 4096,
            ifd + 2 <= data.len(),
            all == scan_ifd(data@, ifd as int, 0, n as int, little, old(pending)@),
            all == scan_ifd(data@, ifd as int, i as int, n as int, little, pending@),
        decreases n - i,
    {
        if data.len() - ifd - 2 < 12 * i + 12 {
            return None;
        }
        let entry: usize = ifd + 2 + 12 * i;
        let tag: u16 = read16(data, entry, little);
        if tag == 0x9286 {
            return Some(Some(entry));
        }
        if tag == 0x8769 || tag == 0x8825 {
            let child: u32 = read32(data, entry + 8, little);
            pending.push(child);
        }
        i = i + 1;
    }
    Some(None)
}

fn find_user_comment(data: &[u8], start: usize, little: bool, first: u32) -> (r: Option<usize>)
    requires
        start <= data.len(),
    ensures
        match r {
            Some(e) => user_comment_entry(
                data@,
                start as int,
                little,
                seq![first],
                Set::empty(),
                data@.len(),
            ) == Some(e as int) && e + 12 <= data@.len(),
            None => user_comment_entry(
                data@,
                start as int,
                little,
                seq![first],
                Set::empty(),
                data@.len(),
            ) is None,
        },
{
    let mut pending: Vec<u32> = vec![first];
    let mut visited: std::collections::HashSet<u32> = std::collections::HashSet::new();
    let mut budget: usize = data.len();
    let ghost all = user_comment_entry(
        data@,
        start as int,
        little,
        seq![first],
        Set::empty(),
        data@.len(),
    );
    assert(pending@ =~= seq![first]);
    while pending.len() > 0
        invariant
            start <= data.len(),
            all == user_comment_entry(
                data@,
                start as int,
                little,
                seq![first],
                Set::empty(),
                data@.len(),
            ),
            all == user_comment_entry(
                data@,
                start as int,
                little,
                pending@,
                visited@,
                budget as nat,
            ),
        decreases budget, pending@.len(),
    {
        let ghost before = pending@;
        let relative: u32 = pending.pop().unwrap();
        assert(pending@ =~= before.drop_last());
        assert(relative == before.last());
        if visited.contains(&relative) {
            continue;
        }
        if budget == 0 {
            return None;
        }
        let n: usize = match get16(data, start, relative as usize, little) {
            Some(v) => v as usize,
            None => {
                return None;
            },
        };
        if n > 4096 {
            return None;
        }
        match scan_one_ifd(data, start + relative as usize, n, little, &mut pending) {
            None => {
                return None;
            },
            Some(Some(e)) => {
                return Some(e);
            },
            Some(None) => {},
        }
        visited.insert(relative);
        budget = budget - 1;
    }
    None
}

fn adjust_comment(value: &[u8], mode: OppoCompat) -> (r: Option<Vec<u8>>)
    ensures
        opt_bytes(r) == adjusted_comment(value@, mode),
        r matches Some(v) ==> v@.len() <= value@.len() + 20,
{
    let tags: Vec<TagFlag> = find_oppo_tagflags(value);
    if tags.len() == 0 {
        return None;
    }
    assert(views(tags@)[0] == tags@[0]@);
    match adjust_oppo_usercomment(&tags[0], mode) {
        None => None,
        Some((from, to, digits)) => {
            let mut out: Vec<u8> = copy_range(value, 0, from);
            append(&mut out, digits.as_slice());
            append(&mut out, vstd::slice::slice_subrange(value, to, value.len()));
            assert(out@ =~= value@.take(from as int) + digits@ + value@.skip(to as int));
            Some(out)
        },
    }
}

fn write_comment(x: &[u8], start: usize, entry: usize, little: bool, value: &Vec<u8>) -> (r: Vec<u8>)
    requires
        start <= x.len(),
        entry + 12 <= x.len(),
        x@.len() + 32 <= isize::MAX,
    ensures
        ({
            let padded = x@ + zeros(pad4(x@.len() as int) as nat);
            r@ == overwritten(
                padded + value@,
                entry + 4,
                put32(value@.len() as int, little) + put32(padded.len() - start, little),
            )
        }),
        x@.len() <= r@.len() <= x@.len() + 3 + value@.len(),
{
    let pad: usize = (4 - x.len() % 4) % 4;
    let ghost padded = x@ + zeros(pad as nat);
    let ghost words = put32(value@.len() as int, little) + put32(padded.len() - start, little);
    let mut out: Vec<u8> = copy_range(x, 0, entry + 4);
    push32_low(&mut out, value.len() as u64, little);
    push32_low(&mut out, (x.len() - start + pad) as u64, little);
    assert(out@ =~= x@.take(entry + 4) + words);
    assert(words.len() == 8);
    append(&mut out, vstd::slice::slice_subrange(x, entry + 12, x.len()));
    append_zeros(&mut out, pad);
    append(&mut out, value.as_slice());
    assert(out@ =~= overwritten(padded + value@, entry + 4, words));
    out
}

#[verifier::rlimit(60)]
fn patch_exif_comment(x: &[u8], mode: OppoCompat) -> (r: Option<Vec<u8>>)
    requires
        x@.len() + 32 <= isize::MAX,
    ensures
        opt_bytes(r) == exif_with_comment(x@, mode),
        r matches Some(y) ==> x@.len() <= y@.len() <= 2 * x@.len() + 23,
{
    if x.len() < 12 {
        return None;
    }
    let tiff_offset: usize = read32(x, 0, false) as usize;
    if tiff_offset > x.len() - 12 {
        return None;
    }
    let start: usize = 4 + tiff_offset;
    let little: bool = match tiff_order(x, start) {
        Some(l) => l,
        None => {
            return None;
        },
    };
    if read16(x, start + 2, little) != 42 {
        return None;
    }
    let entry: usize = match find_user_comment(x, start, little, read32(x, start + 4, little)) {
        Some(e) => e,
        None => {
            return None;
        },
    };
    let count: usize = read32(x, entry + 4, little) as usize;
    if read16(x, entry + 2, little) != 7 || count == 0 {
        return None;
    }
    let (base, distance): (usize, usize) = if count <= 4 {
        (entry, 8)
    } else {
        (start, read32(x, entry + 8, little) as usize)
    };
    if distance > x.len() - base || count > x.len() - base - distance {
        return None;
    }
    let from: usize = base + distance;
    match adjust_comment(vstd::slice::slice_subrange(x, from, from + count), mode) {
        None => None,
        Some(value) => Some(write_comment(x, start, entry, little, &value)),
    }
}

/// Apply the OPPO UserComment patch to the source mdat payload, confined to
/// the Exif item extent.
///
/// The Exif item is located via its iloc extent (construction method 0), the
/// UserComment entry is found by walking the TIFF IFD chain, and the adjusted
/// value is **appended to the end of the Exif payload** with the entry's count
/// and offset rewritten. Bytes outside the Exif item (GPS sub-IFD tables,
/// primary-image tiles, later items) are never touched, so a length change only
/// shifts the item extent - not the surrounding data.
///
/// `mdat_data_start` is the source mdat content start (matching the absolute
/// extent offsets returned by `parse_iloc`).
pub fn apply_oppo_usercomment_patch(
    mdat_payload: &mut Vec<u8>,
    mdat_data_start: usize,
    exif_entry: &IlocEntry,
    mode: OppoCompat,
) -> (r: Option<OppoUserCommentPatch>)
    requires
        mdat_data_start + old(mdat_payload)@.len() + 32 <= isize::MAX,
    ensures
        match patched_media(old(mdat_payload)@, mdat_data_start as int, exif_entry@, mode) {
            None => r is None && final(mdat_payload)@ == old(mdat_payload)@,
            Some((media, patch)) => r == Some(patch) && final(mdat_payload)@ == media,
        },
{
    if exif_entry.construction_method != 0 || exif_entry.extents.len() != 1 {
        return None;
    }
    let (offset, length) = exif_entry.extents[0];
    if length == 0 || offset < mdat_data_start as u64 {
        return None;
    }
    let total: u64 = mdat_payload.len() as u64;
    let from: u64 = offset - mdat_data_start as u64;
    if from > total || length > total - from {
        return None;
    }
    let from: usize = from as usize;
    let to: usize = from + length as usize;
    match patch_exif_comment(
        vstd::slice::slice_subrange(mdat_payload.as_slice(), from, to),
        mode,
    ) {
        None => None,
        Some(x) => {
            let delta: i64 = (x.len() - length as usize) as i64;
            let mut out: Vec<u8> = copy_range(mdat_payload.as_slice(), 0, from);
            append(&mut out, x.as_slice());
            append(
                &mut out,
                vstd::slice::slice_subrange(mdat_payload.as_slice(), to, mdat_payload.len()),
            );
            assert(out@ =~= mdat_payload@.take(from as int) + x@ + mdat_payload@.skip(to as int));
            *mdat_payload = out;
            Some(
                OppoUserCommentPatch {
                    source_range: (offset as usize, (offset + length) as usize),
                    delta,
                },
            )
        },
    }
}

} // verus!
