//! What is read of the orientation of a photo, and what becomes of its routing flags.

use crate::bytes::{int16, occurs_at, put16, put32, zeros};
use crate::exif::{
    ExifOrientation, OppoCompat, entry_tagged, orientation_entry, orientation_of, target_flags,
    tiff_orientation,
};
use crate::makernote::{
    EntryView, Targets, TiffView, directory_bytes, entry_row, target_for, targets_of, tiff_bytes,
    unit_of, value_area,
};
use crate::round_trip::lemma_parts;
use crate::seqs::flat;
use crate::tiff::{TIFF_II, TIFF_MM};
use crate::tiff_laws::{
    lemma_directory_parts, lemma_directory_tag, lemma_row_at, lemma_tiff_head, lemma_tiff_places,
    ordered_16_bits_read_back, ordered_32_bits_read_back, tiff_fits, tiff_head,
};
use vstd::prelude::*;
use vstd::string::*;

verus! {

/// The entry that says an orientation: one short number.
pub open spec fn says_orientation(e: EntryView, n: int, little: bool) -> bool {
    &&& e.tag == 0x0112
    &&& e.type_id == 3
    &&& e.data == put16(n, little)
}

proof fn lemma_tagged(s: Seq<u8>, start: int, entries: Seq<EntryView>, t: Targets, little: bool, i: int, k: int)
    requires
        0 <= start,
        entries.len() < 0x1_0000,
        occurs_at(s, directory_bytes(entries, t, start, little), start),
        0 <= i <= k < entries.len(),
        entries[k].tag == 0x0112,
        forall|j: int| 0 <= j < k ==> (#[trigger] entries[j]).tag != 0x0112,
    ensures
        entry_tagged(s, start + 2, i, entries.len() as int, 0x0112, little) == Some(
            start + 2 + 12 * k,
        ),
    decreases k - i,
{
    lemma_directory_tag(s, start, entries, t, little, i);
    if i < k {
        assert(entries[i].tag != 0x0112);
        lemma_tagged(s, start, entries, t, little, i + 1, k);
    }
}

proof fn lemma_none_tagged(s: Seq<u8>, start: int, entries: Seq<EntryView>, t: Targets, little: bool, i: int)
    requires
        0 <= start,
        entries.len() < 0x1_0000,
        occurs_at(s, directory_bytes(entries, t, start, little), start),
        0 <= i <= entries.len(),
        forall|j: int| 0 <= j < entries.len() ==> (#[trigger] entries[j]).tag != 0x0112,
    ensures
        entry_tagged(s, start + 2, i, entries.len() as int, 0x0112, little) is None,
    decreases entries.len() - i,
{
    if i < entries.len() {
        lemma_directory_tag(s, start, entries, t, little, i);
        assert(entries[i].tag != 0x0112);
        lemma_none_tagged(s, start, entries, t, little, i + 1);
    }
}

proof fn lemma_orientation_row(s: Seq<u8>, base: int, e: EntryView, t: Targets, at: int, n: int, little: bool)
    requires
        says_orientation(e, n, little),
        occurs_at(s, entry_row(e, t, at, little), base),
        0 <= n < 0x1_0000,
        target_for(e.tag, t) is None,
    ensures
        orientation_entry(s, base, little) == (match orientation_of(n) {
            Some(o) => Ok::<ExifOrientation, Seq<char>>(o),
            None => Ok(ExifOrientation::Normal),
        }),
{
    let a = put16(e.tag as int, little);
    let b = put16(3, little);
    let c = put32(1, little);
    let d = e.data + zeros(2);
    assert(e.data.len() == 2);
    assert(unit_of(e.type_id as int) == Some(2int));
    assert(e.data.len() as int / 2 == 1);
    assert(entry_row(e, t, at, little) =~= a + b + c + d);
    lemma_parts(s, a + b + c, d, base);
    lemma_parts(s, a + b, c, base);
    lemma_parts(s, a, b, base);
    lemma_parts(s, e.data, zeros(2), base + 8);
    ordered_16_bits_read_back(s, base + 2, 3, little);
    ordered_32_bits_read_back(s, base + 4, 1, little);
    ordered_16_bits_read_back(s, base + 8, n, little);
}

/// The orientation that is read of TIFF data is the number that their first directory has
/// under the orientation's tag, in either byte order; without such an entry, or with a number
/// that is none of the eight, they are as they are shown.
pub proof fn orientations_are_read_back(m: TiffView, k: int, n: int)
    requires
        tiff_fits(m),
        0 <= n < 0x1_0000,
    ensures
        ({
            let read = tiff_orientation(tiff_bytes(m));
            let first = 0 <= k < m.ifd0.len() && says_orientation(m.ifd0[k], n, m.little)
                && forall|j: int| 0 <= j < k ==> (#[trigger] m.ifd0[j]).tag != 0x0112;
            let none = forall|j: int|
                0 <= j < m.ifd0.len() ==> (#[trigger] m.ifd0[j]).tag != 0x0112;
            &&& first && 1 <= n <= 8 ==> (read matches Ok(o) && orientation_of(n) == Some(o))
            &&& first && !(1 <= n <= 8) ==> read == Ok::<ExifOrientation, Seq<char>>(
                ExifOrientation::Normal,
            )
            &&& none ==> read == Ok::<ExifOrientation, Seq<char>>(ExifOrientation::Normal)
        }),
{
    if 0 <= k < m.ifd0.len() && says_orientation(m.ifd0[k], n, m.little) && forall|j: int|
        0 <= j < k ==> (#[trigger] m.ifd0[j]).tag != 0x0112 {
        lemma_first_orientation(m, k, n);
    }
    if forall|j: int| 0 <= j < m.ifd0.len() ==> (#[trigger] m.ifd0[j]).tag != 0x0112 {
        lemma_no_orientation(m);
    }
}

/// What the reading of the orientation comes to, once the directory is found.
proof fn lemma_directory_found(m: TiffView)
    requires
        tiff_fits(m),
    ensures
        ({
            let s = tiff_bytes(m);
            &&& occurs_at(s, directory_bytes(m.ifd0, targets_of(m), 8, m.little), 8)
            &&& tiff_orientation(s) == (match entry_tagged(
                s,
                10,
                0,
                m.ifd0.len() as int,
                0x0112,
                m.little,
            ) {
                None => Ok(ExifOrientation::Normal),
                Some(e) => orientation_entry(s, e, m.little),
            })
        }),
{
    let s = tiff_bytes(m);
    lemma_tiff_places(m);
    lemma_tiff_head(s, m.little);
    lemma_magic(s, m.little);
    lemma_directory_parts(s, 8, m.ifd0, targets_of(m), m.little);
}

proof fn lemma_first_orientation(m: TiffView, k: int, n: int)
    requires
        tiff_fits(m),
        0 <= n < 0x1_0000,
        0 <= k < m.ifd0.len(),
        says_orientation(m.ifd0[k], n, m.little),
        forall|j: int| 0 <= j < k ==> (#[trigger] m.ifd0[j]).tag != 0x0112,
    ensures
        tiff_orientation(tiff_bytes(m)) == (match orientation_of(n) {
            Some(o) => Ok::<ExifOrientation, Seq<char>>(o),
            None => Ok(ExifOrientation::Normal),
        }),
{
    let s = tiff_bytes(m);
    let le = m.little;
    let t = targets_of(m);
    let area: int = 14 + m.ifd0.len() as int * 12;
    lemma_directory_found(m);
    lemma_directory_parts(s, 8, m.ifd0, t, le);
    lemma_tagged(s, 8, m.ifd0, t, le, 0, k);
    lemma_row_at(s, 10, m.ifd0, t, area, le, k);
    lemma_orientation_row(
        s,
        10 + 12 * k,
        m.ifd0[k],
        t,
        area + flat(m.ifd0.take(k), value_area(t)).len(),
        n,
        le,
    );
}

proof fn lemma_no_orientation(m: TiffView)
    requires
        tiff_fits(m),
        forall|j: int| 0 <= j < m.ifd0.len() ==> (#[trigger] m.ifd0[j]).tag != 0x0112,
    ensures
        tiff_orientation(tiff_bytes(m)) == Ok::<ExifOrientation, Seq<char>>(ExifOrientation::Normal),
{
    lemma_directory_found(m);
    lemma_none_tagged(tiff_bytes(m), 8, m.ifd0, targets_of(m), m.little, 0);
}

proof fn lemma_magic(s: Seq<u8>, little: bool)
    requires
        occurs_at(s, tiff_head(little), 0),
    ensures
        int16(s, 2, little) == 42,
{
    let mark = if little {
        TIFF_II@
    } else {
        TIFF_MM@
    };
    lemma_parts(s, mark + put16(42, little), put32(8, little), 0);
    lemma_parts(s, mark, put16(42, little), 0);
    ordered_16_bits_read_back(s, 2, 42, little);
}

/// The eight numbers of an orientation are those that Exif gives them: which of them mirror,
/// which trade width and height, and which turn.
pub proof fn orientations_have_their_numbers(n: int)
    ensures
        orientation_of(n) is Some <==> 1 <= n <= 8,
        orientation_of(1) == Some(ExifOrientation::Normal),
        orientation_of(n) matches Some(o) ==> {
            &&& o.number() == n
            &&& o.transposes() <==> n >= 5
            &&& o.presented(3, 2) == (if n >= 5 {
                (2u32, 3u32)
            } else {
                (3u32, 2u32)
            })
        },
{
}

/// A mode leaves the routing flags alone, or sets and clears what it stands for: beside OPPO
/// output the flag of OPPO's Ultra HDR is set; beside ISO output that of ISO instead, and the
/// flag of local HDR goes where it is not wanted; beside a graph alone neither stays.
pub proof fn modes_route_by_their_flags(source: u32)
    ensures
        target_flags(source, OppoCompat::Off) == source,
        target_flags(source, OppoCompat::Auto) == source,
        target_flags(source, OppoCompat::On) == source | 0x2000_0000u32,
        target_flags(source, OppoCompat::Tail) == source | 0x2000_0000u32,
        target_flags(source, OppoCompat::Iso) == (source & !0x2000_0000u32) | 0x0020_0000u32,
        target_flags(source, OppoCompat::IsoNoLocal) == (source & !0x2000_0000u32 & !0x0004_0000u32)
            | 0x0020_0000u32,
        target_flags(source, OppoCompat::IsoGraph) == source & !0x2000_0000u32 & !0x0020_0000u32,
{
}

} // verus!
