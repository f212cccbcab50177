//! The Apple MakerNote that pairs a still with its movie, and the TIFF structure
//! that carries it.

use crate::bytes::{
    append, append_zeros, copy_range, enc16, enc32, find_byte, int16, int32, lemma_mod_part,
    lemma_put32_low_bits, matches_at, overwrite, overwritten, push16, push16_of_ordered,
    push16_ordered, push32, push32_low, push32_of, push32_ordered, put16, put32, read16, read32,
    starts_with, zeros,
};
use crate::seqs::{
    first_where, flat, lemma_first_where_at, lemma_first_where_none, lemma_flat_take, told,
    told_some, views,
};
use crate::text::{to_upper, uppercase_text};
use crate::tiff::{
    TIFF_II, TIFF_MM, get16, get32, int16_at, int32_at, tiff_little, tiff_mark_at, tiff_order,
};
use vstd::prelude::*;
use vstd::string::*;
use vstd::utf8::*;

verus! {

/// How an Apple iOS MakerNote begins: `Apple iOS`, two zero bytes, and 1.
pub const APPLE_NOTE: [u8; 12] = [
    0x41, 0x70, 0x70, 0x6c, 0x65, 0x20, 0x69, 0x4f, 0x53, 0x00, 0x00, 0x01,
];

/// The TIFF tag that points at the Exif directory.
pub const TAG_EXIF: u16 = 0x8769;

/// The TIFF tag that points at the GPS directory.
pub const TAG_GPS: u16 = 0x8825;

/// The TIFF tag of the MakerNote.
pub const TAG_MAKERNOTE: u16 = 0x927c;

/// The MakerNote tag of the content identifier.
pub const TAG_CONTENT_ID: u16 = 0x0011;

/// The most entries that a directory may have.
pub const MAX_ENTRIES: u16 = 512;

// ---------------------------------------------------------------------------
// A note of one entry
// ---------------------------------------------------------------------------

/// The value of the content identifier: its upper-case form and a zero byte.
pub open spec fn identifier_value(id: Seq<char>) -> Seq<u8> {
    encode_utf8(uppercase_text(id)).push(0u8)
}

/// A MakerNote whose only entry is the content identifier `value`.
pub open spec fn note_of(value: Seq<u8>) -> Seq<u8> {
    APPLE_NOTE@ + TIFF_MM@ + enc16(1) + enc16(TAG_CONTENT_ID as int) + enc16(2) + enc32(
        value.len() as int,
    ) + enc32(32) + enc32(0) + value
}

/// Whether an identifier can stand in a note of its own: its upper-case form has
/// characters, all of them ASCII and none of them zero.
pub open spec fn is_pairing_id(id: Seq<char>) -> bool {
    let upper = uppercase_text(id);
    &&& upper.len() > 0
    &&& is_ascii_chars(upper)
    &&& !encode_utf8(upper).contains(0u8)
}

/// The note that pairs a still to the movie with the identifier `id`.
pub open spec fn apple_note(id: Seq<char>) -> Result<Seq<u8>, Seq<char>> {
    if is_pairing_id(id) {
        Ok(note_of(identifier_value(id)))
    } else {
        Err("invalid Live Photo content identifier"@)
    }
}

/// Build a minimal Apple iOS MakerNote: one ASCII entry with the upper-case content
/// identifier.
pub fn build_apple_makernote(content_identifier: &str) -> (r: Result<Vec<u8>, String>)
    ensures
        told(r) == apple_note(content_identifier@),
{
    let upper: String = to_upper(content_identifier);
    let bytes: &[u8] = upper.as_str().as_bytes();
    let zero: usize = find_byte(bytes, 0, 0);
    proof {
        if zero < bytes@.len() {
            assert(bytes@[zero as int] == 0);
        }
        lemma_encoded_len(upper@);
    }
    if bytes.len() == 0 || !upper.as_str().is_ascii() || zero < bytes.len() {
        return Err("invalid Live Photo content identifier".to_string());
    }
    let mut value: Vec<u8> = copy_range(bytes, 0, bytes.len());
    value.push(0);
    assert(value@ =~= identifier_value(content_identifier@));
    let mut note: Vec<u8> = Vec::new();
    append(&mut note, APPLE_NOTE.as_slice());
    append(&mut note, TIFF_MM.as_slice());
    push16(&mut note, 1);
    push16(&mut note, TAG_CONTENT_ID);
    push16(&mut note, 2);
    push32_of(&mut note, value.len() as u64);
    push32(&mut note, 32);
    push32(&mut note, 0);
    append(&mut note, value.as_slice());
    Ok(note)
}

/// A text has characters exactly where its encoding has bytes.
pub proof fn lemma_encoded_len(s: Seq<char>)
    ensures
        encode_utf8(s).len() == 0 <==> s.len() == 0,
{
    encode_utf8_decode_utf8(s);
    if encode_utf8(s).len() == 0 {
        assert(encode_utf8(s) =~= encode_utf8(Seq::empty()));
        encode_utf8_decode_utf8(Seq::empty());
    }
}

// ---------------------------------------------------------------------------
// TIFF directories
// ---------------------------------------------------------------------------

/// An entry of a TIFF directory with the bytes of its value.
pub struct TiffEntry {
    pub tag: u16,
    pub type_id: u16,
    pub data: Vec<u8>,
}

/// What an entry of a TIFF directory says.
#[verifier::ext_equal]
pub struct EntryView {
    pub tag: u16,
    pub type_id: u16,
    pub data: Seq<u8>,
}

impl View for TiffEntry {
    type V = EntryView;

    open spec fn view(&self) -> EntryView {
        EntryView { tag: self.tag, type_id: self.type_id, data: self.data@ }
    }
}

/// The directories of a TIFF structure.
pub struct TiffModel {
    pub little_endian: bool,
    pub ifd0: Vec<TiffEntry>,
    pub exif_ifd: Vec<TiffEntry>,
    pub gps_ifd: Vec<TiffEntry>,
}

/// What the directories of a TIFF structure say.
#[verifier::ext_equal]
pub struct TiffView {
    pub little: bool,
    pub ifd0: Seq<EntryView>,
    pub exif: Seq<EntryView>,
    pub gps: Seq<EntryView>,
}

impl View for TiffModel {
    type V = TiffView;

    open spec fn view(&self) -> TiffView {
        TiffView {
            little: self.little_endian,
            ifd0: views(self.ifd0@),
            exif: views(self.exif_ifd@),
            gps: views(self.gps_ifd@),
        }
    }
}

/// How many bytes a value of a TIFF type takes.
pub open spec fn unit_of(type_id: int) -> Option<int> {
    if type_id == 1 || type_id == 2 || type_id == 6 || type_id == 7 {
        Some(1)
    } else if type_id == 3 || type_id == 8 {
        Some(2)
    } else if type_id == 4 || type_id == 9 || type_id == 11 {
        Some(4)
    } else if type_id == 5 || type_id == 10 || type_id == 12 {
        Some(8)
    } else if type_id == 16 || type_id == 17 || type_id == 18 {
        Some(8)
    } else {
        None
    }
}

/// How many bytes a value of a TIFF type takes.
pub fn type_size(type_id: u16) -> (r: Option<usize>)
    ensures
        match r {
            Some(n) => unit_of(type_id as int) == Some(n as int) && 1 <= n <= 8,
            None => unit_of(type_id as int) is None,
        },
{
    match type_id {
        1 | 2 | 6 | 7 => Some(1),
        3 | 8 => Some(2),
        4 | 9 | 11 => Some(4),
        5 | 10 | 12 => Some(8),
        16 | 17 | 18 => Some(8),
        _ => None,
    }
}

/// The bytes from `start` on, where they lie in the data.
pub open spec fn piece(s: Seq<u8>, start: int, len: int) -> Option<Seq<u8>> {
    if 0 <= start && 0 <= len && start + len <= s.len() {
        Some(s.subrange(start, start + len))
    } else {
        None
    }
}

pub fn get_piece<'a>(data: &'a [u8], start: usize, len: usize) -> (r: Option<&'a [u8]>)
    ensures
        match r {
            Some(b) => piece(data@, start as int, len as int) == Some(b@),
            None => piece(data@, start as int, len as int) is None,
        },
{
    if start > data.len() || len > data.len() - start {
        None
    } else {
        Some(vstd::slice::slice_subrange(data, start, start + len))
    }
}

/// The directory entry at `base`, or why there is none.
pub open spec fn tiff_entry_at(s: Seq<u8>, base: int, little: bool) -> Result<EntryView, Seq<char>> {
    match (int16_at(s, base, little), int16_at(s, base + 2, little), int32_at(s, base + 4, little)) {
        (Some(tag), Some(type_id), Some(num)) => match unit_of(type_id) {
            None => Err("unsupported TIFF field type"@),
            Some(unit) => {
                let total = num * unit;
                if total > usize::MAX {
                    Err("TIFF field size overflow"@)
                } else if total <= 4 {
                    match piece(s, base + 8, total) {
                        None => Err("TIFF inline value out of range"@),
                        Some(data) => Ok(
                            EntryView { tag: tag as u16, type_id: type_id as u16, data },
                        ),
                    }
                } else {
                    match int32_at(s, base + 8, little) {
                        None => Err("TIFF read out of range"@),
                        Some(at) => match piece(s, at, total) {
                            None => Err("TIFF value offset out of range"@),
                            Some(data) => Ok(
                                EntryView { tag: tag as u16, type_id: type_id as u16, data },
                            ),
                        },
                    }
                }
            },
        },
        _ => Err("TIFF read out of range"@),
    }
}

/// The entries from number `i` on of the directory at `ifd`, behind `acc`.
pub open spec fn tiff_entries_from(
    s: Seq<u8>,
    ifd: int,
    count: int,
    i: int,
    little: bool,
    acc: Seq<EntryView>,
) -> Result<Seq<EntryView>, Seq<char>>
    decreases count - i,
{
    if i >= count {
        Ok(acc)
    } else {
        match tiff_entry_at(s, ifd + 2 + 12 * i, little) {
            Err(e) => Err(e),
            Ok(x) => tiff_entries_from(s, ifd, count, i + 1, little, acc.push(x)),
        }
    }
}

/// The entries of the directory at `ifd`, or why there are none.
pub open spec fn tiff_directory(s: Seq<u8>, ifd: int, little: bool) -> Result<
    Seq<EntryView>,
    Seq<char>,
> {
    match int16_at(s, ifd, little) {
        None => Err("TIFF read out of range"@),
        Some(count) => if count > MAX_ENTRIES {
            Err("TIFF IFD entry count exceeds safety limit"@)
        } else {
            tiff_entries_from(s, ifd, count, 0, little, Seq::empty())
        },
    }
}

/// Being an entry with a given tag.
pub open spec fn tagged(tag: u16) -> spec_fn(EntryView) -> bool {
    |e: EntryView| e.tag == tag
}

/// Where the first entry with `tag` points, where it holds four bytes.
pub open spec fn pointer_of(entries: Seq<EntryView>, tag: u16, little: bool) -> Option<int> {
    match first_where(entries, tagged(tag)) {
        None => None,
        Some(e) => if e.data.len() == 4 {
            Some(int32(e.data, 0, little))
        } else {
            None
        },
    }
}

/// The entries of the directory that the first entry with `tag` points at; none
/// where it points nowhere.
pub open spec fn sub_directory(s: Seq<u8>, entries: Seq<EntryView>, tag: u16, little: bool) -> Result<
    Seq<EntryView>,
    Seq<char>,
> {
    match pointer_of(entries, tag, little) {
        Some(at) => if at + 2 <= s.len() {
            tiff_directory(s, at, little)
        } else {
            Ok(Seq::empty())
        },
        None => Ok(Seq::empty()),
    }
}

/// What a TIFF structure says, or why it cannot be read.
pub open spec fn tiff_model(s: Seq<u8>) -> Result<TiffView, Seq<char>> {
    if s.len() < 8 {
        Err("TIFF header truncated"@)
    } else if !tiff_mark_at(s, 0) {
        Err("invalid TIFF byte order"@)
    } else {
        let little = tiff_little(s, 0);
        match tiff_directory(s, int32(s, 4, little), little) {
            Err(e) => Err(e),
            Ok(ifd0) => match sub_directory(s, ifd0, TAG_EXIF, little) {
                Err(e) => Err(e),
                Ok(exif) => match sub_directory(s, ifd0, TAG_GPS, little) {
                    Err(e) => Err(e),
                    Ok(gps) => Ok(TiffView { little, ifd0, exif, gps }),
                },
            },
        }
    }
}

/// The place of entry `k` of the directory at `ifd`, or where the data ends if that
/// comes first.
fn entry_place(len: usize, ifd: u32, k: u32) -> (r: usize)
    requires
        k <= 0x1_0000,
    ensures
        r == ifd + 2 + 12 * k || (r == len && len < ifd + 2 + 12 * k),
        r <= len,
{
    let at: u64 = ifd as u64 + 2 + 12 * k as u64;
    if at > len as u64 {
        len
    } else {
        at as usize
    }
}

fn read_tiff_entry(tiff: &[u8], base: usize, little: bool) -> (r: Result<TiffEntry, String>)
    requires
        base <= tiff.len(),
    ensures
        told(r) == tiff_entry_at(tiff@, base as int, little),
{
    let tag: u16 = match get16(tiff, base, 0, little) {
        Some(v) => v,
        None => {
            return Err("TIFF read out of range".to_string());
        },
    };
    let type_id: u16 = match get16(tiff, base, 2, little) {
        Some(v) => v,
        None => {
            return Err("TIFF read out of range".to_string());
        },
    };
    let num: u32 = match get32(tiff, base, 4, little) {
        Some(v) => v,
        None => {
            return Err("TIFF read out of range".to_string());
        },
    };
    let size: usize = match type_size(type_id) {
        Some(v) => v,
        None => {
            return Err("unsupported TIFF field type".to_string());
        },
    };
    assert(num * size <= 0xffff_ffff * 8) by (nonlinear_arith)
        requires
            num <= 0xffff_ffff,
            size <= 8,
    ;
    let wide: u64 = num as u64 * size as u64;
    if wide > usize::MAX as u64 {
        return Err("TIFF field size overflow".to_string());
    }
    let total: usize = wide as usize;
    let data: &[u8] = if total <= 4 {
        match get_piece(tiff, base + 8, total) {
            Some(b) => b,
            None => {
                return Err("TIFF inline value out of range".to_string());
            },
        }
    } else {
        let at: u32 = match get32(tiff, base, 8, little) {
            Some(v) => v,
            None => {
                return Err("TIFF read out of range".to_string());
            },
        };
        match get_piece(tiff, at as usize, total) {
            Some(b) => b,
            None => {
                return Err("TIFF value offset out of range".to_string());
            },
        }
    };
    let copy: Vec<u8> = copy_range(data, 0, data.len());
    assert(copy@ =~= data@);
    Ok(TiffEntry { tag, type_id, data: copy })
}

proof fn lemma_entry_beyond(s: Seq<u8>, base: int, little: bool)
    requires
        base >= s.len(),
    ensures
        tiff_entry_at(s, base, little) == tiff_entry_at(s, s.len() as int, little),
{
}

fn read_directory(tiff: &[u8], ifd: u32, little: bool) -> (r: Result<Vec<TiffEntry>, String>)
    ensures
        told_entries(r) == tiff_directory(tiff@, ifd as int, little),
{
    let count: u16 = match get16(tiff, 0, ifd as usize, little) {
        Some(v) => v,
        None => {
            return Err("TIFF read out of range".to_string());
        },
    };
    if count > MAX_ENTRIES {
        return Err("TIFF IFD entry count exceeds safety limit".to_string());
    }
    let mut entries: Vec<TiffEntry> = Vec::new();
    let mut i: u32 = 0;
    assert(views(entries@) =~= Seq::empty());
    while i < count as u32
        invariant
            i <= count <= MAX_ENTRIES,
            tiff_directory(tiff@, ifd as int, little) == tiff_entries_from(
                tiff@,
                ifd as int,
                count as int,
                i as int,
                little,
                views(entries@),
            ),
        decreases count - i,
    {
        let base: usize = entry_place(tiff.len(), ifd, i);
        proof {
            if ifd + 2 + 12 * i > tiff@.len() {
                lemma_entry_beyond(tiff@, ifd + 2 + 12 * i, little);
            }
        }
        let e: TiffEntry = match read_tiff_entry(tiff, base, little) {
            Err(e) => {
                return Err(e);
            },
            Ok(e) => e,
        };
        let ghost before = views(entries@);
        entries.push(e);
        assert(views(entries@) =~= before.push(e@));
        i = i + 1;
    }
    Ok(entries)
}

/// What a result with entries says.
pub open spec fn told_entries(r: Result<Vec<TiffEntry>, String>) -> Result<Seq<EntryView>, Seq<char>> {
    match r {
        Ok(v) => Ok(views(v@)),
        Err(e) => Err(e@),
    }
}

/// The place of the first entry with a tag.
fn find_tag(entries: &Vec<TiffEntry>, tag: u16) -> (r: Option<usize>)
    ensures
        match r {
            Some(i) => i < entries@.len() && first_where(views(entries@), tagged(tag)) == Some(
                entries@[i as int]@,
            ) && first_tag(views(entries@), tag, 0) == Some(i as int),
            None => first_where(views(entries@), tagged(tag)) is None && first_tag(
                views(entries@),
                tag,
                0,
            ) is None,
        },
{
    let ghost v = views(entries@);
    let mut i: usize = 0;
    while i < entries.len()
        invariant
            i <= entries@.len(),
            v == views(entries@),
            first_tag(v, tag, 0) == first_tag(v, tag, i as int),
            forall|j: int| 0 <= j < i ==> (#[trigger] entries@[j]).tag != tag,
        decreases entries@.len() - i,
    {
        if entries[i].tag == tag {
            proof {
                lemma_first_where_at(v, tagged(tag), i as int);
            }
            return Some(i);
        }
        i = i + 1;
    }
    proof {
        lemma_first_where_none(v, tagged(tag));
    }
    None
}

/// The place from `i` on of the first entry with a tag.
pub open spec fn first_tag(entries: Seq<EntryView>, tag: u16, i: int) -> Option<int>
    decreases entries.len() - i,
{
    if i < 0 || i >= entries.len() {
        None
    } else if entries[i].tag == tag {
        Some(i)
    } else {
        first_tag(entries, tag, i + 1)
    }
}

fn read_sub_directory(tiff: &[u8], entries: &Vec<TiffEntry>, tag: u16, little: bool) -> (r: Result<
    Vec<TiffEntry>,
    String,
>)
    ensures
        told_entries(r) == sub_directory(tiff@, views(entries@), tag, little),
{
    let none: Vec<TiffEntry> = Vec::new();
    assert(views(none@) =~= Seq::empty());
    match find_tag(entries, tag) {
        None => Ok(none),
        Some(i) => {
            let data: &[u8] = entries[i].data.as_slice();
            if data.len() != 4 {
                return Ok(none);
            }
            let at: u32 = read32(data, 0, little);
            if tiff.len() < 2 || at as u64 > (tiff.len() - 2) as u64 {
                return Ok(none);
            }
            read_directory(tiff, at, little)
        },
    }
}

/// Read the directories of a TIFF structure.
pub fn read_tiff(tiff: &[u8]) -> (r: Result<TiffModel, String>)
    ensures
        told(r) == tiff_model(tiff@),
{
    if tiff.len() < 8 {
        return Err("TIFF header truncated".to_string());
    }
    let little: bool = match tiff_order(tiff, 0) {
        None => {
            return Err("invalid TIFF byte order".to_string());
        },
        Some(l) => l,
    };
    let ifd0: Vec<TiffEntry> = match read_directory(tiff, read32(tiff, 4, little), little) {
        Err(e) => {
            return Err(e);
        },
        Ok(v) => v,
    };
    let exif_ifd: Vec<TiffEntry> = match read_sub_directory(tiff, &ifd0, TAG_EXIF, little) {
        Err(e) => {
            return Err(e);
        },
        Ok(v) => v,
    };
    let gps_ifd: Vec<TiffEntry> = match read_sub_directory(tiff, &ifd0, TAG_GPS, little) {
        Err(e) => {
            return Err(e);
        },
        Ok(v) => v,
    };
    Ok(TiffModel { little_endian: little, ifd0, exif_ifd, gps_ifd })
}

/// Where the Exif and the GPS directory lie, as far as pointers to them are to be
/// written.
pub struct Targets {
    pub exif: Option<u32>,
    pub gps: Option<u32>,
}

/// Where the pointer in an entry goes; `None` where the entry is no such pointer.
pub open spec fn target_for(tag: u16, t: Targets) -> Option<u32> {
    if tag == TAG_EXIF && t.exif is Some {
        t.exif
    } else if tag == TAG_GPS && t.gps is Some {
        t.gps
    } else {
        None
    }
}

/// What an entry adds to the value area of its directory: a value that does not
/// fit the entry itself.
pub open spec fn value_area(t: Targets) -> spec_fn(EntryView) -> Seq<u8> {
    |e: EntryView|
        if target_for(e.tag, t) is None && e.data.len() > 4 {
            e.data
        } else {
            Seq::empty()
        }
}

/// The 12 bytes of an entry whose value, where it does not fit, lies at `at`.
pub open spec fn entry_row(e: EntryView, t: Targets, at: int, little: bool) -> Seq<u8> {
    put16(e.tag as int, little) + put16(e.type_id as int, little) + put32(
        e.data.len() as int / unit_of(e.type_id as int).unwrap(),
        little,
    ) + match target_for(e.tag, t) {
        Some(p) => put32(p as int, little),
        None => if e.data.len() <= 4 {
            e.data + zeros((4 - e.data.len()) as nat)
        } else {
            put32(at, little)
        },
    }
}

/// The rows of a directory whose value area begins at `area`.
pub open spec fn entry_rows(entries: Seq<EntryView>, t: Targets, area: int, little: bool) -> Seq<u8>
    decreases entries.len(),
{
    if entries.len() == 0 {
        Seq::empty()
    } else {
        let before = entries.drop_last();
        entry_rows(before, t, area, little) + entry_row(
            entries.last(),
            t,
            area + flat(before, value_area(t)).len(),
            little,
        )
    }
}

/// A directory at `start` with its value area.
#[verifier::opaque]
pub open spec fn directory_bytes(entries: Seq<EntryView>, t: Targets, start: int, little: bool) -> Seq<
    u8,
> {
    put16(entries.len() as int, little) + entry_rows(
        entries,
        t,
        start + 2 + entries.len() * 12 + 4,
        little,
    ) + put32(0, little) + flat(entries, value_area(t))
}

/// The total length of the values that do not fit their entries.
pub open spec fn long_values(entries: Seq<EntryView>) -> int
    decreases entries.len(),
{
    if entries.len() == 0 {
        0
    } else {
        long_values(entries.drop_last()) + if entries.last().data.len() > 4 {
            entries.last().data.len() as int
        } else {
            0
        }
    }
}

/// Where the Exif directory is said to lie.
pub open spec fn exif_place(m: TiffView) -> int {
    8 + 2 + m.ifd0.len() * 12 + 4 + long_values(m.ifd0)
}

/// Where the GPS directory is said to lie.
pub open spec fn gps_place(m: TiffView) -> int {
    exif_place(m) + if m.exif.len() > 0 {
        2 + m.exif.len() * 12 + 4 + long_values(m.exif)
    } else {
        0
    }
}

/// The pointers that the first directory gets.
pub open spec fn targets_of(m: TiffView) -> Targets {
    Targets {
        exif: if m.exif.len() > 0 {
            Some((exif_place(m) % 0x1_0000_0000) as u32)
        } else {
            None
        },
        gps: if m.gps.len() > 0 {
            Some((gps_place(m) % 0x1_0000_0000) as u32)
        } else {
            None
        },
    }
}

/// A further directory behind what stands before it, where it has entries.
pub open spec fn with_directory(before: Seq<u8>, entries: Seq<EntryView>, little: bool) -> Seq<u8> {
    if entries.len() > 0 {
        before + directory_bytes(
            entries,
            Targets { exif: None, gps: None },
            before.len() as int,
            little,
        )
    } else {
        before
    }
}

/// A TIFF structure: its header, the first directory, the Exif and the GPS
/// directory, each followed by its values.
pub open spec fn tiff_bytes(m: TiffView) -> Seq<u8> {
    let head = (if m.little {
        TIFF_II@
    } else {
        TIFF_MM@
    }) + put16(42, m.little) + put32(8, m.little);
    let first = head + directory_bytes(m.ifd0, targets_of(m), 8, m.little);
    with_directory(with_directory(first, m.exif, m.little), m.gps, m.little)
}

/// Whether every entry is of a known type.
pub open spec fn types_known(entries: Seq<EntryView>) -> bool {
    forall|i: int| 0 <= i < entries.len() ==> unit_of((#[trigger] entries[i]).type_id as int) is Some
}

/// Whether every entry of a TIFF structure is of a known type.
pub open spec fn model_typed(m: TiffView) -> bool {
    types_known(m.ifd0) && types_known(m.exif) && types_known(m.gps)
}

fn push_row(table: &mut Vec<u8>, e: &TiffEntry, targets: &Targets, at: u64, little: bool, Ghost(place): Ghost<
    int,
>)
    requires
        unit_of(e.type_id as int) is Some,
        at == place % 0x1_0000_0000,
    ensures
        final(table)@ == old(table)@ + entry_row(e@, *targets, place, little),
{
    let ghost before = table@;
    push16_ordered(table, e.tag, little);
    push16_ordered(table, e.type_id, little);
    let size: usize = type_size(e.type_id).unwrap();
    let count: usize = e.data.len() / size;
    push32_low(table, count as u64, little);
    let ghost row = put16(e.tag as int, little) + put16(e.type_id as int, little) + put32(
        e.data@.len() as int / unit_of(e.type_id as int).unwrap(),
        little,
    );
    assert(table@ =~= before + row);
    let target: Option<u32> = if e.tag == TAG_EXIF && targets.exif.is_some() {
        targets.exif
    } else if e.tag == TAG_GPS && targets.gps.is_some() {
        targets.gps
    } else {
        None
    };
    match target {
        Some(p) => {
            push32_ordered(table, p, little);
        },
        None => {
            if e.data.len() <= 4 {
                append(table, e.data.as_slice());
                append_zeros(table, 4 - e.data.len());
            } else {
                proof {
                    lemma_put32_low_bits(place, little);
                }
                push32_low(table, at, little);
            }
        },
    }
    assert(table@ =~= before + entry_row(e@, *targets, place, little));
}

/// Append a directory and its value area.
fn push_directory(out: &mut Vec<u8>, entries: &Vec<TiffEntry>, targets: &Targets, little: bool)
    requires
        types_known(views(entries@)),
    ensures
        final(out)@ == old(out)@ + directory_bytes(
            views(entries@),
            *targets,
            old(out)@.len() as int,
            little,
        ),
{
    let ghost v = views(entries@);
    let ghost t = *targets;
    let ghost start = out@.len() as int;
    let ghost area = start + 2 + v.len() * 12 + 4;
    let ghost before = out@;
    let area_low: u64 = (out.len() as u64 % 0x1_0000_0000 + 6 + (entries.len() as u64
        % 0x1_0000_0000) * 12) % 0x1_0000_0000;
    proof {
        lemma_area_low(start, v.len() as int);
    }
    let mut data_area: Vec<u8> = Vec::new();
    let mut table: Vec<u8> = Vec::new();
    push16_of_ordered(&mut table, entries.len() as u64, little);
    let ghost head = table@;
    let mut i: usize = 0;
    assert(v.take(0) =~= Seq::empty());
    assert(table@ =~= head + entry_rows(v.take(0), t, area, little));
    while i < entries.len()
        invariant
            i <= entries@.len(),
            v == views(entries@),
            t == *targets,
            types_known(v),
            area_low == area % 0x1_0000_0000,
            data_area@ == flat(v.take(i as int), value_area(t)),
            table@ == head + entry_rows(v.take(i as int), t, area, little),
        decreases entries@.len() - i,
    {
        let e: &TiffEntry = &entries[i];
        let ghost place = area + data_area@.len();
        let at: u64 = (area_low + data_area.len() as u64 % 0x1_0000_0000) % 0x1_0000_0000;
        proof {
            assert(v[i as int] == e@);
            lemma_mod_part(area, data_area@.len() as int % 0x1_0000_0000);
            lemma_mod_part(data_area@.len() as int, area);
            lemma_flat_take(v, value_area(t), i as int);
            assert(v.take(i + 1).drop_last() =~= v.take(i as int));
        }
        let ghost done = table@;
        push_row(&mut table, e, targets, at, little, Ghost(place));
        assert(table@ =~= head + entry_rows(v.take(i + 1), t, area, little));
        let pointer: bool = (e.tag == TAG_EXIF && targets.exif.is_some()) || (e.tag == TAG_GPS
            && targets.gps.is_some());
        if !pointer && e.data.len() > 4 {
            append(&mut data_area, e.data.as_slice());
        }
        assert(data_area@ =~= flat(v.take(i + 1), value_area(t)));
        i = i + 1;
    }
    assert(v.take(i as int) =~= v);
    push32_ordered(&mut table, 0, little);
    append(out, table.as_slice());
    append(out, data_area.as_slice());
    reveal(directory_bytes);
    assert(out@ =~= before + directory_bytes(v, t, start, little));
}

proof fn lemma_area_low(start: int, n: int)
    ensures
        (start % 0x1_0000_0000 + 6 + (n % 0x1_0000_0000) * 12) % 0x1_0000_0000 == (start + 2 + n * 12
            + 4) % 0x1_0000_0000,
{
    let m = 0x1_0000_0000int;
    lemma_mod_part(start, 6 + (n % m) * 12);
    let a = n / m;
    assert(n == a * m + n % m);
    assert(n * 12 == (12 * a) * m + (n % m) * 12) by (nonlinear_arith)
        requires
            n == a * m + n % m,
    ;
    let x = start + 6 + (n % m) * 12;
    assert((x + (12 * a) * 0x1_0000_0000) % 0x1_0000_0000 == x % 0x1_0000_0000);
}

fn add_long_values(entries: &Vec<TiffEntry>, start: u64, Ghost(place): Ghost<int>) -> (r: u64)
    requires
        start == place % 0x1_0000_0000,
    ensures
        r == (place + long_values(views(entries@))) % 0x1_0000_0000,
{
    let ghost v = views(entries@);
    let mut sum: u64 = start;
    let mut i: usize = 0;
    assert(v.take(0) =~= Seq::empty());
    while i < entries.len()
        invariant
            i <= entries@.len(),
            v == views(entries@),
            sum == (place + long_values(v.take(i as int))) % 0x1_0000_0000,
        decreases entries@.len() - i,
    {
        let len: usize = entries[i].data.len();
        let ghost before = place + long_values(v.take(i as int));
        proof {
            assert(v.take(i + 1).drop_last() =~= v.take(i as int));
            assert(v[i as int] == entries@[i as int]@);
            lemma_mod_part(before, len as int % 0x1_0000_0000);
            lemma_mod_part(len as int, before);
        }
        if len > 4 {
            sum = (sum + len as u64 % 0x1_0000_0000) % 0x1_0000_0000;
        }
        i = i + 1;
    }
    assert(v.take(i as int) =~= v);
    sum
}

/// Write a TIFF structure: `II` or `MM`, the first directory right behind the
/// header, then the Exif and the GPS directory where they have entries. Pointers to
/// them are rewritten; there is no thumbnail directory.
pub fn write_tiff(model: &TiffModel) -> (r: Vec<u8>)
    requires
        model_typed(model@),
    ensures
        r@ == tiff_bytes(model@),
{
    let le: bool = model.little_endian;
    let ghost m = model@;
    let mut out: Vec<u8> = Vec::new();
    append(
        &mut out,
        if le {
            TIFF_II.as_slice()
        } else {
            TIFF_MM.as_slice()
        },
    );
    push16_ordered(&mut out, 42, le);
    push32_ordered(&mut out, 8, le);
    assert(out@.len() == 8);
    proof {
        lemma_area_low(8, m.ifd0.len() as int);
        lemma_area_low(exif_place(m), m.exif.len() as int);
    }
    let exif_start: u64 = (8 + 6 + (model.ifd0.len() as u64 % 0x1_0000_0000) * 12) % 0x1_0000_0000;
    let exif_off: u64 = add_long_values(
        &model.ifd0,
        exif_start,
        Ghost(8int + 2 + m.ifd0.len() * 12 + 4),
    );
    let gps_off: u64 = if model.exif_ifd.len() > 0 {
        let gps_start: u64 = (exif_off + 6 + (model.exif_ifd.len() as u64 % 0x1_0000_0000) * 12)
            % 0x1_0000_0000;
        add_long_values(
            &model.exif_ifd,
            gps_start,
            Ghost(exif_place(m) + 2 + m.exif.len() * 12 + 4),
        )
    } else {
        exif_off
    };
    let targets: Targets = Targets {
        exif: if model.exif_ifd.len() > 0 {
            Some(exif_off as u32)
        } else {
            None
        },
        gps: if model.gps_ifd.len() > 0 {
            Some(gps_off as u32)
        } else {
            None
        },
    };
    assert(targets == targets_of(m));
    push_directory(&mut out, &model.ifd0, &targets, le);
    let nowhere: Targets = Targets { exif: None, gps: None };
    if model.exif_ifd.len() > 0 {
        push_directory(&mut out, &model.exif_ifd, &nowhere, le);
    }
    if model.gps_ifd.len() > 0 {
        push_directory(&mut out, &model.gps_ifd, &nowhere, le);
    }
    out
}

/// The first directory of a TIFF structure with a pointer to an Exif directory: the one
/// that it has, or one more entry behind the others. Where it points is settled when the
/// structure is written.
pub open spec fn with_exif_pointer(entries: Seq<EntryView>) -> Seq<EntryView> {
    match first_tag(entries, TAG_EXIF, 0) {
        Some(_) => entries,
        None => entries.push(EntryView { tag: TAG_EXIF, type_id: 4, data: zeros(4) }),
    }
}

/// A TIFF structure with the MakerNote `note`: in the place of the first one that the
/// Exif directory has, or behind its entries.
pub open spec fn with_note(m: TiffView, note: Seq<u8>) -> TiffView {
    TiffView {
        ifd0: with_exif_pointer(m.ifd0),
        exif: match first_tag(m.exif, TAG_MAKERNOTE, 0) {
            Some(i) => m.exif.update(
                i,
                EntryView { tag: TAG_MAKERNOTE, type_id: m.exif[i].type_id, data: note },
            ),
            None => m.exif.push(EntryView { tag: TAG_MAKERNOTE, type_id: 7, data: note }),
        },
        ..m
    }
}

/// A TIFF structure with the MakerNote of a content identifier, or why there is none.
pub open spec fn injected(s: Seq<u8>, id: Seq<char>) -> Result<Seq<u8>, Seq<char>> {
    match tiff_model(s) {
        Err(e) => Err(e),
        Ok(m) => match apple_note(id) {
            Err(e) => Err(e),
            Ok(note) => Ok(tiff_bytes(with_note(m, note))),
        },
    }
}

proof fn lemma_entries_typed(
    s: Seq<u8>,
    ifd: int,
    count: int,
    i: int,
    little: bool,
    acc: Seq<EntryView>,
)
    requires
        types_known(acc),
    ensures
        tiff_entries_from(s, ifd, count, i, little, acc) matches Ok(v) ==> types_known(v),
    decreases count - i,
{
    if i < count {
        match tiff_entry_at(s, ifd + 2 + 12 * i, little) {
            Err(_) => {},
            Ok(x) => {
                assert(unit_of(x.type_id as int) is Some);
                lemma_entries_typed(s, ifd, count, i + 1, little, acc.push(x));
            },
        }
    }
}

/// The entries of a TIFF structure that could be read are of known types.
pub proof fn lemma_model_typed(s: Seq<u8>)
    ensures
        tiff_model(s) matches Ok(m) ==> model_typed(m),
{
    if let Ok(m) = tiff_model(s) {
        let none = Seq::<EntryView>::empty();
        let little = m.little;
        let at = int32(s, 4, little);
        lemma_entries_typed(s, at, int16(s, at, little), 0, little, none);
        if let Some(e) = pointer_of(m.ifd0, TAG_EXIF, little) {
            lemma_entries_typed(s, e, int16(s, e, little), 0, little, none);
        }
        if let Some(g) = pointer_of(m.ifd0, TAG_GPS, little) {
            lemma_entries_typed(s, g, int16(s, g, little), 0, little, none);
        }
    }
}

proof fn lemma_first_tag(entries: Seq<EntryView>, tag: u16, i: int)
    requires
        0 <= i,
    ensures
        first_tag(entries, tag, i) matches Some(k) ==> i <= k < entries.len() && entries[k].tag == tag,
    decreases entries.len() - i,
{
    if i < entries.len() && entries[i].tag != tag {
        lemma_first_tag(entries, tag, i + 1);
    }
}

/// Put the Apple MakerNote that carries the Live Photo content identifier into the
/// Exif directory of a TIFF payload, which gets such a directory where it has none. A
/// thumbnail directory is dropped; the pairing does not need it.
pub fn inject_makernote(tiff: &[u8], content_identifier: &str) -> (r: Result<Vec<u8>, String>)
    ensures
        told(r) == injected(tiff@, content_identifier@),
{
    let model: TiffModel = match read_tiff(tiff) {
        Err(e) => {
            return Err(e);
        },
        Ok(m) => m,
    };
    let ghost m = model@;
    let note: Vec<u8> = match build_apple_makernote(content_identifier) {
        Err(e) => {
            return Err(e);
        },
        Ok(n) => n,
    };
    let ghost n = note@;
    proof {
        lemma_model_typed(tiff@);
    }
    let little_endian: bool = model.little_endian;
    let mut ifd0: Vec<TiffEntry> = model.ifd0;
    let ghost first = ifd0@;
    if find_tag(&ifd0, TAG_EXIF).is_none() {
        let e: TiffEntry = TiffEntry { tag: TAG_EXIF, type_id: 4, data: vec![0, 0, 0, 0] };
        assert(e.data@ =~= zeros(4));
        ifd0.push(e);
        assert(views(ifd0@) =~= views(first).push(e@));
    }
    assert(views(ifd0@) == with_exif_pointer(views(first)));
    let gps_ifd: Vec<TiffEntry> = model.gps_ifd;
    let mut exif_ifd: Vec<TiffEntry> = model.exif_ifd;
    let ghost before = exif_ifd@;
    match find_tag(&exif_ifd, TAG_MAKERNOTE) {
        Some(i) => {
            let e: TiffEntry = TiffEntry {
                tag: TAG_MAKERNOTE,
                type_id: exif_ifd[i].type_id,
                data: note,
            };
            exif_ifd[i] = e;
            assert(views(exif_ifd@) =~= views(before).update(i as int, e@));
        },
        None => {
            let e: TiffEntry = TiffEntry { tag: TAG_MAKERNOTE, type_id: 7, data: note };
            exif_ifd.push(e);
            assert(views(exif_ifd@) =~= views(before).push(e@));
        },
    }
    let paired: TiffModel = TiffModel { little_endian, ifd0, exif_ifd, gps_ifd };
    assert(paired@ =~= with_note(m, n));
    Ok(write_tiff(&paired))
}

// ---------------------------------------------------------------------------
// Extending an existing note
// ---------------------------------------------------------------------------

/// How many bytes a value of a MakerNote entry takes; one for unknown types.
pub open spec fn note_unit(type_id: int) -> int {
    if type_id == 3 || type_id == 8 {
        2
    } else if type_id == 4 || type_id == 9 || type_id == 11 {
        4
    } else if type_id == 5 || type_id == 10 || type_id == 12 {
        8
    } else {
        1
    }
}

/// The entry at `e` of a note whose values moved on by 12 bytes: an offset in it
/// moves along.
pub open spec fn moved_entry(note: Seq<u8>, e: int, little: bool) -> Seq<u8> {
    if int32(note, e + 4, little) * note_unit(int16(note, e + 2, little)) > 4 {
        note.subrange(e, e + 8) + put32(int32(note, e + 8, little) + 12, little)
    } else {
        note.subrange(e, e + 12)
    }
}

/// The first `n` entries of a note whose values moved on by 12 bytes.
pub open spec fn moved_entries(note: Seq<u8>, n: nat, little: bool) -> Seq<u8>
    decreases n,
{
    if n == 0 {
        Seq::empty()
    } else {
        moved_entries(note, (n - 1) as nat, little) + moved_entry(note, 16 + 12 * (n - 1), little)
    }
}

/// An Apple note with `value` as its content identifier. The new entry comes first;
/// the old entries follow, then what closed them, the old values and the new one.
pub open spec fn extended_note(note: Seq<u8>, value: Seq<u8>) -> Seq<u8> {
    let little = tiff_little(note, 12);
    let count = int16(note, 14, little);
    let table_end = 16 + 12 * count;
    note.take(14) + put16(count + 1, little) + put16(TAG_CONTENT_ID as int, little) + put16(2, little)
        + put32(value.len() as int, little) + put32(note.len() + 12int, little) + moved_entries(
        note,
        count as nat,
        little,
    ) + note.subrange(table_end, table_end + 4) + note.skip(table_end + 4) + value
}

/// An Apple note with a content identifier added, or why there is none. `None` where
/// an Apple note ends before its entry count.
pub open spec fn paired_note(note: Seq<u8>, id: Seq<char>) -> Option<Result<Seq<u8>, Seq<char>>> {
    let count = int16(note, 14, tiff_little(note, 12));
    let upper = uppercase_text(id);
    if !starts_with(note, APPLE_NOTE@) {
        Some(Err("MakerNote is not an Apple iOS note"@))
    } else if note.len() < 16 {
        None
    } else if count > 64 || note.len() < 16 + count * 12 + 4 {
        Some(Err("MakerNote entry count out of range"@))
    } else if upper.len() == 0 || !is_ascii_chars(upper) {
        Some(Err("invalid Live Photo content identifier"@))
    } else {
        Some(Ok(extended_note(note, identifier_value(id))))
    }
}

fn push_moved_entry(out: &mut Vec<u8>, note: &[u8], e: usize, little: bool)
    requires
        e + 12 <= note.len(),
    ensures
        final(out)@ == old(out)@ + moved_entry(note@, e as int, little),
{
    let kind: u16 = read16(note, e + 2, little);
    let count: u32 = read32(note, e + 4, little);
    let unit: u64 = match kind {
        3 | 8 => 2,
        4 | 9 | 11 => 4,
        5 | 10 | 12 => 8,
        _ => 1,
    };
    assert(unit == note_unit(kind as int));
    assert(count * unit <= 0xffff_ffff * 8) by (nonlinear_arith)
        requires
            count <= 0xffff_ffff,
            unit <= 8,
    ;
    if count as u64 * unit > 4 {
        let ghost before = out@;
        append(out, vstd::slice::slice_subrange(note, e, e + 8));
        push32_low(out, read32(note, e + 8, little) as u64 + 12, little);
        assert(out@ =~= before + moved_entry(note@, e as int, little));
    } else {
        append(out, vstd::slice::slice_subrange(note, e, e + 12));
    }
}

/// Like `append_live_photo_entry`, for any note: `None` where an Apple note ends
/// before its entry count.
pub fn try_append_live_photo_entry(note: &[u8], content_identifier: &str) -> (r: Option<
    Result<Vec<u8>, String>,
>)
    ensures
        told_some(r) == paired_note(note@, content_identifier@),
{
    if !matches_at(note, APPLE_NOTE.as_slice(), 0) {
        return Some(Err("MakerNote is not an Apple iOS note".to_string()));
    }
    if note.len() < 16 {
        return None;
    }
    let little: bool = matches_at(note, TIFF_II.as_slice(), 12);
    let count: u16 = read16(note, 14, little);
    if count > 64 || note.len() < 16 + count as usize * 12 + 4 {
        return Some(Err("MakerNote entry count out of range".to_string()));
    }
    let upper: String = to_upper(content_identifier);
    let bytes: &[u8] = upper.as_str().as_bytes();
    proof {
        lemma_encoded_len(upper@);
    }
    if bytes.len() == 0 || !upper.as_str().is_ascii() {
        return Some(Err("invalid Live Photo content identifier".to_string()));
    }
    let mut value: Vec<u8> = copy_range(bytes, 0, bytes.len());
    value.push(0);
    assert(value@ =~= identifier_value(content_identifier@));
    let table_end: usize = 16 + count as usize * 12;
    let mut out: Vec<u8> = copy_range(note, 0, 14);
    push16_ordered(&mut out, count + 1, little);
    push16_ordered(&mut out, TAG_CONTENT_ID, little);
    push16_ordered(&mut out, 2, little);
    push32_low(&mut out, value.len() as u64, little);
    let moved: u64 = note.len() as u64 % 0x1_0000_0000 + 12;
    proof {
        lemma_mod_part(note@.len() as int, 12);
        lemma_put32_low_bits(moved as int, little);
        lemma_put32_low_bits(note@.len() + 12int, little);
    }
    push32_low(&mut out, moved, little);
    let ghost base = out@;
    let mut k: u16 = 0;
    assert(out@ =~= base + moved_entries(note@, 0, little));
    while k < count
        invariant
            k <= count <= 64,
            16 + 12 * count + 4 <= note.len(),
            out@ == base + moved_entries(note@, k as nat, little),
        decreases count - k,
    {
        let ghost before = out@;
        push_moved_entry(&mut out, note, 16 + 12 * k as usize, little);
        k = k + 1;
        assert(out@ =~= base + moved_entries(note@, k as nat, little));
    }
    append(&mut out, vstd::slice::slice_subrange(note, table_end, table_end + 4));
    append(&mut out, vstd::slice::slice_subrange(note, table_end + 4, note.len()));
    append(&mut out, value.as_slice());
    assert(out@ =~= extended_note(note@, value@));
    Some(Ok(out))
}

/// Add the Live Photo content identifier to an existing Apple iOS MakerNote, and keep
/// all its entries. A note that was replaced rather than extended would lose the
/// state of the styles editor.
pub fn append_live_photo_entry(note: &[u8], content_identifier: &str) -> (r: Result<
    Vec<u8>,
    String,
>)
    requires
        paired_note(note@, content_identifier@) is Some,
    ensures
        Some(told(r)) == paired_note(note@, content_identifier@),
{
    try_append_live_photo_entry(note, content_identifier).unwrap()
}

// ---------------------------------------------------------------------------
// Finding the note
// ---------------------------------------------------------------------------

/// Where the last entry for the Exif directory points, among the entries from number
/// `k` on of the directory at `ifd`; `found` where there is none. `None` where an
/// entry lies outside the data.
pub open spec fn exif_pointer_from(
    s: Seq<u8>,
    ifd: int,
    count: int,
    k: int,
    little: bool,
    found: Option<int>,
) -> Option<Option<int>>
    decreases count - k,
{
    if k >= count {
        Some(found)
    } else {
        let e = ifd + 2 + 12 * k;
        match int16_at(s, e, little) {
            None => None,
            Some(tag) => if tag == TAG_EXIF {
                match int32_at(s, e + 8, little) {
                    None => None,
                    Some(at) => exif_pointer_from(s, ifd, count, k + 1, little, Some(at)),
                }
            } else {
                exif_pointer_from(s, ifd, count, k + 1, little, found)
            },
        }
    }
}

/// Where the Exif directory of a TIFF structure lies, if it has one. `None` where an
/// entry lies outside the data.
pub open spec fn exif_pointer(s: Seq<u8>, little: bool) -> Option<Option<int>> {
    match int32_at(s, 4, little) {
        None => None,
        Some(ifd) => match int16_at(s, ifd, little) {
            None => None,
            Some(count) => exif_pointer_from(s, ifd, count, 0, little, None),
        },
    }
}

/// Where the first MakerNote entry lies, among the entries from number `k` on of the
/// directory at `ifd`. `None` where an entry before it lies outside the data.
pub open spec fn note_entry_from(s: Seq<u8>, ifd: int, count: int, k: int, little: bool) -> Option<
    Option<int>,
>
    decreases count - k,
{
    if k >= count {
        Some(None)
    } else {
        let e = ifd + 2 + 12 * k;
        match int16_at(s, e, little) {
            None => None,
            Some(tag) => if tag == TAG_MAKERNOTE {
                Some(Some(e))
            } else {
                note_entry_from(s, ifd, count, k + 1, little)
            },
        }
    }
}

/// Where the MakerNote entry of a TIFF structure lies, if it has one. `None` where an
/// entry lies outside the data.
pub open spec fn note_entry(s: Seq<u8>, little: bool) -> Option<Option<int>> {
    match exif_pointer(s, little) {
        None => None,
        Some(None) => Some(None),
        Some(Some(ifd)) => match int16_at(s, ifd, little) {
            None => None,
            Some(count) => note_entry_from(s, ifd, count, 0, little),
        },
    }
}

fn find_exif_pointer(tiff: &[u8], little: bool) -> (r: Option<Option<u32>>)
    ensures
        opt_place(r) == exif_pointer(tiff@, little),
{
    let ifd: u32 = match get32(tiff, 0, 4, little) {
        None => {
            return None;
        },
        Some(v) => v,
    };
    let count: u16 = match get16(tiff, 0, ifd as usize, little) {
        None => {
            return None;
        },
        Some(v) => v,
    };
    let mut found: Option<u32> = None;
    let mut k: u32 = 0;
    while k < count as u32
        invariant
            k <= count,
            exif_pointer(tiff@, little) == exif_pointer_from(
                tiff@,
                ifd as int,
                count as int,
                k as int,
                little,
                match found {
                    Some(x) => Some(x as int),
                    None => None,
                },
            ),
        decreases count - k,
    {
        let e: usize = entry_place(tiff.len(), ifd, k);
        match get16(tiff, e, 0, little) {
            None => {
                return None;
            },
            Some(tag) => {
                if tag == TAG_EXIF {
                    match get32(tiff, e, 8, little) {
                        None => {
                            return None;
                        },
                        Some(at) => {
                            found = Some(at);
                        },
                    }
                }
            },
        }
        k = k + 1;
    }
    Some(found)
}

/// An offset as a number, where one could be read.
pub open spec fn opt_place(r: Option<Option<u32>>) -> Option<Option<int>> {
    match r {
        Some(Some(v)) => Some(Some(v as int)),
        Some(None) => Some(None),
        None => None,
    }
}

/// Find the MakerNote entry of a TIFF structure; `None` where an entry lies outside
/// the data.
pub fn find_note_entry(tiff: &[u8], little: bool) -> (r: Option<Option<usize>>)
    ensures
        match r {
            None => note_entry(tiff@, little) is None,
            Some(None) => note_entry(tiff@, little) == Some(None::<int>),
            Some(Some(e)) => note_entry(tiff@, little) == Some(Some(e as int)) && e + 2
                <= tiff@.len(),
        },
{
    let ifd: u32 = match find_exif_pointer(tiff, little) {
        None => {
            return None;
        },
        Some(None) => {
            return Some(None);
        },
        Some(Some(v)) => v,
    };
    let count: u16 = match get16(tiff, 0, ifd as usize, little) {
        None => {
            return None;
        },
        Some(v) => v,
    };
    let mut k: u32 = 0;
    while k < count as u32
        invariant
            k <= count,
            note_entry(tiff@, little) == note_entry_from(
                tiff@,
                ifd as int,
                count as int,
                k as int,
                little,
            ),
        decreases count - k,
    {
        let e: usize = entry_place(tiff.len(), ifd, k);
        match get16(tiff, e, 0, little) {
            None => {
                return None;
            },
            Some(tag) => {
                if tag == TAG_MAKERNOTE {
                    return Some(Some(e));
                }
            },
        }
        k = k + 1;
    }
    Some(None)
}

/// How many bytes a value of a TIFF type takes, where the type can be that of a note.
pub open spec fn note_type_unit(type_id: int) -> Option<int> {
    if type_id == 1 || type_id == 2 || type_id == 6 || type_id == 7 {
        Some(1)
    } else if type_id == 3 || type_id == 8 {
        Some(2)
    } else if type_id == 4 || type_id == 9 || type_id == 11 {
        Some(4)
    } else if type_id == 5 || type_id == 10 || type_id == 12 {
        Some(8)
    } else {
        None
    }
}

/// The value of the MakerNote entry at `e`: none where its type is unknown or where
/// it leaves the data. `None` where the entry itself does.
pub open spec fn note_value(s: Seq<u8>, e: int, little: bool) -> Option<Option<Seq<u8>>> {
    match (int16_at(s, e + 2, little), int32_at(s, e + 4, little), int32_at(s, e + 8, little)) {
        (Some(kind), Some(count), Some(at)) => match note_type_unit(kind) {
            None => Some(None),
            Some(unit) => {
                let size = count * unit;
                Some(
                    piece(
                        s,
                        if size > 4 {
                            at
                        } else {
                            e + 8
                        },
                        size,
                    ),
                )
            },
        },
        _ => None,
    }
}

/// The MakerNote of a TIFF structure, if it has one. `None` where an entry lies outside
/// the data.
pub open spec fn stored_note(s: Seq<u8>) -> Option<Option<Seq<u8>>> {
    let little = tiff_little(s, 0);
    match note_entry(s, little) {
        None => None,
        Some(None) => Some(None),
        Some(Some(e)) => note_value(s, e, little),
    }
}

/// Optional bytes by their view, where they could be read.
pub open spec fn opt_note(r: Option<Option<&[u8]>>) -> Option<Option<Seq<u8>>> {
    match r {
        Some(Some(b)) => Some(Some(b@)),
        Some(None) => Some(None),
        None => None,
    }
}

fn read_note_value<'a>(tiff: &'a [u8], e: usize, little: bool) -> (r: Option<Option<&'a [u8]>>)
    requires
        e + 2 <= tiff.len(),
    ensures
        opt_note(r) == note_value(tiff@, e as int, little),
{
    let kind: u16 = match get16(tiff, e, 2, little) {
        None => {
            return None;
        },
        Some(v) => v,
    };
    let count: u32 = match get32(tiff, e, 4, little) {
        None => {
            return None;
        },
        Some(v) => v,
    };
    let at: u32 = match get32(tiff, e, 8, little) {
        None => {
            return None;
        },
        Some(v) => v,
    };
    let unit: u64 = match kind {
        1 | 2 | 6 | 7 => 1,
        3 | 8 => 2,
        4 | 9 | 11 => 4,
        5 | 10 | 12 => 8,
        _ => {
            return Some(None);
        },
    };
    assert(note_type_unit(kind as int) == Some(unit as int));
    assert(count * unit <= 0xffff_ffff * 8) by (nonlinear_arith)
        requires
            count <= 0xffff_ffff,
            unit <= 8,
    ;
    let size: u64 = count as u64 * unit;
    if size > tiff.len() as u64 {
        return Some(None);
    }
    let start: usize = if size > 4 {
        at as usize
    } else {
        e + 8
    };
    Some(get_piece(tiff, start, size as usize))
}

/// Read the MakerNote of a TIFF structure, if it has one; `None` where an entry lies
/// outside the data.
pub fn read_makernote_bytes<'a>(tiff: &'a [u8]) -> (r: Option<Option<&'a [u8]>>)
    ensures
        opt_note(r) == stored_note(tiff@),
{
    let little: bool = matches_at(tiff, TIFF_II.as_slice(), 0);
    match find_note_entry(tiff, little) {
        None => None,
        Some(None) => Some(None),
        Some(Some(e)) => read_note_value(tiff, e, little),
    }
}

/// How many bytes each value of a MakerNote takes that is replaced in its place: values of
/// an unknown type are single bytes.
pub open spec fn replaced_unit(kind: int) -> int {
    match note_type_unit(kind) {
        Some(unit) => unit,
        None => 1,
    }
}

/// Where a MakerNote of `len` bytes lies that can be replaced in its place: in its entry
/// where it fits, else where the entry says. `None` where an entry lies outside the data.
pub open spec fn note_place(s: Seq<u8>, len: int) -> Option<Option<int>> {
    let little = tiff_little(s, 0);
    match note_entry(s, little) {
        None => None,
        Some(None) => Some(None),
        Some(Some(e)) => match (
            int16_at(s, e + 2, little),
            int32_at(s, e + 4, little),
            int32_at(s, e + 8, little),
        ) {
            (Some(kind), Some(count), Some(at)) => {
                let start = if len > 4 {
                    at
                } else {
                    e + 8
                };
                if count * replaced_unit(kind) != len || start + len > s.len() {
                    Some(None)
                } else {
                    Some(Some(start))
                }
            },
            _ => None,
        },
    }
}

/// Like `patch_makernote_inplace`, for any data: `None`, and nothing changed, where an
/// entry lies outside the data.
pub fn try_patch_makernote_inplace(tiff: &mut [u8], replacement: &[u8]) -> (r: Option<bool>)
    ensures
        match note_place(old(tiff)@, replacement@.len() as int) {
            None => r is None && final(tiff)@ == old(tiff)@,
            Some(None) => r == Some(false) && final(tiff)@ == old(tiff)@,
            Some(Some(at)) => r == Some(true) && final(tiff)@ == overwritten(
                old(tiff)@,
                at,
                replacement@,
            ),
        },
{
    let little: bool = matches_at(tiff, TIFF_II.as_slice(), 0);
    let e: usize = match find_note_entry(tiff, little) {
        None => {
            return None;
        },
        Some(None) => {
            return Some(false);
        },
        Some(Some(e)) => e,
    };
    let kind: u16 = match get16(tiff, e, 2, little) {
        None => {
            return None;
        },
        Some(v) => v,
    };
    let count: u32 = match get32(tiff, e, 4, little) {
        None => {
            return None;
        },
        Some(v) => v,
    };
    let told: u32 = match get32(tiff, e, 8, little) {
        None => {
            return None;
        },
        Some(v) => v,
    };
    let unit: u64 = match kind {
        3 | 8 => 2,
        4 | 9 | 11 => 4,
        5 | 10 | 12 => 8,
        _ => 1,
    };
    assert(replaced_unit(kind as int) == unit);
    assert(count * unit <= 0xffff_ffff * 8) by (nonlinear_arith)
        requires
            count <= 0xffff_ffff,
            unit <= 8,
    ;
    let total: usize = tiff.len();
    let len: usize = replacement.len();
    let at: usize = if len > 4 {
        told as usize
    } else {
        e + 8
    };
    if count as u64 * unit != len as u64 || at > total || len > total - at {
        return Some(false);
    }
    overwrite(tiff, at, replacement);
    Some(true)
}

/// Replace the MakerNote of a TIFF payload in its place where the replacement has the
/// same size. `Ok(false)` where there is no note or the size differs.
pub fn patch_makernote_inplace(tiff: &mut [u8], replacement: &[u8]) -> (r: Result<bool, String>)
    requires
        note_place(old(tiff)@, replacement@.len() as int) is Some,
    ensures
        match note_place(old(tiff)@, replacement@.len() as int)->0 {
            None => r == Ok::<bool, String>(false) && final(tiff)@ == old(tiff)@,
            Some(at) => r == Ok::<bool, String>(true) && final(tiff)@ == overwritten(
                old(tiff)@,
                at,
                replacement@,
            ),
        },
{
    Ok(try_patch_makernote_inplace(tiff, replacement).unwrap())
}

} // verus!
