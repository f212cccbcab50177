//! What is read back of TIFF structures and maker notes that were written.

use crate::bytes::{
    enc16, enc32, find_from, int16, int32, occurs_at, overwritten, put16, put32, starts_with, zeros,
};
use crate::isobmff::{MetaView, source_meta};
use crate::isobmff_write::{exif_payload, with_exif};
use crate::live_photo::{
    EXIF_MARKER, EXIF_PREFIX, note_id, note_id_from, paired_still, paired_tiff, spliced, still_id,
    tiff_start,
};
use crate::makernote::{
    APPLE_NOTE, EntryView, MAX_ENTRIES, TAG_CONTENT_ID, TAG_EXIF, TAG_GPS, TAG_MAKERNOTE, Targets,
    TiffView, directory_bytes, entry_row, entry_rows, exif_place, exif_pointer, exif_pointer_from,
    extended_note, first_tag, gps_place, identifier_value, injected, long_values, moved_entries,
    note_entry, note_entry_from, note_of, note_place, note_type_unit, note_value, piece, pointer_of,
    stored_note, sub_directory, tagged, target_for, targets_of, tiff_bytes, tiff_directory,
    tiff_entries_from, tiff_entry_at, tiff_model, unit_of, value_area, with_directory,
    with_exif_pointer, with_note,
};
use crate::payload_laws::{exif_fits, installed_exif_reads_back};
use crate::reopened::holds_metadata;
use crate::round_trip::{lemma_byte, lemma_nine_parts, lemma_parts};
use crate::seqs::{first_where, flat, lemma_first_where_has, lemma_flat_add, lemma_flat_take};
use crate::text::{lossy_text, trim_text};
use crate::tiff::{TIFF_II, TIFF_MM, int16_at, int32_at, tiff_little, tiff_mark_at};
use vstd::prelude::*;

verus! {

// ---------------------------------------------------------------------------
// Integers of either byte order
// ---------------------------------------------------------------------------

/// The low 16 bits of an integer are read back in the order that they were written in.
pub proof fn ordered_16_bits_read_back(s: Seq<u8>, p: int, v: int, little: bool)
    requires
        0 <= v < 0x1_0000,
        occurs_at(s, put16(v, little), p),
    ensures
        int16(s, p, little) == v,
        int16_at(s, p, little) == Some(v),
{
    let b = put16(v, little);
    lemma_byte(s, b, p, 0);
    lemma_byte(s, b, p, 1);
}

/// The low 32 bits of an integer are read back in the order that they were written in.
pub proof fn ordered_32_bits_read_back(s: Seq<u8>, p: int, v: int, little: bool)
    requires
        0 <= v < 0x1_0000_0000,
        occurs_at(s, put32(v, little), p),
    ensures
        int32(s, p, little) == v,
        int32_at(s, p, little) == Some(v),
{
    let b = put32(v, little);
    lemma_byte(s, b, p, 0);
    lemma_byte(s, b, p, 1);
    lemma_byte(s, b, p, 2);
    lemma_byte(s, b, p, 3);
}

// ---------------------------------------------------------------------------
// Directories
// ---------------------------------------------------------------------------

/// An entry as it is written: a pointer to a directory goes where the directory lies.
pub open spec fn pointed(e: EntryView, t: Targets, little: bool) -> EntryView {
    match target_for(e.tag, t) {
        Some(p) => EntryView { data: put32(p as int, little), ..e },
        None => e,
    }
}

/// Entries as they are written.
pub open spec fn all_pointed(entries: Seq<EntryView>, t: Targets, little: bool) -> Seq<EntryView> {
    Seq::new(entries.len(), |i: int| pointed(entries[i], t, little))
}

/// Whether an entry holds whole values of a known type, and a pointer to a directory four
/// bytes.
pub open spec fn entry_whole(e: EntryView, t: Targets) -> bool {
    &&& unit_of(e.type_id as int) matches Some(u) && e.data.len() as int % u == 0
    &&& target_for(e.tag, t) is Some ==> e.data.len() == 4
}

/// Whether an entry holds whole values of a known type, and a pointer to a directory no more
/// than a row does.
pub open spec fn entry_holds(e: EntryView, t: Targets) -> bool {
    &&& unit_of(e.type_id as int) matches Some(u) && e.data.len() as int % u == 0
    &&& target_for(e.tag, t) is Some ==> e.data.len() <= 4
}

/// Whether the entries of a directory can be found: they hold whole values, and can be
/// counted in 16 bits.
pub open spec fn directory_holds(entries: Seq<EntryView>, t: Targets) -> bool {
    &&& entries.len() < 0x1_0000
    &&& forall|i: int| 0 <= i < entries.len() ==> entry_holds(#[trigger] entries[i], t)
}

/// Whether all entries of a directory hold whole values, and can be read.
pub open spec fn directory_whole(entries: Seq<EntryView>, t: Targets) -> bool {
    &&& entries.len() <= MAX_ENTRIES
    &&& forall|i: int| 0 <= i < entries.len() ==> entry_whole(#[trigger] entries[i], t)
}

proof fn lemma_rows_len(entries: Seq<EntryView>, t: Targets, area: int, little: bool)
    ensures
        entry_rows(entries, t, area, little).len() == 12 * entries.len(),
    decreases entries.len(),
{
    if entries.len() > 0 {
        lemma_rows_len(entries.drop_last(), t, area, little);
    }
}

/// Each row of a directory stands at its place.
pub proof fn lemma_row_at(
    s: Seq<u8>,
    p: int,
    entries: Seq<EntryView>,
    t: Targets,
    area: int,
    little: bool,
    k: int,
)
    requires
        0 <= k < entries.len(),
        occurs_at(s, entry_rows(entries, t, area, little), p),
    ensures
        occurs_at(
            s,
            entry_row(
                entries[k],
                t,
                area + flat(entries.take(k), value_area(t)).len(),
                little,
            ),
            p + 12 * k,
        ),
    decreases entries.len(),
{
    let before = entries.drop_last();
    let row = entry_row(
        entries.last(),
        t,
        area + flat(before, value_area(t)).len(),
        little,
    );
    lemma_parts(s, entry_rows(before, t, area, little), row, p);
    lemma_rows_len(before, t, area, little);
    if k < before.len() {
        lemma_row_at(s, p, before, t, area, little, k);
        assert(before.take(k) =~= entries.take(k));
    } else {
        assert(before =~= entries.take(k));
    }
}

/// Each long value of a directory stands at its place.
proof fn lemma_value_at(s: Seq<u8>, area: int, entries: Seq<EntryView>, t: Targets, k: int)
    requires
        0 <= k < entries.len(),
        occurs_at(s, flat(entries, value_area(t)), area),
    ensures
        occurs_at(
            s,
            value_area(t)(entries[k]),
            area + flat(entries.take(k), value_area(t)).len(),
        ),
{
    let f = value_area(t);
    lemma_flat_take(entries, f, k);
    assert(entries =~= entries.take(k + 1) + entries.skip(k + 1));
    lemma_flat_add(entries.take(k + 1), entries.skip(k + 1), f);
    let before = flat(entries.take(k), f);
    lemma_parts(s, before + f(entries[k]), flat(entries.skip(k + 1), f), area);
    lemma_parts(s, before, f(entries[k]), area);
}

proof fn lemma_whole_values(len: int, u: int)
    requires
        u > 0,
        len >= 0,
        len % u == 0,
    ensures
        (len / u) * u == len,
        0 <= len / u <= len,
{
    assert((len / u) * u == len) by (nonlinear_arith)
        requires
            u > 0,
            len % u == 0,
    ;
    assert(0 <= len / u <= len) by (nonlinear_arith)
        requires
            u > 0,
            len >= 0,
    ;
}

/// An entry is read back from its row and its value.
proof fn lemma_entry_read(s: Seq<u8>, base: int, e: EntryView, t: Targets, at: int, little: bool)
    requires
        s.len() <= u32::MAX,
        entry_whole(e, t),
        occurs_at(s, entry_row(e, t, at, little), base),
        target_for(e.tag, t) is None && e.data.len() > 4 ==> occurs_at(s, e.data, at),
    ensures
        tiff_entry_at(s, base, little) == Ok::<EntryView, Seq<char>>(pointed(e, t, little)),
        e.data.len() <= u32::MAX,
{
    let u = unit_of(e.type_id as int)->0;
    let n = e.data.len() as int;
    lemma_whole_values(n, u);
    assert(n <= u32::MAX) by {
        if target_for(e.tag, t) is None && n > 4 {
            assert(at + n <= s.len());
        }
    }
    let a = put16(e.tag as int, little);
    let b = put16(e.type_id as int, little);
    let c = put32(n / u, little);
    let d = match target_for(e.tag, t) {
        Some(p) => put32(p as int, little),
        None => if n <= 4 {
            e.data + zeros((4 - n) as nat)
        } else {
            put32(at, little)
        },
    };
    lemma_parts(s, a + b + c, d, base);
    lemma_parts(s, a + b, c, base);
    lemma_parts(s, a, b, base);
    ordered_16_bits_read_back(s, base, e.tag as int, little);
    ordered_16_bits_read_back(s, base + 2, e.type_id as int, little);
    ordered_32_bits_read_back(s, base + 4, n / u, little);
    match target_for(e.tag, t) {
        Some(p) => {
            assert(s.subrange(base + 8, base + 12) =~= d);
        },
        None => {
            if n <= 4 {
                assert(s.subrange(base + 8, base + 8 + n) =~= s.subrange(base + 8, base + 12).subrange(
                    0,
                    n,
                ));
                assert(s.subrange(base + 8, base + 8 + n) =~= e.data);
            } else {
                ordered_32_bits_read_back(s, base + 8, at, little);
                assert(s.subrange(at, at + n) =~= e.data);
            }
        },
    }
}

proof fn lemma_entries_read(
    s: Seq<u8>,
    start: int,
    entries: Seq<EntryView>,
    t: Targets,
    little: bool,
    i: int,
    acc: Seq<EntryView>,
)
    requires
        s.len() <= u32::MAX,
        0 <= start,
        directory_whole(entries, t),
        occurs_at(s, directory_bytes(entries, t, start, little), start),
        0 <= i <= entries.len(),
        acc == all_pointed(entries, t, little).take(i),
    ensures
        tiff_entries_from(s, start, entries.len() as int, i, little, acc) == Ok::<
            Seq<EntryView>,
            Seq<char>,
        >(all_pointed(entries, t, little)),
    decreases entries.len() - i,
{
    let all = all_pointed(entries, t, little);
    if i < entries.len() {
        lemma_entry_in_directory(s, start, entries, t, little, i);
        assert(acc.push(all[i]) =~= all.take(i + 1));
        lemma_entries_read(s, start, entries, t, little, i + 1, acc.push(all[i]));
    } else {
        assert(acc =~= all);
    }
}

/// Where the parts of a directory stand.
pub proof fn lemma_directory_parts(
    s: Seq<u8>,
    start: int,
    entries: Seq<EntryView>,
    t: Targets,
    little: bool,
)
    requires
        0 <= start,
        entries.len() < 0x1_0000,
        occurs_at(s, directory_bytes(entries, t, start, little), start),
    ensures
        ({
            let area = start + 2 + entries.len() * 12 + 4;
            &&& int16_at(s, start, little) == Some(entries.len() as int)
            &&& occurs_at(s, entry_rows(entries, t, area, little), start + 2)
            &&& occurs_at(s, flat(entries, value_area(t)), area)
            &&& directory_bytes(entries, t, start, little).len() == area - start + flat(
                entries,
                value_area(t),
            ).len()
        }),
{
    reveal(directory_bytes);
    let area = start + 2 + entries.len() * 12 + 4;
    let a = put16(entries.len() as int, little);
    let b = entry_rows(entries, t, area, little);
    let c = put32(0, little);
    let d = flat(entries, value_area(t));
    lemma_rows_len(entries, t, area, little);
    lemma_parts(s, a + b + c, d, start);
    lemma_parts(s, a + b, c, start);
    lemma_parts(s, a, b, start);
    ordered_16_bits_read_back(s, start, entries.len() as int, little);
}

proof fn lemma_entry_in_directory(
    s: Seq<u8>,
    start: int,
    entries: Seq<EntryView>,
    t: Targets,
    little: bool,
    k: int,
)
    requires
        s.len() <= u32::MAX,
        0 <= start,
        directory_whole(entries, t),
        occurs_at(s, directory_bytes(entries, t, start, little), start),
        0 <= k < entries.len(),
    ensures
        tiff_entry_at(s, start + 2 + 12 * k, little) == Ok::<EntryView, Seq<char>>(
            pointed(entries[k], t, little),
        ),
{
    let area = start + 2 + entries.len() * 12 + 4;
    lemma_directory_parts(s, start, entries, t, little);
    lemma_row_at(s, start + 2, entries, t, area, little, k);
    lemma_value_at(s, area, entries, t, k);
    assert(entry_whole(entries[k], t));
    lemma_entry_read(
        s,
        start + 2 + 12 * k,
        entries[k],
        t,
        area + flat(entries.take(k), value_area(t)).len(),
        little,
    );
}

/// A directory is read back as it was written, but for pointers that now go where the
/// directories lie.
pub proof fn directories_read_back(
    s: Seq<u8>,
    start: int,
    entries: Seq<EntryView>,
    t: Targets,
    little: bool,
)
    requires
        s.len() <= u32::MAX,
        0 <= start,
        directory_whole(entries, t),
        occurs_at(s, directory_bytes(entries, t, start, little), start),
    ensures
        tiff_directory(s, start, little) == Ok::<Seq<EntryView>, Seq<char>>(
            all_pointed(entries, t, little),
        ),
{
    lemma_directory_parts(s, start, entries, t, little);
    assert(all_pointed(entries, t, little).take(0) =~= Seq::empty());
    lemma_entries_read(s, start, entries, t, little, 0, Seq::empty());
}

// ---------------------------------------------------------------------------
// Whole structures
// ---------------------------------------------------------------------------

/// No directory to point at.
pub open spec fn nowhere() -> Targets {
    Targets { exif: None, gps: None }
}

/// Whether a directory is pointed at exactly where it has entries.
pub open spec fn pointer_fits(m: TiffView, tag: u16, sub: Seq<EntryView>) -> bool {
    if sub.len() > 0 {
        first_where(m.ifd0, tagged(tag)) is Some
    } else {
        pointer_of(m.ifd0, tag, m.little) is None
    }
}

/// Whether a structure can be written so that its directories can be found: its entries hold
/// whole values and can be counted, and it fits 32 bits.
pub open spec fn tiff_fits(m: TiffView) -> bool {
    &&& directory_holds(m.ifd0, targets_of(m))
    &&& directory_holds(m.exif, nowhere())
    &&& directory_holds(m.gps, nowhere())
    &&& tiff_bytes(m).len() <= u32::MAX
}

/// Whether a structure can be written so that it is read back: its directories can be read
/// and are pointed at.
pub open spec fn tiff_whole(m: TiffView) -> bool {
    &&& directory_whole(m.ifd0, targets_of(m))
    &&& directory_whole(m.exif, nowhere())
    &&& directory_whole(m.gps, nowhere())
    &&& tiff_bytes(m).len() <= u32::MAX
    &&& pointer_fits(m, TAG_EXIF, m.exif)
    &&& pointer_fits(m, TAG_GPS, m.gps)
}

proof fn lemma_long_values(entries: Seq<EntryView>, t: Targets)
    requires
        forall|i: int|
            0 <= i < entries.len() && target_for((#[trigger] entries[i]).tag, t) is Some
                ==> entries[i].data.len() <= 4,
    ensures
        long_values(entries) == flat(entries, value_area(t)).len(),
    decreases entries.len(),
{
    if entries.len() > 0 {
        let rest = entries.drop_last();
        assert forall|i: int|
            0 <= i < rest.len() && target_for((#[trigger] rest[i]).tag, t) is Some implies rest[i].data.len()
            <= 4 by {
            assert(rest[i] == entries[i]);
        }
        lemma_long_values(rest, t);
        let n = entries.len() - 1;
        assert(entries.last() == entries[n]);
    }
}

proof fn lemma_directory_len(entries: Seq<EntryView>, t: Targets, start: int, little: bool)
    requires
        0 <= start,
        directory_holds(entries, t),
    ensures
        directory_bytes(entries, t, start, little).len() == 2 + entries.len() * 12 + 4
            + long_values(entries),
{
    reveal(directory_bytes);
    let area = start + 2 + entries.len() * 12 + 4;
    lemma_rows_len(entries, t, area, little);
    assert forall|i: int|
        0 <= i < entries.len() && target_for((#[trigger] entries[i]).tag, t) is Some implies entries[i].data.len()
        <= 4 by {
        assert(entry_holds(entries[i], t));
    }
    lemma_long_values(entries, t);
}

/// The header of a structure.
pub open spec fn tiff_head(little: bool) -> Seq<u8> {
    (if little {
        TIFF_II@
    } else {
        TIFF_MM@
    }) + put16(42, little) + put32(8, little)
}

/// Where the directories of a written structure stand.
pub proof fn lemma_tiff_places(m: TiffView)
    requires
        tiff_fits(m),
    ensures
        ({
            let s = tiff_bytes(m);
            &&& occurs_at(s, tiff_head(m.little), 0)
            &&& occurs_at(s, directory_bytes(m.ifd0, targets_of(m), 8, m.little), 8)
            &&& m.exif.len() > 0 ==> occurs_at(
                s,
                directory_bytes(m.exif, nowhere(), exif_place(m), m.little),
                exif_place(m),
            ) && 0 <= exif_place(m) && exif_place(m) + 2 <= s.len() && targets_of(m).exif == Some(
                exif_place(m) as u32,
            )
            &&& m.gps.len() > 0 ==> occurs_at(
                s,
                directory_bytes(m.gps, nowhere(), gps_place(m), m.little),
                gps_place(m),
            ) && 0 <= gps_place(m) && gps_place(m) + 2 <= s.len() && targets_of(m).gps == Some(
                gps_place(m) as u32,
            )
        }),
{
    let s = tiff_bytes(m);
    let le = m.little;
    let first = tiff_first(m);
    let second = with_directory(first, m.exif, le);
    lemma_tiff_lens(m);
    lemma_places_in(s, tiff_head(le), directory_bytes(m.ifd0, targets_of(m), 8, le), m.exif, m.gps, le);
    lemma_long_values_len(m.ifd0);
    lemma_long_values_len(m.exif);
}

proof fn lemma_long_values_len(entries: Seq<EntryView>)
    ensures
        long_values(entries) >= 0,
    decreases entries.len(),
{
    if entries.len() > 0 {
        lemma_long_values_len(entries.drop_last());
    }
}

proof fn lemma_places_in(
    s: Seq<u8>,
    head: Seq<u8>,
    d0: Seq<u8>,
    exif: Seq<EntryView>,
    gps: Seq<EntryView>,
    little: bool,
)
    requires
        s == with_directory(with_directory(head + d0, exif, little), gps, little),
        exif.len() < 0x1_0000,
        gps.len() < 0x1_0000,
    ensures
        occurs_at(s, head, 0),
        occurs_at(s, d0, head.len() as int),
        ({
            let first = head + d0;
            let second = with_directory(first, exif, little);
            &&& exif.len() > 0 ==> occurs_at(
                s,
                directory_bytes(exif, nowhere(), first.len() as int, little),
                first.len() as int,
            ) && first.len() + 2 <= s.len()
            &&& gps.len() > 0 ==> occurs_at(
                s,
                directory_bytes(gps, nowhere(), second.len() as int, little),
                second.len() as int,
            ) && second.len() + 2 <= s.len()
        }),
{
    let first = head + d0;
    let second = with_directory(first, exif, little);
    assert(s.subrange(0, s.len() as int) =~= s);
    lemma_directory_behind(s, second, gps, little);
    lemma_directory_behind(s, first, exif, little);
    lemma_parts(s, head, d0, 0);
}

/// The header and the first directory of a structure.
pub open spec fn tiff_first(m: TiffView) -> Seq<u8> {
    tiff_head(m.little) + directory_bytes(m.ifd0, targets_of(m), 8, m.little)
}

proof fn lemma_tiff_lens(m: TiffView)
    requires
        directory_holds(m.ifd0, targets_of(m)),
        directory_holds(m.exif, nowhere()),
    ensures
        tiff_first(m).len() == exif_place(m),
        with_directory(tiff_first(m), m.exif, m.little).len() == gps_place(m),
        tiff_bytes(m) == with_directory(
            with_directory(tiff_first(m), m.exif, m.little),
            m.gps,
            m.little,
        ),
        tiff_head(m.little).len() == 8,
{
    lemma_directory_len(m.ifd0, targets_of(m), 8, m.little);
    lemma_directory_len(m.exif, nowhere(), tiff_first(m).len() as int, m.little);
}

/// A directory that was added stands behind what was before it.
proof fn lemma_directory_behind(
    s: Seq<u8>,
    before: Seq<u8>,
    entries: Seq<EntryView>,
    little: bool,
)
    requires
        occurs_at(s, with_directory(before, entries, little), 0),
        entries.len() < 0x1_0000,
    ensures
        occurs_at(s, before, 0),
        entries.len() > 0 ==> occurs_at(
            s,
            directory_bytes(entries, nowhere(), before.len() as int, little),
            before.len() as int,
        ) && before.len() + 2 <= s.len(),
{
    let d = directory_bytes(entries, nowhere(), before.len() as int, little);
    if entries.len() > 0 {
        lemma_parts(s, before, d, 0);
        lemma_directory_parts(s, before.len() as int, entries, nowhere(), little);
    }
}

proof fn lemma_first_pointed(entries: Seq<EntryView>, t: Targets, little: bool, tag: u16)
    ensures
        match first_where(entries, tagged(tag)) {
            None => first_where(all_pointed(entries, t, little), tagged(tag)) is None,
            Some(e) => first_where(all_pointed(entries, t, little), tagged(tag)) == Some(
                pointed(e, t, little),
            ),
        },
    decreases entries.len(),
{
    let all = all_pointed(entries, t, little);
    if entries.len() > 0 {
        let rest = entries.drop_first();
        assert(all.drop_first() =~= all_pointed(rest, t, little));
        lemma_first_pointed(rest, t, little, tag);
        assert(all[0] == pointed(entries[0], t, little));
    }
}

proof fn lemma_sub_directory(
    m: TiffView,
    tag: u16,
    sub: Seq<EntryView>,
    place: int,
    target: Option<u32>,
)
    requires
        tiff_whole(m),
        tag == TAG_EXIF && sub == m.exif && place == exif_place(m) && target == targets_of(m).exif
            || tag == TAG_GPS && sub == m.gps && place == gps_place(m) && target == targets_of(
            m,
        ).gps,
    ensures
        sub_directory(
            tiff_bytes(m),
            all_pointed(m.ifd0, targets_of(m), m.little),
            tag,
            m.little,
        ) == Ok::<Seq<EntryView>, Seq<char>>(sub),
{
    let s = tiff_bytes(m);
    let t = targets_of(m);
    let le = m.little;
    lemma_tiff_places(m);
    lemma_first_pointed(m.ifd0, t, le, tag);
    lemma_first_where_has(m.ifd0, tagged(tag));
    if sub.len() > 0 {
        let e = first_where(m.ifd0, tagged(tag))->0;
        assert(target_for(e.tag, t) == Some(place as u32));
        lemma_pointer(place, le);
        assert(pointer_of(all_pointed(m.ifd0, t, le), tag, le) == Some(place));
        directories_read_back(s, place, sub, nowhere(), le);
        assert(all_pointed(sub, nowhere(), le) =~= sub);
    } else {
        assert(sub =~= Seq::empty());
        match first_where(m.ifd0, tagged(tag)) {
            None => {},
            Some(e) => {
                assert(target_for(e.tag, t) is None);
                assert(pointed(e, t, le) == e);
            },
        }
        assert(pointer_of(all_pointed(m.ifd0, t, le), tag, le) is None);
    }
}

/// A pointer goes where it was written to go.
proof fn lemma_pointer(place: int, little: bool)
    requires
        0 <= place <= u32::MAX,
    ensures
        int32(put32(place, little), 0, little) == place,
        put32(place, little).len() == 4,
{
    let d = put32(place, little);
    assert(d.subrange(0, 4) =~= d);
    ordered_32_bits_read_back(d, 0, place, little);
}

/// A TIFF structure is read back as it was written: every directory with all of its
/// entries, but for pointers that now go where the directories lie.
pub proof fn written_tiffs_read_back(m: TiffView)
    requires
        tiff_whole(m),
    ensures
        tiff_model(tiff_bytes(m)) == Ok::<TiffView, Seq<char>>(
            TiffView { ifd0: all_pointed(m.ifd0, targets_of(m), m.little), ..m },
        ),
{
    let s = tiff_bytes(m);
    let le = m.little;
    lemma_tiff_places(m);
    lemma_tiff_head(s, le);
    directories_read_back(s, 8, m.ifd0, targets_of(m), le);
    lemma_sub_directory(m, TAG_EXIF, m.exif, exif_place(m), targets_of(m).exif);
    lemma_sub_directory(m, TAG_GPS, m.gps, gps_place(m), targets_of(m).gps);
}

pub proof fn lemma_tiff_head(s: Seq<u8>, little: bool)
    requires
        occurs_at(s, tiff_head(little), 0),
    ensures
        s.len() >= 8,
        tiff_mark_at(s, 0),
        tiff_little(s, 0) == little,
        int32_at(s, 4, little) == Some(8int),
        int32(s, 4, little) == 8,
{
    let mark = if little {
        TIFF_II@
    } else {
        TIFF_MM@
    };
    lemma_parts(s, mark + put16(42, little), put32(8, little), 0);
    lemma_parts(s, mark, put16(42, little), 0);
    ordered_32_bits_read_back(s, 4, 8, little);
    lemma_byte(s, mark, 0, 0);
    if !little && occurs_at(s, TIFF_II@, 0) {
        lemma_byte(s, TIFF_II@, 0, 0);
    }
}

// ---------------------------------------------------------------------------
// The maker note
// ---------------------------------------------------------------------------

/// The tag of a row is read back.
proof fn lemma_row_tag(s: Seq<u8>, base: int, e: EntryView, t: Targets, at: int, little: bool)
    requires
        occurs_at(s, entry_row(e, t, at, little), base),
    ensures
        int16_at(s, base, little) == Some(e.tag as int),
        target_for(e.tag, t) matches Some(p) ==> int32_at(s, base + 8, little) == Some(p as int),
{
    let a = put16(e.tag as int, little);
    let b = put16(e.type_id as int, little);
    let c = put32(e.data.len() as int / unit_of(e.type_id as int).unwrap(), little);
    let d = match target_for(e.tag, t) {
        Some(p) => put32(p as int, little),
        None => if e.data.len() <= 4 {
            e.data + zeros((4 - e.data.len()) as nat)
        } else {
            put32(at, little)
        },
    };
    lemma_parts(s, a + b + c, d, base);
    lemma_parts(s, a + b, c, base);
    lemma_parts(s, a, b, base);
    ordered_16_bits_read_back(s, base, e.tag as int, little);
    match target_for(e.tag, t) {
        Some(p) => {
            ordered_32_bits_read_back(s, base + 8, p as int, little);
        },
        None => {},
    }
}

pub proof fn lemma_directory_tag(
    s: Seq<u8>,
    start: int,
    entries: Seq<EntryView>,
    t: Targets,
    little: bool,
    k: int,
)
    requires
        0 <= start,
        entries.len() < 0x1_0000,
        occurs_at(s, directory_bytes(entries, t, start, little), start),
        0 <= k < entries.len(),
    ensures
        int16_at(s, start + 2 + 12 * k, little) == Some(entries[k].tag as int),
        target_for(entries[k].tag, t) matches Some(p) ==> int32_at(s, start + 10 + 12 * k, little)
            == Some(p as int),
{
    let area = start + 2 + entries.len() * 12 + 4;
    lemma_directory_parts(s, start, entries, t, little);
    lemma_row_at(s, start + 2, entries, t, area, little, k);
    lemma_row_tag(
        s,
        start + 2 + 12 * k,
        entries[k],
        t,
        area + flat(entries.take(k), value_area(t)).len(),
        little,
    );
}

proof fn lemma_exif_pointer(
    s: Seq<u8>,
    entries: Seq<EntryView>,
    t: Targets,
    little: bool,
    k: int,
    found: Option<int>,
)
    requires
        entries.len() < 0x1_0000,
        occurs_at(s, directory_bytes(entries, t, 8, little), 8),
        0 <= k <= entries.len(),
        t.exif is Some,
        found matches Some(p) ==> p == t.exif->0,
    ensures
        exif_pointer_from(s, 8, entries.len() as int, k, little, found) == (if found is Some || (
        exists|j: int| k <= j < entries.len() && (#[trigger] entries[j]).tag == TAG_EXIF) {
            Some(Some(t.exif->0 as int))
        } else {
            Some(None)
        }),
    decreases entries.len() - k,
{
    if k < entries.len() {
        lemma_directory_tag(s, 8, entries, t, little, k);
        let next: Option<int> = if entries[k].tag == TAG_EXIF {
            Some(t.exif->0 as int)
        } else {
            found
        };
        lemma_exif_pointer(s, entries, t, little, k + 1, next);
        if exists|j: int| k <= j < entries.len() && (#[trigger] entries[j]).tag == TAG_EXIF {
            let j = choose|j: int|
                k <= j < entries.len() && (#[trigger] entries[j]).tag == TAG_EXIF;
            if j > k {
                assert(k + 1 <= j);
            }
        }
    }
}

proof fn lemma_note_entry(
    s: Seq<u8>,
    start: int,
    entries: Seq<EntryView>,
    little: bool,
    k: int,
    i: int,
)
    requires
        0 <= start,
        entries.len() < 0x1_0000,
        occurs_at(s, directory_bytes(entries, nowhere(), start, little), start),
        0 <= k <= i < entries.len(),
        entries[i].tag == TAG_MAKERNOTE,
        forall|j: int| 0 <= j < i ==> (#[trigger] entries[j]).tag != TAG_MAKERNOTE,
    ensures
        note_entry_from(s, start, entries.len() as int, k, little) == Some(
            Some(start + 2 + 12 * i),
        ),
    decreases i - k,
{
    lemma_directory_tag(s, start, entries, nowhere(), little, k);
    if k < i {
        assert(entries[k].tag != TAG_MAKERNOTE);
        lemma_note_entry(s, start, entries, little, k + 1, i);
    }
}

/// The first maker note of a structure that was written is read back, byte for byte.
pub proof fn written_notes_read_back(m: TiffView, i: int)
    requires
        tiff_fits(m),
        pointer_fits(m, TAG_EXIF, m.exif),
        0 <= i < m.exif.len(),
        m.exif[i].tag == TAG_MAKERNOTE,
        forall|j: int| 0 <= j < i ==> (#[trigger] m.exif[j]).tag != TAG_MAKERNOTE,
        note_type_unit(m.exif[i].type_id as int) is Some,
    ensures
        stored_note(tiff_bytes(m)) == Some(Some(m.exif[i].data)),
{
    let s = tiff_bytes(m);
    let le = m.little;
    let t = targets_of(m);
    let p = exif_place(m);
    lemma_tiff_places(m);
    lemma_tiff_head(s, le);
    lemma_directory_parts(s, 8, m.ifd0, t, le);
    lemma_first_where_has(m.ifd0, tagged(TAG_EXIF));
    lemma_exif_pointer(s, m.ifd0, t, le, 0, None);
    assert(exif_pointer(s, le) == Some(Some(p)));
    lemma_directory_parts(s, p, m.exif, nowhere(), le);
    lemma_note_entry(s, p, m.exif, le, 0, i);
    let e = p + 2 + 12 * i;
    assert(note_entry(s, le) == Some(Some(e)));
    lemma_note_value(s, p, m.exif, le, i);
}

proof fn lemma_note_value(s: Seq<u8>, start: int, entries: Seq<EntryView>, little: bool, i: int)
    requires
        s.len() <= u32::MAX,
        0 <= start,
        directory_holds(entries, nowhere()),
        occurs_at(s, directory_bytes(entries, nowhere(), start, little), start),
        0 <= i < entries.len(),
        note_type_unit(entries[i].type_id as int) is Some,
    ensures
        note_value(s, start + 2 + 12 * i, little) == Some(Some(entries[i].data)),
{
    let area = start + 2 + entries.len() * 12 + 4;
    let t = nowhere();
    lemma_directory_parts(s, start, entries, t, little);
    lemma_row_at(s, start + 2, entries, t, area, little, i);
    lemma_value_at(s, area, entries, t, i);
    assert(entry_holds(entries[i], t));
    lemma_note_row(
        s,
        start + 2 + 12 * i,
        entries[i],
        area + flat(entries.take(i), value_area(t)).len(),
        little,
    );
}

proof fn lemma_note_row(s: Seq<u8>, base: int, e: EntryView, at: int, little: bool)
    requires
        s.len() <= u32::MAX,
        entry_holds(e, nowhere()),
        occurs_at(s, entry_row(e, nowhere(), at, little), base),
        e.data.len() > 4 ==> occurs_at(s, e.data, at),
        note_type_unit(e.type_id as int) is Some,
    ensures
        note_value(s, base, little) == Some(Some(e.data)),
{
    let n = e.data.len() as int;
    let u = unit_of(e.type_id as int)->0;
    lemma_whole_values(n, u);
    assert(n <= u32::MAX) by {
        if n > 4 {
            assert(at + n <= s.len());
        }
    }
    let a = put16(e.tag as int, little);
    let b = put16(e.type_id as int, little);
    let c = put32(n / u, little);
    let d = if n <= 4 {
        e.data + zeros((4 - n) as nat)
    } else {
        put32(at, little)
    };
    lemma_parts(s, a + b + c, d, base);
    lemma_parts(s, a + b, c, base);
    lemma_parts(s, a, b, base);
    ordered_16_bits_read_back(s, base + 2, e.type_id as int, little);
    ordered_32_bits_read_back(s, base + 4, n / u, little);
    assert(note_type_unit(e.type_id as int) == Some(u));
    if n > 4 {
        ordered_32_bits_read_back(s, base + 8, at, little);
        assert(s.subrange(at, at + n) =~= e.data);
    } else {
        assert(int32_at(s, base + 8, little) is Some);
        assert(s.subrange(base + 8, base + 8 + n) =~= s.subrange(base + 8, base + 12).subrange(0, n));
        assert(s.subrange(base + 8, base + 8 + n) =~= e.data);
    }
}

// ---------------------------------------------------------------------------
// The content identifier
// ---------------------------------------------------------------------------

/// The identifier that is read of a value: its first 36 bytes without white space around
/// them, none where nothing is left.
pub open spec fn identifier_of(value: Seq<u8>) -> Option<Seq<char>> {
    let text = trim_text(lossy_text(value.take(36)));
    if text.len() > 0 {
        Some(text)
    } else {
        None
    }
}

/// The identifier of a note of one entry is that of the value that it was built of.
#[verifier::rlimit(60)]
pub proof fn built_notes_carry_their_identifier(value: Seq<u8>)
    requires
        36 <= value.len(),
        value.len() <= u32::MAX,
    ensures
        note_id(note_of(value)) == identifier_of(value),
        starts_with(note_of(value), APPLE_NOTE@),
{
    let s = note_of(value);
    let n = value.len() as int;
    lemma_nine_parts(
        APPLE_NOTE@,
        TIFF_MM@,
        enc16(1),
        enc16(TAG_CONTENT_ID as int),
        enc16(2),
        enc32(n),
        enc32(32),
        enc32(0),
        value,
    );
    lemma_big_endian(s, 12);
    lemma_note_at(s, 1, value, 32, false);
}

proof fn lemma_big_endian(s: Seq<u8>, p: int)
    requires
        occurs_at(s, TIFF_MM@, p),
    ensures
        !tiff_little(s, p),
{
    lemma_byte(s, TIFF_MM@, p, 0);
    if occurs_at(s, TIFF_II@, p) {
        lemma_byte(s, TIFF_II@, p, 0);
    }
}

/// Where the first entry of a note is a content identifier, it is read.
proof fn lemma_first_identifier(s: Seq<u8>, count: int, value: Seq<u8>, at: int, little: bool)
    requires
        28 <= s.len(),
        1 <= count,
        int16(s, 16, little) == TAG_CONTENT_ID,
        int32(s, 20, little) == value.len(),
        int32(s, 24, little) == at,
        36 <= value.len(),
        occurs_at(s, value, at),
    ensures
        note_id_from(s, count, 0, little) == (if identifier_of(value) is Some {
            identifier_of(value)
        } else {
            note_id_from(s, count, 1, little)
        }),
        count == 1 ==> note_id_from(s, count, 0, little) == identifier_of(value),
{
    assert(piece(s, at, value.len() as int) == Some(value));
}

proof fn lemma_moved_entries_len(note: Seq<u8>, n: nat, little: bool)
    requires
        16 + 12 * n <= note.len(),
    ensures
        moved_entries(note, n, little).len() == 12 * n,
    decreases n,
{
    if n > 0 {
        lemma_moved_entries_len(note, (n - 1) as nat, little);
    }
}

proof fn lemma_reassociated(a: Seq<u8>, b: Seq<u8>, c: Seq<u8>)
    ensures
        a + b + c == a + (b + c),
{
    assert(a + b + c =~= a + (b + c));
}

/// A note whose first entry names an identifier is read as carrying it.
proof fn lemma_note_at(s: Seq<u8>, count: int, value: Seq<u8>, at: int, little: bool)
    requires
        32 <= s.len(),
        1 <= count < 0x1_0000,
        0 <= at < 0x1_0000_0000,
        starts_with(s, APPLE_NOTE@),
        tiff_little(s, 12) == little,
        occurs_at(s, put16(count, little), 14),
        occurs_at(s, put16(TAG_CONTENT_ID as int, little), 16),
        occurs_at(s, put32(value.len() as int, little), 20),
        occurs_at(s, put32(at, little), 24),
        occurs_at(s, value, at),
        36 <= value.len() <= u32::MAX,
    ensures
        identifier_of(value) is Some || count == 1 ==> note_id(s) == identifier_of(value),
{
    ordered_16_bits_read_back(s, 14, count, little);
    ordered_16_bits_read_back(s, 16, TAG_CONTENT_ID as int, little);
    ordered_32_bits_read_back(s, 20, value.len() as int, little);
    ordered_32_bits_read_back(s, 24, at, little);
    lemma_first_identifier(s, count, value, at, little);
}

/// An Apple note to which an identifier was added carries that identifier, before any that
/// it had, in either byte order.
#[verifier::rlimit(60)]
pub proof fn extended_notes_carry_the_identifier(note: Seq<u8>, value: Seq<u8>)
    requires
        starts_with(note, APPLE_NOTE@),
        int16(note, 14, tiff_little(note, 12)) <= 64,
        16 + 12 * int16(note, 14, tiff_little(note, 12)) + 4 <= note.len(),
        note.len() + 12 <= u32::MAX,
        36 <= value.len(),
        value.len() <= u32::MAX,
        identifier_of(value) is Some,
    ensures
        note_id(extended_note(note, value)) == identifier_of(value),
        starts_with(extended_note(note, value), APPLE_NOTE@),
{
    let s = extended_note(note, value);
    let little = tiff_little(note, 12);
    let count = int16(note, 14, little);
    lemma_extended_parts(note, value);
    assert(s.subrange(0, 12) =~= note.subrange(0, 12)) by {
        assert(s.subrange(0, 14) =~= note.take(14));
        assert(s.subrange(0, 12) =~= s.subrange(0, 14).subrange(0, 12));
    }
    assert(tiff_little(s, 12) == little) by {
        assert(s.subrange(12, 14) =~= s.subrange(0, 14).subrange(12, 14));
        assert(s.subrange(0, 14) =~= note.take(14));
        assert(note.take(14).subrange(12, 14) =~= note.subrange(12, 14));
    }
    lemma_note_at(s, count + 1, value, note.len() + 12int, little);
}

/// Where the parts of an extended note stand.
proof fn lemma_extended_parts(note: Seq<u8>, value: Seq<u8>)
    requires
        16 <= note.len(),
        16 + 12 * int16(note, 14, tiff_little(note, 12)) + 4 <= note.len(),
    ensures
        ({
            let s = extended_note(note, value);
            let little = tiff_little(note, 12);
            let count = int16(note, 14, little);
            &&& occurs_at(s, note.take(14), 0)
            &&& occurs_at(s, put16(count + 1, little), 14)
            &&& occurs_at(s, put16(TAG_CONTENT_ID as int, little), 16)
            &&& occurs_at(s, put32(value.len() as int, little), 20)
            &&& occurs_at(s, put32(note.len() + 12int, little), 24)
            &&& occurs_at(s, value, note.len() + 12int)
            &&& s.len() == note.len() + 12 + value.len()
        }),
{
    let s = extended_note(note, value);
    let little = tiff_little(note, 12);
    let count = int16(note, 14, little);
    let end = 16 + 12 * count;
    let n = value.len() as int;
    lemma_moved_entries_len(note, count as nat, little);
    let rest = note.subrange(end, end + 4) + note.skip(end + 4);
    let moved = moved_entries(note, count as nat, little);
    let front = note.take(14) + put16(count + 1, little) + put16(TAG_CONTENT_ID as int, little)
        + put16(2, little) + put32(n, little) + put32(note.len() + 12int, little) + moved;
    lemma_reassociated(front, note.subrange(end, end + 4), note.skip(end + 4));
    lemma_nine_parts(
        note.take(14),
        put16(count + 1, little),
        put16(TAG_CONTENT_ID as int, little),
        put16(2, little),
        put32(n, little),
        put32(note.len() + 12int, little),
        moved,
        rest,
        value,
    );
}

/// Every value that stood in the value area of an Apple note stands 12 bytes further on in
/// the extended one: what the moved entries point at is what they pointed at.
pub proof fn extended_notes_keep_values(note: Seq<u8>, value: Seq<u8>, a: int, b: int)
    requires
        16 <= note.len(),
        ({
            let end = 16 + 12 * int16(note, 14, tiff_little(note, 12));
            end + 4 <= a <= b <= note.len()
        }),
    ensures
        extended_note(note, value).subrange(a + 12, b + 12) == note.subrange(a, b),
        b + 12 <= extended_note(note, value).len(),
{
    let little = tiff_little(note, 12);
    let count = int16(note, 14, little);
    let end = 16 + 12 * count;
    lemma_moved_entries_len(note, count as nat, little);
    let s = extended_note(note, value);
    assert(s.subrange(a + 12, b + 12) =~= note.subrange(a, b));
}

/// Whether a TIFF structure takes a maker note: the type of a note that it has can be that of
/// the new one, and pointers to its directories hold no more than a row does. A note of an odd
/// number of bytes loses one where its values are of two; and room is reckoned for a pointer
/// of eight bytes that is not written, so that the next directory lies elsewhere.
pub open spec fn takes_note(m: TiffView, note: Seq<u8>) -> bool {
    &&& forall|i: int|
        0 <= i < m.ifd0.len() ==> ((#[trigger] m.ifd0[i]).tag == TAG_EXIF || m.ifd0[i].tag == TAG_GPS
            && m.gps.len() > 0 ==> m.ifd0[i].data.len() <= 4)
    &&& match first_tag(m.exif, TAG_MAKERNOTE, 0) {
        Some(i) => note_type_unit(m.exif[i].type_id as int) matches Some(unit) && note.len() as int
            % unit == 0,
        None => true,
    }
}

/// Whether a TIFF structure with a maker note can be read as a whole: its directories have no
/// more entries than are read, pointers to them hold four bytes, and a GPS directory that is
/// pointed at has entries.
pub open spec fn reads_with_note(m: TiffView) -> bool {
    &&& m.ifd0.len() < MAX_ENTRIES || first_tag(m.ifd0, TAG_EXIF, 0) is Some
    &&& m.exif.len() < MAX_ENTRIES || first_tag(m.exif, TAG_MAKERNOTE, 0) is Some
    &&& forall|i: int|
        0 <= i < m.ifd0.len() ==> ((#[trigger] m.ifd0[i]).tag == TAG_EXIF || m.ifd0[i].tag == TAG_GPS
            && m.gps.len() > 0 ==> m.ifd0[i].data.len() == 4)
    &&& m.gps.len() > 0 || pointer_of(m.ifd0, TAG_GPS, m.little) is None
}

/// Whether entries hold whole values of known types.
spec fn values_whole(entries: Seq<EntryView>) -> bool {
    forall|i: int| 0 <= i < entries.len() ==> entry_whole(#[trigger] entries[i], nowhere())
}

proof fn lemma_read_entry_whole(s: Seq<u8>, base: int, little: bool)
    ensures
        tiff_entry_at(s, base, little) matches Ok(e) ==> entry_whole(e, nowhere()),
{
    if let Ok(e) = tiff_entry_at(s, base, little) {
        let u = unit_of(e.type_id as int)->0;
        let num = int32(s, base + 4, little);
        assert(e.data.len() == num * u);
        assert((num * u) % u == 0) by (nonlinear_arith)
            requires
                u > 0,
        ;
    }
}

proof fn lemma_read_entries_whole(
    s: Seq<u8>,
    ifd: int,
    count: int,
    i: int,
    little: bool,
    acc: Seq<EntryView>,
)
    requires
        values_whole(acc),
        0 <= i <= count,
    ensures
        tiff_entries_from(s, ifd, count, i, little, acc) matches Ok(v) ==> values_whole(v) && v.len()
            == acc.len() + count - i,
    decreases count - i,
{
    if i < count {
        lemma_read_entry_whole(s, ifd + 2 + 12 * i, little);
        match tiff_entry_at(s, ifd + 2 + 12 * i, little) {
            Err(_) => {},
            Ok(x) => lemma_read_entries_whole(s, ifd, count, i + 1, little, acc.push(x)),
        }
    }
}

proof fn lemma_read_directory_whole(s: Seq<u8>, ifd: int, little: bool)
    ensures
        tiff_directory(s, ifd, little) matches Ok(v) ==> values_whole(v) && v.len() <= MAX_ENTRIES,
{
    if let Some(count) = int16_at(s, ifd, little) {
        if count <= MAX_ENTRIES {
            lemma_read_entries_whole(s, ifd, count, 0, little, Seq::empty());
        }
    }
}

/// What was read of TIFF data holds whole values.
proof fn lemma_read_model_whole(s: Seq<u8>)
    ensures
        tiff_model(s) matches Ok(m) ==> values_whole(m.ifd0) && values_whole(m.exif) && values_whole(
            m.gps,
        ) && m.ifd0.len() <= MAX_ENTRIES && m.exif.len() <= MAX_ENTRIES && m.gps.len()
            <= MAX_ENTRIES && (m.gps.len() > 0 ==> pointer_of(
            m.ifd0,
            TAG_GPS,
            m.little,
        ) is Some),
{
    if let Ok(m) = tiff_model(s) {
        let le = m.little;
        lemma_read_directory_whole(s, int32(s, 4, le), le);
        if let Some(x) = pointer_of(m.ifd0, TAG_EXIF, le) {
            lemma_read_directory_whole(s, x, le);
        }
        if let Some(g) = pointer_of(m.ifd0, TAG_GPS, le) {
            lemma_read_directory_whole(s, g, le);
        }
    }
}

/// A structure that was read and takes a note can be written with it.
proof fn lemma_noted_fits(s: Seq<u8>, m: TiffView, note: Seq<u8>)
    requires
        tiff_model(s) == Ok::<TiffView, Seq<char>>(m),
        takes_note(m, note),
        tiff_bytes(with_note(m, note)).len() <= u32::MAX,
    ensures
        tiff_fits(with_note(m, note)),
        pointer_fits(with_note(m, note), TAG_EXIF, with_note(m, note).exif),
        reads_with_note(m) ==> tiff_whole(with_note(m, note)),
{
    let w = with_note(m, note);
    let t = targets_of(w);
    lemma_read_model_whole(s);
    lemma_first_tag(m.ifd0, TAG_EXIF, 0);
    lemma_first_tag(m.exif, TAG_MAKERNOTE, 0);
    assert forall|i: int| 0 <= i < w.ifd0.len() implies entry_holds(#[trigger] w.ifd0[i], t) && (
    reads_with_note(m) ==> entry_whole(w.ifd0[i], t)) by {
        if i < m.ifd0.len() {
            assert(w.ifd0[i] == m.ifd0[i]);
            assert(entry_whole(m.ifd0[i], nowhere()));
            assert(t.gps is Some <==> m.gps.len() > 0);
            assert(target_for(m.ifd0[i].tag, t) is Some ==> m.ifd0[i].data.len() <= 4);
        } else {
            assert(w.ifd0[i] == EntryView { tag: TAG_EXIF, type_id: 4, data: zeros(4) });
            assert(unit_of(w.ifd0[i].type_id as int)->0 == 4);
            assert(w.ifd0[i].data.len() as int % 4 == 0);
        }
    }
    assert forall|i: int| 0 <= i < w.exif.len() implies entry_whole(
        #[trigger] w.exif[i],
        nowhere(),
    ) by {
        if i < m.exif.len() && m.exif[i].tag != TAG_MAKERNOTE {
            assert(w.exif[i] == m.exif[i]);
        } else if i < m.exif.len() {
            assert(entry_whole(m.exif[i], nowhere()));
        }
    }
    assert forall|i: int| 0 <= i < w.exif.len() implies entry_holds(
        #[trigger] w.exif[i],
        nowhere(),
    ) by {
        assert(entry_whole(w.exif[i], nowhere()));
    }
    assert forall|i: int| 0 <= i < w.gps.len() implies entry_holds(
        #[trigger] w.gps[i],
        nowhere(),
    ) by {
        assert(entry_whole(m.gps[i], nowhere()));
    }
    let k: int = match first_tag(m.ifd0, TAG_EXIF, 0) {
        Some(k) => k,
        None => m.ifd0.len() as int,
    };
    assert(tagged(TAG_EXIF)(w.ifd0[k]));
    lemma_has_first(w.ifd0, tagged(TAG_EXIF), k);
    lemma_pointer_kept(m.ifd0, m.little);
}

/// Where an element has a property, there is a first one.
proof fn lemma_has_first(x: Seq<EntryView>, p: spec_fn(EntryView) -> bool, k: int)
    requires
        0 <= k < x.len(),
        p(x[k]),
    ensures
        first_where(x, p) is Some,
    decreases x.len(),
{
    if !p(x[0]) {
        assert(x.drop_first()[k - 1] == x[k]);
        lemma_has_first(x.drop_first(), p, k - 1);
    }
}

/// One more pointer to an Exif directory does not change where the GPS directory lies.
proof fn lemma_pointer_kept(entries: Seq<EntryView>, little: bool)
    ensures
        first_where(with_exif_pointer(entries), tagged(TAG_GPS)) == first_where(
            entries,
            tagged(TAG_GPS),
        ),
{
    if first_tag(entries, TAG_EXIF, 0) is None {
        lemma_first_behind(
            entries,
            EntryView { tag: TAG_EXIF, type_id: 4, data: zeros(4) },
            tagged(TAG_GPS),
        );
    }
}

proof fn lemma_first_behind(x: Seq<EntryView>, e: EntryView, p: spec_fn(EntryView) -> bool)
    requires
        !p(e),
    ensures
        first_where(x.push(e), p) == first_where(x, p),
    decreases x.len(),
{
    if x.len() == 0 {
        assert(x.push(e).drop_first() =~= Seq::empty());
        assert(first_where(x.push(e).drop_first(), p) is None);
    } else if !p(x[0]) {
        assert(x.push(e).drop_first() =~= x.drop_first().push(e));
        lemma_first_behind(x.drop_first(), e, p);
    }
}

/// The maker note that was injected into TIFF data is read back, byte for byte, through the
/// pointer of the first directory, whether or not the data had an Exif directory. Every
/// entry stays, but for the note and the pointers, which go where the directories now lie,
/// where the structure can be read as a whole.
pub proof fn injected_notes_read_back(s: Seq<u8>, id: Seq<char>, m: TiffView, out: Seq<u8>)
    requires
        tiff_model(s) == Ok::<TiffView, Seq<char>>(m),
        injected(s, id) == Ok::<Seq<u8>, Seq<char>>(out),
        takes_note(m, note_of(identifier_value(id))),
        out.len() <= u32::MAX,
    ensures
        stored_note(out) == Some(Some(note_of(identifier_value(id)))),
        reads_with_note(m) ==> ({
            let w = with_note(m, note_of(identifier_value(id)));
            tiff_model(out) == Ok::<TiffView, Seq<char>>(
                TiffView { ifd0: all_pointed(w.ifd0, targets_of(w), w.little), ..w },
            )
        }),
        out.len() >= 8,
{
    let note = note_of(identifier_value(id));
    let w = with_note(m, note);
    lemma_noted_fits(s, m, note);
    lemma_first_tag(m.exif, TAG_MAKERNOTE, 0);
    let i: int = match first_tag(m.exif, TAG_MAKERNOTE, 0) {
        Some(i) => i,
        None => m.exif.len() as int,
    };
    assert forall|j: int| 0 <= j < i implies (#[trigger] w.exif[j]).tag != TAG_MAKERNOTE by {
        assert(m.exif[j].tag != TAG_MAKERNOTE);
    }
    written_notes_read_back(w, i);
    lemma_tiff_places(w);
    if tiff_whole(w) {
        written_tiffs_read_back(w);
    }
}

proof fn lemma_first_tag(entries: Seq<EntryView>, tag: u16, i: int)
    requires
        0 <= i <= entries.len(),
    ensures
        match first_tag(entries, tag, i) {
            Some(k) => i <= k < entries.len() && entries[k].tag == tag && forall|j: int|
                i <= j < k ==> (#[trigger] entries[j]).tag != tag,
            None => forall|j: int| i <= j < entries.len() ==> (#[trigger] entries[j]).tag != tag,
        },
    decreases entries.len() - i,
{
    if i < entries.len() && entries[i].tag != tag {
        lemma_first_tag(entries, tag, i + 1);
    }
}

/// Whether a still has no Apple note yet, so that its Exif data gets a note of its own.
pub open spec fn gets_own_note(tiff: Seq<u8>) -> bool {
    stored_note(tiff) matches Some(n) && (n is None || !starts_with(n->0, APPLE_NOTE@))
}

/// A still into which TIFF data with the note of an identifier were installed carries that
/// identifier: what is read of it is the identifier in the note that was built.
pub proof fn installed_notes_carry_the_identifier(
    s: Seq<u8>,
    tiff: Seq<u8>,
    id: Seq<char>,
    meta: MetaView,
    m: TiffView,
    out: Seq<u8>,
    t: Seq<u8>,
)
    requires
        holds_metadata(s),
        source_meta(s) == Some(Ok::<MetaView, Seq<char>>(meta)),
        tiff_model(tiff) == Ok::<TiffView, Seq<char>>(m),
        takes_note(m, note_of(identifier_value(id))),
        injected(tiff, id) == Ok::<Seq<u8>, Seq<char>>(out),
        exif_fits(s, meta, EXIF_PREFIX@ + out),
        with_exif(s, EXIF_PREFIX@ + out) == Some(Ok::<Option<Seq<u8>>, Seq<char>>(Some(t))),
        t.len() <= u32::MAX,
    ensures
        still_id(t) == Some(note_id(note_of(identifier_value(id)))),
        identifier_value(id).len() >= 36 && identifier_value(id).len() <= u32::MAX ==> still_id(t)
            == Some(identifier_of(identifier_value(id))),
{
    let value = identifier_value(id);
    installed_exif_reads_back(s, meta, EXIF_PREFIX@ + out, t);
    assert(out.len() <= (EXIF_PREFIX@ + out).len());
    injected_notes_read_back(tiff, id, m, out);
    lemma_still_read(t, out, note_of(value));
    if value.len() >= 36 && value.len() <= u32::MAX {
        built_notes_carry_their_identifier(value);
    }
}

/// A still that had no Apple note carries the identifier that it was paired with: what is
/// read of it is the identifier in the note that was built.
pub proof fn paired_stills_carry_the_identifier(
    s: Seq<u8>,
    id: Seq<char>,
    meta: MetaView,
    m: TiffView,
    payload: Seq<u8>,
    p: int,
    t: Seq<u8>,
)
    requires
        holds_metadata(s),
        source_meta(s) == Some(Ok::<MetaView, Seq<char>>(meta)),
        exif_payload(s) == Some(Ok::<Option<Seq<u8>>, Seq<char>>(Some(payload))),
        tiff_start(payload) == Some(p),
        gets_own_note(payload.skip(p)),
        tiff_model(payload.skip(p)) == Ok::<TiffView, Seq<char>>(m),
        takes_note(m, note_of(identifier_value(id))),
        paired_still(s, id) == Some(Ok::<Seq<u8>, Seq<char>>(t)),
        exif_fits(
            s,
            meta,
            EXIF_PREFIX@ + tiff_bytes(with_note(m, note_of(identifier_value(id)))),
        ),
        t.len() <= u32::MAX,
    ensures
        still_id(t) == Some(note_id(note_of(identifier_value(id)))),
        identifier_value(id).len() >= 36 && identifier_value(id).len() <= u32::MAX ==> still_id(t)
            == Some(identifier_of(identifier_value(id))),
{
    let tiff = payload.skip(p);
    let out = tiff_bytes(with_note(m, note_of(identifier_value(id))));
    lemma_own_note(tiff, id, m, out);
    lemma_paired_ok(s, id, payload, p);
    lemma_pairing(s, id, payload, p, out, t);
    installed_notes_carry_the_identifier(s, tiff, id, meta, m, out, t);
}

proof fn lemma_own_note(tiff: Seq<u8>, id: Seq<char>, m: TiffView, out: Seq<u8>)
    requires
        gets_own_note(tiff),
        tiff_model(tiff) == Ok::<TiffView, Seq<char>>(m),
        out == tiff_bytes(with_note(m, note_of(identifier_value(id)))),
    ensures
        paired_tiff(tiff, id) == Some(injected(tiff, id)),
        injected(tiff, id) is Ok ==> injected(tiff, id) == Ok::<Seq<u8>, Seq<char>>(out),
{
}

/// A still can be paired only where its TIFF data can.
proof fn lemma_paired_ok(s: Seq<u8>, id: Seq<char>, payload: Seq<u8>, p: int)
    requires
        exif_payload(s) == Some(Ok::<Option<Seq<u8>>, Seq<char>>(Some(payload))),
        tiff_start(payload) == Some(p),
        paired_still(s, id) matches Some(Ok(_)),
    ensures
        paired_tiff(payload.skip(p), id) matches Some(Ok(_)),
{
}

proof fn lemma_pairing(
    s: Seq<u8>,
    id: Seq<char>,
    payload: Seq<u8>,
    p: int,
    out: Seq<u8>,
    t: Seq<u8>,
)
    requires
        exif_payload(s) == Some(Ok::<Option<Seq<u8>>, Seq<char>>(Some(payload))),
        tiff_start(payload) == Some(p),
        paired_tiff(payload.skip(p), id) == Some(Ok::<Seq<u8>, Seq<char>>(out)),
        paired_still(s, id) == Some(Ok::<Seq<u8>, Seq<char>>(t)),
    ensures
        with_exif(s, EXIF_PREFIX@ + out) == Some(Ok::<Option<Seq<u8>>, Seq<char>>(Some(t))),
{
}

proof fn lemma_still_read(t: Seq<u8>, out: Seq<u8>, note: Seq<u8>)
    requires
        exif_payload(t) == Some(Ok::<Option<Seq<u8>>, Seq<char>>(Some(EXIF_PREFIX@ + out))),
        stored_note(out) == Some(Some(note)),
        out.len() >= 8,
    ensures
        still_id(t) == Some(note_id(note)),
{
    lemma_prefixed(out);
}

/// TIFF data behind the prefix of an Exif item is found there.
pub proof fn lemma_prefixed(out: Seq<u8>)
    ensures
        tiff_start(EXIF_PREFIX@ + out) == Some(10int),
        (EXIF_PREFIX@ + out).skip(10) == out,
{
    let s = EXIF_PREFIX@ + out;
    assert(s[0] == 0);
    if occurs_at(s, TIFF_II@, 0) {
        lemma_byte(s, TIFF_II@, 0, 0);
    }
    if occurs_at(s, TIFF_MM@, 0) {
        lemma_byte(s, TIFF_MM@, 0, 0);
    }
    assert(s.subrange(4, 10) =~= EXIF_MARKER@);
    assert(s.skip(10) =~= out);
}

// ---------------------------------------------------------------------------
// Notes that were extended in their place
// ---------------------------------------------------------------------------

/// Whether what lies from `a` to `b` is apart from what lies from `c` to `d`.
pub open spec fn lies_apart(a: int, b: int, c: int, d: int) -> bool {
    b <= c || d <= a
}

/// Whether the maker note of TIFF data, whose entry lies at `e`, stands at `at` behind both
/// directories, with values of one byte, and the entry's count is in neither the header nor
/// the first directory. A directory behind the note would lie elsewhere once the note grew,
/// and the count is written in bytes.
pub open spec fn note_lies_behind(tiff: Seq<u8>, note: Seq<u8>, e: int, at: int) -> bool {
    let little = tiff_little(tiff, 0);
    let ifd = int32(tiff, 4, little);
    let end = ifd + 2 + 12 * int16(tiff, ifd, little);
    &&& note_entry(tiff, little) == Some(Some(e))
    &&& exif_pointer(tiff, little) matches Some(Some(x)) && {
        &&& end <= at
        &&& x + 2 + 12 * int16(tiff, x, little) <= at
    }
    &&& 4 <= e
    &&& lies_apart(ifd, end, e + 4, e + 8)
    &&& note_type_unit(int16(tiff, e + 2, little)) == Some(1int)
    &&& int32(tiff, e + 8, little) == at
    &&& 4 < note.len()
    &&& at + note.len() <= tiff.len()
}

/// Whether the `len` bytes from `at` on, which hold the value of the note whose entry lies at
/// `e`, are apart from the header and from both directories, or are those of the entry that
/// hold its value. Bytes of a directory that belong to the note as well would change with it.
pub open spec fn note_lies_apart(tiff: Seq<u8>, e: int, at: int, len: int) -> bool {
    let little = tiff_little(tiff, 0);
    let ifd = int32(tiff, 4, little);
    &&& note_entry(tiff, little) == Some(Some(e))
    &&& 8 <= at
    &&& lies_apart(ifd, ifd + 2 + 12 * int16(tiff, ifd, little), at, at + len)
    &&& exif_pointer(tiff, little) matches Some(Some(x)) && (lies_apart(
        x,
        x + 2 + 12 * int16(tiff, x, little),
        at,
        at + len,
    ) || (at == e + 8 && len <= 4))
}

/// Whether `n` is `s` up to `end`, but for the bytes from `a` to `b`.
pub open spec fn same_but(s: Seq<u8>, n: Seq<u8>, a: int, b: int, end: int) -> bool {
    &&& end <= s.len()
    &&& end <= n.len()
    &&& forall|i: int| 0 <= i < end && !(a <= i < b) ==> #[trigger] n[i] == s[i]
}

proof fn lemma_same_pointer(
    s: Seq<u8>,
    n: Seq<u8>,
    a: int,
    b: int,
    end: int,
    ifd: int,
    count: int,
    k: int,
    little: bool,
    found: Option<int>,
)
    requires
        same_but(s, n, a, b, end),
        0 <= ifd,
        0 <= k,
        ifd + 2 + 12 * count <= end || (s.len() == end && n.len() == end),
        lies_apart(ifd, ifd + 2 + 12 * count, a, b),
    ensures
        exif_pointer_from(n, ifd, count, k, little, found) == exif_pointer_from(
            s,
            ifd,
            count,
            k,
            little,
            found,
        ),
    decreases count - k,
{
    if k < count {
        let e = ifd + 2 + 12 * k;
        assert(e + 2 <= end ==> n[e] == s[e] && n[e + 1] == s[e + 1]);
        assert(e + 12 <= end ==> n[e + 8] == s[e + 8] && n[e + 9] == s[e + 9] && n[e + 10] == s[e
            + 10] && n[e + 11] == s[e + 11]);
        let next: Option<int> = if int16(s, e, little) == TAG_EXIF {
            Some(int32(s, e + 8, little))
        } else {
            found
        };
        lemma_same_pointer(s, n, a, b, end, ifd, count, k + 1, little, next);
    }
}

proof fn lemma_same_note_entry(
    s: Seq<u8>,
    n: Seq<u8>,
    a: int,
    b: int,
    end: int,
    x: int,
    count: int,
    k: int,
    little: bool,
    e: int,
)
    requires
        same_but(s, n, a, b, end),
        lies_apart(x, x + 2 + 12 * count, a, b) || (e + 4 <= a && b <= e + 12),
        0 <= x,
        0 <= k,
        e + 12 <= end,
        note_entry_from(s, x, count, k, little) == Some(Some(e)),
    ensures
        note_entry_from(n, x, count, k, little) == Some(Some(e)),
        x + 2 <= e,
    decreases count - k,
{
    if k < count {
        let f = x + 2 + 12 * k;
        if int16(s, f, little) == TAG_MAKERNOTE {
            assert(f == e);
            assert(n[f] == s[f] && n[f + 1] == s[f + 1]);
        } else {
            lemma_same_note_entry(s, n, a, b, end, x, count, k + 1, little, e);
            lemma_note_entry_behind(s, x, count, k + 1, little, e);
            assert(n[f] == s[f] && n[f + 1] == s[f + 1]);
        }
    }
}

proof fn lemma_note_entry_behind(s: Seq<u8>, x: int, count: int, k: int, little: bool, e: int)
    requires
        note_entry_from(s, x, count, k, little) == Some(Some(e)),
    ensures
        x + 2 + 12 * k <= e,
        e + 12 <= x + 2 + 12 * count,
    decreases count - k,
{
    if k < count && int16(s, x + 2 + 12 * k, little) != TAG_MAKERNOTE {
        lemma_note_entry_behind(s, x, count, k + 1, little, e);
    }
}

/// A maker note that was replaced by a longer one in its place is read back, byte for byte.
pub proof fn spliced_notes_read_back(tiff: Seq<u8>, note: Seq<u8>, new: Seq<u8>, e: int, at: int)
    requires
        note_lies_behind(tiff, note, e, at),
        new.len() <= u32::MAX,
        4 < new.len(),
    ensures
        stored_note(spliced(tiff, at, note, new, e)) == Some(Some(new)),
{
    let little = tiff_little(tiff, 0);
    let n = spliced(tiff, at, note, new, e);
    let x = exif_pointer(tiff, little)->0->0;
    let ifd = int32(tiff, 4, little);
    let count = int16(tiff, ifd, little);
    let count1 = int16(tiff, x, little);
    lemma_note_entry_behind(tiff, x, count1, 0, little, e);
    lemma_spliced_bytes(tiff, note, new, e, at);
    assert(tiff_little(n, 0) == little) by {
        assert(n[0] == tiff[0] && n[1] == tiff[1]);
        assert(n.subrange(0, 2) =~= tiff.subrange(0, 2));
    }
    assert(int32(n, 4, little) == ifd) by {
        assert(n[4] == tiff[4] && n[5] == tiff[5] && n[6] == tiff[6] && n[7] == tiff[7]);
    }
    assert(int16(n, ifd, little) == count) by {
        assert(n[ifd] == tiff[ifd] && n[ifd + 1] == tiff[ifd + 1]);
    }
    lemma_same_pointer(tiff, n, e + 4, e + 8, at, ifd, count, 0, little, None);
    assert(int16(n, x, little) == count1) by {
        assert(n[x] == tiff[x] && n[x + 1] == tiff[x + 1]);
    }
    lemma_same_note_entry(tiff, n, e + 4, e + 8, at, x, count1, 0, little, e);
    lemma_spliced_value(tiff, n, new, e, at, little);
}

/// A maker note that was replaced by one of the same size in its place is read back, byte for
/// byte, and nothing outside it changes.
pub proof fn patched_notes_read_back(tiff: Seq<u8>, note: Seq<u8>, new: Seq<u8>, e: int, at: int)
    requires
        stored_note(tiff) == Some(Some(note)),
        new.len() == note.len(),
        note_place(tiff, new.len() as int) == Some(Some(at)),
        note_lies_apart(tiff, e, at, new.len() as int),
    ensures
        stored_note(overwritten(tiff, at, new)) == Some(Some(new)),
        forall|i: int|
            0 <= i < tiff.len() && !(at <= i < at + new.len()) ==> #[trigger] overwritten(
                tiff,
                at,
                new,
            )[i] == tiff[i],
{
    let little = tiff_little(tiff, 0);
    let n = overwritten(tiff, at, new);
    let x = exif_pointer(tiff, little)->0->0;
    let ifd = int32(tiff, 4, little);
    let count = int16(tiff, ifd, little);
    let count1 = int16(tiff, x, little);
    let end = tiff.len() as int;
    lemma_note_entry_behind(tiff, x, count1, 0, little, e);
    assert(same_but(tiff, n, at, at + new.len(), end));
    assert(n.subrange(0, 2) =~= tiff.subrange(0, 2));
    assert(n[4] == tiff[4] && n[5] == tiff[5] && n[6] == tiff[6] && n[7] == tiff[7]);
    assert(n[ifd] == tiff[ifd] && n[ifd + 1] == tiff[ifd + 1]);
    lemma_same_pointer(tiff, n, at, at + new.len(), end, ifd, count, 0, little, None);
    assert(n[x] == tiff[x] && n[x + 1] == tiff[x + 1]);
    lemma_same_note_entry(tiff, n, at, at + new.len(), end, x, count1, 0, little, e);
    assert forall|i: int| e <= i < e + 8 implies #[trigger] n[i] == tiff[i] by {}
    assert(new.len() > 4 ==> n[e + 8] == tiff[e + 8] && n[e + 9] == tiff[e + 9] && n[e + 10]
        == tiff[e + 10] && n[e + 11] == tiff[e + 11]);
    assert(n.subrange(at, at + new.len()) =~= new);
}

proof fn lemma_spliced_bytes(tiff: Seq<u8>, note: Seq<u8>, new: Seq<u8>, e: int, at: int)
    requires
        0 <= e,
        e + 12 <= at,
        at + note.len() <= tiff.len(),
    ensures
        ({
            let n = spliced(tiff, at, note, new, e);
            &&& same_but(tiff, n, e + 4, e + 8, at)
            &&& occurs_at(n, new, at)
            &&& occurs_at(n, put32(new.len() as int, tiff_little(tiff, 0)), e + 4)
        }),
{
    let little = tiff_little(tiff, 0);
    let n = spliced(tiff, at, note, new, e);
    assert(n.subrange(at, at + new.len()) =~= new);
    assert(n.subrange(e + 4, e + 8) =~= put32(new.len() as int, little));
}

proof fn lemma_spliced_value(
    tiff: Seq<u8>,
    n: Seq<u8>,
    new: Seq<u8>,
    e: int,
    at: int,
    little: bool,
)
    requires
        same_but(tiff, n, e + 4, e + 8, at),
        0 <= e,
        e + 12 <= at,
        occurs_at(n, new, at),
        occurs_at(n, put32(new.len() as int, little), e + 4),
        note_type_unit(int16(tiff, e + 2, little)) == Some(1int),
        int32(tiff, e + 8, little) == at,
        4 < new.len(),
        new.len() <= u32::MAX,
    ensures
        note_value(n, e, little) == Some(Some(new)),
{
    assert(n[e + 2] == tiff[e + 2] && n[e + 3] == tiff[e + 3]);
    assert(n[e + 8] == tiff[e + 8] && n[e + 9] == tiff[e + 9] && n[e + 10] == tiff[e + 10] && n[e
        + 11] == tiff[e + 11]);
    ordered_32_bits_read_back(n, e + 4, new.len() as int, little);
}

/// A still with an Apple note carries the identifier that it was paired with, before any
/// that it had.
pub proof fn repaired_stills_carry_the_identifier(
    s: Seq<u8>,
    id: Seq<char>,
    meta: MetaView,
    payload: Seq<u8>,
    p: int,
    note: Seq<u8>,
    e: int,
    at: int,
    t: Seq<u8>,
)
    requires
        holds_metadata(s),
        source_meta(s) == Some(Ok::<MetaView, Seq<char>>(meta)),
        exif_payload(s) == Some(Ok::<Option<Seq<u8>>, Seq<char>>(Some(payload))),
        tiff_start(payload) == Some(p),
        stored_note(payload.skip(p)) == Some(Some(note)),
        starts_with(note, APPLE_NOTE@),
        note_lies_behind(payload.skip(p), note, e, at),
        find_from(payload.skip(p), note, 0) == Some(at),
        identifier_of(identifier_value(id)) is Some,
        36 <= identifier_value(id).len(),
        paired_still(s, id) == Some(Ok::<Seq<u8>, Seq<char>>(t)),
        exif_fits(
            s,
            meta,
            EXIF_PREFIX@ + spliced(
                payload.skip(p),
                at,
                note,
                extended_note(note, identifier_value(id)),
                e,
            ),
        ),
        t.len() <= u32::MAX,
    ensures
        still_id(t) == Some(identifier_of(identifier_value(id))),
{
    let value = identifier_value(id);
    let tiff = payload.skip(p);
    let new = extended_note(note, value);
    let out = spliced(tiff, at, note, new, e);
    lemma_extended(tiff, id, note, e, at);
    lemma_pairing(s, id, payload, p, out, t);
    installed_exif_reads_back(s, meta, EXIF_PREFIX@ + out, t);
    assert(new.len() <= out.len());
    lemma_extended_len(note, value);
    spliced_notes_read_back(tiff, note, new, e, at);
    lemma_still_read(t, out, new);
    extended_notes_carry_the_identifier(note, value);
}

/// Pairing an Apple note extends it in its place.
proof fn lemma_extended(tiff: Seq<u8>, id: Seq<char>, note: Seq<u8>, e: int, at: int)
    requires
        stored_note(tiff) == Some(Some(note)),
        starts_with(note, APPLE_NOTE@),
        note_lies_behind(tiff, note, e, at),
        find_from(tiff, note, 0) == Some(at),
        paired_tiff(tiff, id) is Some,
        paired_tiff(tiff, id)->0 is Ok,
    ensures
        paired_tiff(tiff, id) == Some(
            Ok::<Seq<u8>, Seq<char>>(
                spliced(tiff, at, note, extended_note(note, identifier_value(id)), e),
            ),
        ),
        note.len() >= 16,
        int16(note, 14, tiff_little(note, 12)) <= 64,
        16 + 12 * int16(note, 14, tiff_little(note, 12)) + 4 <= note.len(),
        spliced(tiff, at, note, extended_note(note, identifier_value(id)), e).len() >= 8 + note.len(),
        extended_note(note, identifier_value(id)).len() <= spliced(
            tiff,
            at,
            note,
            extended_note(note, identifier_value(id)),
            e,
        ).len(),
{
    let little = tiff_little(note, 12);
    lemma_moved_entries_len(note, int16(note, 14, little) as nat, little);
    let x = exif_pointer(tiff, tiff_little(tiff, 0))->0->0;
    assert(8 <= at);
}

proof fn lemma_extended_len(note: Seq<u8>, value: Seq<u8>)
    requires
        note.len() >= 16,
        16 + 12 * int16(note, 14, tiff_little(note, 12)) + 4 <= note.len(),
    ensures
        extended_note(note, value).len() == note.len() + 12 + value.len(),
{
    let little = tiff_little(note, 12);
    lemma_moved_entries_len(note, int16(note, 14, little) as nat, little);
}

} // verus!
