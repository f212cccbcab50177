//! Rebuilding the metadata of a HEIF file around changed boxes.

use crate::bytes::{
    append, append_zeros, copy_range, enc32, enc64, opt_bytes, pad4, push32, push64, zeros,
};
use crate::fourcc::{IINF, ILOC, IREF, MDAT, META, same_tag};
use crate::isobmff::{
    BoxHeader, BoxView, IlocEntry, IlocView, IrefView, box_bytes, box_within, find_in, first_box,
    iloc_bytes, iref_rule_at, iref_rules_of, make_box, make_iloc_box, refs_named,
};
use crate::items::{copy_extents, copy_ilocs};
use crate::seqs::{flat, lemma_flat_take, views};
use crate::text::name_text;
use vstd::prelude::*;
use vstd::utf8::*;

verus! {

/// `b` in place of the box where there is a replacement, else the box as it is.
pub open spec fn replaced(s: Seq<u8>, kid: BoxView, b: Option<Seq<u8>>) -> Seq<u8> {
    match b {
        Some(bytes) => bytes,
        None => s.subrange(kid.box_start, kid.data_end),
    }
}

/// A child of the meta box, with the iloc box, and where they are given the iinf
/// and iref boxes, replaced.
pub open spec fn rebuilt_kid(
    s: Seq<u8>,
    iloc: Seq<u8>,
    iinf: Option<Seq<u8>>,
    iref: Option<Seq<u8>>,
) -> spec_fn(BoxView) -> Seq<u8> {
    |kid: BoxView|
        if kid.btype == IINF@ {
            replaced(s, kid, iinf)
        } else if kid.btype == ILOC@ {
            iloc
        } else if kid.btype == IREF@ {
            replaced(s, kid, iref)
        } else {
            replaced(s, kid, None)
        }
}

/// A new iref box, where none of `kids` is one that it would replace.
pub open spec fn new_iref(kids: Seq<BoxView>, iref: Option<Seq<u8>>) -> Seq<u8> {
    match iref {
        Some(bytes) => if first_box(kids, IREF@) is None {
            bytes
        } else {
            Seq::empty()
        },
        None => Seq::empty(),
    }
}

/// The meta box rebuilt around the given boxes.
pub open spec fn rebuilt_meta(
    s: Seq<u8>,
    meta: BoxView,
    kids: Seq<BoxView>,
    iloc: Seq<u8>,
    iinf: Option<Seq<u8>>,
    iref: Option<Seq<u8>>,
) -> Seq<u8> {
    box_bytes(
        META@,
        s.subrange(meta.data_start, meta.data_start + 4) + flat(kids, rebuilt_kid(s, iloc, iinf, iref))
            + new_iref(kids, iref),
    )
}

/// Rebuild the meta box around the given boxes.
pub fn rebuild_meta(
    s: &[u8],
    meta: &BoxHeader,
    kids: &Vec<BoxHeader>,
    iloc: &Vec<u8>,
    iinf: &Option<Vec<u8>>,
    iref: &Option<Vec<u8>>,
) -> (r: Vec<u8>)
    requires
        meta.data_start + 4 <= s.len(),
        forall|i: int| 0 <= i < kids@.len() ==> box_within((#[trigger] kids@[i])@, s@.len() as int),
    ensures
        r@ == rebuilt_meta(s@, meta@, views(kids@), iloc@, opt_bytes(*iinf), opt_bytes(*iref)),
{
    let mut body: Vec<u8> = copy_range(s, meta.data_start, meta.data_start + 4);
    let ghost head = body@;
    let ghost f = rebuilt_kid(s@, iloc@, opt_bytes(*iinf), opt_bytes(*iref));
    let ghost v = views(kids@);
    let mut i: usize = 0;
    assert(v.take(0) =~= Seq::empty());
    assert(body@ =~= head + flat(v.take(0), f));
    while i < kids.len()
        invariant
            i <= kids@.len(),
            v == views(kids@),
            f == rebuilt_kid(s@, iloc@, opt_bytes(*iinf), opt_bytes(*iref)),
            forall|j: int|
                0 <= j < kids@.len() ==> box_within((#[trigger] kids@[j])@, s@.len() as int),
            body@ == head + flat(v.take(i as int), f),
        decreases kids@.len() - i,
    {
        let kid: BoxHeader = kids[i];
        assert(v[i as int] == kid@);
        let ghost before = body@;
        if same_tag(&kid.btype, &IINF) && iinf.is_some() {
            append(&mut body, iinf.as_ref().unwrap().as_slice());
        } else if same_tag(&kid.btype, &ILOC) {
            append(&mut body, iloc.as_slice());
        } else if same_tag(&kid.btype, &IREF) && iref.is_some() {
            append(&mut body, iref.as_ref().unwrap().as_slice());
        } else {
            append(&mut body, vstd::slice::slice_subrange(s, kid.box_start, kid.data_end));
        }
        proof {
            assert(IINF@[1] != ILOC@[1]);
            assert(IREF@[1] != ILOC@[1]);
            assert(IREF@[1] != IINF@[1]);
            assert(body@ =~= before + f(v[i as int]));
            lemma_flat_take(v, f, i as int);
            assert(body@ =~= head + flat(v.take(i + 1), f));
        }
        i = i + 1;
    }
    assert(v.take(i as int) =~= v);
    let present: bool = find_in(kids.as_slice(), &IREF).is_some();
    if !present && iref.is_some() {
        append(&mut body, iref.as_ref().unwrap().as_slice());
    }
    assert(body@ =~= s@.subrange(meta.data_start as int, meta.data_start + 4) + flat(v, f) + new_iref(
        v,
        opt_bytes(*iref),
    ));
    make_box(&META, body.as_slice())
}

/// An mdat box, its header in the long form where `header` is not 8.
pub open spec fn mdat_bytes(header: int, payload: Seq<u8>) -> Seq<u8> {
    if header == 8 {
        box_bytes(MDAT@, payload)
    } else {
        enc32(1) + MDAT@ + enc64(16 + payload.len() as int) + payload
    }
}

/// Build an mdat box, its header in the long form where `header` is not 8.
pub fn make_mdat(header: usize, payload: &Vec<u8>) -> (r: Vec<u8>)
    requires
        payload@.len() + 16 <= u64::MAX,
    ensures
        r@ == mdat_bytes(header as int, payload@),
{
    if header == 8 {
        make_box(&MDAT, payload.as_slice())
    } else {
        let mut v: Vec<u8> = Vec::new();
        push32(&mut v, 1);
        append(&mut v, MDAT.as_slice());
        push64(&mut v, 16 + payload.len() as u64);
        append(&mut v, payload.as_slice());
        assert(v@ =~= mdat_bytes(header as int, payload@));
        v
    }
}

/// A location entry that names one extent of the file.
pub open spec fn single_extent(item_id: u32, offset: u64, length: u64) -> IlocView {
    IlocView {
        item_id,
        construction_method: 0,
        data_reference_index: 0,
        extents: seq![(offset, length)],
    }
}

/// The index of the first location entry of an item.
pub open spec fn iloc_index(entries: Seq<IlocView>, item_id: u32, i: int) -> Option<int>
    decreases entries.len() - i,
{
    if i >= entries.len() {
        None
    } else if entries[i].item_id == item_id {
        Some(i)
    } else {
        iloc_index(entries, item_id, i + 1)
    }
}

/// The entries with the first one of an item replaced, or one more at the end
/// where the item has none.
pub open spec fn claimed(entries: Seq<IlocView>, item_id: u32, length: u64) -> Seq<IlocView> {
    match iloc_index(entries, item_id, 0) {
        Some(i) => entries.update(i, single_extent(item_id, 0, length)),
        None => entries.push(single_extent(item_id, 0, length)),
    }
}

/// `v` moved by the distance from `old` to `new`, within 64 bits.
pub open spec fn moved(v: u64, old: int, new: int) -> u64 {
    ((v + new - old) % 0x1_0000_0000_0000_0000) as u64
}

/// Extents moved by the distance from `old` to `new`.
pub open spec fn moved_extents(x: Seq<(u64, u64)>, old: int, new: int) -> Seq<(u64, u64)> {
    Seq::new(x.len(), |i: int| (moved(x[i].0, old, new), x[i].1))
}

/// Where an entry points once the data has moved: the new payload for the item
/// itself, moved extents for other items in the file, the same for the rest.
pub open spec fn relocated(
    e: IlocView,
    item_id: u32,
    offset: u64,
    length: u64,
    old: int,
    new: int,
) -> IlocView {
    if e.item_id == item_id {
        IlocView { extents: seq![(offset, length)], ..e }
    } else if e.construction_method == 0 {
        IlocView { extents: moved_extents(e.extents, old, new), ..e }
    } else {
        e
    }
}

/// Every entry, relocated.
pub open spec fn all_relocated(
    entries: Seq<IlocView>,
    item_id: u32,
    offset: u64,
    length: u64,
    old: int,
    new: int,
) -> Seq<IlocView> {
    Seq::new(entries.len(), |i: int| relocated(entries[i], item_id, offset, length, old, new))
}

/// `v` moved by the distance from `old` to `new`, within 64 bits.
pub fn move_offset(v: u64, old: usize, new: usize) -> (r: u64)
    ensures
        r == moved(v, old as int, new as int),
{
    if new >= old {
        v.wrapping_add((new - old) as u64)
    } else {
        v.wrapping_sub((old - new) as u64)
    }
}

/// The index of the first location entry of an item.
pub fn find_iloc_index(entries: &Vec<IlocEntry>, item_id: u32) -> (r: Option<usize>)
    ensures
        match r {
            Some(i) => i < entries@.len() && iloc_index(views(entries@), item_id, 0) == Some(
                i as int,
            ),
            None => iloc_index(views(entries@), item_id, 0) is None,
        },
{
    let mut i: usize = 0;
    while i < entries.len()
        invariant
            i <= entries@.len(),
            iloc_index(views(entries@), item_id, 0) == iloc_index(
                views(entries@),
                item_id,
                i as int,
            ),
        decreases entries@.len() - i,
    {
        assert(views(entries@)[i as int] == entries@[i as int]@);
        if entries[i].item_id == item_id {
            return Some(i);
        }
        i = i + 1;
    }
    None
}

/// Make the first entry of an item name one extent of the file, or add one.
pub fn claim(entries: &Vec<IlocEntry>, item_id: u32, length: u64) -> (r: Vec<IlocEntry>)
    ensures
        views(r@) == claimed(views(entries@), item_id, length),
{
    let mut out: Vec<IlocEntry> = copy_ilocs(entries);
    let new: IlocEntry = IlocEntry {
        item_id,
        construction_method: 0,
        data_reference_index: 0,
        extents: vec![(0, length)],
    };
    assert(new.extents@ =~= seq![(0u64, length)]);
    let ghost before = out@;
    match find_iloc_index(entries, item_id) {
        Some(i) => {
            out[i] = new;
            assert(views(out@) =~= views(before).update(i as int, new@));
        },
        None => {
            out.push(new);
            assert(views(out@) =~= views(before).push(new@));
        },
    }
    out
}

fn move_extents(x: &Vec<(u64, u64)>, old: usize, new: usize) -> (r: Vec<(u64, u64)>)
    ensures
        r@ == moved_extents(x@, old as int, new as int),
{
    let mut out: Vec<(u64, u64)> = Vec::new();
    let mut i: usize = 0;
    while i < x.len()
        invariant
            i <= x@.len(),
            out@ == moved_extents(x@.take(i as int), old as int, new as int),
        decreases x@.len() - i,
    {
        out.push((move_offset(x[i].0, old, new), x[i].1));
        i = i + 1;
        assert(out@ =~= moved_extents(x@.take(i as int), old as int, new as int));
    }
    assert(x@.take(i as int) =~= x@);
    out
}

/// Relocate every entry.
pub fn relocate_all(
    entries: &Vec<IlocEntry>,
    item_id: u32,
    offset: u64,
    length: u64,
    old: usize,
    new: usize,
) -> (r: Vec<IlocEntry>)
    ensures
        views(r@) == all_relocated(
            views(entries@),
            item_id,
            offset,
            length,
            old as int,
            new as int,
        ),
{
    let mut out: Vec<IlocEntry> = Vec::new();
    let mut i: usize = 0;
    while i < entries.len()
        invariant
            i <= entries@.len(),
            out@.len() == i,
            forall|j: int|
                0 <= j < i ==> (#[trigger] out@[j])@ == relocated(
                    entries@[j]@,
                    item_id,
                    offset,
                    length,
                    old as int,
                    new as int,
                ),
        decreases entries@.len() - i,
    {
        let e: &IlocEntry = &entries[i];
        let extents: Vec<(u64, u64)> = if e.item_id == item_id {
            vec![(offset, length)]
        } else if e.construction_method == 0 {
            move_extents(&e.extents, old, new)
        } else {
            copy_extents(&e.extents)
        };
        let n: IlocEntry = IlocEntry {
            item_id: e.item_id,
            construction_method: e.construction_method,
            data_reference_index: e.data_reference_index,
            extents,
        };
        assert(n@ =~= relocated(e@, item_id, offset, length, old as int, new as int));
        out.push(n);
        i = i + 1;
    }
    assert(views(out@) =~= all_relocated(
        views(entries@),
        item_id,
        offset,
        length,
        old as int,
        new as int,
    ));
    out
}

/// A file with an item's payload appended to its media data: everything before
/// the meta box, the meta box rebuilt around the relocated entries, what stands
/// between meta and mdat, and the media data with the payload behind it. `None`
/// where an offset of the new file does not fit the machine.
pub open spec fn with_payload(
    s: Seq<u8>,
    meta: BoxView,
    mdat: BoxView,
    kids: Seq<BoxView>,
    entries: Seq<IlocView>,
    iinf: Option<Seq<u8>>,
    iref: Option<Seq<u8>>,
    item_id: u32,
    payload: Seq<u8>,
) -> Option<Seq<u8>> {
    let header = mdat.data_start - mdat.box_start;
    let between = s.subrange(meta.data_end, mdat.box_start);
    let placeholder = rebuilt_meta(s, meta, kids, iloc_bytes(entries), iinf, iref);
    let start = meta.box_start + placeholder.len() + between.len() + header;
    let held = mdat.data_end - mdat.data_start;
    let offset = start + held + pad4(held);
    if offset + payload.len() > usize::MAX - 16 {
        None
    } else {
        let located = all_relocated(
            entries,
            item_id,
            offset as u64,
            payload.len() as u64,
            mdat.data_start,
            start,
        );
        Some(
            s.take(meta.box_start) + rebuilt_meta(s, meta, kids, iloc_bytes(located), iinf, iref)
                + between + mdat_bytes(
                header,
                s.subrange(mdat.data_start, mdat.data_end) + zeros(pad4(held) as nat) + payload,
            ),
        )
    }
}

/// Write a file with an item's payload appended to its media data.
pub fn write_with_payload(
    s: &[u8],
    meta: &BoxHeader,
    mdat: &BoxHeader,
    kids: &Vec<BoxHeader>,
    entries: &Vec<IlocEntry>,
    iinf: &Option<Vec<u8>>,
    iref: &Option<Vec<u8>>,
    item_id: u32,
    payload: &[u8],
) -> (r: Option<Vec<u8>>)
    requires
        box_within(meta@, s@.len() as int),
        box_within(mdat@, s@.len() as int),
        meta.data_end <= mdat.box_start,
        meta.data_start + 4 <= s.len(),
        forall|i: int| 0 <= i < kids@.len() ==> box_within((#[trigger] kids@[i])@, s@.len() as int),
    ensures
        opt_bytes(r) == with_payload(
            s@,
            meta@,
            mdat@,
            views(kids@),
            views(entries@),
            opt_bytes(*iinf),
            opt_bytes(*iref),
            item_id,
            payload@,
        ),
{
    let header: usize = mdat.data_start - mdat.box_start;
    let between: Vec<u8> = copy_range(s, meta.data_end, mdat.box_start);
    let placeholder: Vec<u8> = rebuild_meta(s, meta, kids, &make_iloc_box(entries), iinf, iref);
    let held: usize = mdat.data_end - mdat.data_start;
    let pad: usize = (4 - held % 4) % 4;
    // The pieces that come from the file itself are no longer than the file.
    let own: usize = meta.box_start + (mdat.box_start - meta.data_end) + header;
    if own > usize::MAX - 16 || placeholder.len() > usize::MAX - 16 - own {
        return None;
    }
    let start: usize = own + placeholder.len();
    if held > usize::MAX - 16 - start || pad > usize::MAX - 16 - start - held || payload.len()
        > usize::MAX - 16 - start - held - pad {
        return None;
    }
    let offset: usize = start + held + pad;
    let located: Vec<IlocEntry> = relocate_all(
        entries,
        item_id,
        offset as u64,
        payload.len() as u64,
        mdat.data_start,
        start,
    );
    let final_meta: Vec<u8> = rebuild_meta(s, meta, kids, &make_iloc_box(&located), iinf, iref);
    let mut media: Vec<u8> = copy_range(s, mdat.data_start, mdat.data_end);
    append_zeros(&mut media, pad);
    append(&mut media, payload);
    assert(media@.len() == held + pad + payload@.len());
    let mdat_box: Vec<u8> = make_mdat(header, &media);
    let mut out: Vec<u8> = copy_range(s, 0, meta.box_start);
    append(&mut out, final_meta.as_slice());
    append(&mut out, between.as_slice());
    append(&mut out, mdat_box.as_slice());
    assert(s@.subrange(0, meta.box_start as int) =~= s@.take(meta.box_start as int));
    Some(out)
}

/// A name of four bytes reads back to four bytes.
pub proof fn lemma_name_len(b: Seq<u8>)
    requires
        b.len() == 4,
    ensures
        encode_utf8(name_text(b)).len() == 4,
{
    if valid_utf8(b) {
        decode_utf8_encode_utf8(b);
    } else {
        reveal_strlit("????");
        assert(is_ascii_chars("????"@));
        is_ascii_chars_encode_utf8("????"@);
    }
}

/// The types of parsed reference rules have four bytes.
pub proof fn lemma_refs_named(s: Seq<u8>, kids: Seq<BoxView>, i: int, wide: bool, acc: Seq<IrefView>)
    requires
        0 <= i,
        refs_named(acc),
        forall|j: int| 0 <= j < kids.len() ==> (#[trigger] kids[j]).btype.len() == 4,
    ensures
        iref_rules_of(s, kids, i, wide, acc) matches Some(refs) ==> refs_named(refs),
    decreases kids.len() - i,
{
    if i < kids.len() {
        match iref_rule_at(s, kids[i], wide) {
            None => {},
            Some(r) => {
                lemma_name_len(kids[i].btype);
                lemma_refs_named(s, kids, i + 1, wide, acc.push(r));
            },
        }
    }
}

} // verus!
