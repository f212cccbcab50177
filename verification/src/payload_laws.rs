//! What is read back of payloads that were installed, replaced or left alone.

use crate::bytes::{be32, find_from, starts_with};
use crate::exif::{exif_location, item_payload_from, item_payload_of};
use crate::fourcc::{IINF, INFE, IREF, META};
use crate::isobmff::{
    BoxView, IlocView, IrefView, ItemView, MetaView, as_is, box_bytes, boxes_in, first_box,
    iinf_bytes, infe_at, infe_bytes, infe_head, infes_of, iref_bytes, iref_rule_at, iref_rules_of,
    lemma_boxes_within, name_end, source_meta,
};
use crate::isobmff_write::{
    URI, URI_TYPE, describes, donor_extents, donor_payload, exif_extents, exif_id, exif_iinf,
    exif_iref, exif_payload, grafted, idat_box, iref_version_among, meta_and_mdat, renamed_iinf,
    renamed_infe, renamed_infes, with_exif, with_item_payload,
};
use crate::items::{iloc_for, item_typed, raw_infes};
use crate::rebuild::{claimed, moved, relocated};
use crate::reopened::{
    built_item_info, built_items, built_references, bytes_of, children_closed, children_of, copied,
    header_at, holds_metadata, infe_holds, infes_hold, infes_start, is_box_of, is_sized_box,
    is_whole_box, item_boxes, items_closed, lemma_built_is_sized, lemma_copied_part,
    lemma_copy_says_item, lemma_first_index, lemma_iloc_index, lemma_part_len, lemma_stand,
    new_location, new_media_start, new_payload_start, own_location, references_hold, says_items,
    says_references, stands, tells_item, written_item_data_stand, written_payloads_stand,
};
use crate::round_trip::{
    built_item, is_item_type, kept_references, reference_fits, stored_location,
};
use crate::seqs::{first_where, flat, lemma_first_where_at, lemma_first_where_has};
use crate::text::name_text;
use vstd::prelude::*;
use vstd::string::*;
use vstd::utf8::*;

verus! {

pub proof fn lemma_ascii_type(t: Seq<char>)
    requires
        t.len() == 4,
        forall|i: int| 0 <= i < t.len() ==> '\u{20}' <= #[trigger] t[i] <= '\u{7e}',
    ensures
        is_item_type(t),
{
    assert(is_ascii_chars(t));
    is_ascii_chars_encode_utf8(t);
    let b = encode_utf8(t);
    assert forall|i: int| 0 <= i < 4 implies 0x20 <= #[trigger] b[i] <= 0x7e by {
        assert('\u{20}' <= t[i] <= '\u{7e}');
    }
}

/// Whether raw infe boxes tell their items, and all but the last, or all where `closed`, say
/// their own sizes.
pub open spec fn raw_items_tell(items: Seq<ItemView>, closed: bool) -> bool {
    forall|k: int|
        0 <= k < items.len() ==> tells_item((#[trigger] items[k]).raw_infe, items[k])
            && is_whole_box(items[k].raw_infe) && (k < items.len() - 1 || closed ==> be32(
            items[k].raw_infe,
            0,
        ) != 0)
}

/// The raw infe boxes of items that were read tell those items.
proof fn lemma_raw_infes_say(
    s: Seq<u8>,
    kids: Seq<BoxView>,
    i: int,
    acc: Seq<ItemView>,
    closed: bool,
)
    requires
        forall|k: int|
            0 <= k < kids.len() ==> stands(s, #[trigger] kids[k]) && (k < kids.len() - 1 || (closed
                && kids[k].btype == INFE@) ==> be32(s, kids[k].box_start) != 0),
        infes_hold(s, kids),
        raw_items_tell(acc, closed || i < kids.len()),
        0 <= i <= kids.len(),
    ensures
        infes_of(s, kids, i, acc) matches Some(items) ==> raw_items_tell(items, closed),
    decreases kids.len() - i,
{
    if i < kids.len() {
        let b = kids[i];
        if b.btype != INFE@ {
            lemma_raw_infes_say(s, kids, i + 1, acc, closed);
        } else {
            assert(stands(s, b));
            assert(infe_holds(s, b));
            lemma_copy_says_item(s, b);
            let it = infe_at(s, b)->0;
            assert(it.raw_infe == bytes_of(s, b));
            let next = acc.push(it);
            assert forall|k: int| 0 <= k < next.len() implies tells_item(
                (#[trigger] next[k]).raw_infe,
                next[k],
            ) && is_whole_box(next[k].raw_infe) && (k < next.len() - 1 || closed || i + 1
                < kids.len() ==> be32(next[k].raw_infe, 0) != 0) by {
                if k < acc.len() {
                    assert(next[k] == acc[k]);
                }
            }
            lemma_raw_infes_say(s, kids, i + 1, next, closed);
        }
    }
}

/// The raw infe boxes of a file's items tell those items.
pub proof fn lemma_items_say(s: Seq<u8>, m: MetaView)
    requires
        holds_metadata(s),
        source_meta(s) == Some(Ok::<MetaView, Seq<char>>(m)),
    ensures
        raw_items_tell(m.items, items_closed(s)),
{
    reveal(holds_metadata);
    let top = boxes_in(s, 0, s.len() as int);
    lemma_first_index(top, META@);
    lemma_boxes_within(s, 0, s.len() as int);
    let meta = first_box(top, META@)->0;
    let kids = boxes_in(s, meta.data_start + 4, meta.data_end);
    lemma_first_index(kids, IINF@);
    lemma_boxes_within(s, meta.data_start + 4, meta.data_end);
    let iinf = first_box(kids, IINF@)->0;
    let infes = boxes_in(s, infes_start(s, iinf), iinf.data_end);
    assert(infes == item_boxes(s));
    assert forall|k: int| 0 <= k < infes.len() implies stands(s, #[trigger] infes[k]) && (k
        < infes.len() - 1 || (items_closed(s) && infes[k].btype == INFE@) ==> be32(
        s,
        infes[k].box_start,
    ) != 0) by {
        lemma_stand(s, infes_start(s, iinf), iinf.data_end, k);
        assert(item_boxes(s)[k] == infes[k]);
    }
    lemma_raw_infes_say(s, infes, 0, Seq::empty(), items_closed(s));
}

/// The name of four bytes takes four bytes.
proof fn lemma_name_takes_four(b: Seq<u8>)
    requires
        b.len() == 4,
    ensures
        encode_utf8(name_text(b)).len() == 4,
{
    if valid_utf8(b) {
        decode_utf8_encode_utf8(b);
    } else {
        reveal_strlit("????");
        lemma_ascii_type("????"@);
    }
}

proof fn lemma_rules_fit(s: Seq<u8>, kids: Seq<BoxView>, i: int, wide: bool, acc: Seq<IrefView>)
    requires
        forall|k: int| 0 <= k < kids.len() ==> (#[trigger] kids[k]).btype.len() == 4,
        forall|k: int| 0 <= k < acc.len() ==> reference_fits(#[trigger] acc[k]),
        0 <= i <= kids.len(),
    ensures
        iref_rules_of(s, kids, i, wide, acc) matches Some(refs) ==> forall|k: int|
            0 <= k < refs.len() ==> reference_fits(#[trigger] refs[k]),
    decreases kids.len() - i,
{
    if i < kids.len() {
        match iref_rule_at(s, kids[i], wide) {
            None => {},
            Some(r) => {
                assert(kids[i].btype.len() == 4);
                lemma_name_takes_four(kids[i].btype);
                lemma_rules_fit(s, kids, i + 1, wide, acc.push(r));
            },
        }
    }
}

/// References that were read fit the fields that they are written in.
pub proof fn lemma_references_fit(s: Seq<u8>, m: MetaView)
    requires
        source_meta(s) == Some(Ok::<MetaView, Seq<char>>(m)),
    ensures
        forall|k: int| 0 <= k < m.refs.len() ==> reference_fits(#[trigger] m.refs[k]),
{
    let top = boxes_in(s, 0, s.len() as int);
    lemma_first_index(top, META@);
    lemma_boxes_within(s, 0, s.len() as int);
    let meta = first_box(top, META@)->0;
    let kids = boxes_in(s, meta.data_start + 4, meta.data_end);
    match first_box(kids, IREF@) {
        None => {},
        Some(b) => {
            lemma_first_index(kids, IREF@);
            lemma_boxes_within(s, meta.data_start + 4, meta.data_end);
            lemma_boxes_within(s, b.data_start + 4, b.data_end);
            lemma_rules_fit(
                s,
                boxes_in(s, b.data_start + 4, b.data_end),
                0,
                s[b.data_start] >= 1,
                Seq::empty(),
            );
        },
    }
}

/// Whether the Exif item of a file takes a payload: where there is none, an item and, for
/// want of a reference box, a child can be put behind the others; no location of another item
/// is taken for its own when item numbers are cut to 16 bits; and the locations can be counted
/// in 16 bits, in which they are written: of 65536 none is read back.
pub open spec fn exif_fits(s: Seq<u8>, m: MetaView, payload: Seq<u8>) -> bool {
    &&& exif_id(m.items) matches Some(id) && own_location(m.iloc_entries, id) && claimed(
        m.iloc_entries,
        id,
        payload.len() as u64,
    ).len() < 0x1_0000
    &&& if first_where(m.items, item_typed("Exif"@)) is Some {
        references_hold(s)
    } else {
        items_closed(s) && (first_box(children_of(s), IREF@) is None ==> children_closed(s))
    }
}

/// The items of a file with an Exif payload installed.
pub open spec fn items_with_exif(m: MetaView, id: u32) -> Seq<ItemView> {
    if first_where(m.items, item_typed("Exif"@)) is Some {
        m.items
    } else {
        m.items.push(built_item(id, "Exif"@, 0))
    }
}

/// The references of a file with an Exif payload installed.
pub open spec fn refs_with_exif(s: Seq<u8>, m: MetaView, id: u32) -> Seq<IrefView> {
    if first_where(m.items, item_typed("Exif"@)) is Some {
        m.refs
    } else {
        kept_references(
            m.refs.push(describes(id, m.primary_id)),
            iref_version_among(s, children_of(s)) >= 1,
        )
    }
}

/// The boxes that an installed Exif item brings say its item and its reference.
#[verifier::rlimit(60)]
proof fn lemma_exif_boxes(s: Seq<u8>, m: MetaView, id: u32)
    requires
        holds_metadata(s),
        source_meta(s) == Some(Ok::<MetaView, Seq<char>>(m)),
        id < 0x1_0000,
        first_where(m.items, item_typed("Exif"@)) is None ==> items_closed(s),
    ensures
        match exif_iinf(m, id) {
            None => items_with_exif(m, id) == m.items,
            Some(c) => c.len() <= u32::MAX ==> says_items(
                c,
                m.iinf_version,
                items_with_exif(m, id),
            ),
        },
        match exif_iref(s, children_of(s), m, id) {
            None => refs_with_exif(s, m, id) == m.refs,
            Some(c) => c.len() <= u32::MAX ==> says_references(c, refs_with_exif(s, m, id)),
        },
{
    if first_where(m.items, item_typed("Exif"@)) is None {
        let infes = raw_infes(m.items).push(infe_bytes(id as int, "Exif"@, 0));
        let items = items_with_exif(m, id);
        if iinf_bytes(m.iinf_version, infes).len() <= u32::MAX {
            lemma_items_say(s, m);
            reveal_strlit("Exif");
            lemma_ascii_type("Exif"@);
            built_item_info(id, "Exif"@, 0);
            assert forall|k: int| 0 <= k < infes.len() implies tells_item(
                #[trigger] infes[k],
                items[k],
            ) && is_sized_box(infes[k]) by {
                if k < m.items.len() {
                    assert(infes[k] == m.items[k].raw_infe);
                }
            }
            built_items(m.iinf_version, infes, items);
        }
        let version = iref_version_among(s, children_of(s));
        let refs = m.refs.push(describes(id, m.primary_id));
        if iref_bytes(version, refs).len() <= u32::MAX {
            lemma_references_fit(s, m);
            reveal_strlit("cdsc");
            lemma_ascii_type("cdsc"@);
            built_references(version, refs);
        }
    }
}

/// An Exif payload that was installed is read back, byte for byte, and nothing else that
/// the file says of its items changes but where they are located.
#[verifier::rlimit(60)]
pub proof fn installed_exif_reads_back(s: Seq<u8>, m: MetaView, payload: Seq<u8>, t: Seq<u8>)
    requires
        holds_metadata(s),
        source_meta(s) == Some(Ok::<MetaView, Seq<char>>(m)),
        exif_fits(s, m, payload),
        with_exif(s, payload) == Some(Ok::<Option<Seq<u8>>, Seq<char>>(Some(t))),
        t.len() <= u32::MAX,
    ensures
        exif_payload(t) == Some(Ok::<Option<Seq<u8>>, Seq<char>>(Some(payload))),
        payload.len() <= t.len(),
        source_meta(t) matches Some(Ok(n)) && n == (MetaView {
            iloc_entries: n.iloc_entries,
            items: items_with_exif(m, exif_id(m.items)->0),
            refs: refs_with_exif(s, m, exif_id(m.items)->0),
            ..m
        }),
{
    let (meta, mdat) = meta_and_mdat(s)->Ok_0;
    let id = exif_id(m.items)->0;
    let kids = children_of(s);
    let iinf = exif_iinf(m, id);
    let iref = exif_iref(s, kids, m, id);
    let items = items_with_exif(m, id);
    lemma_exif_boxes(s, m, id);
    written_payloads_stand(
        s,
        meta,
        mdat,
        m,
        id,
        payload,
        iinf,
        iref,
        items,
        refs_with_exif(s, m, id),
        t,
    );
    let entries = claimed(m.iloc_entries, id, payload.len() as u64);
    let at = new_payload_start(s, meta, mdat, entries, iinf, iref);
    let e = new_location(id, at, payload.len() as int);
    let n = source_meta(t)->0->Ok_0;
    assert(first_where(items, item_typed("Exif"@)) matches Some(it) && it.item_id == id) by {
        lemma_first_where_has(m.items, item_typed("Exif"@));
        if first_where(m.items, item_typed("Exif"@)) is None {
            lemma_first_where_at(items, item_typed("Exif"@), m.items.len() as int);
        }
    }
    assert(exif_location(n.items, n.iloc_entries) == Some(e));
    assert(e.extents =~= seq![(at as u64, payload.len() as u64)]);
    let end = at + payload.len();
    assert(t.subrange(at, end) =~= payload);
    assert(Seq::<u8>::empty() + t.subrange(at, end) =~= payload);
    reveal_with_fuel(exif_extents, 2);
}

/// What is taken of a donor's Exif item is what is read of it.
proof fn lemma_donor_extents(
    s: Seq<u8>,
    method: u16,
    extents: Seq<(u64, u64)>,
    idat: Option<BoxView>,
    i: int,
    acc: Seq<u8>,
)
    ensures
        donor_extents(s, method, extents, idat, i, acc) matches Some(Ok(payload)) ==> exif_extents(
            s,
            method,
            extents,
            idat,
            i,
            acc,
        ) == Some(Ok::<Seq<u8>, Seq<char>>(payload)),
    decreases extents.len() - i,
{
    if i < extents.len() {
        let start = (if method == 1 {
            idat->0.data_start
        } else {
            0
        }) + extents[i].0;
        let end = start + extents[i].1;
        lemma_donor_extents(s, method, extents, idat, i + 1, acc + s.subrange(start, end));
    }
}

/// A file that was grafted gives the very Exif payload that the donor gives, and nothing
/// else that it says of its items changes but where they are located.
pub proof fn grafted_exif_is_that_of_the_donor(
    s: Seq<u8>,
    m: MetaView,
    donor: Seq<u8>,
    payload: Seq<u8>,
    t: Seq<u8>,
)
    requires
        holds_metadata(s),
        source_meta(s) == Some(Ok::<MetaView, Seq<char>>(m)),
        donor_payload(donor) == Some(Ok::<Seq<u8>, Seq<char>>(payload)),
        exif_fits(s, m, payload),
        grafted(s, donor) == Some(Ok::<Option<Seq<u8>>, Seq<char>>(Some(t))),
        t.len() <= u32::MAX,
    ensures
        exif_payload(donor) == Some(Ok::<Option<Seq<u8>>, Seq<char>>(Some(payload))),
        exif_payload(t) == exif_payload(donor),
        source_meta(t) matches Some(Ok(n)) && n == (MetaView {
            iloc_entries: n.iloc_entries,
            items: items_with_exif(m, exif_id(m.items)->0),
            refs: refs_with_exif(s, m, exif_id(m.items)->0),
            ..m
        }),
{
    let d = source_meta(donor)->0->Ok_0;
    if let Some(e) = exif_location(d.items, d.iloc_entries) {
        lemma_donor_extents(
            donor,
            e.construction_method,
            e.extents,
            idat_box(donor),
            0,
            Seq::empty(),
        );
    }
    installed_exif_reads_back(s, m, payload, t);
}

/// A donor without an Exif item grafts nothing, whatever the file is.
pub proof fn nothing_is_grafted_without_exif(s: Seq<u8>, donor: Seq<u8>, d: MetaView)
    requires
        source_meta(donor) == Some(Ok::<MetaView, Seq<char>>(d)),
        first_where(d.items, item_typed("Exif"@)) is None,
    ensures
        grafted(s, donor) == Some(Ok::<Option<Seq<u8>>, Seq<char>>(None)),
{
}

/// Nothing is grafted into a file that goes on behind its media data.
pub proof fn grafting_refuses_trailing_data(s: Seq<u8>, donor: Seq<u8>, payload: Seq<u8>)
    requires
        donor_payload(donor) == Some(Ok::<Seq<u8>, Seq<char>>(payload)),
        payload.len() > 0,
        meta_and_mdat(s) matches Ok((_, mdat)) && mdat.data_end < s.len(),
        grafted(s, donor) is Some,
    ensures
        grafted(s, donor) matches Some(Err(_)),
{
}

// ---------------------------------------------------------------------------
// Replaced payloads
// ---------------------------------------------------------------------------

/// Whether `c` is an infe box of some item.
pub open spec fn says_some_item(c: Seq<u8>) -> bool {
    is_whole_box(c) && exists|it: ItemView| tells_item(c, it)
}

/// A box that is long enough for what is read of an item says an item.
proof fn lemma_long_infe(payload: Seq<u8>)
    requires
        12 <= payload.len(),
        payload.len() + 8 <= u32::MAX,
    ensures
        says_some_item(box_bytes(INFE@, payload)),
        be32(box_bytes(INFE@, payload), 0) != 0,
{
    let c = box_bytes(INFE@, payload);
    lemma_built_is_sized(INFE@, payload);
    let b = header_at(c, 0);
    assert(c.take(b.data_end) =~= c);
    lemma_copy_says_item(c, b);
    assert(bytes_of(c, b) =~= c);
    assert(tells_item(c, infe_at(c, b)->0));
}

proof fn lemma_renamed_infes(
    items: Seq<ItemView>,
    i: int,
    id: u32,
    name: Seq<char>,
    acc: Seq<Seq<u8>>,
    infes: Seq<Seq<u8>>,
)
    requires
        renamed_infes(items, i, id, name, acc) == Some(Ok::<Seq<Seq<u8>>, Seq<char>>(infes)),
        raw_items_tell(items, false),
        encode_utf8(name).len() >= 3,
        forall|k: int| 0 <= k < infes.len() ==> (#[trigger] infes[k]).len() <= u32::MAX,
        forall|k: int|
            0 <= k < acc.len() ==> says_some_item(#[trigger] acc[k]) && (k < items.len() - 1
                ==> be32(acc[k], 0) != 0),
        acc.len() == i,
        0 <= i <= items.len(),
    ensures
        infes.len() == items.len(),
        forall|k: int|
            0 <= k < infes.len() ==> says_some_item(#[trigger] infes[k]) && (k < infes.len() - 1
                ==> be32(infes[k], 0) != 0),
    decreases items.len() - i,
{
    if i < items.len() {
        let b = renamed_infe(items[i], id, name)->0->Ok_0;
        lemma_kept_infes(items, i + 1, id, name, acc.push(b), infes);
        assert(infes[acc.len() as int] == acc.push(b)[acc.len() as int]);
        assert(says_some_item(b) && (i < items.len() - 1 ==> be32(b, 0) != 0)) by {
            let it = items[i];
            assert(tells_item(it.raw_infe, it));
            if it.item_id == id {
                if starts_with(encode_utf8(it.itype), URI@) {
                    let raw = it.raw_infe;
                    let at = find_from(raw, URI_TYPE@, 0)->0;
                    let end = name_end(raw, at + 4, raw.len() as int);
                    let payload = raw.subrange(at - 8, at) + URI_TYPE@ + encode_utf8(name)
                        + seq![0u8] + raw.subrange(end + 1, raw.len() as int);
                    assert(b == box_bytes(INFE@, payload));
                    assert(b.len() == payload.len() + 8) by {
                        reveal(box_bytes);
                    }
                    lemma_name_end_from(raw, at + 4, raw.len() as int);
                    lemma_long_infe(payload);
                } else {
                    let payload = infe_head(id as int, it.flags as int) + encode_utf8(name)
                        + seq![0u8];
                    assert(b == box_bytes(INFE@, payload));
                    assert(b.len() == payload.len() + 8) by {
                        reveal(box_bytes);
                    }
                    lemma_long_infe(payload);
                }
            }
        }
        let next = acc.push(b);
        assert forall|k: int| 0 <= k < next.len() implies says_some_item(#[trigger] next[k]) && (k
            < items.len() - 1 ==> be32(next[k], 0) != 0) by {
            if k < acc.len() {
                assert(next[k] == acc[k]);
            }
        }
        lemma_renamed_infes(items, i + 1, id, name, next, infes);
    }
}

proof fn lemma_name_end_from(s: Seq<u8>, p: int, end: int)
    ensures
        p <= name_end(s, p, end),
    decreases end - p,
{
    if p < end && s[p] != 0 {
        lemma_name_end_from(s, p + 1, end);
    }
}

proof fn lemma_kept_infes(
    items: Seq<ItemView>,
    i: int,
    id: u32,
    name: Seq<char>,
    acc: Seq<Seq<u8>>,
    infes: Seq<Seq<u8>>,
)
    requires
        renamed_infes(items, i, id, name, acc) == Some(Ok::<Seq<Seq<u8>>, Seq<char>>(infes)),
    ensures
        acc.len() <= infes.len(),
        forall|k: int| 0 <= k < acc.len() ==> infes[k] == #[trigger] acc[k],
    decreases items.len() - i,
{
    if i < items.len() {
        let b = renamed_infe(items[i], id, name)->0->Ok_0;
        lemma_kept_infes(items, i + 1, id, name, acc.push(b), infes);
        assert forall|k: int| 0 <= k < acc.len() implies infes[k] == #[trigger] acc[k] by {
            assert(acc.push(b)[k] == acc[k]);
        }
    }
}

/// An iinf box after an item was renamed says items.
proof fn lemma_renamed_iinf(s: Seq<u8>, m: MetaView, id: u32, name: Seq<char>, c: Seq<u8>) -> (items:
    Seq<ItemView>)
    requires
        holds_metadata(s),
        source_meta(s) == Some(Ok::<MetaView, Seq<char>>(m)),
        renamed_iinf(m, id, Some(name)) == Some(Ok::<Option<Seq<u8>>, Seq<char>>(Some(c))),
        encode_utf8(name).len() >= 3,
    ensures
        c.len() <= u32::MAX ==> says_items(c, m.iinf_version, items),
{
    let infes = renamed_infes(m.items, 0, id, name, Seq::empty())->0->Ok_0;
    let items = Seq::new(infes.len(), |k: int| choose|it: ItemView| tells_item(infes[k], it));
    if c.len() <= u32::MAX {
        assert(flat(infes, as_is()).len() <= c.len()) by {
            reveal(box_bytes);
        }
        assert forall|k: int| 0 <= k < infes.len() implies (#[trigger] infes[k]).len()
            <= u32::MAX by {
            lemma_part_len(infes, k);
        }
        lemma_items_say(s, m);
        lemma_renamed_infes(m.items, 0, id, name, Seq::empty(), infes);
        assert forall|k: int| 0 <= k < infes.len() implies tells_item(
            #[trigger] infes[k],
            items[k],
        ) by {
            assert(says_some_item(infes[k]));
        }
        built_items(m.iinf_version, infes, items);
    }
    items
}

/// A payload that replaced that of an item is read back, byte for byte, whether the item
/// was renamed or not; the primary item, the properties and their associations stay.
pub proof fn replaced_payload_reads_back(
    s: Seq<u8>,
    m: MetaView,
    id: u32,
    name: Option<Seq<char>>,
    payload: Seq<u8>,
    t: Seq<u8>,
)
    requires
        holds_metadata(s),
        references_hold(s),
        source_meta(s) == Some(Ok::<MetaView, Seq<char>>(m)),
        id < 0x1_0000,
        own_location(m.iloc_entries, id),
        m.iloc_entries.len() < 0x1_0000,
        name matches Some(n) ==> encode_utf8(n).len() >= 3,
        with_item_payload(s, id, name, payload) == Some(Ok::<Seq<u8>, Seq<char>>(t)),
        t.len() <= u32::MAX,
    ensures
        source_meta(t) matches Some(Ok(n)) && {
            &&& first_where(n.iloc_entries, iloc_for(id)) matches Some(e) && item_payload_of(
                t,
                e,
                idat_box(t),
            ) == Ok::<Seq<u8>, Seq<char>>(payload)
            &&& n == (MetaView { iloc_entries: n.iloc_entries, items: n.items, ..m })
            &&& name is None ==> n.items == m.items
        },
{
    let (meta, mdat) = meta_and_mdat(s)->Ok_0;
    let iinf = renamed_iinf(m, id, name)->0->Ok_0;
    let items: Seq<ItemView> = match iinf {
        None => m.items,
        Some(c) => lemma_renamed_iinf(s, m, id, name->0, c),
    };
    lemma_iloc_index(m.iloc_entries, id, 0);
    written_payloads_stand(s, meta, mdat, m, id, payload, iinf, None, items, m.refs, t);
    let entries = claimed(m.iloc_entries, id, payload.len() as u64);
    let at = new_payload_start(s, meta, mdat, entries, iinf, None);
    let e = new_location(id, at, payload.len() as int);
    assert(e.extents =~= seq![(at as u64, payload.len() as u64)]);
    let end = at + payload.len();
    assert(Seq::<u8>::empty() + t.subrange(at, end) =~= payload);
    reveal_with_fuel(item_payload_from, 2);
    assert(item_payload_of(t, e, idat_box(t)) == Ok::<Seq<u8>, Seq<char>>(payload));
}

// ---------------------------------------------------------------------------
// Payloads that are left alone
// ---------------------------------------------------------------------------

/// Whether the `k`-th extent of a location names bytes of the media data.
pub open spec fn names_media(e: IlocView, k: int, mdat: BoxView) -> bool {
    &&& e.construction_method == 0
    &&& 0 <= k < e.extents.len()
    &&& mdat.data_start <= e.extents[k].0
    &&& e.extents[k].0 + e.extents[k].1 <= mdat.data_end
}

/// Whether an extent of `t` names the bytes that another names in `s`.
pub open spec fn same_bytes(s: Seq<u8>, x: (u64, u64), t: Seq<u8>, y: (u64, u64)) -> bool {
    &&& y.1 == x.1
    &&& y.0 + y.1 <= t.len()
    &&& t.subrange(y.0 as int, y.0 + y.1) == s.subrange(x.0 as int, x.0 + x.1)
}

proof fn lemma_media_stays(
    s: Seq<u8>,
    mdat: BoxView,
    e: IlocView,
    k: int,
    id: u32,
    offset: u64,
    length: u64,
    start: int,
    t: Seq<u8>,
)
    requires
        e.item_id != id,
        names_media(e, k, mdat),
        0 <= mdat.data_start,
        0 <= start,
        copied(s, mdat.data_start, mdat.data_end, t, start),
        t.len() <= u32::MAX,
    ensures
        ({
            let f = stored_location(relocated(e, id, offset, length, mdat.data_start, start));
            &&& f.construction_method == 0
            &&& same_bytes(s, e.extents[k], t, f.extents[k])
        }),
{
    let (o, l) = e.extents[k];
    let moved_to = o + start - mdat.data_start;
    lemma_copied_part(s, mdat.data_start, mdat.data_end, t, start, o as int, o + l);
    assert(0 <= moved_to && moved_to + l <= t.len());
    assert(moved(o, mdat.data_start, start) == moved_to);
}

/// Installing an Exif payload leaves the media of every other item as it was: each extent
/// that names bytes of the media data names the same bytes in the new file.
pub proof fn installed_exif_keeps_media(
    s: Seq<u8>,
    m: MetaView,
    payload: Seq<u8>,
    t: Seq<u8>,
    i: int,
    k: int,
)
    requires
        holds_metadata(s),
        source_meta(s) == Some(Ok::<MetaView, Seq<char>>(m)),
        exif_fits(s, m, payload),
        with_exif(s, payload) == Some(Ok::<Option<Seq<u8>>, Seq<char>>(Some(t))),
        t.len() <= u32::MAX,
        0 <= i < m.iloc_entries.len(),
        Some(m.iloc_entries[i].item_id) != exif_id(m.items),
        meta_and_mdat(s) matches Ok((_, mdat)) && names_media(m.iloc_entries[i], k, mdat),
    ensures
        source_meta(t) matches Some(Ok(n)) && {
            &&& i < n.iloc_entries.len()
            &&& n.iloc_entries[i].item_id == m.iloc_entries[i].item_id % 0x1_0000
            &&& n.iloc_entries[i].construction_method == 0
            &&& same_bytes(s, m.iloc_entries[i].extents[k], t, n.iloc_entries[i].extents[k])
        },
{
    let (meta, mdat) = meta_and_mdat(s)->Ok_0;
    let id = exif_id(m.items)->0;
    let iinf = exif_iinf(m, id);
    let iref = exif_iref(s, children_of(s), m, id);
    lemma_exif_boxes(s, m, id);
    written_payloads_stand(
        s,
        meta,
        mdat,
        m,
        id,
        payload,
        iinf,
        iref,
        items_with_exif(m, id),
        refs_with_exif(s, m, id),
        t,
    );
    let entries = claimed(m.iloc_entries, id, payload.len() as u64);
    let start = new_media_start(s, meta, mdat, entries, iinf, iref);
    let at = new_payload_start(s, meta, mdat, entries, iinf, iref);
    lemma_iloc_index(m.iloc_entries, id, 0);
    let e = m.iloc_entries[i];
    assert(entries[i] == e);
    lemma_media_stays(s, mdat, e, k, id, at as u64, payload.len() as u64, start, t);
}

/// Replacing the payload of an item leaves the media of every other item as it was: each
/// extent that names bytes of the media data names the same bytes in the new file.
pub proof fn replaced_payload_keeps_media(
    s: Seq<u8>,
    m: MetaView,
    id: u32,
    name: Option<Seq<char>>,
    payload: Seq<u8>,
    t: Seq<u8>,
    i: int,
    k: int,
)
    requires
        holds_metadata(s),
        references_hold(s),
        source_meta(s) == Some(Ok::<MetaView, Seq<char>>(m)),
        id < 0x1_0000,
        own_location(m.iloc_entries, id),
        m.iloc_entries.len() < 0x1_0000,
        name matches Some(n) ==> encode_utf8(n).len() >= 3,
        with_item_payload(s, id, name, payload) == Some(Ok::<Seq<u8>, Seq<char>>(t)),
        t.len() <= u32::MAX,
        0 <= i < m.iloc_entries.len(),
        m.iloc_entries[i].item_id != id,
        meta_and_mdat(s) matches Ok((_, mdat)) && names_media(m.iloc_entries[i], k, mdat),
    ensures
        source_meta(t) matches Some(Ok(n)) && {
            &&& i < n.iloc_entries.len()
            &&& n.iloc_entries[i].item_id == m.iloc_entries[i].item_id % 0x1_0000
            &&& n.iloc_entries[i].construction_method == 0
            &&& same_bytes(s, m.iloc_entries[i].extents[k], t, n.iloc_entries[i].extents[k])
        },
{
    let (meta, mdat) = meta_and_mdat(s)->Ok_0;
    let iinf = renamed_iinf(m, id, name)->0->Ok_0;
    let items: Seq<ItemView> = match iinf {
        None => m.items,
        Some(c) => lemma_renamed_iinf(s, m, id, name->0, c),
    };
    lemma_iloc_index(m.iloc_entries, id, 0);
    written_payloads_stand(s, meta, mdat, m, id, payload, iinf, None, items, m.refs, t);
    let entries = claimed(m.iloc_entries, id, payload.len() as u64);
    let start = new_media_start(s, meta, mdat, entries, iinf, None);
    let at = new_payload_start(s, meta, mdat, entries, iinf, None);
    let e = m.iloc_entries[i];
    assert(entries[i] == e);
    lemma_media_stays(s, mdat, e, k, id, at as u64, payload.len() as u64, start, t);
}

/// Whether the `k`-th extent of a location names bytes of the item data.
pub open spec fn names_item_data(e: IlocView, k: int, idat: BoxView) -> bool {
    &&& e.construction_method == 1
    &&& 0 <= k < e.extents.len()
    &&& e.extents[k].0 + e.extents[k].1 <= idat.data_end - idat.data_start
}

/// Whether an extent names the same bytes in the item data `c` of `t` as in `b` of `s`.
pub open spec fn same_item_data(
    s: Seq<u8>,
    b: BoxView,
    t: Seq<u8>,
    c: BoxView,
    x: (u64, u64),
) -> bool {
    &&& c.data_start + x.0 + x.1 <= c.data_end
    &&& t.subrange(c.data_start + x.0, c.data_start + x.0 + x.1) == s.subrange(
        b.data_start + x.0,
        b.data_start + x.0 + x.1,
    )
}

proof fn lemma_item_data_stays(
    s: Seq<u8>,
    b: BoxView,
    t: Seq<u8>,
    c: BoxView,
    e: IlocView,
    k: int,
    id: u32,
    offset: u64,
    length: u64,
    old_start: int,
    new_start: int,
)
    requires
        names_item_data(e, k, b),
        e.item_id != id,
        t.len() <= u32::MAX,
        0 <= b.data_start <= b.data_end <= s.len(),
        0 <= c.data_start <= c.data_end <= t.len(),
        t.subrange(c.data_start, c.data_end) == s.subrange(b.data_start, b.data_end),
    ensures
        ({
            let f = stored_location(relocated(e, id, offset, length, old_start, new_start));
            &&& f.construction_method == 1
            &&& f.extents[k] == e.extents[k]
            &&& same_item_data(s, b, t, c, e.extents[k])
        }),
{
    let (o, l) = e.extents[k];
    let n = b.data_end - b.data_start;
    assert(t.subrange(c.data_start, c.data_end).len() == n);
    assert(o <= n && l <= n);
    assert(t.subrange(c.data_start + o, c.data_start + o + l) =~= t.subrange(
        c.data_start,
        c.data_end,
    ).subrange(o as int, o + l));
    assert(s.subrange(b.data_start + o, b.data_start + o + l) =~= s.subrange(
        b.data_start,
        b.data_end,
    ).subrange(o as int, o + l));
}

/// Installing an Exif payload leaves the item data of every other item as they were: each
/// extent that names bytes of the item data names the same bytes in the new file.
pub proof fn installed_exif_keeps_item_data(
    s: Seq<u8>,
    m: MetaView,
    payload: Seq<u8>,
    t: Seq<u8>,
    b: BoxView,
    i: int,
    k: int,
)
    requires
        holds_metadata(s),
        source_meta(s) == Some(Ok::<MetaView, Seq<char>>(m)),
        exif_fits(s, m, payload),
        with_exif(s, payload) == Some(Ok::<Option<Seq<u8>>, Seq<char>>(Some(t))),
        t.len() <= u32::MAX,
        0 <= i < m.iloc_entries.len(),
        Some(m.iloc_entries[i].item_id) != exif_id(m.items),
        idat_box(s) == Some(b),
        names_item_data(m.iloc_entries[i], k, b),
    ensures
        source_meta(t) matches Some(Ok(n)) && idat_box(t) matches Some(c) && {
            &&& i < n.iloc_entries.len()
            &&& n.iloc_entries[i].item_id == m.iloc_entries[i].item_id % 0x1_0000
            &&& n.iloc_entries[i].construction_method == 1
            &&& n.iloc_entries[i].extents[k] == m.iloc_entries[i].extents[k]
            &&& same_item_data(s, b, t, c, m.iloc_entries[i].extents[k])
        },
{
    let (meta, mdat) = meta_and_mdat(s)->Ok_0;
    let id = exif_id(m.items)->0;
    let iinf = exif_iinf(m, id);
    let iref = exif_iref(s, children_of(s), m, id);
    let items = items_with_exif(m, id);
    let refs = refs_with_exif(s, m, id);
    lemma_exif_boxes(s, m, id);
    lemma_said_types(m.iinf_version, iinf, items, iref, refs);
    written_payloads_stand(s, meta, mdat, m, id, payload, iinf, iref, items, refs, t);
    written_item_data_stand(s, meta, mdat, m, id, payload, iinf, iref, t, b);
    let entries = claimed(m.iloc_entries, id, payload.len() as u64);
    let start = new_media_start(s, meta, mdat, entries, iinf, iref);
    let at = new_payload_start(s, meta, mdat, entries, iinf, iref);
    lemma_iloc_index(m.iloc_entries, id, 0);
    let e = m.iloc_entries[i];
    assert(entries[i] == e);
    lemma_item_data_stays(
        s,
        b,
        t,
        idat_box(t)->0,
        e,
        k,
        id,
        at as u64,
        payload.len() as u64,
        mdat.data_start,
        start,
    );
}

proof fn lemma_said_types(
    version: u8,
    iinf: Option<Seq<u8>>,
    items: Seq<ItemView>,
    iref: Option<Seq<u8>>,
    refs: Seq<IrefView>,
)
    requires
        iinf matches Some(c) ==> (c.len() <= u32::MAX ==> says_items(c, version, items)),
        iref matches Some(c) ==> (c.len() <= u32::MAX ==> says_references(c, refs)),
    ensures
        iinf matches Some(c) ==> (c.len() <= u32::MAX ==> is_box_of(c, IINF@)),
        iref matches Some(c) ==> (c.len() <= u32::MAX ==> is_box_of(c, IREF@)),
{
}

/// Replacing the payload of an item leaves the item data of every other item as they were:
/// each extent that names bytes of the item data names the same bytes in the new file.
pub proof fn replaced_payload_keeps_item_data(
    s: Seq<u8>,
    m: MetaView,
    id: u32,
    name: Option<Seq<char>>,
    payload: Seq<u8>,
    t: Seq<u8>,
    b: BoxView,
    i: int,
    k: int,
)
    requires
        holds_metadata(s),
        references_hold(s),
        source_meta(s) == Some(Ok::<MetaView, Seq<char>>(m)),
        id < 0x1_0000,
        own_location(m.iloc_entries, id),
        m.iloc_entries.len() < 0x1_0000,
        name matches Some(n) ==> encode_utf8(n).len() >= 3,
        with_item_payload(s, id, name, payload) == Some(Ok::<Seq<u8>, Seq<char>>(t)),
        t.len() <= u32::MAX,
        0 <= i < m.iloc_entries.len(),
        m.iloc_entries[i].item_id != id,
        idat_box(s) == Some(b),
        names_item_data(m.iloc_entries[i], k, b),
    ensures
        source_meta(t) matches Some(Ok(n)) && idat_box(t) matches Some(c) && {
            &&& i < n.iloc_entries.len()
            &&& n.iloc_entries[i].item_id == m.iloc_entries[i].item_id % 0x1_0000
            &&& n.iloc_entries[i].construction_method == 1
            &&& n.iloc_entries[i].extents[k] == m.iloc_entries[i].extents[k]
            &&& same_item_data(s, b, t, c, m.iloc_entries[i].extents[k])
        },
{
    let (meta, mdat) = meta_and_mdat(s)->Ok_0;
    let iinf = renamed_iinf(m, id, name)->0->Ok_0;
    let items: Seq<ItemView> = match iinf {
        None => m.items,
        Some(c) => lemma_renamed_iinf(s, m, id, name->0, c),
    };
    lemma_iloc_index(m.iloc_entries, id, 0);
    lemma_said_types(m.iinf_version, iinf, items, None, m.refs);
    written_payloads_stand(s, meta, mdat, m, id, payload, iinf, None, items, m.refs, t);
    written_item_data_stand(s, meta, mdat, m, id, payload, iinf, None, t, b);
    let entries = claimed(m.iloc_entries, id, payload.len() as u64);
    let start = new_media_start(s, meta, mdat, entries, iinf, None);
    let at = new_payload_start(s, meta, mdat, entries, iinf, None);
    let e = m.iloc_entries[i];
    assert(entries[i] == e);
    lemma_item_data_stays(
        s,
        b,
        t,
        idat_box(t)->0,
        e,
        k,
        id,
        at as u64,
        payload.len() as u64,
        mdat.data_start,
        start,
    );
}

} // verus!
