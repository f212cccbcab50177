//! What is read of a meta box that was built of parts.

use crate::bytes::{enc32, occurs_at};
use crate::fourcc::{IINF, ILOC, IPCO, IPMA, IPRP, IREF, META, PITM};
use crate::isobmff::{
    BoxView, IlocView, IpmaView, IrefView, ItemView, MetaView, as_is, box_bytes, boxes_in,
    first_box, iinf_at, iinf_bytes, iloc_at, iloc_bytes, infe_bytes, ipma_at, iref_bytes, pitm_at,
    pitm_bytes, properties_in, source_meta,
};
use crate::output_laws::{
    built_properties, iprp_payload, lemma_associations_said, properties_in_boxes,
};
use crate::reopened::{
    all_sized, all_whole, built_item_info, built_items, built_locations, built_primary,
    built_references, children_say, has_none_of, header_at, headers_at, is_first_of,
    lemma_built_is_sized, lemma_child_at, lemma_children_at, lemma_children_read_back,
    lemma_items_among, lemma_locations_among, lemma_no_header, lemma_part_len, lemma_primary_among,
    place_of, says_item, says_items, says_locations, says_primary, says_properties, says_references,
    sized_boxes_read_back, tells_items, tells_primary,
};
use crate::round_trip::{
    association_bytes, associations_fit, boxes_read_back, built_item, header_of,
    integers_of_32_bits_read_back, is_item_type, kept_id, kept_ids, kept_reference, kept_references,
    reference_fits, stored_extent, stored_extents, stored_location, stored_locations,
};
use crate::seqs::flat;
use vstd::prelude::*;

verus! {

/// The parts that a meta box is built of.
pub struct MetaParts {
    pub locations: Seq<IlocView>,
    pub iinf_version: u8,
    pub items: Seq<(u32, Seq<char>, u32)>,
    pub pitm_version: u8,
    pub primary_id: u32,
    pub props: Seq<Seq<u8>>,
    pub ipma_flags: u32,
    pub associations: Seq<IpmaView>,
    pub iref_version: u8,
    pub refs: Seq<IrefView>,
}

/// The infe boxes of items, each a number, a type and flags.
pub open spec fn infes_for(items: Seq<(u32, Seq<char>, u32)>) -> Seq<Seq<u8>> {
    Seq::new(items.len(), |i: int| infe_bytes(items[i].0 as int, items[i].1, items[i].2 as int))
}

/// Items as they are read, each a number, a type and flags.
pub open spec fn items_for(items: Seq<(u32, Seq<char>, u32)>) -> Seq<ItemView> {
    Seq::new(items.len(), |i: int| built_item(items[i].0, items[i].1, items[i].2))
}

/// The payload of an ipma box of associations.
pub open spec fn ipma_payload(flags: u32, entries: Seq<IpmaView>) -> Seq<u8> {
    enc32(flags as int) + enc32(entries.len() as int) + flat(
        entries,
        association_bytes(flags as int),
    )
}

/// An iprp box of properties and their associations.
pub open spec fn iprp_of(props: Seq<Seq<u8>>, flags: u32, entries: Seq<IpmaView>) -> Seq<u8> {
    box_bytes(IPRP@, iprp_payload(props, ipma_payload(flags, entries)))
}

/// Whether `c` is the first of its type among `boxes`.
pub open spec fn stands_first(boxes: Seq<Seq<u8>>, btype: Seq<u8>, c: Seq<u8>) -> bool {
    exists|i: int| is_first_of(boxes, btype, i) && boxes[i] == c
}

/// Whether `boxes` hold the parts, in whatever order and among whatever other boxes.
pub open spec fn hold_parts(boxes: Seq<Seq<u8>>, p: MetaParts) -> bool {
    &&& all_whole(boxes)
    &&& stands_first(boxes, ILOC@, iloc_bytes(p.locations))
    &&& stands_first(boxes, IINF@, iinf_bytes(p.iinf_version, infes_for(p.items)))
    &&& stands_first(boxes, PITM@, pitm_bytes(p.pitm_version, p.primary_id as int))
    &&& stands_first(boxes, IPRP@, iprp_of(p.props, p.ipma_flags, p.associations))
    &&& (has_none_of(boxes, IREF@) && p.refs.len() == 0) || stands_first(
        boxes,
        IREF@,
        iref_bytes(p.iref_version, p.refs),
    )
}

/// Whether each part can be counted and told in the fields that it is written in.
pub open spec fn parts_fit(p: MetaParts) -> bool {
    &&& p.locations.len() < 0x1_0000
    &&& forall|i: int|
        0 <= i < p.locations.len() ==> (#[trigger] p.locations[i]).extents.len() < 0x1_0000
    &&& forall|i: int|
        0 <= i < p.items.len() ==> (#[trigger] p.items[i]).0 < 0x1_0000 && is_item_type(
            p.items[i].1,
        ) && p.items[i].2 < 0x100_0000
    &&& all_sized(p.props)
    &&& p.ipma_flags < 0x100_0000
    &&& p.associations.len() <= u32::MAX
    &&& forall|i: int|
        0 <= i < p.associations.len() ==> associations_fit(
            #[trigger] p.associations[i],
            p.ipma_flags % 2 == 1,
        )
    &&& forall|i: int| 0 <= i < p.refs.len() ==> reference_fits(#[trigger] p.refs[i])
}

/// What a meta box says of the parts that it was built of.
pub open spec fn said_of(p: MetaParts) -> MetaView {
    MetaView {
        primary_id: kept_id(p.primary_id, p.pitm_version >= 1),
        pitm_version: p.pitm_version,
        iinf_version: p.iinf_version,
        items: items_for(p.items),
        iloc_entries: stored_locations(p.locations),
        props: properties_in_boxes(p.props),
        ipma_flags: p.ipma_flags,
        ipma_entries: p.associations,
        refs: kept_references(p.refs, p.iref_version >= 1),
    }
}

proof fn lemma_items_built(version: u8, items: Seq<(u32, Seq<char>, u32)>)
    requires
        forall|i: int|
            0 <= i < items.len() ==> (#[trigger] items[i]).0 < 0x1_0000 && is_item_type(items[i].1)
                && items[i].2 < 0x100_0000,
        iinf_bytes(version, infes_for(items)).len() <= u32::MAX,
    ensures
        says_items(iinf_bytes(version, infes_for(items)), version, items_for(items)),
{
    let infes = infes_for(items);
    let views = items_for(items);
    assert forall|k: int| 0 <= k < infes.len() implies says_item(#[trigger] infes[k], views[k]) by {
        assert(items[k].0 < 0x1_0000);
        built_item_info(items[k].0, items[k].1, items[k].2);
    }
    built_items(version, infes, views);
}

proof fn lemma_properties_built(props: Seq<Seq<u8>>, flags: u32, entries: Seq<IpmaView>)
    requires
        all_sized(props),
        flags < 0x100_0000,
        entries.len() <= u32::MAX,
        forall|i: int|
            0 <= i < entries.len() ==> associations_fit(#[trigger] entries[i], flags % 2 == 1),
        iprp_of(props, flags, entries).len() <= u32::MAX,
    ensures
        says_properties(
            iprp_of(props, flags, entries),
            properties_in_boxes(props),
            flags,
            entries,
        ),
{
    let ipma = ipma_payload(flags, entries);
    lemma_ipma_said(flags, entries);
    built_properties(props, ipma, flags, entries);
}

proof fn lemma_parts_said(boxes: Seq<Seq<u8>>, p: MetaParts)
    requires
        hold_parts(boxes, p),
        parts_fit(p),
        flat(boxes, as_is()).len() <= u32::MAX,
    ensures
        children_say(boxes, said_of(p)),
{
    let m = said_of(p);
    assert forall|i: int| 0 <= i < boxes.len() implies (#[trigger] boxes[i]).len() <= u32::MAX by {
        lemma_part_len(boxes, i);
    }
    let a = choose|i: int| is_first_of(boxes, ILOC@, i) && boxes[i] == iloc_bytes(p.locations);
    built_locations(p.locations);
    assert(is_first_of(boxes, ILOC@, a) && says_locations(boxes[a], m.iloc_entries));
    let b = choose|i: int|
        is_first_of(boxes, IINF@, i) && boxes[i] == iinf_bytes(p.iinf_version, infes_for(p.items));
    lemma_items_built(p.iinf_version, p.items);
    assert(is_first_of(boxes, IINF@, b) && says_items(boxes[b], m.iinf_version, m.items));
    let c = choose|i: int|
        is_first_of(boxes, PITM@, i) && boxes[i] == pitm_bytes(p.pitm_version, p.primary_id as int);
    built_primary(p.pitm_version, p.primary_id);
    assert(is_first_of(boxes, PITM@, c) && says_primary(boxes[c], m.pitm_version, m.primary_id));
    let d = choose|i: int|
        is_first_of(boxes, IPRP@, i) && boxes[i] == iprp_of(p.props, p.ipma_flags, p.associations);
    lemma_properties_built(p.props, p.ipma_flags, p.associations);
    assert(is_first_of(boxes, IPRP@, d) && says_properties(
        boxes[d],
        m.props,
        m.ipma_flags,
        m.ipma_entries,
    ));
    if stands_first(boxes, IREF@, iref_bytes(p.iref_version, p.refs)) {
        let e = choose|i: int|
            is_first_of(boxes, IREF@, i) && boxes[i] == iref_bytes(p.iref_version, p.refs);
        built_references(p.iref_version, p.refs);
        assert(is_first_of(boxes, IREF@, e) && says_references(boxes[e], m.refs));
    }
    reveal(children_say);
}

/// Whether the first metadata of a file are a meta box at `at` with these children.
pub open spec fn has_children(t: Seq<u8>, at: int, head: Seq<u8>, boxes: Seq<Seq<u8>>) -> bool {
    &&& t.len() <= usize::MAX
    &&& head.len() == 4
    &&& flat(boxes, as_is()).len() + 12 <= u32::MAX
    &&& occurs_at(t, box_bytes(META@, head + flat(boxes, as_is())), at)
    &&& first_box(boxes_in(t, 0, t.len() as int), META@) == Some(
        header_of(META@, 4 + flat(boxes, as_is()).len() as int, at),
    )
}

/// A meta box that was built of parts, its children in any order, reads back as those parts:
/// each as it is left in the fields that it is written in.
pub proof fn built_metadata_reads_back(
    t: Seq<u8>,
    at: int,
    head: Seq<u8>,
    boxes: Seq<Seq<u8>>,
    p: MetaParts,
)
    requires
        has_children(t, at, head, boxes),
        hold_parts(boxes, p),
        parts_fit(p),
    ensures
        source_meta(t) == Some(Ok::<MetaView, Seq<char>>(said_of(p))),
{
    lemma_parts_said(boxes, p);
    lemma_children_read_back(t, at, head, boxes, said_of(p));
}

/// Whether each number of the parts is kept in the field that it is written in.
#[verifier::opaque]
pub open spec fn numbers_fit(p: MetaParts) -> bool {
    &&& p.primary_id < 0x1_0000 || p.pitm_version >= 1
    &&& forall|i: int|
        0 <= i < p.locations.len() ==> (#[trigger] p.locations[i]).item_id < 0x1_0000
            && p.locations[i].construction_method < 0x10
    &&& forall|i: int, k: int|
        0 <= i < p.locations.len() && 0 <= k < p.locations[i].extents.len() ==> (
        #[trigger] p.locations[i].extents[k]).0 <= u32::MAX && p.locations[i].extents[k].1
            <= u32::MAX
    &&& p.iref_version >= 1 || forall|i: int|
        0 <= i < p.refs.len() ==> (#[trigger] p.refs[i]).from < 0x1_0000
    &&& p.iref_version >= 1 || forall|i: int, k: int|
        0 <= i < p.refs.len() && 0 <= k < p.refs[i].to.len() ==> #[trigger] p.refs[i].to[k]
            < 0x1_0000
}

/// Whether `m` says the parts as they are: the primary item, the locations, the items, the
/// references and the associations, and of each property its place, counted from one, and
/// the bytes of its box.
pub open spec fn says_unchanged(m: MetaView, p: MetaParts) -> bool {
    &&& m.primary_id == p.primary_id
    &&& m.iloc_entries == p.locations
    &&& m.items == items_for(p.items)
    &&& m.refs == p.refs
    &&& m.ipma_entries == p.associations
    &&& m.props.len() == p.props.len()
    &&& forall|i: int|
        0 <= i < p.props.len() ==> (#[trigger] m.props[i]).raw == p.props[i] && (i < u32::MAX
            ==> m.props[i].index == i + 1)
}

proof fn lemma_unchanged(p: MetaParts)
    requires
        numbers_fit(p),
    ensures
        says_unchanged(said_of(p), p),
{
    reveal(numbers_fit);
    lemma_locations_kept(p.locations);
    lemma_references_kept(p.refs, p.iref_version >= 1);
}

/// A meta box whose numbers fit the fields that they are written in reads back exactly as it
/// was built, its children in any order.
pub proof fn fitting_metadata_read_back_unchanged(
    t: Seq<u8>,
    at: int,
    head: Seq<u8>,
    boxes: Seq<Seq<u8>>,
    p: MetaParts,
)
    requires
        has_children(t, at, head, boxes),
        hold_parts(boxes, p),
        parts_fit(p),
        numbers_fit(p),
    ensures
        source_meta(t) matches Some(Ok(m)) && says_unchanged(m, p),
{
    built_metadata_reads_back(t, at, head, boxes, p);
    lemma_unchanged(p);
}

proof fn lemma_locations_kept(locations: Seq<IlocView>)
    requires
        forall|i: int|
            0 <= i < locations.len() ==> (#[trigger] locations[i]).item_id < 0x1_0000
                && locations[i].construction_method < 0x10,
        forall|i: int, k: int|
            0 <= i < locations.len() && 0 <= k < locations[i].extents.len() ==> (
            #[trigger] locations[i].extents[k]).0 <= u32::MAX && locations[i].extents[k].1
                <= u32::MAX,
    ensures
        stored_locations(locations) == locations,
{
    assert forall|i: int| 0 <= i < locations.len() implies #[trigger] stored_location(locations[i])
        == locations[i] by {
        let x = locations[i].extents;
        assert forall|k: int| 0 <= k < x.len() implies stored_extent(#[trigger] x[k]) == x[k] by {
            assert(locations[i].extents[k].0 <= u32::MAX);
        }
        assert(stored_extents(x) =~= x);
    }
    assert(stored_locations(locations) =~= locations);
}

proof fn lemma_references_kept(refs: Seq<IrefView>, wide: bool)
    requires
        wide || forall|i: int| 0 <= i < refs.len() ==> (#[trigger] refs[i]).from < 0x1_0000,
        wide || forall|i: int, k: int|
            0 <= i < refs.len() && 0 <= k < refs[i].to.len() ==> #[trigger] refs[i].to[k]
                < 0x1_0000,
    ensures
        kept_references(refs, wide) == refs,
{
    assert forall|i: int| 0 <= i < refs.len() implies #[trigger] kept_reference(refs[i], wide)
        == refs[i] by {
        let ids = refs[i].to;
        assert forall|k: int| 0 <= k < ids.len() implies kept_id(#[trigger] ids[k], wide)
            == ids[k] by {
            assert(wide || refs[i].to[k] < 0x1_0000);
        }
        assert(kept_ids(ids, wide) =~= ids);
    }
    assert(kept_references(refs, wide) =~= refs);
}

/// A meta box that was built without locations, items, a primary item or properties is an
/// error.
pub proof fn built_metadata_lacking_a_box_are_refused(
    t: Seq<u8>,
    at: int,
    head: Seq<u8>,
    boxes: Seq<Seq<u8>>,
)
    requires
        has_children(t, at, head, boxes),
        all_whole(boxes),
        has_none_of(boxes, ILOC@) || has_none_of(boxes, IINF@) || has_none_of(boxes, PITM@)
            || has_none_of(boxes, IPRP@),
    ensures
        source_meta(t) matches Some(Err(_)),
{
    let q = at + 12;
    lemma_children_at(t, at, head, boxes);
    if has_none_of(boxes, ILOC@) {
        lemma_no_header(boxes, q, ILOC@);
    } else if has_none_of(boxes, IINF@) {
        lemma_no_header(boxes, q, IINF@);
    } else if has_none_of(boxes, PITM@) {
        lemma_no_header(boxes, q, PITM@);
    } else {
        lemma_no_header(boxes, q, IPRP@);
    }
}

/// Whether there are no associations among the children of an iprp box, or these
/// associations and no properties.
#[verifier::opaque]
pub open spec fn lack_a_box(inner: Seq<Seq<u8>>, flags: u32, entries: Seq<IpmaView>) -> bool {
    &&& all_whole(inner)
    &&& has_none_of(inner, IPMA@) || (has_none_of(inner, IPCO@) && stands_first(
        inner,
        IPMA@,
        box_bytes(IPMA@, ipma_payload(flags, entries)),
    ))
}

/// A meta box that was built with an iprp box of the children `inner`, among which are no
/// properties or no associations, is an error.
pub proof fn built_properties_lacking_a_box_are_refused(
    t: Seq<u8>,
    at: int,
    head: Seq<u8>,
    boxes: Seq<Seq<u8>>,
    inner: Seq<Seq<u8>>,
    p: MetaParts,
)
    requires
        has_children(t, at, head, boxes),
        all_whole(boxes),
        stands_first(boxes, ILOC@, iloc_bytes(p.locations)),
        stands_first(boxes, IINF@, iinf_bytes(p.iinf_version, infes_for(p.items))),
        stands_first(boxes, PITM@, pitm_bytes(p.pitm_version, p.primary_id as int)),
        stands_first(boxes, IPRP@, box_bytes(IPRP@, flat(inner, as_is()))),
        parts_fit(p),
        lack_a_box(inner, p.ipma_flags, p.associations),
    ensures
        source_meta(t) matches Some(Err(_)),
{
    lemma_children_at(t, at, head, boxes);
    lemma_kids_lack(t, at + 12, boxes, inner, p);
    lemma_refused(t, header_of(META@, 4 + flat(boxes, as_is()).len() as int, at));
}

/// Whether children have all of their boxes, but the properties lack one of theirs.
#[verifier::opaque]
spec fn kids_lack(t: Seq<u8>, kids: Seq<BoxView>) -> bool {
    &&& first_box(kids, ILOC@) matches Some(b) && iloc_at(t, b.data_start) is Some
    &&& first_box(kids, IINF@) matches Some(b) && iinf_at(t, b) is Some
    &&& first_box(kids, PITM@) matches Some(b) && pitm_at(t, b.data_start) is Some
    &&& first_box(kids, IPRP@) matches Some(b) && properties_lack(t, b)
}

/// Properties that lack a box of theirs are an error of the metadata.
proof fn lemma_refused(t: Seq<u8>, meta: BoxView)
    requires
        first_box(boxes_in(t, 0, t.len() as int), META@) == Some(meta),
        kids_lack(t, boxes_in(t, meta.data_start + 4, meta.data_end)),
    ensures
        source_meta(t) matches Some(Err(_)),
{
    reveal(kids_lack);
}

#[verifier::rlimit(60)]
proof fn lemma_kids_lack(
    t: Seq<u8>,
    q: int,
    boxes: Seq<Seq<u8>>,
    inner: Seq<Seq<u8>>,
    p: MetaParts,
)
    requires
        t.len() <= usize::MAX,
        all_whole(boxes),
        occurs_at(t, flat(boxes, as_is()), q),
        flat(boxes, as_is()).len() <= u32::MAX,
        stands_first(boxes, ILOC@, iloc_bytes(p.locations)),
        stands_first(boxes, IINF@, iinf_bytes(p.iinf_version, infes_for(p.items))),
        stands_first(boxes, PITM@, pitm_bytes(p.pitm_version, p.primary_id as int)),
        stands_first(boxes, IPRP@, box_bytes(IPRP@, flat(inner, as_is()))),
        parts_fit(p),
        lack_a_box(inner, p.ipma_flags, p.associations),
    ensures
        kids_lack(t, headers_at(boxes, q)),
{
    reveal(kids_lack);
    assert forall|i: int| 0 <= i < boxes.len() implies (#[trigger] boxes[i]).len() <= u32::MAX by {
        lemma_part_len(boxes, i);
    }
    lemma_other_parts(t, q, boxes, p);
    let c = box_bytes(IPRP@, flat(inner, as_is()));
    let d = choose|i: int| is_first_of(boxes, IPRP@, i) && boxes[i] == c;
    lemma_child_at(t, q, boxes, IPRP@, d);
    lemma_iprp_lacks(t, place_of(boxes, q, d), inner, p.ipma_flags, p.associations);
}

/// Whether an iprp box has no ipma box, or no ipco box beside one that can be read.
spec fn properties_lack(t: Seq<u8>, iprp: BoxView) -> bool {
    match first_box(boxes_in(t, iprp.data_start, iprp.data_end), IPMA@) {
        None => true,
        Some(ipma) => ipma_at(t, ipma.data_start) is Some && properties_in(t, iprp) is None,
    }
}

#[verifier::rlimit(60)]
proof fn lemma_iprp_lacks(
    t: Seq<u8>,
    x: int,
    inner: Seq<Seq<u8>>,
    flags: u32,
    entries: Seq<IpmaView>,
)
    requires
        box_bytes(IPRP@, flat(inner, as_is())).len() <= u32::MAX,
        occurs_at(t, box_bytes(IPRP@, flat(inner, as_is())), x),
        flags < 0x100_0000,
        entries.len() <= u32::MAX,
        forall|i: int|
            0 <= i < entries.len() ==> associations_fit(#[trigger] entries[i], flags % 2 == 1),
        lack_a_box(inner, flags, entries),
    ensures
        properties_lack(t, header_at(box_bytes(IPRP@, flat(inner, as_is())), x)),
{
    reveal(lack_a_box);
    let run = flat(inner, as_is());
    assert(box_bytes(IPRP@, run).len() == 8 + run.len()) by {
        reveal(box_bytes);
    }
    lemma_built_is_sized(IPRP@, run);
    boxes_read_back(t, x, x + 8 + run.len(), IPRP@, run);
    sized_boxes_read_back(t, x + 8, inner);
    if has_none_of(inner, IPMA@) {
        lemma_no_header(inner, x + 8, IPMA@);
    } else {
        lemma_no_header(inner, x + 8, IPCO@);
        lemma_ipma_found(t, x + 8, inner, flags, entries);
    }
}

/// The associations among the children of an iprp box can be read.
proof fn lemma_ipma_found(
    t: Seq<u8>,
    q: int,
    inner: Seq<Seq<u8>>,
    flags: u32,
    entries: Seq<IpmaView>,
)
    requires
        all_whole(inner),
        flat(inner, as_is()).len() <= u32::MAX,
        occurs_at(t, flat(inner, as_is()), q),
        flags < 0x100_0000,
        entries.len() <= u32::MAX,
        forall|i: int|
            0 <= i < entries.len() ==> associations_fit(#[trigger] entries[i], flags % 2 == 1),
        stands_first(inner, IPMA@, box_bytes(IPMA@, ipma_payload(flags, entries))),
    ensures
        first_box(headers_at(inner, q), IPMA@) matches Some(b) && ipma_at(t, b.data_start) is Some,
{
    let ipma = ipma_payload(flags, entries);
    let e = choose|i: int| is_first_of(inner, IPMA@, i) && inner[i] == box_bytes(IPMA@, ipma);
    let y = place_of(inner, q, e);
    lemma_child_at(t, q, inner, IPMA@, e);
    lemma_part_len(inner, e);
    assert(box_bytes(IPMA@, ipma).len() == 8 + ipma.len()) by {
        reveal(box_bytes);
    }
    lemma_built_is_sized(IPMA@, ipma);
    boxes_read_back(t, y, y + 8 + ipma.len(), IPMA@, ipma);
    lemma_ipma_said(flags, entries);
    assert(ipma_at(t, y + 8) == Some((flags, entries)));
}

proof fn lemma_ipma_said(flags: u32, entries: Seq<IpmaView>)
    requires
        flags < 0x100_0000,
        entries.len() <= u32::MAX,
        forall|i: int|
            0 <= i < entries.len() ==> associations_fit(#[trigger] entries[i], flags % 2 == 1),
    ensures
        forall|r: Seq<u8>, y: int| #[trigger]
            occurs_at(r, ipma_payload(flags, entries), y) ==> ipma_at(r, y) == Some(
                (flags, entries),
            ),
{
    let head = enc32(flags as int);
    assert(head.subrange(0, head.len() as int) =~= head);
    integers_of_32_bits_read_back(head, 0, flags as int);
    lemma_associations_said(head, flags, entries);
}

/// The locations, the items and the primary item among children are those of the parts.
proof fn lemma_other_parts(t: Seq<u8>, q: int, boxes: Seq<Seq<u8>>, p: MetaParts)
    requires
        t.len() <= usize::MAX,
        all_whole(boxes),
        occurs_at(t, flat(boxes, as_is()), q),
        forall|i: int| 0 <= i < boxes.len() ==> (#[trigger] boxes[i]).len() <= u32::MAX,
        stands_first(boxes, ILOC@, iloc_bytes(p.locations)),
        stands_first(boxes, IINF@, iinf_bytes(p.iinf_version, infes_for(p.items))),
        stands_first(boxes, PITM@, pitm_bytes(p.pitm_version, p.primary_id as int)),
        parts_fit(p),
    ensures
        first_box(headers_at(boxes, q), ILOC@) matches Some(b) && iloc_at(t, b.data_start) is Some,
        first_box(headers_at(boxes, q), IINF@) matches Some(b) && iinf_at(t, b) is Some,
        first_box(headers_at(boxes, q), PITM@) matches Some(b) && pitm_at(t, b.data_start) is Some,
{
    let m = said_of(p);
    let a = choose|i: int| is_first_of(boxes, ILOC@, i) && boxes[i] == iloc_bytes(p.locations);
    built_locations(p.locations);
    assert(is_first_of(boxes, ILOC@, a) && says_locations(boxes[a], m.iloc_entries));
    lemma_locations_among(t, q, boxes, m.iloc_entries);
    let b = choose|i: int|
        is_first_of(boxes, IINF@, i) && boxes[i] == iinf_bytes(p.iinf_version, infes_for(p.items));
    lemma_items_built(p.iinf_version, p.items);
    assert(is_first_of(boxes, IINF@, b) && tells_items(boxes[b], m.iinf_version, m.items));
    lemma_items_among(t, q, boxes, m.iinf_version, m.items);
    let c = choose|i: int|
        is_first_of(boxes, PITM@, i) && boxes[i] == pitm_bytes(p.pitm_version, p.primary_id as int);
    built_primary(p.pitm_version, p.primary_id);
    assert(is_first_of(boxes, PITM@, c) && tells_primary(boxes[c], m.pitm_version, m.primary_id));
    lemma_primary_among(t, q, boxes, m.pitm_version, m.primary_id);
}

/// Whether a file lacks its metadata or one of the boxes that they are made of.
pub open spec fn lacks_part(s: Seq<u8>) -> bool {
    match first_box(boxes_in(s, 0, s.len() as int), META@) {
        None => true,
        Some(meta) => {
            let kids = boxes_in(s, meta.data_start + 4, meta.data_end);
            ||| first_box(kids, ILOC@) is None
            ||| first_box(kids, IINF@) is None
            ||| first_box(kids, PITM@) is None
            ||| match first_box(kids, IPRP@) {
                None => true,
                Some(iprp) => {
                    let inner = boxes_in(s, iprp.data_start, iprp.data_end);
                    first_box(inner, IPCO@) is None || first_box(inner, IPMA@) is None
                },
            }
        },
    }
}

/// Metadata that lack one of their boxes are an error, and never a part of them; where they
/// are cut short as well, nothing is read of them at all.
pub proof fn incomplete_metadata_are_refused(s: Seq<u8>)
    requires
        lacks_part(s),
    ensures
        source_meta(s) is None || source_meta(s) matches Some(Err(_)),
        first_box(boxes_in(s, 0, s.len() as int), META@) is None ==> source_meta(s) matches Some(
            Err(_),
        ),
        first_box(boxes_in(s, 0, s.len() as int), META@) matches Some(meta) ==> {
            let kids = boxes_in(s, meta.data_start + 4, meta.data_end);
            (first_box(kids, ILOC@) is None || first_box(kids, IINF@) is None || first_box(
                kids,
                PITM@,
            ) is None || first_box(kids, IPRP@) is None) ==> source_meta(s) matches Some(Err(_))
        },
{
}

} // verus!
