use crate::bytes::{contains_bytes, find_from, int16, int32, lemma_find_from_some, occurs_at};
use crate::class_laws::{lemma_tiff_begins, tiff_begins};
use crate::exif::OppoCompat;
use crate::fourcc::{AUXC, FTYP, HVCC, IINF, IPCO, IPRP, IREF, MDAT, META};
use crate::inspect::{
    HAIR_MATTE, LIGHTING_EFFECT, METADATA, PORTRAIT_MATTE, SKIN_MATTE, STYLE_METADATA, derives_some,
    file_thumbnail, first_jpeg, heif_container, is_gain_map_auxc, is_style_item, is_uri_style_item,
    iso_gain_map, marks_auxiliary, portrait_graph, promotion_fault, restyled, style_payload,
    thumbnail_entries, thumbnail_of, tiff_thumbnail,
};
use crate::isobmff::{
    BRAND_TMAP, BoxView, GAIN_MAP_URN, IrefView, ItemView, MetaView, associated, boxes_in,
    carries_gain_map, derives, first_box, iinf_at, ipma_for, iref_at, is_420, is_iso_auxiliary,
    is_tile, lossy_420, lossy_gain_map, marks_gain_map, of_type, property_is, source_meta,
};
use crate::isobmff_write::{URI, idat_box, with_item_payload};
use crate::items::{iloc_for, item_typed};
use crate::jpeg_decode::SOI_MARKER;
use crate::seqs::{
    first_where, lemma_first_where_at, lemma_first_where_has, lemma_first_where_none,
};
use crate::validate_laws::{associations_stand, location_stands};
use vstd::prelude::*;
use vstd::string::*;
use vstd::utf8::*;

verus! {

// ---------------------------------------------------------------------------
// Boxes and names
// ---------------------------------------------------------------------------

/// The box at place `i` is the first of its type.
pub open spec fn first_box_at(boxes: Seq<BoxView>, btype: Seq<u8>, i: int) -> bool {
    &&& 0 <= i < boxes.len()
    &&& boxes[i].btype == btype
    &&& forall|j: int| 0 <= j < i ==> (#[trigger] boxes[j]).btype != btype
}

/// A box of the type is there.
pub open spec fn box_is_there(boxes: Seq<BoxView>, btype: Seq<u8>) -> bool {
    exists|i: int| #[trigger] first_box_at(boxes, btype, i)
}

proof fn lemma_first_box(boxes: Seq<BoxView>, btype: Seq<u8>)
    ensures
        first_box(boxes, btype) is Some <==> box_is_there(boxes, btype),
        forall|i: int| #[trigger]
            first_box_at(boxes, btype, i) ==> first_box(boxes, btype) == Some(boxes[i]),
{
    let p = of_type(btype);
    assert forall|i: int| #[trigger] first_box_at(boxes, btype, i) implies first_box(boxes, btype) == Some(
        boxes[i],
    ) by {
        lemma_first_where_at(boxes, p, i);
    }
    if first_box(boxes, btype) is Some {
        lemma_first_where_has(boxes, p);
        let k = choose|k: int| 0 <= k < boxes.len() && #[trigger] boxes[k] == first_where(boxes, p)->0;
        lemma_least_box(boxes, btype, 0, k);
    }
}

proof fn lemma_least_box(boxes: Seq<BoxView>, btype: Seq<u8>, from: int, k: int)
    requires
        0 <= from <= k < boxes.len(),
        boxes[k].btype == btype,
        forall|j: int| 0 <= j < from ==> (#[trigger] boxes[j]).btype != btype,
    ensures
        box_is_there(boxes, btype),
    decreases k - from,
{
    if boxes[from].btype == btype {
        assert(first_box_at(boxes, btype, from));
    } else {
        lemma_least_box(boxes, btype, from + 1, k);
    }
}

/// The texts that mark gain maps, portraits and styles.
pub proof fn marks_have_their_names()
    ensures
        GAIN_MAP_URN@ == encode_utf8("urn:iso:std:iso:ts:21496:-1"@),
        PORTRAIT_MATTE@ == encode_utf8("portraiteffectsmatte"@),
        SKIN_MATTE@ == encode_utf8("semanticskinmatte"@),
        HAIR_MATTE@ == encode_utf8("semantichairmatte"@),
        LIGHTING_EFFECT@ == encode_utf8("portraitLightingEffect"@),
        STYLE_METADATA@ == encode_utf8("styleMetadata"@),
        METADATA@ == encode_utf8("metadata"@),
        URI@ == encode_utf8("uri"@),
        BRAND_TMAP@ == encode_utf8("tmap"@),
{
    reveal_strlit("urn:iso:std:iso:ts:21496:-1");
    reveal_strlit("portraiteffectsmatte");
    reveal_strlit("semanticskinmatte");
    reveal_strlit("semantichairmatte");
    reveal_strlit("portraitLightingEffect");
    reveal_strlit("styleMetadata");
    reveal_strlit("metadata");
    reveal_strlit("uri");
    reveal_strlit("tmap");
    is_ascii_chars_encode_utf8("urn:iso:std:iso:ts:21496:-1"@);
    is_ascii_chars_encode_utf8("portraiteffectsmatte"@);
    is_ascii_chars_encode_utf8("semanticskinmatte"@);
    is_ascii_chars_encode_utf8("semantichairmatte"@);
    is_ascii_chars_encode_utf8("portraitLightingEffect"@);
    is_ascii_chars_encode_utf8("styleMetadata"@);
    is_ascii_chars_encode_utf8("metadata"@);
    is_ascii_chars_encode_utf8("uri"@);
    is_ascii_chars_encode_utf8("tmap"@);
    assert(GAIN_MAP_URN@ =~= encode_utf8("urn:iso:std:iso:ts:21496:-1"@));
    assert(PORTRAIT_MATTE@ =~= encode_utf8("portraiteffectsmatte"@));
    assert(SKIN_MATTE@ =~= encode_utf8("semanticskinmatte"@));
    assert(HAIR_MATTE@ =~= encode_utf8("semantichairmatte"@));
    assert(LIGHTING_EFFECT@ =~= encode_utf8("portraitLightingEffect"@));
    assert(STYLE_METADATA@ =~= encode_utf8("styleMetadata"@));
    assert(METADATA@ =~= encode_utf8("metadata"@));
    assert(URI@ =~= encode_utf8("uri"@));
    assert(BRAND_TMAP@ =~= encode_utf8("tmap"@));
}

/// A text stands somewhere in the data.
pub open spec fn holds_text(s: Seq<u8>, text: Seq<char>) -> bool {
    exists|i: int, j: int| 0 <= i <= j <= s.len() && #[trigger] s.subrange(i, j) == encode_utf8(text)
}

proof fn lemma_holds(s: Seq<u8>, text: Seq<char>)
    ensures
        contains_bytes(s, encode_utf8(text)) <==> holds_text(s, text),
{
    let b = encode_utf8(text);
    if contains_bytes(s, b) {
        let i = choose|i: int| #[trigger] occurs_at(s, b, i);
        assert(s.subrange(i, i + b.len()) == b);
    }
    if holds_text(s, text) {
        let (i, j) = choose|i: int, j: int| 0 <= i <= j <= s.len() && #[trigger] s.subrange(i, j) == b;
        assert(s.subrange(i, j).len() == j - i);
        assert(occurs_at(s, b, i));
    }
}

// ---------------------------------------------------------------------------
// Containers and gain maps
// ---------------------------------------------------------------------------

/// A file is a HEIF container just where it has a file type box, a metadata box that can be read, and a
/// media data box.
pub proof fn containers_have_their_boxes(s: Seq<u8>)
    ensures
        ({
            let top = boxes_in(s, 0, s.len() as int);
            let all = box_is_there(top, seq![0x66u8, 0x74, 0x79, 0x70]) && box_is_there(
                top,
                seq![0x6du8, 0x65, 0x74, 0x61],
            ) && box_is_there(top, seq![0x6du8, 0x64, 0x61, 0x74]);
            &&& (heif_container(s) == Some(true) <==> all && (source_meta(s) matches Some(Ok(_))))
            &&& !all ==> heif_container(s) == Some(false)
            &&& heif_container(s) is None <==> all && source_meta(s) is None
        }),
{
    let top = boxes_in(s, 0, s.len() as int);
    assert(FTYP@ =~= seq![0x66u8, 0x74, 0x79, 0x70]);
    assert(META@ =~= seq![0x6du8, 0x65, 0x74, 0x61]);
    assert(MDAT@ =~= seq![0x6du8, 0x64, 0x61, 0x74]);
    lemma_first_box(top, FTYP@);
    lemma_first_box(top, META@);
    lemma_first_box(top, MDAT@);
}

/// The property at place `c` of the properties at place `b` of the item properties at place `a` is an
/// auxiliary type that names an ISO gain map.
pub open spec fn names_gain_map(s: Seq<u8>, kids: Seq<BoxView>, a: int, b: int, c: int) -> bool {
    let inner = boxes_in(s, kids[a].data_start, kids[a].data_end);
    let props = boxes_in(s, inner[b].data_start, inner[b].data_end);
    &&& first_box_at(kids, seq![0x69u8, 0x70, 0x72, 0x70], a)
    &&& first_box_at(inner, seq![0x69u8, 0x70, 0x63, 0x6f], b)
    &&& 0 <= c < props.len()
    &&& props[c].btype == seq![0x61u8, 0x75, 0x78, 0x43]
    &&& holds_text(s.subrange(props[c].data_start, props[c].data_end), "urn:iso:std:iso:ts:21496:-1"@)
}

proof fn lemma_marks(s: Seq<u8>, kids: Seq<BoxView>)
    ensures
        marks_auxiliary(s, kids) <==> exists|a: int, b: int, c: int| #[trigger]
            names_gain_map(s, kids, a, b, c),
{
    marks_have_their_names();
    assert(IPRP@ =~= seq![0x69u8, 0x70, 0x72, 0x70]);
    assert(IPCO@ =~= seq![0x69u8, 0x70, 0x63, 0x6f]);
    assert(AUXC@ =~= seq![0x61u8, 0x75, 0x78, 0x43]);
    lemma_first_box(kids, IPRP@);
    let p = is_gain_map_auxc(s);
    if marks_auxiliary(s, kids) {
        let a = choose|a: int| #[trigger] first_box_at(kids, IPRP@, a);
        let inner = boxes_in(s, kids[a].data_start, kids[a].data_end);
        lemma_first_box(inner, IPCO@);
        let b = choose|b: int| #[trigger] first_box_at(inner, IPCO@, b);
        let props = boxes_in(s, inner[b].data_start, inner[b].data_end);
        lemma_first_where_has(props, p);
        let c = choose|c: int| 0 <= c < props.len() && #[trigger] props[c] == first_where(props, p)->0;
        lemma_holds(s.subrange(props[c].data_start, props[c].data_end), "urn:iso:std:iso:ts:21496:-1"@);
        assert(names_gain_map(s, kids, a, b, c));
    }
    if exists|a: int, b: int, c: int| #[trigger] names_gain_map(s, kids, a, b, c) {
        let (a, b, c) = choose|a: int, b: int, c: int| #[trigger] names_gain_map(s, kids, a, b, c);
        let inner = boxes_in(s, kids[a].data_start, kids[a].data_end);
        lemma_first_box(inner, IPCO@);
        let props = boxes_in(s, inner[b].data_start, inner[b].data_end);
        lemma_holds(s.subrange(props[c].data_start, props[c].data_end), "urn:iso:std:iso:ts:21496:-1"@);
        lemma_first_where_has(props, p);
        assert(p(props[c]));
    }
}

/// The first item of the type stands at place `i`.
pub open spec fn first_item_at(items: Seq<ItemView>, itype: Seq<char>, i: int) -> bool {
    &&& 0 <= i < items.len()
    &&& items[i].itype == itype
    &&& forall|j: int| 0 <= j < i ==> (#[trigger] items[j]).itype != itype
}

proof fn lemma_first_item(items: Seq<ItemView>, itype: Seq<char>)
    ensures
        first_where(items, item_typed(itype)) is Some <==> exists|i: int|
            0 <= i < items.len() && (#[trigger] items[i]).itype == itype,
        forall|i: int| #[trigger]
            first_item_at(items, itype, i) ==> first_where(items, item_typed(itype)) == Some(items[i]),
{
    let p = item_typed(itype);
    lemma_first_where_has(items, p);
    assert forall|i: int| #[trigger] first_item_at(items, itype, i) implies first_where(items, p) == Some(
        items[i],
    ) by {
        lemma_first_where_at(items, p, i);
    }
    if first_where(items, p) is Some {
        let i = choose|i: int| 0 <= i < items.len() && #[trigger] items[i] == first_where(items, p)->0;
        assert(items[i].itype == itype);
    }
    if exists|i: int| 0 <= i < items.len() && (#[trigger] items[i]).itype == itype {
        let i = choose|i: int| 0 <= i < items.len() && (#[trigger] items[i]).itype == itype;
        assert(p(items[i]));
    }
}

/// A file carries an ISO gain map just where an auxiliary type in its properties names one, its item
/// information names a tone map, and its first tone-map item is derived from something.
pub proof fn gain_maps_are_named_and_derived(
    s: Seq<u8>,
    m: int,
    x: int,
    y: int,
    items: Seq<ItemView>,
    refs: Seq<IrefView>,
    version: u8,
    t: int,
)
    requires
        first_box_at(boxes_in(s, 0, s.len() as int), seq![0x6du8, 0x65, 0x74, 0x61], m),
        ({
            let meta = boxes_in(s, 0, s.len() as int)[m];
            let kids = boxes_in(s, meta.data_start + 4, meta.data_end);
            &&& first_box_at(kids, seq![0x69u8, 0x69, 0x6e, 0x66], x)
            &&& first_box_at(kids, seq![0x69u8, 0x72, 0x65, 0x66], y)
            &&& iinf_at(s, kids[x]) == Some(items)
            &&& iref_at(s, kids[y]) == Some((version, refs))
        }),
        first_item_at(items, "tmap"@, t),
    ensures
        ({
            let meta = boxes_in(s, 0, s.len() as int)[m];
            let kids = boxes_in(s, meta.data_start + 4, meta.data_end);
            iso_gain_map(s) == Some(
                (exists|a: int, b: int, c: int| #[trigger] names_gain_map(s, kids, a, b, c)) && holds_text(
                    s.subrange(kids[x].data_start, kids[x].data_end),
                    "tmap"@,
                ) && exists|r: int|
                    0 <= r < refs.len() && (#[trigger] refs[r]).rtype == "dimg"@ && refs[r].from
                        == items[t].item_id && refs[r].to.len() > 0,
            )
        }),
{
    marks_have_their_names();
    let top = boxes_in(s, 0, s.len() as int);
    let kids = boxes_in(s, top[m].data_start + 4, top[m].data_end);
    assert(META@ =~= seq![0x6du8, 0x65, 0x74, 0x61]);
    assert(IINF@ =~= seq![0x69u8, 0x69, 0x6e, 0x66]);
    assert(IREF@ =~= seq![0x69u8, 0x72, 0x65, 0x66]);
    lemma_first_box(top, META@);
    lemma_first_box(kids, IINF@);
    lemma_first_box(kids, IREF@);
    lemma_marks(s, kids);
    lemma_first_item(items, "tmap"@);
    lemma_holds(s.subrange(kids[x].data_start, kids[x].data_end), "tmap"@);
    let p = derives_some(items[t].item_id);
    lemma_first_where_has(refs, p);
    if first_where(refs, p) is Some {
        let r = choose|r: int| 0 <= r < refs.len() && #[trigger] refs[r] == first_where(refs, p)->0;
        assert(p(refs[r]));
    }
    if exists|r: int|
        0 <= r < refs.len() && (#[trigger] refs[r]).rtype == "dimg"@ && refs[r].from == items[t].item_id
            && refs[r].to.len() > 0 {
        let r = choose|r: int|
            0 <= r < refs.len() && (#[trigger] refs[r]).rtype == "dimg"@ && refs[r].from == items[t].item_id
                && refs[r].to.len() > 0;
        assert(p(refs[r]));
    }
}

/// Without metadata, or without a tone-map item among the items, there is no gain map.
pub proof fn without_tone_maps_there_is_no_gain_map(s: Seq<u8>, m: int, x: int, items: Seq<ItemView>)
    ensures
        ({
            let top = boxes_in(s, 0, s.len() as int);
            let kids = boxes_in(s, top[m].data_start + 4, top[m].data_end);
            &&& !box_is_there(top, seq![0x6du8, 0x65, 0x74, 0x61]) ==> iso_gain_map(s) == Some(false)
            &&& first_box_at(top, seq![0x6du8, 0x65, 0x74, 0x61], m) && first_box_at(
                kids,
                seq![0x69u8, 0x69, 0x6e, 0x66],
                x,
            ) && iinf_at(s, kids[x]) == Some(items) && (forall|i: int|
                0 <= i < items.len() ==> (#[trigger] items[i]).itype != "tmap"@) ==> iso_gain_map(s) == Some(false)
        }),
{
    let top = boxes_in(s, 0, s.len() as int);
    let kids = boxes_in(s, top[m].data_start + 4, top[m].data_end);
    assert(META@ =~= seq![0x6du8, 0x65, 0x74, 0x61]);
    assert(IINF@ =~= seq![0x69u8, 0x69, 0x6e, 0x66]);
    lemma_first_box(top, META@);
    lemma_first_box(kids, IINF@);
    lemma_first_item(items, "tmap"@);
}

/// A file carries a portrait graph just where it has its two metadata items and the names of three
/// mattes and of the lighting effect.
pub proof fn portraits_are_named(s: Seq<u8>, m: MetaView)
    requires
        source_meta(s) == Some(Ok::<MetaView, Seq<char>>(m)),
    ensures
        portrait_graph(s) == Some(
            (exists|i: int| 0 <= i < m.items.len() && (#[trigger] m.items[i]).itype == "mime"@) && (exists|i: int|
                0 <= i < m.items.len() && (#[trigger] m.items[i]).itype == "mimehdrgm-xmp"@) && holds_text(
                s,
                "portraiteffectsmatte"@,
            ) && holds_text(s, "semanticskinmatte"@) && holds_text(s, "semantichairmatte"@) && holds_text(
                s,
                "portraitLightingEffect"@,
            ),
        ),
{
    marks_have_their_names();
    lemma_first_item(m.items, "mime"@);
    lemma_first_item(m.items, "mimehdrgm-xmp"@);
    lemma_holds(s, "portraiteffectsmatte"@);
    lemma_holds(s, "semanticskinmatte"@);
    lemma_holds(s, "semantichairmatte"@);
    lemma_holds(s, "portraitLightingEffect"@);
}

/// Only a gain map in 4:2:0, and only to an output that is not for OPPO, is not promoted.
pub proof fn lossy_gain_maps_are_not_promoted(s: Seq<u8>, compat: OppoCompat, lossy: bool)
    requires
        lossy_gain_map(s) == Some(lossy),
    ensures
        promotion_fault(s, compat) matches Some(f) && (f is Some <==> lossy && compat == OppoCompat::Off),
{
}

// ---------------------------------------------------------------------------
// Styles
// ---------------------------------------------------------------------------

/// The style item: the first whose type holds the name of style metadata.
pub open spec fn style_item_at(m: MetaView, i: int) -> bool {
    &&& 0 <= i < m.items.len()
    &&& holds_text(encode_utf8(m.items[i].itype), "styleMetadata"@)
    &&& forall|j: int|
        0 <= j < i ==> !holds_text(encode_utf8((#[trigger] m.items[j]).itype), "styleMetadata"@)
}

/// The style payload lies in one piece in the item data box, where the location of the style item says,
/// counted from the beginning of the box.
pub proof fn style_payloads_lie_in_the_item_data(
    s: Seq<u8>,
    m: MetaView,
    i: int,
    e: int,
    b: BoxView,
    payload: Seq<u8>,
    at: int,
)
    requires
        source_meta(s) == Some(Ok::<MetaView, Seq<char>>(m)),
        style_item_at(m, i),
        location_stands(m, m.items[i].item_id, e),
        idat_box(s) == Some(b),
        b.data_start <= at,
        at + payload.len() <= s.len(),
        s.subrange(at, at + payload.len()) == payload,
        m.iloc_entries[e].extents.len() == 1,
        m.iloc_entries[e].extents[0].0 == at - b.data_start,
        m.iloc_entries[e].extents[0].1 == payload.len(),
    ensures
        m.iloc_entries[e].construction_method == 1 && at + payload.len() <= b.data_end ==> style_payload(s) == Some(
            Some(payload),
        ),
        m.iloc_entries[e].construction_method != 1 || at + payload.len() > b.data_end ==> style_payload(s) == Some(
            None::<Seq<u8>>,
        ),
{
    marks_have_their_names();
    let p = is_style_item();
    lemma_holds(encode_utf8(m.items[i].itype), "styleMetadata"@);
    assert forall|j: int| 0 <= j < i implies !p(#[trigger] m.items[j]) by {
        lemma_holds(encode_utf8(m.items[j].itype), "styleMetadata"@);
    }
    lemma_first_where_at(m.items, p, i);
    lemma_first_where_at(m.iloc_entries, iloc_for(m.items[i].item_id), e);
}

/// Files without a style item have no style payload.
pub proof fn without_style_items_there_is_no_payload(s: Seq<u8>, m: MetaView)
    requires
        source_meta(s) == Some(Ok::<MetaView, Seq<char>>(m)),
        forall|i: int|
            0 <= i < m.items.len() ==> !holds_text(encode_utf8((#[trigger] m.items[i]).itype), "styleMetadata"@),
    ensures
        style_payload(s) == Some(None::<Seq<u8>>),
{
    marks_have_their_names();
    let p = is_style_item();
    assert forall|i: int| 0 <= i < m.items.len() implies !p(#[trigger] m.items[i]) by {
        lemma_holds(encode_utf8(m.items[i].itype), "styleMetadata"@);
    }
    lemma_first_where_none(m.items, p);
}

/// An item of a `uri` type whose information names metadata.
pub open spec fn is_restylable(it: ItemView) -> bool {
    &&& encode_utf8(it.itype).len() >= 3
    &&& encode_utf8(it.itype).take(3) == encode_utf8("uri"@)
    &&& holds_text(it.raw_infe, "styleMetadata"@) || holds_text(it.raw_infe, "metadata"@)
}

/// Restyling replaces the payload of the first `uri` item that names metadata, and renames it to
/// `metadata` only where that is asked for. Without such an item it fails.
pub proof fn restyling_replaces_the_payload(s: Seq<u8>, m: MetaView, i: int, payload: Seq<u8>)
    requires
        source_meta(s) == Some(Ok::<MetaView, Seq<char>>(m)),
        0 <= i <= m.items.len(),
        i < m.items.len() ==> is_restylable(m.items[i]),
        forall|j: int| 0 <= j < i ==> !is_restylable(#[trigger] m.items[j]),
    ensures
        i < m.items.len() ==> restyled(s, payload, true) == with_item_payload(
            s,
            m.items[i].item_id,
            Some("metadata"@),
            payload,
        ),
        i < m.items.len() ==> restyled(s, payload, false) == with_item_payload(
            s,
            m.items[i].item_id,
            None,
            payload,
        ),
        i == m.items.len() ==> restyled(s, payload, true) is Some && restyled(s, payload, true)->0 is Err
            && restyled(s, payload, false) is Some && restyled(s, payload, false)->0 is Err,
{
    marks_have_their_names();
    let p = is_uri_style_item();
    assert forall|j: int| 0 <= j < m.items.len() implies (p(#[trigger] m.items[j]) <==> is_restylable(
        m.items[j],
    )) by {
        let it = m.items[j];
        lemma_holds(it.raw_infe, "styleMetadata"@);
        lemma_holds(it.raw_infe, "metadata"@);
        let b = encode_utf8(it.itype);
        assert(URI@.len() == 3);
        if b.len() >= 3 {
            assert(b.subrange(0, 3) =~= b.take(3));
        }
    }
    if i < m.items.len() {
        lemma_first_where_at(m.items, p, i);
    } else {
        lemma_first_where_none(m.items, p);
    }
}

// ---------------------------------------------------------------------------
// Thumbnails
// ---------------------------------------------------------------------------

/// The entry of the directory at `d` with the highest place that has the tag is entry `i`.
pub open spec fn last_tag_at(tiff: Seq<u8>, little: bool, d: int, count: int, tag: int, i: int) -> bool {
    &&& 0 <= i < count
    &&& tag_of(tiff, little, d, i) == tag
    &&& forall|j: int| i < j < count ==> #[trigger] tag_of(tiff, little, d, j) != tag
}

/// The tag of entry `i` of the directory at `d`.
pub open spec fn tag_of(tiff: Seq<u8>, little: bool, d: int, i: int) -> int {
    int16(tiff, d + 2 + 12 * i, little)
}

proof fn lemma_thumbnail_entries(
    tiff: Seq<u8>,
    d: int,
    count: int,
    k: int,
    little: bool,
    at: Option<int>,
    len: Option<int>,
    i: int,
    j: int,
)
    requires
        0 <= k <= count,
        0 <= d,
        d + 2 + 12 * count <= tiff.len(),
        last_tag_at(tiff, little, d, count, 0x0201, i),
        last_tag_at(tiff, little, d, count, 0x0202, j),
        i < k ==> at == Some(int32(tiff, d + 2 + 12 * i + 8, little)),
        j < k ==> len == Some(int32(tiff, d + 2 + 12 * j + 8, little)),
    ensures
        thumbnail_entries(tiff, d, count, k, little, at, len) == (
            Some(int32(tiff, d + 2 + 12 * i + 8, little)),
            Some(int32(tiff, d + 2 + 12 * j + 8, little)),
        ),
    decreases count - k,
{
    if k < count {
        let e = d + 2 + 12 * k;
        let tag = tag_of(tiff, little, d, k);
        let value = int32(tiff, e + 8, little);
        lemma_thumbnail_entries(
            tiff,
            d,
            count,
            k + 1,
            little,
            if tag == 0x0201 {
                Some(value)
            } else {
                at
            },
            if tag == 0x0202 {
                Some(value)
            } else {
                len
            },
            i,
            j,
        );
    }
}

/// The thumbnail of TIFF data is the JPEG whose place and length the second directory says: the
/// directory whose place stands behind the entries of the first.
pub proof fn thumbnails_stand_in_the_second_directory(
    tiff: Seq<u8>,
    little: bool,
    d: int,
    n: int,
    e: int,
    count: int,
    i: int,
    j: int,
)
    requires
        tiff_begins(tiff, little, d),
        0 < d,
        d + 2 + 12 * n + 4 <= tiff.len(),
        int16(tiff, d, little) == n,
        int32(tiff, d + 2 + 12 * n, little) == e,
        0 < e,
        e + 2 + 12 * count <= tiff.len(),
        int16(tiff, e, little) == count,
        last_tag_at(tiff, little, e, count, 0x0201, i),
        last_tag_at(tiff, little, e, count, 0x0202, j),
    ensures
        ({
            let at = int32(tiff, e + 2 + 12 * i + 8, little);
            let len = int32(tiff, e + 2 + 12 * j + 8, little);
            let good = at > 0 && len >= 2 && at + len <= tiff.len() && tiff[at] == 0xff && tiff[at + 1] == 0xd8;
            &&& good ==> tiff_thumbnail(tiff) == Some(tiff.subrange(at, at + len))
            &&& !good ==> tiff_thumbnail(tiff) is None
        }),
{
    lemma_tiff_begins(tiff, little, d);
    lemma_thumbnail_entries(tiff, e, count, 0, little, None, None, i, j);
    let at = int32(tiff, e + 2 + 12 * i + 8, little);
    let len = int32(tiff, e + 2 + 12 * j + 8, little);
    lemma_int32_sign(tiff, e + 2 + 12 * i + 8, little);
    lemma_int32_sign(tiff, e + 2 + 12 * j + 8, little);
    if at > 0 && len > 0 && at + len <= tiff.len() {
        let jpeg = tiff.subrange(at, at + len);
        if len >= 2 {
            let m = jpeg.subrange(0, 2);
            assert(m[0] == tiff[at] && m[1] == tiff[at + 1]);
            if tiff[at] == 0xff && tiff[at + 1] == 0xd8 {
                assert(m =~= SOI_MARKER@);
            }
        }
    }
}

proof fn lemma_int32_sign(s: Seq<u8>, p: int, little: bool)
    ensures
        0 <= int32(s, p, little),
{
}

/// A JPEG begins at `a`: two bytes that begin it, and a marker.
pub open spec fn jpeg_begins(s: Seq<u8>, a: int) -> bool {
    0 <= a && a + 3 <= s.len() && s[a] == 0xff && s[a + 1] == 0xd8 && s[a + 2] == 0xff
}

/// A JPEG ends behind the two bytes at `b`.
pub open spec fn jpeg_ends(s: Seq<u8>, b: int) -> bool {
    0 <= b && b + 2 <= s.len() && s[b] == 0xff && s[b + 1] == 0xd9
}

/// The JPEG from `a` to behind `b` is the first from `pos` on: no other begins before it, and it ends at
/// the first end behind its beginning.
pub open spec fn jpeg_spans(s: Seq<u8>, pos: int, a: int, b: int) -> bool {
    &&& 0 <= pos <= a
    &&& jpeg_begins(s, a)
    &&& forall|i: int| pos <= i < a ==> !#[trigger] jpeg_begins(s, i)
    &&& a + 3 <= b
    &&& jpeg_ends(s, b)
    &&& forall|i: int| a + 3 <= i < b ==> !#[trigger] jpeg_ends(s, i)
}

proof fn lemma_jpeg_marks(s: Seq<u8>, i: int)
    ensures
        occurs_at(s, crate::inspect::JPEG_START@, i) <==> jpeg_begins(s, i),
        occurs_at(s, crate::inspect::JPEG_END@, i) <==> jpeg_ends(s, i),
{
    if 0 <= i && i + 3 <= s.len() {
        let t = s.subrange(i, i + 3);
        assert(t[0] == s[i] && t[1] == s[i + 1] && t[2] == s[i + 2]);
        if jpeg_begins(s, i) {
            assert(t =~= crate::inspect::JPEG_START@);
        }
    }
    if 0 <= i && i + 2 <= s.len() {
        let t = s.subrange(i, i + 2);
        assert(t[0] == s[i] && t[1] == s[i + 1]);
        if jpeg_ends(s, i) {
            assert(t =~= crate::inspect::JPEG_END@);
        }
    }
}

/// The first JPEG is taken where it has more than 1 KiB and less than 2 MiB; else the search goes on
/// behind its first three bytes. Where none begins, there is none.
pub proof fn first_jpegs_have_the_size_of_thumbnails(s: Seq<u8>, pos: int, a: int, b: int)
    requires
        0 <= pos,
    ensures
        jpeg_spans(s, pos, a, b) && 1024 < b + 2 - a < 2 * 1024 * 1024 ==> first_jpeg(s, pos) == Some(
            s.subrange(a, b + 2),
        ),
        jpeg_spans(s, pos, a, b) && !(1024 < b + 2 - a < 2 * 1024 * 1024) ==> first_jpeg(s, pos) == first_jpeg(
            s,
            a + 3,
        ),
        (forall|i: int| pos <= i ==> !#[trigger] jpeg_begins(s, i)) ==> first_jpeg(s, pos) is None,
{
    lemma_find_from_some(s, crate::inspect::JPEG_START@, pos);
    if find_from(s, crate::inspect::JPEG_START@, pos) is Some {
        lemma_jpeg_marks(s, find_from(s, crate::inspect::JPEG_START@, pos)->0);
    }
    if jpeg_spans(s, pos, a, b) {
        lemma_jpeg_marks(s, a);
        let start = find_from(s, crate::inspect::JPEG_START@, pos)->0;
        assert(start == a);
        lemma_find_from_some(s, crate::inspect::JPEG_END@, a + 3);
        lemma_jpeg_marks(s, b);
        let end = find_from(s, crate::inspect::JPEG_END@, a + 3)->0;
        lemma_jpeg_marks(s, end);
        assert(end == b);
    }
}

/// The thumbnail in Exif data comes before any other JPEG.
pub proof fn exif_thumbnails_come_first(s: Seq<u8>, t: Seq<u8>)
    ensures
        file_thumbnail(s) == Some(Some(t)) ==> thumbnail_of(s) == Some(Some(t)),
        file_thumbnail(s) == Some(None::<Seq<u8>>) ==> thumbnail_of(s) == Some(first_jpeg(s, 0)),
{
}

// ---------------------------------------------------------------------------
// Lossy gain maps
// ---------------------------------------------------------------------------

/// A decoder configuration of 4:2:0: the low two bits of byte 16 behind the head of its box are one.
pub open spec fn says_420(raw: Seq<u8>) -> bool {
    &&& raw.len() >= 25
    &&& raw[4] == 0x68 && raw[5] == 0x76 && raw[6] == 0x63 && raw[7] == 0x43
    &&& raw[24] % 4 == 1
}

/// The property at place `k` is the first of the type that the associations lead to.
pub open spec fn first_property(m: MetaView, list: Seq<(u32, bool)>, ptype: Seq<char>, a: int, k: int) -> bool {
    &&& 0 <= a < list.len()
    &&& 0 <= k < m.props.len()
    &&& m.props[k].index == list[a].0 && m.props[k].ptype == ptype
    &&& forall|j: int| 0 <= j < k ==> !((#[trigger] m.props[j]).index == list[a].0 && m.props[j].ptype == ptype)
    &&& forall|b: int, j: int|
        0 <= b < a && 0 <= j < m.props.len() ==> !((#[trigger] m.props[j]).index == (#[trigger] list[b]).0
            && m.props[j].ptype == ptype)
}

proof fn lemma_associated(m: MetaView, list: Seq<(u32, bool)>, ptype: Seq<char>, from: int, a: int, k: int)
    requires
        0 <= from <= a,
        first_property(m, list, ptype, a, k),
    ensures
        associated(m.props, list, from, ptype) == Some(m.props[k]),
    decreases a - from,
{
    let p = property_is(list[from].0, ptype);
    if from < a {
        assert forall|j: int| 0 <= j < m.props.len() implies !p(#[trigger] m.props[j]) by {
            assert(!(m.props[j].index == list[from].0 && m.props[j].ptype == ptype));
        }
        lemma_first_where_none(m.props, p);
        lemma_associated(m, list, ptype, from + 1, a, k);
    } else {
        lemma_first_where_at(m.props, p, k);
    }
}

/// An item is seen to be 4:2:0, or to be an ISO gain map, by the first property of the type that it is
/// associated with.
pub proof fn properties_tell_of_their_items(m: MetaView, id: u32, e: int, a: int, k: int)
    requires
        associations_stand(m, id, e),
    ensures
        first_property(m, m.ipma_entries[e].associations, "hvcC"@, a, k) ==> (is_420(m, id) <==> says_420(
            m.props[k].raw,
        )),
        first_property(m, m.ipma_entries[e].associations, "auxC"@, a, k) ==> (is_iso_auxiliary(m, id)
            <==> holds_text(m.props[k].raw, "urn:iso:std:iso:ts:21496:-1"@)),
{
    marks_have_their_names();
    let list = m.ipma_entries[e].associations;
    lemma_first_where_at(m.ipma_entries, ipma_for(id), e);
    if first_property(m, list, "hvcC"@, a, k) {
        lemma_associated(m, list, "hvcC"@, 0, a, k);
        let raw = m.props[k].raw;
        if raw.len() >= 25 {
            let t = raw.subrange(4, 8);
            assert(t[0] == raw[4] && t[1] == raw[5] && t[2] == raw[6] && t[3] == raw[7]);
            if raw[4] == 0x68 && raw[5] == 0x76 && raw[6] == 0x63 && raw[7] == 0x43 {
                assert(t =~= HVCC@);
            }
        }
    }
    if first_property(m, list, "auxC"@, a, k) {
        lemma_associated(m, list, "auxC"@, 0, a, k);
        lemma_holds(m.props[k].raw, "urn:iso:std:iso:ts:21496:-1"@);
    }
}

/// A file has a lossy gain map just where an ISO gain map that is auxiliary to its primary image has a
/// tile in 4:2:0, or is itself in 4:2:0 and has no tiles.
pub proof fn lossy_gain_maps_have_420_tiles(m: MetaView, r: int, id: u32)
    ensures
        0 <= r < m.refs.len() && m.refs[r].rtype == "auxl"@ && m.refs[r].to.contains(m.primary_id)
            && is_iso_auxiliary(m, m.refs[r].from) && is_420(m, id) && (is_part(m, m.refs[r].from, id) || id
            == m.refs[r].from && forall|t: u32| !#[trigger] is_part(m, id, t)) ==> lossy_420(m),
        lossy_420(m) ==> exists|q: int, i: u32|
            0 <= q < m.refs.len() && (#[trigger] m.refs[q]).rtype == "auxl"@ && m.refs[q].to.contains(m.primary_id)
                && is_iso_auxiliary(m, m.refs[q].from) && #[trigger] is_420(m, i) && (is_part(m, m.refs[q].from, i)
                || i == m.refs[q].from && forall|t: u32| !#[trigger] is_part(m, i, t)),
{
    assert forall|from: u32, t: u32| #[trigger] is_part(m, from, t) == is_tile(m, from, t) by {
        if is_part(m, from, t) {
            let q = choose|q: int|
                0 <= q < m.refs.len() && (#[trigger] m.refs[q]).rtype == "dimg"@ && m.refs[q].from == from
                    && m.refs[q].to.contains(t);
            assert(derives(m.refs[q], from));
        }
    }
    if 0 <= r < m.refs.len() && m.refs[r].rtype == "auxl"@ && m.refs[r].to.contains(m.primary_id)
        && is_iso_auxiliary(m, m.refs[r].from) && is_420(m, id) && (is_part(m, m.refs[r].from, id) || id
        == m.refs[r].from && forall|t: u32| !#[trigger] is_part(m, id, t)) {
        assert forall|t: u32| id == m.refs[r].from && (forall|u: u32| !#[trigger] is_part(m, id, u)) implies !is_tile(
            m,
            m.refs[r].from,
            t,
        ) by {
            assert(!is_part(m, id, t));
        }
        assert(is_part(m, m.refs[r].from, id) == is_tile(m, m.refs[r].from, id));
        assert(marks_gain_map(m, m.refs[r]));
        assert(carries_gain_map(m, m.refs[r].from, id));
    }
    if lossy_420(m) {
        let (q, i) = choose|q: int, i: u32|
            0 <= q < m.refs.len() && marks_gain_map(m, #[trigger] m.refs[q]) && #[trigger] carries_gain_map(
                m,
                m.refs[q].from,
                i,
            ) && is_420(m, i);
        assert(is_420(m, i));
        assert(is_part(m, m.refs[q].from, i) == is_tile(m, m.refs[q].from, i));
        assert(m.refs[q].rtype == "auxl"@);
    }
}

/// An item is one of those that `from` is derived from.
pub open spec fn is_part(m: MetaView, from: u32, id: u32) -> bool {
    exists|q: int|
        0 <= q < m.refs.len() && (#[trigger] m.refs[q]).rtype == "dimg"@ && m.refs[q].from == from
            && m.refs[q].to.contains(id)
}

} // verus!
