//! What an assembled output file says when it is opened again.

use crate::assemble::{
    ConfigView, GainView, PartsView, PropertyNumbers, SourceView, added_numbers, at_least_one,
    box_payload, colour_number, config_for, describes_exif, is_wide, iso_output, media_for,
    meta_with, output_associations, output_bytes, output_file, output_idat, output_iinf,
    output_ipco, output_ipma, output_iprp, output_iref, output_iref_version, output_kid,
    output_locations, output_meta, output_parts, output_refs, output_start, patched_extents,
    placeholder_locations, property_number, property_numbers, repointed, rotation_number,
    shares_ispe, source_ipma, source_locations, source_refs, source_structure, tile_infes,
    tile_ipma, tiles_placed, tmap_ispe, unless_present,
};
use crate::bytes::{be32, contains_bytes, enc32, occurs_at};
use crate::container::{OppoCameraTail, file_tail_under};
use crate::exif::{ExifOrientation, OppoCompat, OppoUserCommentPatch, adjusted_extent};
use crate::fourcc::{
    ALTR, AUXC, DINF, FTYP, GRPL, HDLR, HVCC, IDAT, IINF, ILOC, INFE, IPCO, IPMA, IPRP, IREF, IROT,
    ISPE, MDAT, META, PITM,
};
use crate::inspect::{derives_some, derives_tmap, is_gain_map_auxc, iso_gain_map, marks_auxiliary};
use crate::isobmff::{
    AUX_C_BOX, BRAND_MIHB, BRAND_MIHE, BRAND_TMAP, BoxView, COLR_BT2020_PQ_BOX, COLR_SRGB_BOX,
    COLR_UNSPECIFIED_BT601_BOX, DINF_BOX, GAIN_MAP_URN, IlocView, IpmaView, IrefView, ItemView,
    MIME_XMP_NAME, MetaView, PIXI_RGB10_BOX, PIXI_RGB8_BOX, PropertyView, as_is, box_bytes,
    boxes_in, first_box, ftyp_bytes, full_head, grpl_altr_bytes, iloc_bytes, infe_at, infe_bytes,
    infe_head, infes_of, ipma_at, irot_bytes, ispe_bytes, lemma_boxes_within, mime_infe_bytes,
    missing_brand, of_type, pitm_at, pitm_bytes, properties_in, property_of, source_meta,
};
use crate::isobmff_write::idat_box;
use crate::items::{item_typed, raw_infes};
use crate::payload_laws::{lemma_ascii_type, lemma_items_say, lemma_references_fit};
use crate::rebuild::{iloc_index, moved};
use crate::reopened::{
    all_sized, associations_in, built_item_info, built_items, built_locations, built_primary,
    built_references, bytes_of, children_of, children_say, extents_counted, first_index,
    has_none_of, header_at, headers_at, holds_metadata, infes_start, is_box_of, is_first_of,
    is_sized_box, lemma_built_is_sized, lemma_child_at, lemma_children_at, lemma_children_read_back,
    lemma_children_stand, lemma_copy, lemma_copy_says_item, lemma_entries_count, lemma_first_index,
    lemma_iloc_index, lemma_part_len, lemma_sized_box, lemma_stand, place_of, says_item, says_items,
    says_locations, says_primary, says_properties, says_references, sized_boxes_read_back,
    sized_metadata, stands_sized, tells_item, tells_properties,
};
use crate::round_trip::{
    association_bytes, associations_fit, boxes_read_back, built_item, header_of,
    integers_of_32_bits_read_back, is_item_type, kept_id, kept_ids, kept_reference, kept_references,
    lemma_association_entries, lemma_byte, lemma_flat_same, lemma_parts, reference_fits,
    stored_locations,
};
use crate::seqs::{
    first_where, flat, lemma_first_where_at, lemma_first_where_has, lemma_flat_add, lemma_flat_push,
};
use crate::text::name_text;
use vstd::prelude::*;
use vstd::string::*;
use vstd::utf8::*;

verus! {

// ---------------------------------------------------------------------------
// Properties and associations
// ---------------------------------------------------------------------------

/// The property that the box `c` is, as the `i`-th of its container.
pub open spec fn property_in_box(c: Seq<u8>, i: int) -> PropertyView {
    PropertyView {
        index: ((i + 1) % 0x1_0000_0000) as u32,
        ptype: name_text(c.subrange(4, 8)),
        raw: c,
    }
}

/// The properties that boxes are.
pub open spec fn properties_in_boxes(boxes: Seq<Seq<u8>>) -> Seq<PropertyView> {
    Seq::new(boxes.len(), |i: int| property_in_box(boxes[i], i))
}

/// The boxes of properties.
pub open spec fn raw_properties(props: Seq<PropertyView>) -> Seq<Seq<u8>> {
    Seq::new(props.len(), |i: int| props[i].raw)
}

/// The payload of an iprp box with these properties and associations.
pub open spec fn iprp_payload(boxes: Seq<Seq<u8>>, ipma: Seq<u8>) -> Seq<u8> {
    box_bytes(IPCO@, flat(boxes, as_is())) + box_bytes(IPMA@, ipma)
}

proof fn lemma_properties_at(t: Seq<u8>, p: int, boxes: Seq<Seq<u8>>)
    requires
        all_sized(boxes),
        occurs_at(t, flat(boxes, as_is()), p),
    ensures
        ({
            let props = boxes_in(t, p, p + flat(boxes, as_is()).len());
            Seq::new(props.len(), |i: int| property_of(t, props[i], i)) == properties_in_boxes(
                boxes,
            )
        }),
{
    sized_boxes_read_back(t, p, boxes);
    let props = boxes_in(t, p, p + flat(boxes, as_is()).len());
    let read = Seq::new(props.len(), |i: int| property_of(t, props[i], i));
    assert forall|i: int| 0 <= i < boxes.len() implies read[i] == property_in_box(boxes[i], i) by {
        assert(occurs_at(t, boxes[i], place_of(boxes, p, i)));
    }
    assert(read =~= properties_in_boxes(boxes));
}

#[verifier::rlimit(60)]
proof fn lemma_iprp_at(
    t: Seq<u8>,
    x: int,
    boxes: Seq<Seq<u8>>,
    ipma: Seq<u8>,
    flags: u32,
    entries: Seq<IpmaView>,
)
    requires
        all_sized(boxes),
        box_bytes(IPRP@, iprp_payload(boxes, ipma)).len() <= u32::MAX,
        occurs_at(t, box_bytes(IPRP@, iprp_payload(boxes, ipma)), x),
        forall|r: Seq<u8>, y: int| #[trigger]
            occurs_at(r, ipma, y) ==> ipma_at(r, y) == Some((flags, entries)),
    ensures
        ({
            let b = header_of(IPRP@, iprp_payload(boxes, ipma).len() as int, x);
            &&& associations_in(t, b) == Some((flags, entries))
            &&& properties_in(t, b) == Some(properties_in_boxes(boxes))
        }),
{
    let run = flat(boxes, as_is());
    let payload = iprp_payload(boxes, ipma);
    assert(box_bytes(IPRP@, payload).len() == 8 + payload.len() && payload.len() == 16 + run.len()
        + ipma.len()) by {
        reveal(box_bytes);
    }
    boxes_read_back(t, x, x + 8 + payload.len(), IPRP@, payload);
    lemma_built_is_sized(IPCO@, run);
    lemma_built_is_sized(IPMA@, ipma);
    let inner = seq![box_bytes(IPCO@, run), box_bytes(IPMA@, ipma)];
    assert(flat(inner, as_is()) =~= payload) by {
        reveal_with_fuel(flat, 3);
        assert(inner.drop_last().drop_last() =~= Seq::empty());
    }
    sized_boxes_read_back(t, x + 8, inner);
    let kids = headers_at(inner, x + 8);
    let a = x + 8;
    let b = x + 16 + run.len();
    assert(place_of(inner, x + 8, 0) == a) by {
        assert(inner.take(0) =~= Seq::empty());
    }
    assert(place_of(inner, x + 8, 1) == b) by {
        reveal_with_fuel(flat, 2);
        assert(inner.take(1).drop_last() =~= Seq::empty());
    }
    assert(occurs_at(t, inner[0], a));
    assert(occurs_at(t, inner[1], b));
    assert(IPCO@[1] == IPMA@[1] && IPCO@[2] != IPMA@[2]);
    assert(kids[0].btype == IPCO@ && kids[1].btype == IPMA@);
    lemma_first_where_at(kids, of_type(IPCO@), 0);
    lemma_first_where_at(kids, of_type(IPMA@), 1);
    boxes_read_back(t, a, a + 8 + run.len(), IPCO@, run);
    boxes_read_back(t, b, b + 8 + ipma.len(), IPMA@, ipma);
    assert(ipma_at(t, b + 8) == Some((flags, entries)));
    lemma_properties_at(t, a + 8, boxes);
}

/// An iprp box built of property boxes and associations says them.
pub proof fn built_properties(
    boxes: Seq<Seq<u8>>,
    ipma: Seq<u8>,
    flags: u32,
    entries: Seq<IpmaView>,
)
    requires
        all_sized(boxes),
        box_bytes(IPRP@, iprp_payload(boxes, ipma)).len() <= u32::MAX,
        forall|r: Seq<u8>, y: int| #[trigger]
            occurs_at(r, ipma, y) ==> ipma_at(r, y) == Some((flags, entries)),
    ensures
        says_properties(
            box_bytes(IPRP@, iprp_payload(boxes, ipma)),
            properties_in_boxes(boxes),
            flags,
            entries,
        ),
{
    reveal(tells_properties);
    let payload = iprp_payload(boxes, ipma);
    let c = box_bytes(IPRP@, payload);
    assert(c.len() == 8 + payload.len()) by {
        reveal(box_bytes);
    }
    lemma_built_is_sized(IPRP@, payload);
    assert(c.subrange(4, 8) == IPRP@);
    assert forall|t: Seq<u8>, x: int| #[trigger] occurs_at(t, c, x) implies associations_in(
        t,
        header_at(c, x),
    ) == Some((flags, entries)) && properties_in(t, header_at(c, x)) == Some(
        properties_in_boxes(boxes),
    ) by {
        lemma_iprp_at(t, x, boxes, ipma, flags, entries);
    }
}

/// Associations behind a version and flags are read back.
pub proof fn lemma_associations_said(head: Seq<u8>, flags: u32, entries: Seq<IpmaView>)
    requires
        head.len() == 4,
        be32(head, 0) % 0x100_0000 == flags,
        entries.len() <= u32::MAX,
        forall|i: int|
            0 <= i < entries.len() ==> associations_fit(#[trigger] entries[i], flags % 2 == 1),
    ensures
        forall|r: Seq<u8>, y: int| #[trigger]
            occurs_at(
                r,
                head + enc32(entries.len() as int) + flat(entries, association_bytes(flags as int)),
                y,
            ) ==> ipma_at(r, y) == Some((flags, entries)),
{
    let run = flat(entries, association_bytes(flags as int));
    let count = enc32(entries.len() as int);
    assert forall|r: Seq<u8>, y: int| #[trigger] occurs_at(r, head + count + run, y) implies ipma_at(
        r,
        y,
    ) == Some((flags, entries)) by {
        lemma_parts(r, head + count, run, y);
        lemma_parts(r, head, count, y);
        assert(be32(r, y) == be32(head, 0)) by {
            lemma_byte(r, head, y, 0);
            lemma_byte(r, head, y, 1);
            lemma_byte(r, head, y, 2);
            lemma_byte(r, head, y, 3);
        }
        integers_of_32_bits_read_back(r, y + 4, entries.len() as int);
        lemma_association_entries(r, y + 8, entries, flags as int, Seq::empty());
        assert(Seq::<IpmaView>::empty() + entries =~= entries);
    }
}

/// The associations of the output.
pub open spec fn output_entries(
    src: SourceView,
    c: ConfigView,
    p: PropertyNumbers,
    colr: u32,
    irot: u32,
) -> Seq<IpmaView> {
    Seq::new(
        src.ipma_entries.len(),
        |i: int|
            IpmaView {
                item_id: src.ipma_entries[i].item_id,
                associations: output_associations(
                    src.ipma_entries[i],
                    src.primary_id,
                    colr,
                    p.base_clli,
                    irot,
                ),
            },
    ) + Seq::new(
        c.tile_ids.len(),
        |i: int|
            IpmaView {
                item_id: c.tile_ids[i],
                associations: seq![(p.tile_ispe, true), (p.gain_colr, true), (p.gain_hvcc, true)],
            },
    ) + seq![
        IpmaView {
            item_id: c.gain_grid_id,
            associations: seq![
                (p.grid_ispe, true),
                (p.gain_colr, true),
                (p.gain_pixi, true),
                (irot, true),
            ],
        },
        IpmaView {
            item_id: c.tmap_id,
            associations: seq![
                (p.pq_colr, true),
                (p.pixi10, true),
                (p.tmap_ispe, true),
                (p.tmap_clli, false),
                (irot, true),
            ],
        },
    ]
}

/// The associations of the output are written one after the other.
#[verifier::rlimit(60)]
proof fn lemma_output_ipma(
    src: SourceView,
    c: ConfigView,
    p: PropertyNumbers,
    colr: u32,
    irot: u32,
)
    requires
        c.tile_ids.len() == c.tiles.len(),
    ensures
        ({
            let entries = output_entries(src, c, p, colr, irot);
            output_ipma(src, c, p, colr, irot) == enc32(entries.len() as int) + flat(
                entries,
                association_bytes(src.ipma_flags as int),
            )
        }),
{
    reveal(output_ipma);
    let f = association_bytes(src.ipma_flags as int);
    let entries = output_entries(src, c, p, colr, irot);
    let n = src.ipma_entries.len();
    let m = c.tile_ids.len();
    let a = entries.take(n as int);
    let b = entries.subrange(n as int, (n + m) as int);
    let d = entries.skip((n + m) as int);
    assert(entries =~= a + b + d);
    lemma_flat_add(a + b, d, f);
    lemma_flat_add(a, b, f);
    lemma_flat_same(
        src.ipma_entries,
        source_ipma(src.ipma_flags, src.primary_id, colr, p.base_clli, irot),
        a,
        f,
    );
    lemma_flat_same(c.tile_ids, tile_ipma(src.ipma_flags, p), b, f);
    assert(flat(d, f) =~= f(d[0]) + f(d[1])) by {
        reveal_with_fuel(flat, 3);
        assert(d.drop_last().drop_last() =~= Seq::empty());
    }
    assert(output_ipma(src, c, p, colr, irot) =~= enc32(entries.len() as int) + flat(entries, f));
}

/// The boxes that are added to the properties of the source.
pub open spec fn added_properties(c: ConfigView, irot: Seq<u8>, tmap_ispe: Option<Seq<u8>>) -> Seq<
    Seq<u8>,
> {
    seq![
        AUX_C_BOX@,
        irot,
        COLR_BT2020_PQ_BOX@,
        COLR_SRGB_BOX@,
        PIXI_RGB10_BOX@,
        c.base_clli,
        c.tmap_clli,
        PIXI_RGB8_BOX@,
    ] + (if c.oppo_rgb {
        seq![COLR_UNSPECIFIED_BT601_BOX@]
    } else {
        Seq::empty()
    }) + seq![
        box_bytes(HVCC@, c.gain_hvcc),
        ispe_bytes(at_least_one(c.gain_width), at_least_one(c.gain_height)),
        ispe_bytes(512, 512),
    ] + (match tmap_ispe {
        Some(b) => seq![b],
        None => Seq::empty(),
    })
}

/// The property boxes of the output.
pub open spec fn output_properties(
    src: SourceView,
    c: ConfigView,
    irot: Seq<u8>,
    tmap_ispe: Option<Seq<u8>>,
) -> Seq<Seq<u8>> {
    raw_properties(src.props) + added_properties(c, irot, tmap_ispe)
}

/// Every number that the output gives to an added property is that of the added box: the
/// boxes stand in the order in which they are numbered.
pub proof fn added_properties_are_numbered(
    src: SourceView,
    c: ConfigView,
    irot: Seq<u8>,
    tmap_ispe: Option<Seq<u8>>,
    shared: u32,
)
    requires
        src.props.len() + 16 <= u32::MAX,
    ensures
        ({
            let n = src.props.len() as int;
            let p = property_numbers(
                n,
                c.oppo_rgb,
                if tmap_ispe is None {
                    Some(shared)
                } else {
                    None
                },
            );
            let boxes = output_properties(src, c, irot, tmap_ispe);
            &&& boxes[n] == AUX_C_BOX@
            &&& boxes[p.irot - 1] == irot
            &&& boxes[p.pq_colr - 1] == COLR_BT2020_PQ_BOX@
            &&& boxes[p.pixi10 - 1] == PIXI_RGB10_BOX@
            &&& boxes[p.base_clli - 1] == c.base_clli
            &&& boxes[p.tmap_clli - 1] == c.tmap_clli
            &&& boxes[p.gain_pixi - 1] == PIXI_RGB8_BOX@
            &&& boxes[p.gain_colr - 1] == (if c.oppo_rgb {
                COLR_UNSPECIFIED_BT601_BOX@
            } else {
                COLR_SRGB_BOX@
            })
            &&& boxes[p.gain_hvcc - 1] == box_bytes(HVCC@, c.gain_hvcc)
            &&& boxes[p.grid_ispe - 1] == ispe_bytes(
                at_least_one(c.gain_width),
                at_least_one(c.gain_height),
            )
            &&& boxes[p.tile_ispe - 1] == ispe_bytes(512, 512)
            &&& tmap_ispe matches Some(b) ==> boxes[p.tmap_ispe - 1] == b && p.tmap_ispe
                == boxes.len()
        }),
{
}

pub proof fn lemma_constant_boxes()
    ensures
        is_box_of(AUX_C_BOX@, AUXC@),
        is_sized_box(COLR_BT2020_PQ_BOX@),
        is_sized_box(COLR_SRGB_BOX@),
        is_sized_box(COLR_UNSPECIFIED_BT601_BOX@),
        is_sized_box(PIXI_RGB10_BOX@),
        is_sized_box(PIXI_RGB8_BOX@),
        is_box_of(DINF_BOX@, DINF@),
{
    assert(be32(AUX_C_BOX@, 0) == 40);
    assert(AUX_C_BOX@.subrange(4, 8) =~= AUXC@);
    assert(be32(COLR_BT2020_PQ_BOX@, 0) == 19);
    assert(be32(COLR_SRGB_BOX@, 0) == 19);
    assert(be32(COLR_UNSPECIFIED_BT601_BOX@, 0) == 19);
    assert(be32(PIXI_RGB10_BOX@, 0) == 16);
    assert(be32(PIXI_RGB8_BOX@, 0) == 16);
    assert(be32(DINF_BOX@, 0) == 36);
    assert(DINF_BOX@.subrange(4, 8) =~= DINF@);
}

/// The property container of the output is its property boxes one after the other.
proof fn lemma_output_ipco(
    s: Seq<u8>,
    src: SourceView,
    c: ConfigView,
    irot: Seq<u8>,
    tmap_ispe: Option<Seq<u8>>,
)
    requires
        flat(raw_properties(src.props), as_is()) == box_payload(s, src.ipco_box),
    ensures
        output_ipco(s, src, c, irot, tmap_ispe) == flat(
            output_properties(src, c, irot, tmap_ispe),
            as_is(),
        ),
{
    reveal(output_ipco);
    let f = as_is();
    let none = Seq::<u8>::empty();
    let b0 = raw_properties(src.props);
    let b1 = b0.push(AUX_C_BOX@);
    let b2 = b1.push(irot);
    let b3 = b2.push(COLR_BT2020_PQ_BOX@);
    let b4 = b3.push(COLR_SRGB_BOX@);
    let b5 = b4.push(PIXI_RGB10_BOX@);
    let b6 = b5.push(c.base_clli);
    let b7 = b6.push(c.tmap_clli);
    let b8 = b7.push(PIXI_RGB8_BOX@);
    let colr = if c.oppo_rgb {
        COLR_UNSPECIFIED_BT601_BOX@
    } else {
        none
    };
    let b9 = if c.oppo_rgb {
        b8.push(colr)
    } else {
        b8
    };
    let hvcc = box_bytes(HVCC@, c.gain_hvcc);
    let grid = ispe_bytes(at_least_one(c.gain_width), at_least_one(c.gain_height));
    let b10 = b9.push(hvcc);
    let b11 = b10.push(grid);
    let b12 = b11.push(ispe_bytes(512, 512));
    let own = match tmap_ispe {
        Some(x) => x,
        None => none,
    };
    let b13 = match tmap_ispe {
        Some(x) => b12.push(x),
        None => b12,
    };
    lemma_flat_push(b0, f, AUX_C_BOX@);
    lemma_flat_push(b1, f, irot);
    lemma_flat_push(b2, f, COLR_BT2020_PQ_BOX@);
    lemma_flat_push(b3, f, COLR_SRGB_BOX@);
    lemma_flat_push(b4, f, PIXI_RGB10_BOX@);
    lemma_flat_push(b5, f, c.base_clli);
    lemma_flat_push(b6, f, c.tmap_clli);
    lemma_flat_push(b7, f, PIXI_RGB8_BOX@);
    lemma_flat_push(b8, f, colr);
    assert(flat(b8, f) + none =~= flat(b8, f));
    lemma_flat_push(b9, f, hvcc);
    lemma_flat_push(b10, f, grid);
    lemma_flat_push(b11, f, ispe_bytes(512, 512));
    lemma_flat_push(b12, f, own);
    assert(flat(b12, f) + none =~= flat(b12, f));
    assert(output_properties(src, c, irot, tmap_ispe) =~= b13);
}

/// Whether the properties of the source fill their container, each saying its own size.
pub open spec fn properties_fill(s: Seq<u8>, src: SourceView) -> bool {
    &&& all_sized(raw_properties(src.props))
    &&& flat(raw_properties(src.props), as_is()) == box_payload(s, src.ipco_box)
}

proof fn lemma_all_properties_sized(
    src: SourceView,
    c: ConfigView,
    turns: int,
    tmap_ispe: Option<Seq<u8>>,
)
    requires
        all_sized(raw_properties(src.props)),
        is_sized_box(c.base_clli),
        is_sized_box(c.tmap_clli),
        c.gain_hvcc.len() + 8 <= u32::MAX,
        tmap_ispe matches Some(b) ==> is_sized_box(b),
    ensures
        all_sized(output_properties(src, c, irot_bytes(turns), tmap_ispe)),
{
    let old = raw_properties(src.props);
    let new = added_properties(c, irot_bytes(turns), tmap_ispe);
    let all = output_properties(src, c, irot_bytes(turns), tmap_ispe);
    lemma_constant_boxes();
    lemma_built_is_sized(IROT@, seq![(turns % 4) as u8]);
    lemma_built_is_sized(HVCC@, c.gain_hvcc);
    lemma_ispe_sized(at_least_one(c.gain_width), at_least_one(c.gain_height));
    lemma_ispe_sized(512, 512);
    assert forall|i: int| 0 <= i < all.len() implies is_sized_box(#[trigger] all[i]) by {
        if i < old.len() {
            assert(all[i] == old[i]);
        } else {
            assert(all[i] == new[i - old.len()]);
        }
    }
}

pub proof fn lemma_ispe_sized(width: int, height: int)
    ensures
        is_sized_box(ispe_bytes(width, height)),
{
    lemma_built_is_sized(ISPE@, full_head(0) + enc32(width) + enc32(height));
}

/// The associations of the output, with the numbers that it gives.
pub open spec fn all_entries(
    src: SourceView,
    c: ConfigView,
    ispe: u32,
) -> Seq<IpmaView> {
    let p = added_numbers(src, c, ispe);
    output_entries(src, c, p, colour_number(src.props), rotation_number(src, p))
}

/// The property boxes of the output, with a size of the tmap's own where it needs one.
pub open spec fn all_properties(
    src: SourceView,
    c: ConfigView,
    orientation: ExifOrientation,
    ispe: u32,
) -> Seq<Seq<u8>> {
    output_properties(
        src,
        c,
        irot_bytes(orientation.turns()),
        if shares_ispe(src, ispe) {
            None
        } else {
            Some(tmap_ispe(src, ispe))
        },
    )
}

/// The iprp box of the output says the properties and the associations of the output.
proof fn lemma_output_iprp(
    s: Seq<u8>,
    src: SourceView,
    c: ConfigView,
    orientation: ExifOrientation,
    ispe: u32,
)
    requires
        properties_fill(s, src),
        is_sized_box(c.base_clli),
        is_sized_box(c.tmap_clli),
        c.tile_ids.len() == c.tiles.len(),
        0 <= src.ipma_box.data_start,
        src.ipma_box.data_start + 4 <= s.len(),
        be32(s, src.ipma_box.data_start) % 0x100_0000 == src.ipma_flags,
        all_entries(src, c, ispe).len() <= u32::MAX,
        forall|i: int|
            0 <= i < all_entries(src, c, ispe).len() ==> associations_fit(
                #[trigger] all_entries(src, c, ispe)[i],
                src.ipma_flags % 2 == 1,
            ),
        output_iprp(s, src, c, orientation, ispe).len() <= u32::MAX,
    ensures
        says_properties(
            output_iprp(s, src, c, orientation, ispe),
            properties_in_boxes(all_properties(src, c, orientation, ispe)),
            src.ipma_flags,
            all_entries(src, c, ispe),
        ),
{
    let p = added_numbers(src, c, ispe);
    let own: Option<Seq<u8>> = if shares_ispe(src, ispe) {
        None
    } else {
        Some(tmap_ispe(src, ispe))
    };
    let irot = irot_bytes(orientation.turns());
    let entries = all_entries(src, c, ispe);
    let boxes = all_properties(src, c, orientation, ispe);
    let at = src.ipma_box.data_start;
    let head = s.subrange(at, at + 4);
    let f = association_bytes(src.ipma_flags as int);
    lemma_output_ipco(s, src, c, irot, own);
    lemma_output_ipma(src, c, p, colour_number(src.props), rotation_number(src, p));
    let ipma = head + enc32(entries.len() as int) + flat(entries, f);
    assert(head + output_ipma(src, c, p, colour_number(src.props), rotation_number(src, p)) =~= ipma);
    assert(output_iprp(s, src, c, orientation, ispe) == box_bytes(
        IPRP@,
        iprp_payload(boxes, ipma),
    )) by {
        reveal(output_iprp);
    }
    assert(c.gain_hvcc.len() + 8 <= u32::MAX) by {
        let hvcc = box_bytes(HVCC@, c.gain_hvcc);
        let k: int = if c.oppo_rgb {
            9
        } else {
            8
        };
        assert(boxes[src.props.len() + k] == hvcc);
        lemma_part_len(boxes, src.props.len() + k);
        reveal(box_bytes);
    }
    lemma_ispe_sized(be32(src.props[ispe - 1].raw, 12), be32(src.props[ispe - 1].raw, 16));
    lemma_all_properties_sized(src, c, orientation.turns(), own);
    assert(be32(head, 0) == be32(s, at)) by {
        assert(head[0] == s[at] && head[1] == s[at + 1] && head[2] == s[at + 2] && head[3] == s[at
            + 3]);
    }
    lemma_associations_said(head, src.ipma_flags, entries);
    built_properties(boxes, ipma, src.ipma_flags, entries);
}

// ---------------------------------------------------------------------------
// Items and references
// ---------------------------------------------------------------------------

/// What the metadata of a source says.
pub open spec fn source_view(src: SourceView) -> MetaView {
    MetaView {
        iloc_entries: src.iloc_entries,
        ipma_entries: src.ipma_entries,
        ipma_flags: src.ipma_flags,
        items: src.items,
        refs: src.refs,
        props: src.props,
        primary_id: src.primary_id,
        pitm_version: src.pitm_version,
        iinf_version: src.iinf_version,
    }
}

/// The structure of a source is its metadata.
pub proof fn lemma_source_view(s: Seq<u8>, meta: BoxView, src: SourceView)
    requires
        sized_metadata(s),
        first_box(boxes_in(s, 0, s.len() as int), META@) == Some(meta),
        source_structure(s, meta) == Some(Ok::<SourceView, Seq<char>>(src)),
    ensures
        source_meta(s) == Some(Ok::<MetaView, Seq<char>>(source_view(src))),
        src.pitm_version >= 1 || src.primary_id < 0x1_0000,
        be32(s, src.ipma_box.data_start) % 0x100_0000 == src.ipma_flags,
        0 <= src.ipma_box.data_start,
        src.ipma_box.data_start + 8 <= s.len(),
        0 <= meta.data_start,
        meta.data_start + 4 <= meta.data_end <= s.len(),
{
    reveal(holds_metadata);
    let top = boxes_in(s, 0, s.len() as int);
    lemma_first_index(top, META@);
    lemma_boxes_within(s, 0, s.len() as int);
    let kids = boxes_in(s, meta.data_start + 4, meta.data_end);
    lemma_boxes_within(s, meta.data_start + 4, meta.data_end);
    lemma_first_index(kids, IPRP@);
    lemma_first_index(kids, PITM@);
    let iprp = first_box(kids, IPRP@)->0;
    let inner = boxes_in(s, iprp.data_start, iprp.data_end);
    lemma_boxes_within(s, iprp.data_start, iprp.data_end);
    lemma_first_index(inner, IPMA@);
    let pitm = first_box(kids, PITM@)->0;
    assert(pitm_at(s, pitm.data_start) == Some(src.primary_id));
}

/// The item that an infe box says.
pub open spec fn said_by(c: Seq<u8>) -> ItemView {
    infe_at(c, header_at(c, 0))->0
}

/// The items of the output: the source's, the tiles, the gain grid, the tmap and the XMP.
pub open spec fn output_items(src: SourceView, c: ConfigView) -> Seq<ItemView> {
    src.items + Seq::new(c.tile_ids.len(), |i: int| built_item(c.tile_ids[i], "hvc1"@, 1))
        + seq![
        built_item(c.gain_grid_id, "grid"@, 1),
        built_item(c.tmap_id, "tmap"@, 0),
        said_by(mime_infe_bytes(c.xmp_id as int, 1)),
    ]
}

/// Whether the numbers of the added items fit 16 bits.
pub open spec fn new_ids_fit(c: ConfigView) -> bool {
    &&& c.gain_grid_id < 0x1_0000
    &&& c.tmap_id < 0x1_0000
    &&& c.xmp_id < 0x1_0000
    &&& forall|i: int| 0 <= i < c.tile_ids.len() ==> #[trigger] c.tile_ids[i] < 0x1_0000
}

pub proof fn lemma_types()
    ensures
        is_item_type("hvc1"@),
        is_item_type("grid"@),
        is_item_type("tmap"@),
        is_item_type("dimg"@),
        is_item_type("cdsc"@),
        encode_utf8("tmap"@) == BRAND_TMAP@,
{
    reveal_strlit("hvc1");
    reveal_strlit("grid");
    reveal_strlit("tmap");
    reveal_strlit("dimg");
    reveal_strlit("cdsc");
    lemma_ascii_type("hvc1"@);
    lemma_ascii_type("grid"@);
    lemma_ascii_type("tmap"@);
    lemma_ascii_type("dimg"@);
    lemma_ascii_type("cdsc"@);
    assert(is_ascii_chars("tmap"@));
    is_ascii_chars_encode_utf8("tmap"@);
    let b = encode_utf8("tmap"@);
    assert("tmap"@[0] as u8 == b[0]);
    assert("tmap"@[1] as u8 == b[1]);
    assert("tmap"@[2] as u8 == b[2]);
    assert("tmap"@[3] as u8 == b[3]);
    assert(encode_utf8("tmap"@) =~= BRAND_TMAP@);
}

/// The infe boxes of the output.
spec fn output_infes(src: SourceView, c: ConfigView) -> Seq<Seq<u8>> {
    raw_infes(src.items) + tile_infes(c.tile_ids) + seq![
        infe_bytes(c.gain_grid_id as int, "grid"@, 1),
        infe_bytes(c.tmap_id as int, "tmap"@, 0),
        mime_infe_bytes(c.xmp_id as int, 1),
    ]
}

/// Each infe box of the output says its item.
proof fn lemma_output_infe(s: Seq<u8>, src: SourceView, c: ConfigView, k: int)
    requires
        sized_metadata(s),
        source_meta(s) == Some(Ok::<MetaView, Seq<char>>(source_view(src))),
        new_ids_fit(c),
        0 <= k < output_infes(src, c).len(),
    ensures
        tells_item(output_infes(src, c)[k], output_items(src, c)[k]),
        is_sized_box(output_infes(src, c)[k]),
{
    let infes = output_infes(src, c);
    let items = output_items(src, c);
    let n = src.items.len() as int;
    let m = c.tile_ids.len() as int;
    lemma_types();
    if k < n {
        lemma_items_say(s, source_view(src));
        assert(infes[k] == src.items[k].raw_infe);
        assert(items[k] == source_view(src).items[k]);
    } else if k < n + m {
        let id = c.tile_ids[k - n];
        assert(id < 0x1_0000);
        assert(infes[k] == infe_bytes(id as int, "hvc1"@, 1));
        assert(items[k] == built_item(id, "hvc1"@, 1));
        built_item_info(id, "hvc1"@, 1);
    } else if k == n + m {
        assert(infes[k] == infe_bytes(c.gain_grid_id as int, "grid"@, 1));
        built_item_info(c.gain_grid_id, "grid"@, 1);
    } else if k == n + m + 1 {
        assert(infes[k] == infe_bytes(c.tmap_id as int, "tmap"@, 0));
        built_item_info(c.tmap_id, "tmap"@, 0);
    } else {
        assert(infes[k] == mime_infe_bytes(c.xmp_id as int, 1));
        lemma_xmp_item(c.xmp_id);
    }
}

/// The iinf box of the output says the items of the output.
#[verifier::rlimit(60)]
proof fn lemma_output_iinf(s: Seq<u8>, src: SourceView, c: ConfigView)
    requires
        sized_metadata(s),
        source_meta(s) == Some(Ok::<MetaView, Seq<char>>(source_view(src))),
        new_ids_fit(c),
        output_iinf(src, c).len() <= u32::MAX,
    ensures
        says_items(output_iinf(src, c), src.iinf_version, output_items(src, c)),
{
    reveal(output_iinf);
    let infes = output_infes(src, c);
    let items = output_items(src, c);
    assert forall|k: int| 0 <= k < infes.len() implies tells_item(#[trigger] infes[k], items[k])
        && is_sized_box(infes[k]) by {
        lemma_output_infe(s, src, c, k);
    }
    built_items(src.iinf_version, infes, items);
}

proof fn lemma_xmp_item(id: u32)
    ensures
        says_item(mime_infe_bytes(id as int, 1), said_by(mime_infe_bytes(id as int, 1))),
{
    let payload = infe_head(id as int, 1) + MIME_XMP_NAME@ + seq![0u8];
    let c = mime_infe_bytes(id as int, 1);
    lemma_built_is_sized(INFE@, payload);
    let b = header_at(c, 0);
    assert(c.take(b.data_end) =~= c);
    lemma_copy_says_item(c, b);
    assert(bytes_of(c, b) =~= c);
}

/// Whether all of `refs` fit the fields that they are written in.
pub open spec fn references_fit(refs: Seq<IrefView>) -> bool {
    forall|k: int| 0 <= k < refs.len() ==> reference_fits(#[trigger] refs[k])
}

proof fn lemma_source_refs_fit(
    refs: Seq<IrefView>,
    items: Seq<ItemView>,
    primary_id: u32,
    tmap_id: u32,
    i: int,
    kept: Seq<IrefView>,
    extra: Seq<IrefView>,
)
    requires
        references_fit(refs),
        references_fit(kept),
        references_fit(extra),
        0 <= i <= refs.len(),
    ensures
        references_fit(source_refs(refs, items, primary_id, tmap_id, i, kept, extra).0),
        references_fit(source_refs(refs, items, primary_id, tmap_id, i, kept, extra).1),
    decreases refs.len() - i,
{
    if i < refs.len() {
        assert(reference_fits(refs[i]));
        if refs[i].rtype == "grpl"@ {
            lemma_source_refs_fit(refs, items, primary_id, tmap_id, i + 1, kept, extra);
        } else if describes_exif(items, refs[i]) {
            let own = IrefView { to: seq![primary_id], ..refs[i] };
            let both = IrefView {
                rtype: "cdsc"@,
                from: refs[i].from,
                to: seq![primary_id, tmap_id],
            };
            lemma_types();
            assert(reference_fits(own));
            assert(reference_fits(both));
            let (k, e) = (kept.push(own), extra.push(both));
            assert(references_fit(k));
            assert(references_fit(e));
            lemma_source_refs_fit(refs, items, primary_id, tmap_id, i + 1, k, e);
        } else {
            let k = kept.push(refs[i]);
            assert(references_fit(k));
            lemma_source_refs_fit(refs, items, primary_id, tmap_id, i + 1, k, extra);
        }
    }
}

#[verifier::rlimit(60)]
proof fn lemma_output_refs_fit(s: Seq<u8>, src: SourceView, c: ConfigView)
    requires
        source_meta(s) == Some(Ok::<MetaView, Seq<char>>(source_view(src))),
        c.tile_ids.len() < 0x1_0000,
    ensures
        references_fit(output_refs(src, c)),
{
    reveal(output_refs);
    lemma_types();
    lemma_references_fit(s, source_view(src));
    assert(source_view(src).refs == src.refs);
    lemma_source_refs_fit(
        src.refs,
        src.items,
        src.primary_id,
        c.tmap_id,
        0,
        Seq::empty(),
        Seq::empty(),
    );
}

/// The references of the output as they are read back: all of them, in order.
pub open spec fn read_refs(src: SourceView, c: ConfigView) -> Seq<IrefView> {
    kept_references(
        output_refs(src, c),
        output_iref_version(output_refs(src, c), src.iref_version) >= 1,
    )
}

/// No reference of the output loses a bit of an item number.
pub proof fn output_references_are_kept(src: SourceView, c: ConfigView)
    ensures
        read_refs(src, c) == output_refs(src, c),
{
    let refs = output_refs(src, c);
    let version = output_iref_version(refs, src.iref_version);
    if version < 1 {
        assert forall|i: int| 0 <= i < refs.len() implies kept_reference(refs[i], false)
            == #[trigger] refs[i] by {
            assert(!is_wide(refs[i]));
            assert forall|k: int| 0 <= k < refs[i].to.len() implies kept_id(
                refs[i].to[k],
                false,
            ) == #[trigger] refs[i].to[k] by {}
            assert(kept_ids(refs[i].to, false) =~= refs[i].to);
        }
        assert(read_refs(src, c) =~= refs);
    } else {
        assert forall|i: int| 0 <= i < refs.len() implies kept_reference(refs[i], true)
            == #[trigger] refs[i] by {
            assert(kept_ids(refs[i].to, true) =~= refs[i].to);
        }
        assert(read_refs(src, c) =~= refs);
    }
}

// ---------------------------------------------------------------------------
// The children of the output's meta box
// ---------------------------------------------------------------------------

/// The boxes that come of each of `kids`, one after the other.
pub open spec fn spread(kids: Seq<BoxView>, g: spec_fn(BoxView) -> Seq<Seq<u8>>) -> Seq<Seq<u8>>
    decreases kids.len(),
{
    if kids.len() == 0 {
        Seq::empty()
    } else {
        spread(kids.drop_last(), g) + g(kids.last())
    }
}

proof fn lemma_spread_flat(
    kids: Seq<BoxView>,
    f: spec_fn(BoxView) -> Seq<u8>,
    g: spec_fn(BoxView) -> Seq<Seq<u8>>,
)
    requires
        forall|i: int| 0 <= i < kids.len() ==> f(#[trigger] kids[i]) == flat(g(kids[i]), as_is()),
    ensures
        flat(kids, f) == flat(spread(kids, g), as_is()),
    decreases kids.len(),
{
    if kids.len() > 0 {
        let rest = kids.drop_last();
        assert forall|i: int| 0 <= i < rest.len() implies f(#[trigger] rest[i]) == flat(
            g(rest[i]),
            as_is(),
        ) by {
            assert(rest[i] == kids[i]);
        }
        lemma_spread_flat(rest, f, g);
        let n = kids.len() - 1;
        assert(kids.last() == kids[n]);
        lemma_flat_add(spread(rest, g), g(kids.last()), as_is());
    }
}

proof fn lemma_spread_sized(kids: Seq<BoxView>, g: spec_fn(BoxView) -> Seq<Seq<u8>>)
    requires
        forall|i: int| 0 <= i < kids.len() ==> all_sized(g(#[trigger] kids[i])),
    ensures
        all_sized(spread(kids, g)),
    decreases kids.len(),
{
    if kids.len() > 0 {
        let rest = kids.drop_last();
        assert forall|i: int| 0 <= i < rest.len() implies all_sized(g(#[trigger] rest[i])) by {
            assert(rest[i] == kids[i]);
        }
        lemma_spread_sized(rest, g);
        let n = kids.len() - 1;
        assert(all_sized(g(kids[n])));
    }
}

/// Where every box of a type comes to `c` and no other comes to a box of that type, the
/// first box of the type is `c`.
proof fn lemma_spread_first(
    kids: Seq<BoxView>,
    g: spec_fn(BoxView) -> Seq<Seq<u8>>,
    t: Seq<u8>,
    c: Seq<u8>,
)
    requires
        c.subrange(4, 8) == t,
        forall|i: int|
            0 <= i < kids.len() && kids[i].btype == t ==> g(#[trigger] kids[i]) == seq![c],
        forall|i: int|
            0 <= i < kids.len() && kids[i].btype != t ==> has_none_of(g(#[trigger] kids[i]), t),
    ensures
        first_box(kids, t) is None ==> has_none_of(spread(kids, g), t),
        first_box(kids, t) is Some ==> exists|i: int|
            is_first_of(spread(kids, g), t, i) && spread(kids, g)[i] == c,
    decreases kids.len(),
{
    if kids.len() > 0 {
        let rest = kids.drop_last();
        let n = kids.len() - 1;
        let all = spread(kids, g);
        let before = spread(rest, g);
        assert forall|i: int| 0 <= i < rest.len() && rest[i].btype == t implies g(
            #[trigger] rest[i],
        ) == seq![c] by {
            assert(rest[i] == kids[i]);
        }
        assert forall|i: int| 0 <= i < rest.len() && rest[i].btype != t implies has_none_of(
            g(#[trigger] rest[i]),
            t,
        ) by {
            assert(rest[i] == kids[i]);
        }
        lemma_spread_first(rest, g, t, c);
        lemma_first_index(rest, t);
        lemma_first_index(kids, t);
        let last = kids[n];
        if first_box(rest, t) is Some {
            let i = choose|i: int| is_first_of(before, t, i) && before[i] == c;
            assert(all[i] == c);
            assert forall|j: int| 0 <= j < i implies (#[trigger] all[j]).subrange(4, 8) != t by {
                assert(all[j] == before[j]);
            }
            assert(is_first_of(all, t, i));
        } else if last.btype == t {
            let i = before.len() as int;
            assert(g(last) == seq![c]);
            assert(all[i] == c);
            assert forall|j: int| 0 <= j < i implies (#[trigger] all[j]).subrange(4, 8) != t by {
                assert(all[j] == before[j]);
            }
            assert(is_first_of(all, t, i));
        } else {
            assert(has_none_of(g(last), t));
            assert forall|j: int| 0 <= j < all.len() implies (#[trigger] all[j]).subrange(4, 8)
                != t by {
                if j < before.len() {
                    assert(all[j] == before[j]);
                } else {
                    assert(all[j] == g(last)[j - before.len()]);
                }
            }
        }
        if first_box(kids, t) is None {
            assert(first_box(rest, t) is None) by {
                if first_box(rest, t) is Some {
                    let i = first_index(rest, t);
                    assert(kids[i] == rest[i]);
                    assert(kids[i].btype == t);
                }
            }
            assert(kids[n].btype != t);
        }
        if first_box(kids, t) is Some && first_box(rest, t) is None {
            let i = first_index(kids, t);
            if i < n {
                assert(rest[i] == kids[i]);
                assert(rest[i].btype != t);
            }
        }
    }
}

/// The boxes that the output puts in place of the source's.
pub open spec fn kid_boxes(s: Seq<u8>, has_dinf: bool, m: PartsView, iloc: Seq<u8>) -> spec_fn(
    BoxView,
) -> Seq<Seq<u8>> {
    |kid: BoxView|
        {
            let own = bytes_of(s, kid);
            if kid.btype == HDLR@ {
                if has_dinf {
                    seq![own]
                } else {
                    seq![own, DINF_BOX@]
                }
            } else if kid.btype == PITM@ {
                seq![m.pitm]
            } else if kid.btype == IINF@ {
                seq![m.iinf]
            } else if kid.btype == ILOC@ {
                seq![iloc]
            } else if kid.btype == IPRP@ {
                seq![m.iprp]
            } else if kid.btype == IREF@ {
                seq![m.iref]
            } else if kid.btype == IDAT@ {
                seq![m.idat]
            } else if kid.btype == GRPL@ {
                Seq::empty()
            } else {
                seq![own]
            }
        }
}

/// `b` where none of `kids` has the type `t`.
pub open spec fn box_unless_present(kids: Seq<BoxView>, t: Seq<u8>, b: Seq<u8>) -> Seq<Seq<u8>> {
    if first_box(kids, t) is None {
        seq![b]
    } else {
        Seq::empty()
    }
}

/// The children of the output's meta box.
pub open spec fn output_children(
    s: Seq<u8>,
    kids: Seq<BoxView>,
    m: PartsView,
    iloc: Seq<u8>,
) -> Seq<Seq<u8>> {
    spread(kids, kid_boxes(s, first_box(kids, DINF@) is Some, m, iloc)) + box_unless_present(
        kids,
        IREF@,
        m.iref,
    ) + box_unless_present(kids, IDAT@, m.idat) + seq![m.grpl]
}

pub proof fn lemma_flat_1(a: Seq<u8>)
    ensures
        flat(seq![a], as_is()) == a,
{
    reveal_with_fuel(flat, 2);
    assert(flat(seq![a], as_is()) =~= a);
}

proof fn lemma_flat_2(a: Seq<u8>, b: Seq<u8>)
    ensures
        flat(seq![a, b], as_is()) == a + b,
{
    lemma_flat_1(a);
    lemma_flat_push(seq![a], as_is(), b);
    assert(seq![a].push(b) =~= seq![a, b]);
}

/// The output's meta box is a box with these children.
proof fn lemma_output_meta(
    s: Seq<u8>,
    meta: BoxView,
    m: PartsView,
    entries: Seq<IlocView>,
)
    ensures
        ({
            let kids = boxes_in(s, meta.data_start + 4, meta.data_end);
            meta_with(s, meta, m, entries) == box_bytes(
                META@,
                s.subrange(meta.data_start, meta.data_start + 4) + flat(
                    output_children(s, kids, m, iloc_bytes(entries)),
                    as_is(),
                ),
            )
        }),
{
    reveal(output_meta);
    let kids = boxes_in(s, meta.data_start + 4, meta.data_end);
    let iloc = iloc_bytes(entries);
    let has_dinf = first_box(kids, DINF@) is Some;
    let f = output_kid(s, has_dinf, m.pitm, m.iinf, iloc, m.iprp, m.iref, m.idat);
    let g = kid_boxes(s, has_dinf, m, iloc);
    assert forall|i: int| 0 <= i < kids.len() implies f(#[trigger] kids[i]) == flat(
        g(kids[i]),
        as_is(),
    ) by {
        lemma_kid_bytes(s, has_dinf, m, iloc, kids[i]);
    }
    lemma_spread_flat(kids, f, g);
    let a = spread(kids, g);
    let b = box_unless_present(kids, IREF@, m.iref);
    let d = box_unless_present(kids, IDAT@, m.idat);
    lemma_flat_add(a + b + d, seq![m.grpl], as_is());
    lemma_flat_add(a + b, d, as_is());
    lemma_flat_add(a, b, as_is());
    lemma_flat_1(m.grpl);
    lemma_flat_1(m.iref);
    lemma_flat_1(m.idat);
    assert(flat(b, as_is()) =~= unless_present(kids, IREF@, m.iref));
    assert(flat(d, as_is()) =~= unless_present(kids, IDAT@, m.idat));
    let head = s.subrange(meta.data_start, meta.data_start + 4);
    let x = flat(kids, f);
    let (y, z) = (unless_present(kids, IREF@, m.iref), unless_present(kids, IDAT@, m.idat));
    assert(head + (x + y + z + m.grpl) =~= head + x + y + z + m.grpl);
}

proof fn lemma_kid_bytes(s: Seq<u8>, has_dinf: bool, m: PartsView, iloc: Seq<u8>, kid: BoxView)
    ensures
        output_kid(s, has_dinf, m.pitm, m.iinf, iloc, m.iprp, m.iref, m.idat)(kid) == flat(
            kid_boxes(s, has_dinf, m, iloc)(kid),
            as_is(),
        ),
{
    let own = bytes_of(s, kid);
    lemma_flat_1(own);
    lemma_flat_1(m.pitm);
    lemma_flat_1(m.iinf);
    lemma_flat_1(iloc);
    lemma_flat_1(m.iprp);
    lemma_flat_1(m.iref);
    lemma_flat_1(m.idat);
    lemma_flat_2(own, DINF_BOX@);
    assert(own + Seq::<u8>::empty() =~= own);
}

/// Whether the boxes that the output puts in place of the source's are of their types.
pub open spec fn parts_typed(m: PartsView, iloc: Seq<u8>) -> bool {
    &&& is_box_of(m.pitm, PITM@)
    &&& is_box_of(m.iinf, IINF@)
    &&& is_box_of(iloc, ILOC@)
    &&& is_box_of(m.iprp, IPRP@)
    &&& is_box_of(m.iref, IREF@)
    &&& is_box_of(m.idat, IDAT@)
    &&& is_box_of(m.grpl, GRPL@)
}

pub proof fn lemma_tags()
    ensures
        HDLR@ != PITM@ && HDLR@ != IINF@ && HDLR@ != ILOC@ && HDLR@ != IPRP@ && HDLR@ != IREF@
            && HDLR@ != IDAT@,
        DINF@ != PITM@ && DINF@ != IINF@ && DINF@ != ILOC@ && DINF@ != IPRP@ && DINF@ != IREF@
            && DINF@ != IDAT@,
        GRPL@ != PITM@ && GRPL@ != IINF@ && GRPL@ != ILOC@ && GRPL@ != IPRP@ && GRPL@ != IREF@
            && GRPL@ != IDAT@,
        PITM@ != IINF@ && PITM@ != ILOC@ && PITM@ != IPRP@ && PITM@ != IREF@ && PITM@ != IDAT@,
        IINF@ != ILOC@ && IINF@ != IPRP@ && IINF@ != IREF@ && IINF@ != IDAT@,
        ILOC@ != IPRP@ && ILOC@ != IREF@ && ILOC@ != IDAT@,
        IPRP@ != IREF@ && IPRP@ != IDAT@,
        IREF@ != IDAT@,
{
    assert(HDLR@[0] != PITM@[0] && HDLR@[0] != IINF@[0] && DINF@[0] != PITM@[0] && DINF@[0]
        != IINF@[0] && GRPL@[0] != PITM@[0] && GRPL@[0] != IINF@[0] && PITM@[0] != IINF@[0]);
    assert(IINF@[0] == ILOC@[0] && IINF@[0] == IPRP@[0] && IINF@[0] == IREF@[0] && IINF@[0]
        == IDAT@[0]);
    assert(IINF@[1] != ILOC@[1] && IINF@[1] != IPRP@[1] && IINF@[1] != IREF@[1] && IINF@[1]
        != IDAT@[1]);
    assert(ILOC@[1] != IPRP@[1] && ILOC@[1] != IREF@[1] && ILOC@[1] != IDAT@[1]);
    assert(IPRP@[1] != IREF@[1] && IPRP@[1] != IDAT@[1] && IREF@[1] != IDAT@[1]);
}

proof fn lemma_kid_types(
    s: Seq<u8>,
    kids: Seq<BoxView>,
    has_dinf: bool,
    m: PartsView,
    iloc: Seq<u8>,
    t: Seq<u8>,
    i: int,
)
    requires
        0 <= i < kids.len(),
        stands_sized(s, kids[i]),
        parts_typed(m, iloc),
        t == PITM@ || t == IINF@ || t == ILOC@ || t == IPRP@ || t == IREF@ || t == IDAT@,
    ensures
        all_sized(kid_boxes(s, has_dinf, m, iloc)(kids[i])),
        kids[i].btype != t ==> has_none_of(kid_boxes(s, has_dinf, m, iloc)(kids[i]), t),
{
    lemma_tags();
    lemma_constant_boxes();
    lemma_copy(s, kids[i]);
    let g = kid_boxes(s, has_dinf, m, iloc)(kids[i]);
    assert forall|j: int| 0 <= j < g.len() && kids[i].btype != t implies (#[trigger] g[j]).subrange(
        4,
        8,
    ) != t by {}
}

/// The output's children have their first box of a type where the source's children have
/// it, or behind them.
proof fn lemma_output_first(
    s: Seq<u8>,
    kids: Seq<BoxView>,
    m: PartsView,
    iloc: Seq<u8>,
    t: Seq<u8>,
    c: Seq<u8>,
)
    requires
        forall|i: int| 0 <= i < kids.len() ==> stands_sized(s, #[trigger] kids[i]),
        parts_typed(m, iloc),
        (t == PITM@ && c == m.pitm) || (t == IINF@ && c == m.iinf) || (t == ILOC@ && c == iloc) || (
        t == IPRP@ && c == m.iprp) || (t == IREF@ && c == m.iref) || (t == IDAT@ && c == m.idat),
        first_box(kids, t) is Some || t == IREF@ || t == IDAT@,
    ensures
        exists|i: int|
            is_first_of(output_children(s, kids, m, iloc), t, i) && output_children(
                s,
                kids,
                m,
                iloc,
            )[i] == c,
        all_sized(output_children(s, kids, m, iloc)),
{
    lemma_tags();
    let has_dinf = first_box(kids, DINF@) is Some;
    let g = kid_boxes(s, has_dinf, m, iloc);
    let all = output_children(s, kids, m, iloc);
    let a = spread(kids, g);
    assert forall|i: int| 0 <= i < kids.len() && kids[i].btype == t implies g(#[trigger] kids[i])
        == seq![c] by {}
    assert forall|i: int| 0 <= i < kids.len() && kids[i].btype != t implies has_none_of(
        g(#[trigger] kids[i]),
        t,
    ) by {
        assert(stands_sized(s, kids[i]));
        lemma_kid_types(s, kids, has_dinf, m, iloc, t, i);
    }
    lemma_spread_first(kids, g, t, c);
    assert forall|i: int| 0 <= i < kids.len() implies all_sized(g(#[trigger] kids[i])) by {
        assert(stands_sized(s, kids[i]));
        lemma_kid_types(s, kids, has_dinf, m, iloc, t, i);
    }
    lemma_spread_sized(kids, g);
    let b = box_unless_present(kids, IREF@, m.iref);
    let d = box_unless_present(kids, IDAT@, m.idat);
    assert forall|i: int| 0 <= i < all.len() implies is_sized_box(#[trigger] all[i]) by {
        if i < a.len() {
            assert(all[i] == a[i]);
        } else if i < a.len() + b.len() {
            assert(all[i] == m.iref);
        } else if i < a.len() + b.len() + d.len() {
            assert(all[i] == m.idat);
        } else {
            assert(all[i] == m.grpl);
        }
    }
    if first_box(kids, t) is Some {
        let i = choose|i: int| is_first_of(a, t, i) && a[i] == c;
        assert(all[i] == c);
        assert forall|j: int| 0 <= j < i implies (#[trigger] all[j]).subrange(4, 8) != t by {
            assert(all[j] == a[j]);
        }
        assert(is_first_of(all, t, i));
    } else if t == IREF@ {
        let i = a.len() as int;
        assert(all[i] == c);
        assert forall|j: int| 0 <= j < i implies (#[trigger] all[j]).subrange(4, 8) != t by {
            assert(all[j] == a[j]);
        }
        assert(is_first_of(all, t, i));
    } else {
        let i = (a.len() + b.len()) as int;
        assert(all[i] == c);
        assert forall|j: int| 0 <= j < i implies (#[trigger] all[j]).subrange(4, 8) != t by {
            if j < a.len() {
                assert(all[j] == a[j]);
            } else {
                assert(all[j] == m.iref);
            }
        }
        assert(is_first_of(all, t, i));
    }
}

// ---------------------------------------------------------------------------
// The output
// ---------------------------------------------------------------------------

/// Whether what goes into the output fits the fields that it is written in, and the
/// source is well-formed.
pub open spec fn output_fits(s: Seq<u8>, src: SourceView, c: ConfigView, ispe: u32) -> bool {
    &&& sized_metadata(s)
    &&& properties_fill(s, src)
    &&& is_sized_box(c.base_clli)
    &&& is_sized_box(c.tmap_clli)
    &&& new_ids_fit(c)
    &&& src.iloc_entries.len() + c.tiles.len() + 3 < 0x1_0000
    &&& all_entries(src, c, ispe).len() <= u32::MAX
    &&& forall|i: int|
        0 <= i < all_entries(src, c, ispe).len() ==> associations_fit(
            #[trigger] all_entries(src, c, ispe)[i],
            src.ipma_flags % 2 == 1,
        )
}

/// What the output says: the source's items with the tiles, the gain grid, the tmap and
/// the XMP, the properties and associations of all of them, and how they refer to each
/// other.
pub open spec fn output_view(
    src: SourceView,
    c: ConfigView,
    orientation: ExifOrientation,
    ispe: u32,
    entries: Seq<IlocView>,
) -> MetaView {
    MetaView {
        iloc_entries: stored_locations(entries),
        ipma_entries: all_entries(src, c, ispe),
        ipma_flags: src.ipma_flags,
        items: output_items(src, c),
        refs: output_refs(src, c),
        props: properties_in_boxes(all_properties(src, c, orientation, ispe)),
        primary_id: src.primary_id,
        pitm_version: src.pitm_version,
        iinf_version: src.iinf_version,
    }
}

/// The children of the output's meta box say what the output says.
#[verifier::rlimit(60)]
proof fn lemma_output_says(
    s: Seq<u8>,
    meta: BoxView,
    src: SourceView,
    c: ConfigView,
    orientation: ExifOrientation,
    ispe: u32,
    entries: Seq<IlocView>,
)
    requires
        first_box(boxes_in(s, 0, s.len() as int), META@) == Some(meta),
        source_structure(s, meta) == Some(Ok::<SourceView, Seq<char>>(src)),
        output_fits(s, src, c, ispe),
        c.tile_ids.len() == c.tiles.len(),
        entries.len() < 0x1_0000,
        extents_counted(entries),
        meta_with(s, meta, output_parts(s, src, c, orientation, ispe), entries).len() <= u32::MAX,
    ensures
        children_say(
            output_children(
                s,
                children_of(s),
                output_parts(s, src, c, orientation, ispe),
                iloc_bytes(entries),
            ),
            output_view(src, c, orientation, ispe, entries),
        ),
{
    reveal(children_say);
    let kids = children_of(s);
    let m = output_parts(s, src, c, orientation, ispe);
    let iloc = iloc_bytes(entries);
    let boxes = output_children(s, kids, m, iloc);
    let view = output_view(src, c, orientation, ispe, entries);
    lemma_source_view(s, meta, src);
    lemma_children_stand(s);
    lemma_output_lens(s, meta, src, c, orientation, ispe, entries);
    built_locations(entries);
    lemma_output_iinf(s, src, c);
    lemma_output_iprp(s, src, c, orientation, ispe);
    lemma_output_refs_fit(s, src, c);
    output_references_are_kept(src, c);
    built_references(output_iref_version(output_refs(src, c), src.iref_version), output_refs(src, c));
    built_primary(src.pitm_version, src.primary_id);
    lemma_parts_typed(s, src, c, orientation, ispe, entries);
    assert(first_box(kids, ILOC@) is Some && first_box(kids, IINF@) is Some && first_box(
        kids,
        PITM@,
    ) is Some && first_box(kids, IPRP@) is Some) by {
        reveal(holds_metadata);
    }
    lemma_output_first(s, kids, m, iloc, ILOC@, iloc);
    lemma_output_first(s, kids, m, iloc, IINF@, m.iinf);
    lemma_output_first(s, kids, m, iloc, PITM@, m.pitm);
    lemma_output_first(s, kids, m, iloc, IPRP@, m.iprp);
    lemma_output_first(s, kids, m, iloc, IREF@, m.iref);
    assert(exists|i: int| is_first_of(boxes, ILOC@, i) && says_locations(boxes[i], view.iloc_entries));
    assert(exists|i: int|
        is_first_of(boxes, IINF@, i) && says_items(boxes[i], view.iinf_version, view.items));
    assert(exists|i: int|
        is_first_of(boxes, PITM@, i) && says_primary(
            boxes[i],
            view.pitm_version,
            view.primary_id,
        ));
    assert(exists|i: int|
        is_first_of(boxes, IPRP@, i) && says_properties(
            boxes[i],
            view.props,
            view.ipma_flags,
            view.ipma_entries,
        ));
    assert(exists|i: int| is_first_of(boxes, IREF@, i) && says_references(boxes[i], view.refs));
}

proof fn lemma_parts_typed(
    s: Seq<u8>,
    src: SourceView,
    c: ConfigView,
    orientation: ExifOrientation,
    ispe: u32,
    entries: Seq<IlocView>,
)
    requires
        says_locations(iloc_bytes(entries), stored_locations(entries)),
        says_items(output_iinf(src, c), src.iinf_version, output_items(src, c)),
        says_primary(
            pitm_bytes(src.pitm_version, src.primary_id as int),
            src.pitm_version,
            src.primary_id,
        ),
        says_properties(
            output_iprp(s, src, c, orientation, ispe),
            properties_in_boxes(all_properties(src, c, orientation, ispe)),
            src.ipma_flags,
            all_entries(src, c, ispe),
        ),
        says_references(output_iref(src, c), output_refs(src, c)),
        output_idat(s, src, c).len() + 8 <= u32::MAX,
    ensures
        parts_typed(output_parts(s, src, c, orientation, ispe), iloc_bytes(entries)),
{
    lemma_locations_typed(iloc_bytes(entries), stored_locations(entries));
    lemma_items_typed(output_iinf(src, c), src.iinf_version, output_items(src, c));
    lemma_primary_typed(
        pitm_bytes(src.pitm_version, src.primary_id as int),
        src.pitm_version,
        src.primary_id,
    );
    lemma_properties_typed(
        output_iprp(s, src, c, orientation, ispe),
        properties_in_boxes(all_properties(src, c, orientation, ispe)),
        src.ipma_flags,
        all_entries(src, c, ispe),
    );
    lemma_references_typed(output_iref(src, c), output_refs(src, c));
    lemma_built_typed(IDAT@, output_idat(s, src, c));
    lemma_grpl_typed(c.group_id as int, c.tmap_id as int, src.primary_id as int);
}

proof fn lemma_grpl_typed(group_id: int, tmap_id: int, primary_id: int)
    ensures
        is_box_of(grpl_altr_bytes(group_id, tmap_id, primary_id), GRPL@),
{
    let payload = full_head(0) + enc32(group_id) + enc32(2) + enc32(tmap_id) + enc32(primary_id);
    let altr = box_bytes(ALTR@, payload);
    assert(altr.len() == 28) by {
        reveal(box_bytes);
    }
    lemma_built_typed(GRPL@, altr);
}

pub proof fn lemma_built_typed(btype: Seq<u8>, payload: Seq<u8>)
    requires
        btype.len() == 4,
        payload.len() + 8 <= u32::MAX,
    ensures
        is_box_of(box_bytes(btype, payload), btype),
{
    lemma_built_is_sized(btype, payload);
    assert(header_at(box_bytes(btype, payload), 0).btype == btype);
}

pub proof fn lemma_locations_typed(c: Seq<u8>, entries: Seq<IlocView>)
    requires
        says_locations(c, entries),
    ensures
        is_box_of(c, ILOC@),
{
    reveal(says_locations);
}

pub proof fn lemma_items_typed(c: Seq<u8>, version: u8, items: Seq<ItemView>)
    requires
        says_items(c, version, items),
    ensures
        is_box_of(c, IINF@),
{
}

pub proof fn lemma_primary_typed(c: Seq<u8>, version: u8, id: u32)
    requires
        says_primary(c, version, id),
    ensures
        is_box_of(c, PITM@),
{
}

pub proof fn lemma_properties_typed(
    c: Seq<u8>,
    props: Seq<PropertyView>,
    flags: u32,
    entries: Seq<IpmaView>,
)
    requires
        says_properties(c, props, flags, entries),
    ensures
        is_box_of(c, IPRP@),
{
}

pub proof fn lemma_references_typed(c: Seq<u8>, refs: Seq<IrefView>)
    requires
        says_references(c, refs),
    ensures
        is_box_of(c, IREF@),
{
}

/// Each part of the output's metadata is no longer than the whole.
#[verifier::rlimit(60)]
proof fn lemma_output_lens(
    s: Seq<u8>,
    meta: BoxView,
    src: SourceView,
    c: ConfigView,
    orientation: ExifOrientation,
    ispe: u32,
    entries: Seq<IlocView>,
)
    requires
        sized_metadata(s),
        first_box(boxes_in(s, 0, s.len() as int), META@) == Some(meta),
        meta_with(s, meta, output_parts(s, src, c, orientation, ispe), entries).len() <= u32::MAX,
    ensures
        iloc_bytes(entries).len() <= u32::MAX,
        output_iinf(src, c).len() <= u32::MAX,
        output_iprp(s, src, c, orientation, ispe).len() <= u32::MAX,
        output_iref(src, c).len() <= u32::MAX,
        output_idat(s, src, c).len() + 8 <= u32::MAX,
{
    reveal(holds_metadata);
    let kids = children_of(s);
    let m = output_parts(s, src, c, orientation, ispe);
    let iloc = iloc_bytes(entries);
    lemma_output_meta(s, meta, m, entries);
    let f = output_kid(
        s,
        first_box(kids, DINF@) is Some,
        m.pitm,
        m.iinf,
        iloc,
        m.iprp,
        m.iref,
        m.idat,
    );
    lemma_tags();
    reveal(output_meta);
    lemma_output_part(kids, f, ILOC@);
    lemma_output_part(kids, f, IINF@);
    lemma_output_part(kids, f, IPRP@);
    lemma_output_part(kids, f, IREF@);
    lemma_output_part(kids, f, IDAT@);
    lemma_first_index(kids, ILOC@);
    lemma_first_index(kids, IINF@);
    lemma_first_index(kids, IPRP@);
    lemma_first_index(kids, IREF@);
    lemma_first_index(kids, IDAT@);
    let head = s.subrange(meta.data_start, meta.data_start + 4);
    let whole = meta_with(s, meta, m, entries);
    assert(whole.len() >= flat(kids, f).len() + unless_present(kids, IREF@, m.iref).len()
        + unless_present(kids, IDAT@, m.idat).len()) by {
        reveal(box_bytes);
    }
    assert(box_bytes(IDAT@, output_idat(s, src, c)).len() == 8 + output_idat(s, src, c).len()) by {
        reveal(box_bytes);
    }
}

/// What the first of `kids` of a type comes to is no longer than what all come to.
proof fn lemma_output_part(kids: Seq<BoxView>, f: spec_fn(BoxView) -> Seq<u8>, t: Seq<u8>)
    ensures
        first_box(kids, t) matches Some(b) ==> f(b).len() <= flat(kids, f).len() && b.btype == t,
{
    if first_box(kids, t) is Some {
        lemma_first_index(kids, t);
        lemma_flat_part(kids, f, first_index(kids, t));
    }
}

proof fn lemma_flat_part<T>(x: Seq<T>, f: spec_fn(T) -> Seq<u8>, i: int)
    requires
        0 <= i < x.len(),
    ensures
        f(x[i]).len() <= flat(x, f).len(),
    decreases x.len(),
{
    if i < x.len() - 1 {
        assert(x.drop_last()[i] == x[i]);
        lemma_flat_part(x.drop_last(), f, i);
    }
}

proof fn lemma_patched_extents_len(
    x: Seq<(u64, u64)>,
    patch: Option<OppoUserCommentPatch>,
    old: int,
    new: int,
    i: int,
    acc: Seq<(u64, u64)>,
)
    requires
        0 <= i <= x.len(),
    ensures
        patched_extents(x, patch, old, new, i, acc) matches Some(y) ==> y.len() == acc.len()
            + x.len() - i,
    decreases x.len() - i,
{
    if i < x.len() {
        match adjusted_extent(x[i].0, x[i].1, patch) {
            None => {},
            Some((offset, length)) => {
                lemma_patched_extents_len(
                    x,
                    patch,
                    old,
                    new,
                    i + 1,
                    acc.push((moved(offset, old, new), length)),
                );
            },
        }
    }
}

/// Whether locations have as many extents as others.
pub open spec fn same_counts(x: Seq<IlocView>, y: Seq<IlocView>) -> bool {
    &&& x.len() == y.len()
    &&& forall|i: int| 0 <= i < x.len() ==> (#[trigger] x[i]).extents.len() == y[i].extents.len()
}

proof fn lemma_source_locations_len(
    entries: Seq<IlocView>,
    patch: Option<OppoUserCommentPatch>,
    old: int,
    new: int,
    i: int,
    acc: Seq<IlocView>,
)
    requires
        0 <= i <= entries.len(),
        same_counts(acc, entries.take(i)),
        forall|k: int| 0 <= k < i ==> (#[trigger] acc[k]).item_id == entries[k].item_id,
    ensures
        source_locations(entries, patch, old, new, i, acc) matches Some(y) ==> same_counts(
            y,
            entries,
        ) && forall|k: int| 0 <= k < y.len() ==> (#[trigger] y[k]).item_id == entries[k].item_id,
    decreases entries.len() - i,
{
    if i < entries.len() {
        let e = entries[i];
        if e.construction_method != 0 {
            let next = acc.push(e);
            assert(same_counts(next, entries.take(i + 1))) by {
                assert forall|k: int| 0 <= k < next.len() implies (#[trigger] next[k]).extents.len()
                    == entries.take(i + 1)[k].extents.len() by {
                    if k < i {
                        assert(acc[k].extents.len() == entries.take(i)[k].extents.len());
                    }
                }
            }
            lemma_source_locations_len(entries, patch, old, new, i + 1, next);
        } else {
            lemma_patched_extents_len(e.extents, patch, old, new, 0, Seq::empty());
            match patched_extents(e.extents, patch, old, new, 0, Seq::empty()) {
                None => {},
                Some(extents) => {
                    let next = acc.push(IlocView { extents, ..e });
                    assert(same_counts(next, entries.take(i + 1))) by {
                        assert forall|k: int| 0 <= k < next.len() implies (
                        #[trigger] next[k]).extents.len() == entries.take(
                            i + 1,
                        )[k].extents.len() by {
                            if k < i {
                                assert(acc[k].extents.len() == entries.take(i)[k].extents.len());
                            }
                        }
                    }
                    lemma_source_locations_len(entries, patch, old, new, i + 1, next);
                },
            }
        }
    } else {
        assert(entries.take(i) =~= entries);
    }
}

proof fn lemma_tiles_counted(
    entries: Seq<IlocView>,
    ids: Seq<u32>,
    tiles: Seq<Seq<u8>>,
    offset: int,
    i: int,
)
    requires
        0 <= i <= tiles.len(),
        extents_counted(entries),
    ensures
        extents_counted(tiles_placed(entries, ids, tiles, offset, i)),
        tiles_placed(entries, ids, tiles, offset, i).len() == entries.len(),
    decreases tiles.len() - i,
{
    if i < tiles.len() {
        let next = repointed(entries, ids[i], offset, tiles[i].len() as int);
        lemma_iloc_index(entries, ids[i], 0);
        assert(extents_counted(next)) by {
            assert forall|k: int| 0 <= k < next.len() implies (#[trigger] next[k]).extents.len()
                < 0x1_0000 by {
                if iloc_index(entries, ids[i], 0) != Some(k) {
                    assert(next[k] == entries[k]);
                }
            }
        }
        lemma_tiles_counted(next, ids, tiles, offset + tiles[i].len(), i + 1);
    }
}

pub proof fn lemma_output_counts(
    src: SourceView,
    c: ConfigView,
    idat: int,
    patch: Option<OppoUserCommentPatch>,
    old: int,
    start: int,
    media_len: int,
)
    requires
        extents_counted(src.iloc_entries),
    ensures
        output_locations(
            src,
            c,
            placeholder_locations(src, c, idat),
            patch,
            old,
            start,
            media_len,
        ) matches Some(entries) ==> extents_counted(entries) && entries.len()
            == src.iloc_entries.len() + c.tiles.len() + 3,
{
    reveal(placeholder_locations);
    let first = placeholder_locations(src, c, idat);
    let n = src.iloc_entries.len() as int;
    assert(src.iloc_entries.take(0) =~= Seq::empty());
    lemma_source_locations_len(src.iloc_entries, patch, old, start, 0, Seq::empty());
    match source_locations(src.iloc_entries, patch, old, start, 0, Seq::empty()) {
        None => {},
        Some(located) => {
            let all = located + first.skip(n);
            assert(extents_counted(all)) by {
                assert forall|k: int| 0 <= k < all.len() implies (#[trigger] all[k]).extents.len()
                    < 0x1_0000 by {
                    if k < n {
                        assert(all[k] == located[k]);
                        assert(src.iloc_entries[k].extents.len() < 0x1_0000);
                    } else {
                        assert(all[k] == first[k]);
                    }
                }
            }
            lemma_tiles_counted(all, c.tile_ids, c.tiles, start + media_len, 0);
        },
    }
}

/// The first meta box of a file that begins with an ftyp box and a meta box.
pub proof fn lemma_first_two(t: Seq<u8>, ftyp: Seq<u8>, payload: Seq<u8>, rest: Seq<u8>)
    requires
        t == ftyp + box_bytes(META@, payload) + rest,
        is_box_of(ftyp, FTYP@),
        payload.len() + 8 <= u32::MAX,
    ensures
        first_box(boxes_in(t, 0, t.len() as int), META@) == Some(
            header_of(META@, payload.len() as int, ftyp.len() as int),
        ),
        occurs_at(t, box_bytes(META@, payload), ftyp.len() as int),
{
    let meta = box_bytes(META@, payload);
    let n = ftyp.len() as int;
    let end = t.len() as int;
    assert(t.subrange(0, end) =~= t);
    lemma_parts(t, ftyp + meta, rest, 0);
    lemma_parts(t, ftyp, meta, 0);
    lemma_sized_box(t, 0, end, ftyp);
    assert(meta.len() == 8 + payload.len()) by {
        reveal(box_bytes);
    }
    boxes_read_back(t, n, end, META@, payload);
    let top = boxes_in(t, 0, end);
    let after = boxes_in(t, n, end);
    assert(top =~= seq![header_at(ftyp, 0)] + after);
    assert(after[0] == header_of(META@, payload.len() as int, n));
    assert(top[1] == after[0]);
    assert(top[0].btype == FTYP@);
    assert(FTYP@[0] != META@[0]);
    lemma_first_where_at(top, of_type(META@), 1);
}

/// An assembled output says all of its source's items, properties and references, and the
/// gain map's: what is read of it is what went into it.
pub proof fn assembled_output_reads_back(
    s: Seq<u8>,
    ftyp: BoxView,
    meta: BoxView,
    mdat: BoxView,
    src: SourceView,
    media: Seq<u8>,
    patch: Option<OppoUserCommentPatch>,
    orientation: ExifOrientation,
    c: ConfigView,
    t: Seq<u8>,
)
    requires
        first_box(boxes_in(s, 0, s.len() as int), FTYP@) == Some(ftyp),
        first_box(boxes_in(s, 0, s.len() as int), META@) == Some(meta),
        source_structure(s, meta) == Some(Ok::<SourceView, Seq<char>>(src)),
        property_number(src, src.primary_id, "ispe"@) matches Some(ispe) && output_fits(
            s,
            src,
            c,
            ispe,
        ),
        c.tile_ids.len() == c.tiles.len(),
        output_file(s, ftyp, meta, mdat, src, media, patch, orientation, c) == Some(
            Ok::<Seq<u8>, Seq<char>>(t),
        ),
        t.len() <= u32::MAX,
    ensures
        source_meta(t) == Some(
            Ok::<MetaView, Seq<char>>(
                output_view(
                    src,
                    c,
                    orientation,
                    property_number(src, src.primary_id, "ispe"@)->0,
                    output_entry_locations(
                        s,
                        ftyp,
                        meta,
                        mdat,
                        src,
                        media,
                        patch,
                        orientation,
                        c,
                    ),
                ),
            ),
        ),
{
    let ispe = property_number(src, src.primary_id, "ispe"@)->0;
    let m = output_parts(s, src, c, orientation, ispe);
    let entries = output_entry_locations(s, ftyp, meta, mdat, src, media, patch, orientation, c);
    let first = placeholder_locations(src, c, box_payload(s, src.idat).len() as int);
    let start = output_start(s, ftyp, meta, mdat, m, first);
    lemma_source_view(s, meta, src);
    lemma_entries_count(s, source_view(src));
    lemma_output_counts(
        src,
        c,
        box_payload(s, src.idat).len() as int,
        patch,
        mdat.data_start,
        start,
        media.len() as int,
    );
    lemma_output_reads(s, ftyp, meta, mdat, src, c, orientation, ispe, entries, media, t);
}

proof fn lemma_output_reads(
    s: Seq<u8>,
    ftyp: BoxView,
    meta: BoxView,
    mdat: BoxView,
    src: SourceView,
    c: ConfigView,
    orientation: ExifOrientation,
    ispe: u32,
    entries: Seq<IlocView>,
    media: Seq<u8>,
    t: Seq<u8>,
)
    requires
        first_box(boxes_in(s, 0, s.len() as int), META@) == Some(meta),
        source_structure(s, meta) == Some(Ok::<SourceView, Seq<char>>(src)),
        output_fits(s, src, c, ispe),
        c.tile_ids.len() == c.tiles.len(),
        entries.len() < 0x1_0000,
        extents_counted(entries),
        t == output_bytes(
            s,
            ftyp,
            meta,
            mdat,
            output_parts(s, src, c, orientation, ispe),
            entries,
            media,
            c,
        ),
        t.len() <= u32::MAX,
    ensures
        source_meta(t) == Some(
            Ok::<MetaView, Seq<char>>(output_view(src, c, orientation, ispe, entries)),
        ),
{
    let m = output_parts(s, src, c, orientation, ispe);
    assert(s.subrange(meta.data_start, meta.data_start + 4).len() == 4) by {
        lemma_source_view(s, meta, src);
    }
    lemma_output_file_len(s, ftyp, meta, mdat, m, entries, media, c);
    lemma_output_says(s, meta, src, c, orientation, ispe, entries);
    let boxes = output_children(s, children_of(s), m, iloc_bytes(entries));
    let view = output_view(src, c, orientation, ispe, entries);
    lemma_output_start_reads(s, ftyp, meta, mdat, m, entries, media, c, boxes, view);
}

proof fn lemma_output_start_reads(
    s: Seq<u8>,
    ftyp: BoxView,
    meta: BoxView,
    mdat: BoxView,
    m: PartsView,
    entries: Seq<IlocView>,
    media: Seq<u8>,
    c: ConfigView,
    boxes: Seq<Seq<u8>>,
    view: MetaView,
)
    requires
        boxes == output_children(
            s,
            boxes_in(s, meta.data_start + 4, meta.data_end),
            m,
            iloc_bytes(entries),
        ),
        children_say(boxes, view),
        s.subrange(meta.data_start, meta.data_start + 4).len() == 4,
        output_bytes(s, ftyp, meta, mdat, m, entries, media, c).len() <= u32::MAX,
    ensures
        source_meta(output_bytes(s, ftyp, meta, mdat, m, entries, media, c)) == Some(
            Ok::<MetaView, Seq<char>>(view),
        ),
{
    let t = output_bytes(s, ftyp, meta, mdat, m, entries, media, c);
    let head = s.subrange(meta.data_start, meta.data_start + 4);
    let front = ftyp_bytes(s.subrange(ftyp.data_start, ftyp.data_end));
    lemma_output_begin(s, ftyp, meta, mdat, m, entries, media, c, boxes);
    lemma_children_read_back(t, front.len() as int, head, boxes, view);
}

pub proof fn lemma_built_len(btype: Seq<u8>, payload: Seq<u8>)
    requires
        btype.len() == 4,
    ensures
        box_bytes(btype, payload).len() == 8 + payload.len(),
{
    reveal(box_bytes);
}

proof fn lemma_five_parts(a: Seq<u8>, b: Seq<u8>, c: Seq<u8>, d: Seq<u8>, e: Seq<u8>)
    ensures
        a + b + c + d + e == a + b + (c + d + e),
{
    assert(a + b + c + d + e =~= a + b + (c + d + e));
}

proof fn lemma_ftyp_typed(payload: Seq<u8>)
    requires
        ftyp_bytes(payload).len() <= u32::MAX,
    ensures
        is_box_of(ftyp_bytes(payload), FTYP@),
{
    let all = payload + missing_brand(payload, BRAND_TMAP@) + missing_brand(payload, BRAND_MIHE@)
        + missing_brand(payload, BRAND_MIHB@);
    assert(ftyp_bytes(payload).len() == 8 + all.len()) by {
        reveal(box_bytes);
    }
    lemma_built_typed(FTYP@, all);
}

proof fn lemma_output_file_len(
    s: Seq<u8>,
    ftyp: BoxView,
    meta: BoxView,
    mdat: BoxView,
    m: PartsView,
    entries: Seq<IlocView>,
    media: Seq<u8>,
    c: ConfigView,
)
    ensures
        meta_with(s, meta, m, entries).len() <= output_bytes(
            s,
            ftyp,
            meta,
            mdat,
            m,
            entries,
            media,
            c,
        ).len(),
        ftyp_bytes(s.subrange(ftyp.data_start, ftyp.data_end)).len() <= output_bytes(
            s,
            ftyp,
            meta,
            mdat,
            m,
            entries,
            media,
            c,
        ).len(),
{
}

/// The locations of an output.
pub open spec fn output_entry_locations(
    s: Seq<u8>,
    ftyp: BoxView,
    meta: BoxView,
    mdat: BoxView,
    src: SourceView,
    media: Seq<u8>,
    patch: Option<OppoUserCommentPatch>,
    orientation: ExifOrientation,
    c: ConfigView,
) -> Seq<IlocView> {
    let ispe = property_number(src, src.primary_id, "ispe"@)->0;
    let first = placeholder_locations(src, c, box_payload(s, src.idat).len() as int);
    output_locations(
        src,
        c,
        first,
        patch,
        mdat.data_start,
        output_start(
            s,
            ftyp,
            meta,
            mdat,
            output_parts(s, src, c, orientation, ispe),
            first,
        ),
        media.len() as int,
    )->0
}

// ---------------------------------------------------------------------------
// The gain map of an output
// ---------------------------------------------------------------------------

/// Whether bytes are those of a range of `s` between `lo` and `hi`.
pub open spec fn lies_between(s: Seq<u8>, c: Seq<u8>, lo: int, hi: int) -> bool {
    exists|a: int| lo <= a && a + c.len() <= hi && #[trigger] occurs_at(s, c, a)
}

proof fn lemma_raw_within(
    s: Seq<u8>,
    kids: Seq<BoxView>,
    i: int,
    acc: Seq<ItemView>,
    lo: int,
    hi: int,
)
    requires
        0 <= lo,
        hi <= s.len(),
        forall|k: int|
            0 <= k < kids.len() ==> lo <= (#[trigger] kids[k]).box_start <= kids[k].data_end <= hi,
        forall|k: int|
            0 <= k < acc.len() ==> lies_between(s, (#[trigger] acc[k]).raw_infe, lo, hi),
        0 <= i <= kids.len(),
    ensures
        infes_of(s, kids, i, acc) matches Some(items) ==> forall|k: int|
            0 <= k < items.len() ==> lies_between(s, (#[trigger] items[k]).raw_infe, lo, hi),
    decreases kids.len() - i,
{
    if i < kids.len() {
        let b = kids[i];
        if b.btype != INFE@ {
            lemma_raw_within(s, kids, i + 1, acc, lo, hi);
        } else {
            match infe_at(s, b) {
                None => {},
                Some(it) => {
                    assert(lo <= b.box_start <= b.data_end <= hi);
                    assert(occurs_at(s, it.raw_infe, b.box_start));
                    lemma_raw_within(s, kids, i + 1, acc.push(it), lo, hi);
                },
            }
        }
    }
}

/// Bytes that stand in a part of a range stand in the range.
proof fn lemma_contains_part(s: Seq<u8>, lo: int, hi: int, c: Seq<u8>, needle: Seq<u8>, at: int)
    requires
        0 <= lo <= hi <= s.len(),
        lies_between(s, c, lo, hi),
        occurs_at(c, needle, at),
    ensures
        contains_bytes(s.subrange(lo, hi), needle),
{
    let a = choose|a: int| lo <= a && a + c.len() <= hi && #[trigger] occurs_at(s, c, a);
    let r = s.subrange(lo, hi);
    let k = a - lo + at;
    assert(r.subrange(k, k + needle.len()) =~= s.subrange(a, a + c.len()).subrange(
        at,
        at + needle.len(),
    ));
    assert(occurs_at(r, needle, k));
}

/// A file one of whose items has an infe box with these bytes has them in its iinf box.
proof fn lemma_item_bytes(t: Seq<u8>, n: MetaView, j: int, needle: Seq<u8>, at: int)
    requires
        source_meta(t) == Some(Ok::<MetaView, Seq<char>>(n)),
        0 <= j < n.items.len(),
        occurs_at(n.items[j].raw_infe, needle, at),
    ensures
        ({
            let iinf = first_box(children_of(t), IINF@)->0;
            contains_bytes(t.subrange(iinf.data_start, iinf.data_end), needle)
        }),
{
    let top = boxes_in(t, 0, t.len() as int);
    lemma_first_index(top, META@);
    lemma_boxes_within(t, 0, t.len() as int);
    let meta = first_box(top, META@)->0;
    let kids = children_of(t);
    lemma_boxes_within(t, meta.data_start + 4, meta.data_end);
    lemma_first_index(kids, IINF@);
    let iinf = first_box(kids, IINF@)->0;
    let start = infes_start(t, iinf);
    let infes = boxes_in(t, start, iinf.data_end);
    lemma_boxes_within(t, start, iinf.data_end);
    lemma_raw_within(t, infes, 0, Seq::empty(), iinf.data_start, iinf.data_end);
    assert(lies_between(t, n.items[j].raw_infe, iinf.data_start, iinf.data_end));
    lemma_contains_part(
        t,
        iinf.data_start,
        iinf.data_end,
        n.items[j].raw_infe,
        needle,
        at,
    );
}

/// A file that has the auxiliary type of a gain map among its properties is marked.
proof fn lemma_marked(t: Seq<u8>, n: MetaView, k: int)
    requires
        source_meta(t) == Some(Ok::<MetaView, Seq<char>>(n)),
        0 <= k < n.props.len(),
        n.props[k].raw == AUX_C_BOX@,
    ensures
        marks_auxiliary(t, children_of(t)),
{
    let top = boxes_in(t, 0, t.len() as int);
    lemma_first_index(top, META@);
    lemma_boxes_within(t, 0, t.len() as int);
    let meta = first_box(top, META@)->0;
    let kids = children_of(t);
    lemma_boxes_within(t, meta.data_start + 4, meta.data_end);
    lemma_first_index(kids, IPRP@);
    let iprp = first_box(kids, IPRP@)->0;
    let inner = boxes_in(t, iprp.data_start, iprp.data_end);
    lemma_boxes_within(t, iprp.data_start, iprp.data_end);
    lemma_first_index(inner, IPCO@);
    let ipco = first_box(inner, IPCO@)->0;
    let props = boxes_in(t, ipco.data_start, ipco.data_end);
    lemma_boxes_within(t, ipco.data_start, ipco.data_end);
    assert(n.props[k] == property_of(t, props[k], k));
    lemma_auxc_box(t, ipco.data_start, ipco.data_end, k);
    lemma_first_where_has(props, is_gain_map_auxc(t));
    assert(is_gain_map_auxc(t)(props[k]));
}

proof fn lemma_auxc_box(t: Seq<u8>, lo: int, hi: int, k: int)
    requires
        0 <= lo,
        hi <= t.len(),
        0 <= k < boxes_in(t, lo, hi).len(),
        bytes_of(t, boxes_in(t, lo, hi)[k]) == AUX_C_BOX@,
    ensures
        is_gain_map_auxc(t)(boxes_in(t, lo, hi)[k]),
{
    lemma_boxes_within(t, lo, hi);
    let b = boxes_in(t, lo, hi)[k];
    let c = bytes_of(t, b);
    let p = b.box_start;
    lemma_auxc_bytes();
    lemma_byte(t, c, p, 0);
    lemma_byte(t, c, p, 1);
    lemma_byte(t, c, p, 2);
    lemma_byte(t, c, p, 3);
    assert(be32(t, p) == be32(c, 0));
    lemma_stand(t, lo, hi, k);
    assert(b.data_start == p + 8);
    assert(b.btype =~= c.subrange(4, 8));
    let d = t.subrange(b.data_start, b.data_end);
    assert(d =~= c.subrange(8, 40));
    assert(occurs_at(d, GAIN_MAP_URN@, 4));
}

proof fn lemma_auxc_bytes()
    ensures
        be32(AUX_C_BOX@, 0) == 40,
        AUX_C_BOX@.subrange(4, 8) == AUXC@,
        occurs_at(AUX_C_BOX@.subrange(8, 40), GAIN_MAP_URN@, 4),
{
    assert(AUX_C_BOX@.subrange(4, 8) =~= AUXC@);
    assert(AUX_C_BOX@.subrange(8, 40).subrange(4, 31) =~= GAIN_MAP_URN@);
}

/// The first tone-map item of an output is the one that was added.
proof fn lemma_first_tmap(src: SourceView, c: ConfigView)
    requires
        first_where(src.items, item_typed("tmap"@)) is None,
    ensures
        first_where(output_items(src, c), item_typed("tmap"@)) == Some(
            built_item(c.tmap_id, "tmap"@, 0),
        ),
{
    let items = output_items(src, c);
    let p = item_typed("tmap"@);
    lemma_first_where_has(src.items, p);
    let n = src.items.len() as int;
    let k = n + c.tile_ids.len() + 1;
    reveal_strlit("tmap");
    reveal_strlit("hvc1");
    reveal_strlit("grid");
    assert("tmap"@[0] != "hvc1"@[0]);
    assert("tmap"@[0] != "grid"@[0]);
    assert forall|j: int| 0 <= j < k implies !p(#[trigger] items[j]) by {
        if j < n {
            assert(items[j] == src.items[j]);
        } else if j < n + c.tile_ids.len() {
            assert(items[j].itype == "hvc1"@);
        } else {
            assert(items[j].itype == "grid"@);
        }
    }
    lemma_first_where_at(items, p, k);
}

/// The tone-map item of an output is derived from the primary image and the gain grid.
proof fn lemma_tmap_derived(src: SourceView, c: ConfigView)
    ensures
        first_where(output_refs(src, c), derives_some(c.tmap_id)) is Some,
        output_refs(src, c).len() > 0,
{
    reveal(output_refs);
    let refs = output_refs(src, c);
    let k = refs.len() - 2;
    assert(refs[k].rtype == "dimg"@ && refs[k].from == c.tmap_id && refs[k].to.len() > 0);
    lemma_first_where_has(refs, derives_some(c.tmap_id));
    assert(derives_some(c.tmap_id)(refs[k]));
}

/// A file that says what an output says carries an ISO gain map.
proof fn lemma_output_verifies(
    t: Seq<u8>,
    src: SourceView,
    c: ConfigView,
    orientation: ExifOrientation,
    ispe: u32,
    entries: Seq<IlocView>,
)
    requires
        source_meta(t) == Some(
            Ok::<MetaView, Seq<char>>(output_view(src, c, orientation, ispe, entries)),
        ),
        first_where(src.items, item_typed("tmap"@)) is None,
    ensures
        iso_gain_map(t) == Some(true),
{
    let n = output_view(src, c, orientation, ispe, entries);
    lemma_first_tmap(src, c);
    lemma_tmap_derived(src, c);
    let j = src.items.len() as int + c.tile_ids.len() + 1;
    assert(n.items[j].raw_infe == infe_bytes(c.tmap_id as int, "tmap"@, 0));
    lemma_tmap_bytes(c.tmap_id as int);
    let k = src.props.len() as int;
    assert(all_properties(src, c, orientation, ispe)[k] == AUX_C_BOX@);
    assert(n.props[k].raw == AUX_C_BOX@);
    lemma_gain_map_said(t, n, j, k);
}

proof fn lemma_tmap_bytes(id: int)
    ensures
        occurs_at(infe_bytes(id, "tmap"@, 0), BRAND_TMAP@, 16),
{
    let raw = infe_bytes(id, "tmap"@, 0);
    lemma_types();
    reveal(box_bytes);
    assert(raw.subrange(16, 20) =~= BRAND_TMAP@);
}

/// A file whose metadata has a derived tone map, its infe box and the auxiliary type of a
/// gain map carries an ISO gain map.
proof fn lemma_gain_map_said(t: Seq<u8>, n: MetaView, j: int, k: int)
    requires
        source_meta(t) == Some(Ok::<MetaView, Seq<char>>(n)),
        0 <= j < n.items.len(),
        occurs_at(n.items[j].raw_infe, BRAND_TMAP@, 16),
        0 <= k < n.props.len(),
        n.props[k].raw == AUX_C_BOX@,
        n.refs.len() > 0,
        first_where(n.items, item_typed("tmap"@)) matches Some(it) && first_where(
            n.refs,
            derives_some(it.item_id),
        ) is Some,
    ensures
        iso_gain_map(t) == Some(true),
{
    let kids = children_of(t);
    lemma_item_bytes(t, n, j, BRAND_TMAP@, 16);
    lemma_marked(t, n, k);
    assert(derives_tmap(t, kids) == Some(true));
}

/// An assembled output of a source without a tone map verifies as a file that carries an
/// ISO gain map.
pub proof fn assembled_outputs_verify(
    s: Seq<u8>,
    orientation: ExifOrientation,
    compat: OppoCompat,
    policy: OppoCameraTail,
    g: GainView,
    meta: BoxView,
    src: SourceView,
    t: Seq<u8>,
)
    requires
        iso_output(s, orientation, compat, policy, g) == Some(Ok::<Seq<u8>, Seq<char>>(t)),
        first_box(boxes_in(s, 0, s.len() as int), META@) == Some(meta),
        source_structure(s, meta) == Some(Ok::<SourceView, Seq<char>>(src)),
        property_number(src, src.primary_id, "ispe"@) matches Some(ispe) && output_fits(
            s,
            src,
            config_for(src, g, policy),
            ispe,
        ),
        first_where(src.items, item_typed("tmap"@)) is None,
        t.len() <= u32::MAX,
    ensures
        iso_gain_map(t) == Some(true),
{
    let top = boxes_in(s, 0, s.len() as int);
    let ftyp = first_box(top, FTYP@)->0;
    let mdat = first_box(top, MDAT@)->0;
    let (media, patch) = media_for(
        src,
        s.subrange(mdat.data_start, mdat.data_end),
        mdat.data_start,
        compat,
    );
    let c = config_for(src, g, policy);
    let ispe = property_number(src, src.primary_id, "ispe"@)->0;
    assembled_output_reads_back(s, ftyp, meta, mdat, src, media, patch, orientation, c, t);
    let entries = output_entry_locations(s, ftyp, meta, mdat, src, media, patch, orientation, c);
    lemma_output_verifies(t, src, c, orientation, ispe, entries);
}

/// The idat box of an output holds the data that it was given.
#[verifier::rlimit(60)]
pub proof fn lemma_output_idat_at(
    s: Seq<u8>,
    ftyp: BoxView,
    meta: BoxView,
    mdat: BoxView,
    src: SourceView,
    c: ConfigView,
    orientation: ExifOrientation,
    ispe: u32,
    entries: Seq<IlocView>,
    media: Seq<u8>,
    t: Seq<u8>,
)
    requires
        first_box(boxes_in(s, 0, s.len() as int), META@) == Some(meta),
        source_structure(s, meta) == Some(Ok::<SourceView, Seq<char>>(src)),
        output_fits(s, src, c, ispe),
        c.tile_ids.len() == c.tiles.len(),
        entries.len() < 0x1_0000,
        extents_counted(entries),
        t == output_bytes(
            s,
            ftyp,
            meta,
            mdat,
            output_parts(s, src, c, orientation, ispe),
            entries,
            media,
            c,
        ),
        t.len() <= u32::MAX,
    ensures
        idat_box(t) matches Some(b) && 0 <= b.data_start && occurs_at(
            t,
            output_idat(s, src, c),
            b.data_start,
        ),
{
    let m = output_parts(s, src, c, orientation, ispe);
    let iloc = iloc_bytes(entries);
    let kids = children_of(s);
    let head = s.subrange(meta.data_start, meta.data_start + 4);
    let boxes = output_children(s, kids, m, iloc);
    let payload = head + flat(boxes, as_is());
    let front = ftyp_bytes(s.subrange(ftyp.data_start, ftyp.data_end));
    lemma_output_file_len(s, ftyp, meta, mdat, m, entries, media, c);
    lemma_output_typed(s, meta, src, c, orientation, ispe, entries);
    lemma_output_first(s, kids, m, iloc, IDAT@, m.idat);
    let i = choose|i: int| is_first_of(boxes, IDAT@, i) && boxes[i] == m.idat;
    lemma_output_begin(s, ftyp, meta, mdat, m, entries, media, c, boxes);
    lemma_children_at(t, front.len() as int, head, boxes);
    let q = front.len() as int + 12;
    lemma_child_at(t, q, boxes, IDAT@, i);
    let x = place_of(boxes, q, i);
    let data = output_idat(s, src, c);
    boxes_read_back(t, x, x + 8 + data.len(), IDAT@, data);
    lemma_built_is_sized(IDAT@, data);
    assert(header_at(m.idat, x) == header_of(IDAT@, data.len() as int, x));
}

/// The boxes that the output puts in place of the source's are of their types.
proof fn lemma_output_typed(
    s: Seq<u8>,
    meta: BoxView,
    src: SourceView,
    c: ConfigView,
    orientation: ExifOrientation,
    ispe: u32,
    entries: Seq<IlocView>,
)
    requires
        first_box(boxes_in(s, 0, s.len() as int), META@) == Some(meta),
        source_structure(s, meta) == Some(Ok::<SourceView, Seq<char>>(src)),
        output_fits(s, src, c, ispe),
        c.tile_ids.len() == c.tiles.len(),
        entries.len() < 0x1_0000,
        extents_counted(entries),
        meta_with(s, meta, output_parts(s, src, c, orientation, ispe), entries).len() <= u32::MAX,
    ensures
        parts_typed(output_parts(s, src, c, orientation, ispe), iloc_bytes(entries)),
        forall|i: int|
            0 <= i < children_of(s).len() ==> stands_sized(s, #[trigger] children_of(s)[i]),
        output_idat(s, src, c).len() + 8 <= u32::MAX,
        s.subrange(meta.data_start, meta.data_start + 4).len() == 4,
{
    lemma_source_view(s, meta, src);
    lemma_children_stand(s);
    lemma_output_lens(s, meta, src, c, orientation, ispe, entries);
    built_locations(entries);
    lemma_output_iinf(s, src, c);
    lemma_output_iprp(s, src, c, orientation, ispe);
    lemma_output_refs_fit(s, src, c);
    output_references_are_kept(src, c);
    built_references(
        output_iref_version(output_refs(src, c), src.iref_version),
        output_refs(src, c),
    );
    built_primary(src.pitm_version, src.primary_id);
    lemma_parts_typed(s, src, c, orientation, ispe, entries);
}

/// An output begins with its ftyp box and its meta box.
proof fn lemma_output_begin(
    s: Seq<u8>,
    ftyp: BoxView,
    meta: BoxView,
    mdat: BoxView,
    m: PartsView,
    entries: Seq<IlocView>,
    media: Seq<u8>,
    c: ConfigView,
    boxes: Seq<Seq<u8>>,
)
    requires
        boxes == output_children(
            s,
            boxes_in(s, meta.data_start + 4, meta.data_end),
            m,
            iloc_bytes(entries),
        ),
        s.subrange(meta.data_start, meta.data_start + 4).len() == 4,
        output_bytes(s, ftyp, meta, mdat, m, entries, media, c).len() <= u32::MAX,
    ensures
        ({
            let t = output_bytes(s, ftyp, meta, mdat, m, entries, media, c);
            let head = s.subrange(meta.data_start, meta.data_start + 4);
            let front = ftyp_bytes(s.subrange(ftyp.data_start, ftyp.data_end));
            let payload = head + flat(boxes, as_is());
            &&& payload.len() + 8 <= u32::MAX
            &&& first_box(boxes_in(t, 0, t.len() as int), META@) == Some(
                header_of(META@, payload.len() as int, front.len() as int),
            )
            &&& occurs_at(t, box_bytes(META@, payload), front.len() as int)
        }),
{
    let t = output_bytes(s, ftyp, meta, mdat, m, entries, media, c);
    let whole = meta_with(s, meta, m, entries);
    let head = s.subrange(meta.data_start, meta.data_start + 4);
    let payload = head + flat(boxes, as_is());
    let front = ftyp_bytes(s.subrange(ftyp.data_start, ftyp.data_end));
    lemma_output_file_len(s, ftyp, meta, mdat, m, entries, media, c);
    lemma_output_meta(s, meta, m, entries);
    lemma_built_len(META@, payload);
    let between = s.subrange(meta.data_end, mdat.box_start);
    let last = box_bytes(MDAT@, media + flat(c.tiles, as_is()));
    let tail = match file_tail_under(s, c.tail_policy) {
        Some(tail) => tail,
        None => Seq::empty(),
    };
    lemma_five_parts(front, whole, between, last, tail);
    lemma_ftyp_typed(s.subrange(ftyp.data_start, ftyp.data_end));
    lemma_first_two(t, front, payload, between + last + tail);
}

} // verus!
