//! Questions to files: whether they are HEIF containers, whether they carry a gain map,
//! styles or a portrait, and which thumbnail they hold.

use crate::bytes::{
    be32, contains_bytes, copy_range, find_bytes, find_from, has_bytes, int16, int32, matches_at,
    opt_bytes, read16, read32, starts_with,
};
use crate::exif::{OppoCompat, exif_location, find_exif_iloc_entry};
use crate::fourcc::{AUXC, FTYP, IINF, ILOC, IPCO, IPRP, IREF, MDAT, META, same_tag};
use crate::iso_validate::fault_some;
use crate::isobmff::{
    BRAND_TMAP, BoxHeader, BoxView, GAIN_MAP_URN, IlocEntry, IrefEntry, IrefView, ItemInfo,
    ItemView, ParsedMeta, box_within, boxes_in, find_in, first_box, iinf_at, iloc_at, iref_at,
    lemma_boxes_within, lossy_gain_map, of_type, parse_boxes, parse_children, source_meta,
    try_has_lossy_iso_gainmap_420, try_parse_iinf, try_parse_iloc, try_parse_iref,
    try_parse_source_meta,
};
use crate::isobmff_write::{URI, find_idat, idat_box, try_replace_item_payload, with_item_payload};
use crate::items::{find_iloc, find_item, iloc_for, item_typed};
use crate::jpeg_decode::SOI_MARKER;
use crate::seqs::{
    first_where, lemma_first_where_at, lemma_first_where_has, lemma_first_where_none, told_some,
    views,
};
use crate::text::{join, same_text};
use crate::tiff::{tiff_little, tiff_mark_at, tiff_order};
use vstd::prelude::*;
use vstd::string::*;
use vstd::utf8::*;

verus! {

// ---------------------------------------------------------------------------
// Containers and gain maps
// ---------------------------------------------------------------------------

/// Whether a box of a type is among boxes.
pub open spec fn has_box(boxes: Seq<BoxView>, btype: Seq<u8>) -> bool {
    first_box(boxes, btype) is Some
}

/// Whether a file is a readable HEIF container. `None` where its metadata is cut short
/// by the end of the data.
pub open spec fn heif_container(s: Seq<u8>) -> Option<bool> {
    let top = boxes_in(s, 0, s.len() as int);
    if !has_box(top, FTYP@) || !has_box(top, META@) || !has_box(top, MDAT@) {
        Some(false)
    } else {
        match source_meta(s) {
            None => None,
            Some(m) => Some(m is Ok),
        }
    }
}

/// Whether a file is a readable HEIF container: it has a file type, metadata that can be
/// parsed, and media data. `None` where the metadata is cut short by the end of the data.
pub fn is_heif_container(data: &[u8]) -> (r: Option<bool>)
    ensures
        r == heif_container(data@),
{
    let top: Vec<BoxHeader> = parse_boxes(data, 0, data.len());
    if find_in(top.as_slice(), &FTYP).is_none() || find_in(top.as_slice(), &META).is_none()
        || find_in(top.as_slice(), &MDAT).is_none() {
        return Some(false);
    }
    match try_parse_source_meta(data) {
        None => None,
        Some(Ok(_)) => Some(true),
        Some(Err(_)) => Some(false),
    }
}

/// Whether some bytes hold others, which must not be empty.
pub fn contains_ascii(data: &[u8], needle: &[u8]) -> (r: bool)
    ensures
        r == (needle@.len() > 0 && contains_bytes(data@, needle@)),
{
    needle.len() > 0 && has_bytes(data, needle)
}

/// Being an `auxC` box with the gain-map URN.
pub open spec fn is_gain_map_auxc(s: Seq<u8>) -> spec_fn(BoxView) -> bool {
    |b: BoxView|
        b.btype == AUXC@ && contains_bytes(s.subrange(b.data_start, b.data_end), GAIN_MAP_URN@)
}

/// Whether the item properties mark a gain map.
pub open spec fn marks_auxiliary(s: Seq<u8>, kids: Seq<BoxView>) -> bool {
    match first_box(kids, IPRP@) {
        None => false,
        Some(iprp) => match first_box(boxes_in(s, iprp.data_start, iprp.data_end), IPCO@) {
            None => false,
            Some(ipco) => first_where(
                boxes_in(s, ipco.data_start, ipco.data_end),
                is_gain_map_auxc(s),
            ) is Some,
        },
    }
}

fn check_auxc_in_ipco(data: &[u8], meta_kids: &Vec<BoxHeader>) -> (r: bool)
    requires
        forall|i: int|
            0 <= i < meta_kids@.len() ==> box_within(
                (#[trigger] meta_kids@[i])@,
                data@.len() as int,
            ),
    ensures
        r == marks_auxiliary(data@, views(meta_kids@)),
{
    proof {
        lemma_first_where_has(views(meta_kids@), of_type(IPRP@));
    }
    let iprp: BoxHeader = match find_in(meta_kids.as_slice(), &IPRP) {
        None => {
            return false;
        },
        Some(b) => b,
    };
    let iprp_kids: Vec<BoxHeader> = parse_boxes(data, iprp.data_start, iprp.data_end);
    proof {
        lemma_first_where_has(views(iprp_kids@), of_type(IPCO@));
        lemma_boxes_within(data@, iprp.data_start as int, iprp.data_end as int);
    }
    let ipco: BoxHeader = match find_in(iprp_kids.as_slice(), &IPCO) {
        None => {
            return false;
        },
        Some(b) => b,
    };
    let boxes: Vec<BoxHeader> = parse_boxes(data, ipco.data_start, ipco.data_end);
    proof {
        lemma_boxes_within(data@, ipco.data_start as int, ipco.data_end as int);
    }
    has_gain_map_auxc(data, &boxes)
}

fn has_gain_map_auxc(data: &[u8], boxes: &Vec<BoxHeader>) -> (r: bool)
    requires
        forall|i: int|
            0 <= i < boxes@.len() ==> box_within((#[trigger] boxes@[i])@, data@.len() as int),
    ensures
        r == (first_where(views(boxes@), is_gain_map_auxc(data@)) is Some),
{
    let ghost v = views(boxes@);
    let ghost p = is_gain_map_auxc(data@);
    let mut i: usize = 0;
    while i < boxes.len()
        invariant
            i <= boxes@.len(),
            v == views(boxes@),
            p == is_gain_map_auxc(data@),
            forall|j: int|
                0 <= j < boxes@.len() ==> box_within((#[trigger] boxes@[j])@, data@.len() as int),
            forall|j: int| 0 <= j < i ==> !p(#[trigger] v[j]),
        decreases boxes@.len() - i,
    {
        let b: BoxHeader = boxes[i];
        assert(v[i as int] == b@);
        if same_tag(&b.btype, &AUXC) && has_bytes(
            vstd::slice::slice_subrange(data, b.data_start, b.data_end),
            GAIN_MAP_URN.as_slice(),
        ) {
            proof {
                lemma_first_where_at(v, p, i as int);
            }
            return true;
        }
        i = i + 1;
    }
    proof {
        lemma_first_where_none(v, p);
    }
    false
}

/// Being a derivation of the item `from` from at least one other.
pub open spec fn derives_some(from: u32) -> spec_fn(IrefView) -> bool {
    |r: IrefView| r.rtype == "dimg"@ && r.from == from && r.to.len() > 0
}

/// Whether there is a tone-map item that is derived from another item. `None` where the
/// item information or the references are cut short by the end of the data.
pub open spec fn derives_tmap(s: Seq<u8>, kids: Seq<BoxView>) -> Option<bool> {
    match first_box(kids, IINF@) {
        None => Some(false),
        Some(iinf) => match iinf_at(s, iinf) {
            None => None,
            Some(items) => match first_where(items, item_typed("tmap"@)) {
                None => Some(false),
                Some(it) => match first_box(kids, IREF@) {
                    None => Some(false),
                    Some(iref) => match iref_at(s, iref) {
                        None => None,
                        Some((_, refs)) => Some(
                            first_where(refs, derives_some(it.item_id)) is Some,
                        ),
                    },
                },
            },
        },
    }
}

fn check_tmap_dimg_in_iref(data: &[u8], meta_kids: &Vec<BoxHeader>) -> (r: Option<bool>)
    requires
        forall|i: int|
            0 <= i < meta_kids@.len() ==> box_within(
                (#[trigger] meta_kids@[i])@,
                data@.len() as int,
            ),
    ensures
        r == derives_tmap(data@, views(meta_kids@)),
{
    proof {
        lemma_first_where_has(views(meta_kids@), of_type(IINF@));
        lemma_first_where_has(views(meta_kids@), of_type(IREF@));
    }
    let iinf: BoxHeader = match find_in(meta_kids.as_slice(), &IINF) {
        None => {
            return Some(false);
        },
        Some(b) => b,
    };
    let items: Vec<ItemInfo> = match try_parse_iinf(data, &iinf) {
        None => {
            return None;
        },
        Some(v) => v,
    };
    let tmap_id: u32 = match find_item(&items, "tmap") {
        None => {
            return Some(false);
        },
        Some(it) => it.item_id,
    };
    let iref: BoxHeader = match find_in(meta_kids.as_slice(), &IREF) {
        None => {
            return Some(false);
        },
        Some(b) => b,
    };
    let (_, refs): (u8, Vec<IrefEntry>) = match try_parse_iref(data, &iref) {
        None => {
            return None;
        },
        Some(x) => x,
    };
    Some(has_derivation(&refs, tmap_id))
}

fn has_derivation(refs: &Vec<IrefEntry>, from: u32) -> (r: bool)
    ensures
        r == (first_where(views(refs@), derives_some(from)) is Some),
{
    let ghost v = views(refs@);
    let ghost p = derives_some(from);
    let mut i: usize = 0;
    while i < refs.len()
        invariant
            i <= refs@.len(),
            v == views(refs@),
            p == derives_some(from),
            forall|j: int| 0 <= j < i ==> !p(#[trigger] v[j]),
        decreases refs@.len() - i,
    {
        assert(v[i as int] == refs@[i as int]@);
        if refs[i].from == from && refs[i].to.len() > 0 && same_text(
            refs[i].rtype.as_str(),
            "dimg",
        ) {
            proof {
                lemma_first_where_at(v, p, i as int);
            }
            return true;
        }
        i = i + 1;
    }
    proof {
        lemma_first_where_none(v, p);
    }
    false
}

/// Whether a file carries an ISO gain map. `None` where its item information or its
/// references are cut short by the end of the data.
pub open spec fn iso_gain_map(s: Seq<u8>) -> Option<bool> {
    match first_box(boxes_in(s, 0, s.len() as int), META@) {
        None => Some(false),
        Some(meta) => {
            let kids = boxes_in(s, meta.data_start + 4, meta.data_end);
            let tmap = match first_box(kids, IINF@) {
                None => false,
                Some(iinf) => contains_bytes(
                    s.subrange(iinf.data_start, iinf.data_end),
                    BRAND_TMAP@,
                ),
            };
            match derives_tmap(s, kids) {
                None => None,
                Some(derived) => Some(marks_auxiliary(s, kids) && tmap && derived),
            }
        },
    }
}

/// Like `verify_iso_gain_map`, for any data.
pub fn try_verify_iso_gain_map(data: &[u8]) -> (r: Option<bool>)
    ensures
        r == iso_gain_map(data@),
{
    let top: Vec<BoxHeader> = parse_boxes(data, 0, data.len());
    proof {
        lemma_first_where_has(views(top@), of_type(META@));
        lemma_boxes_within(data@, 0, data@.len() as int);
    }
    let meta: BoxHeader = match find_in(top.as_slice(), &META) {
        None => {
            return Some(false);
        },
        Some(b) => b,
    };
    let kids: Vec<BoxHeader> = parse_children(data, &meta, 4);
    let has_auxc: bool = check_auxc_in_ipco(data, &kids);
    proof {
        lemma_first_where_has(views(kids@), of_type(IINF@));
    }
    let has_tmap: bool = match find_in(kids.as_slice(), &IINF) {
        None => false,
        Some(b) => has_bytes(
            vstd::slice::slice_subrange(data, b.data_start, b.data_end),
            BRAND_TMAP.as_slice(),
        ),
    };
    match check_tmap_dimg_in_iref(data, &kids) {
        None => None,
        Some(has_ref) => Some(has_auxc && has_tmap && has_ref),
    }
}

/// Whether a file carries an ISO gain map: an `auxC` property with its URN, a tone-map
/// item, and a derivation of that item.
pub fn verify_iso_gain_map(data: &[u8]) -> (r: bool)
    requires
        iso_gain_map(data@) is Some,
    ensures
        Some(r) == iso_gain_map(data@),
{
    try_verify_iso_gain_map(data).unwrap()
}

// ---------------------------------------------------------------------------
// Portraits and styles
// ---------------------------------------------------------------------------

/// The text `portraiteffectsmatte`.
pub const PORTRAIT_MATTE: [u8; 20] = [
    0x70, 0x6f, 0x72, 0x74, 0x72, 0x61, 0x69, 0x74, 0x65, 0x66, 0x66, 0x65, 0x63, 0x74, 0x73, 0x6d,
    0x61, 0x74, 0x74, 0x65,
];

/// The text `semanticskinmatte`.
pub const SKIN_MATTE: [u8; 17] = [
    0x73, 0x65, 0x6d, 0x61, 0x6e, 0x74, 0x69, 0x63, 0x73, 0x6b, 0x69, 0x6e, 0x6d, 0x61, 0x74, 0x74,
    0x65,
];

/// The text `semantichairmatte`.
pub const HAIR_MATTE: [u8; 17] = [
    0x73, 0x65, 0x6d, 0x61, 0x6e, 0x74, 0x69, 0x63, 0x68, 0x61, 0x69, 0x72, 0x6d, 0x61, 0x74, 0x74,
    0x65,
];

/// The text `portraitLightingEffect`.
pub const LIGHTING_EFFECT: [u8; 22] = [
    0x70, 0x6f, 0x72, 0x74, 0x72, 0x61, 0x69, 0x74, 0x4c, 0x69, 0x67, 0x68, 0x74, 0x69, 0x6e, 0x67,
    0x45, 0x66, 0x66, 0x65, 0x63, 0x74,
];

/// Whether a file carries a portrait graph. `None` where its metadata is cut short by the
/// end of the data.
pub open spec fn portrait_graph(s: Seq<u8>) -> Option<bool> {
    match source_meta(s) {
        None => None,
        Some(Err(_)) => Some(false),
        Some(Ok(m)) => Some(
            first_where(m.items, item_typed("mime"@)) is Some && first_where(
                m.items,
                item_typed("mimehdrgm-xmp"@),
            ) is Some && contains_bytes(s, PORTRAIT_MATTE@) && contains_bytes(s, SKIN_MATTE@)
                && contains_bytes(s, HAIR_MATTE@) && contains_bytes(s, LIGHTING_EFFECT@),
        ),
    }
}

/// Whether a file carries a portrait graph: its metadata items and the names of the
/// mattes and of the lighting effect. `None` where its metadata is cut short by the end
/// of the data.
pub fn verify_portrait_graph(data: &[u8]) -> (r: Option<bool>)
    ensures
        r == portrait_graph(data@),
{
    match try_parse_source_meta(data) {
        None => None,
        Some(Err(_)) => Some(false),
        Some(Ok(meta)) => Some(
            find_item(&meta.items, "mime").is_some() && find_item(&meta.items, "mimehdrgm-xmp").is_some()
                && contains_ascii(data, PORTRAIT_MATTE.as_slice()) && contains_ascii(
                data,
                SKIN_MATTE.as_slice(),
            ) && contains_ascii(data, HAIR_MATTE.as_slice()) && contains_ascii(
                data,
                LIGHTING_EFFECT.as_slice(),
            ),
        ),
    }
}

/// The text `styleMetadata`.
pub const STYLE_METADATA: [u8; 13] = [
    0x73, 0x74, 0x79, 0x6c, 0x65, 0x4d, 0x65, 0x74, 0x61, 0x64, 0x61, 0x74, 0x61,
];

/// The text `metadata`.
pub const METADATA: [u8; 8] = [0x6d, 0x65, 0x74, 0x61, 0x64, 0x61, 0x74, 0x61];

/// Being an item whose type holds `styleMetadata`.
pub open spec fn is_style_item() -> spec_fn(ItemView) -> bool {
    |it: ItemView| contains_bytes(encode_utf8(it.itype), STYLE_METADATA@)
}

fn find_style_item<'a>(items: &'a Vec<ItemInfo>) -> (r: Option<&'a ItemInfo>)
    ensures
        match r {
            Some(it) => first_where(views(items@), is_style_item()) == Some(it@),
            None => first_where(views(items@), is_style_item()) is None,
        },
{
    let ghost v = views(items@);
    let mut i: usize = 0;
    while i < items.len()
        invariant
            i <= items@.len(),
            v == views(items@),
            forall|j: int| 0 <= j < i ==> !is_style_item()(#[trigger] v[j]),
        decreases items@.len() - i,
    {
        assert(v[i as int] == items@[i as int]@);
        if has_bytes(items[i].itype.as_str().as_bytes(), STYLE_METADATA.as_slice()) {
            proof {
                lemma_first_where_at(v, is_style_item(), i as int);
            }
            return Some(&items[i]);
        }
        i = i + 1;
    }
    proof {
        lemma_first_where_none(v, is_style_item());
    }
    None
}

/// The payload of the style item, which lies in the item data box in one piece; none
/// where there is no such item or where it leaves the box. `None` where the metadata is
/// cut short by the end of the data.
pub open spec fn style_payload(s: Seq<u8>) -> Option<Option<Seq<u8>>> {
    match source_meta(s) {
        None => None,
        Some(Err(_)) => Some(None),
        Some(Ok(m)) => Some(
            match first_where(m.items, is_style_item()) {
                None => None,
                Some(it) => match first_where(m.iloc_entries, iloc_for(it.item_id)) {
                    None => None,
                    Some(e) => if e.construction_method != 1 || e.extents.len() != 1 {
                        None
                    } else {
                        match idat_box(s) {
                            None => None,
                            Some(idat) => {
                                let start = idat.data_start + e.extents[0].0;
                                let end = start + e.extents[0].1;
                                if end > idat.data_end {
                                    None
                                } else {
                                    Some(s.subrange(start, end))
                                }
                            },
                        }
                    },
                },
            },
        ),
    }
}

/// Read the payload of the style item. `None` where the metadata is cut short by the end
/// of the data.
pub fn read_style_payload(data: &[u8]) -> (r: Option<Option<Vec<u8>>>)
    ensures
        match r {
            None => style_payload(data@) is None,
            Some(p) => style_payload(data@) == Some(opt_bytes(p)),
        },
{
    let meta: ParsedMeta = match try_parse_source_meta(data) {
        None => {
            return None;
        },
        Some(Err(_)) => {
            return Some(None);
        },
        Some(Ok(m)) => m,
    };
    let item: &ItemInfo = match find_style_item(&meta.items) {
        None => {
            return Some(None);
        },
        Some(it) => it,
    };
    let entry: &IlocEntry = match find_iloc(&meta.iloc_entries, item.item_id) {
        None => {
            return Some(None);
        },
        Some(e) => e,
    };
    if entry.construction_method != 1 || entry.extents.len() != 1 {
        return Some(None);
    }
    let (offset, length): (u64, u64) = entry.extents[0];
    let idat: BoxHeader = match find_idat(data) {
        None => {
            return Some(None);
        },
        Some(b) => b,
    };
    let room: u64 = (idat.data_end - idat.data_start) as u64;
    if offset > room || length > room - offset {
        return Some(None);
    }
    let start: usize = idat.data_start + offset as usize;
    Some(Some(copy_range(data, start, start + length as usize)))
}

/// Being a `uri` item that holds style metadata.
pub open spec fn is_uri_style_item() -> spec_fn(ItemView) -> bool {
    |it: ItemView|
        starts_with(encode_utf8(it.itype), URI@) && (contains_bytes(it.raw_infe, STYLE_METADATA@)
            || contains_bytes(it.raw_infe, METADATA@))
}

fn find_uri_style_item(items: &Vec<ItemInfo>) -> (r: Option<u32>)
    ensures
        match r {
            Some(id) => first_where(views(items@), is_uri_style_item()) matches Some(it)
                && it.item_id == id,
            None => first_where(views(items@), is_uri_style_item()) is None,
        },
{
    let ghost v = views(items@);
    let mut i: usize = 0;
    while i < items.len()
        invariant
            i <= items@.len(),
            v == views(items@),
            forall|j: int| 0 <= j < i ==> !is_uri_style_item()(#[trigger] v[j]),
        decreases items@.len() - i,
    {
        let it: &ItemInfo = &items[i];
        assert(v[i as int] == it@);
        if matches_at(it.itype.as_str().as_bytes(), URI.as_slice(), 0) && (has_bytes(
            it.raw_infe.as_slice(),
            STYLE_METADATA.as_slice(),
        ) || has_bytes(it.raw_infe.as_slice(), METADATA.as_slice())) {
            proof {
                lemma_first_where_at(v, is_uri_style_item(), i as int);
            }
            return Some(it.item_id);
        }
        i = i + 1;
    }
    proof {
        lemma_first_where_none(v, is_uri_style_item());
    }
    None
}

/// A file with the payload of its style item replaced, and its name where `rename` asks
/// for it, or why there is none. `None` where its metadata is cut short or a number does
/// not fit.
pub open spec fn restyled(s: Seq<u8>, payload: Seq<u8>, rename: bool) -> Option<
    Result<Seq<u8>, Seq<char>>,
> {
    match source_meta(s) {
        None => None,
        Some(Err(e)) => Some(Err("meta parse: "@ + e)),
        Some(Ok(m)) => match first_where(m.items, is_uri_style_item()) {
            None => Some(Err("no styleMetadata/metadata uri item"@)),
            Some(it) => with_item_payload(
                s,
                it.item_id,
                if rename {
                    Some("metadata"@)
                } else {
                    None
                },
                payload,
            ),
        },
    }
}

/// Replace the payload of the style item of a file, and rename the item to `metadata`
/// where `rename` asks for it. `None` where the metadata is cut short or a number does
/// not fit.
pub fn replace_style_payload(data: &[u8], new_payload: &[u8], rename: bool) -> (r: Option<
    Result<Vec<u8>, String>,
>)
    ensures
        told_some(r) == restyled(data@, new_payload@, rename),
{
    let meta: ParsedMeta = match try_parse_source_meta(data) {
        None => {
            return None;
        },
        Some(Err(e)) => {
            return Some(Err(join("meta parse: ", e.as_str())));
        },
        Some(Ok(m)) => m,
    };
    let id: u32 = match find_uri_style_item(&meta.items) {
        None => {
            return Some(Err("no styleMetadata/metadata uri item".to_string()));
        },
        Some(i) => i,
    };
    let name: Option<&str> = if rename {
        Some("metadata")
    } else {
        None
    };
    try_replace_item_payload(data, id, name, new_payload)
}

// ---------------------------------------------------------------------------
// Promotion
// ---------------------------------------------------------------------------

/// Whether a conversion would promote a gain map whose chroma is already gone.
pub fn should_reject_lossy_gainmap_promotion(has_lossy_gainmap: bool, oppo_compat: OppoCompat) -> (r: bool)
    ensures
        r == (has_lossy_gainmap && oppo_compat == OppoCompat::Off),
{
    has_lossy_gainmap && !oppo_compat.wants_oppo_compat()
}

/// Why a file must not be promoted, if it must not. `None` where its metadata is cut
/// short by the end of the data.
pub open spec fn promotion_fault(s: Seq<u8>, compat: OppoCompat) -> Option<Option<Seq<char>>> {
    match lossy_gain_map(s) {
        None => None,
        Some(lossy) => Some(
            if lossy && compat == OppoCompat::Off {
                Some(
                    "cannot promote an existing 4:2:0 gain map to high-spec 4:4:4 because chroma information has already been discarded"@,
                )
            } else {
                None
            },
        ),
    }
}

/// Refuse to promote a 4:2:0 gain map to 4:4:4: why, if it is refused. `None` where the
/// metadata is cut short by the end of the data.
pub fn reject_lossy_gainmap_promotion(source: &[u8], oppo_compat: OppoCompat) -> (r: Option<
    Option<String>,
>)
    ensures
        fault_some(r) == promotion_fault(source@, oppo_compat),
{
    match try_has_lossy_iso_gainmap_420(source) {
        None => None,
        Some(lossy) => if should_reject_lossy_gainmap_promotion(lossy, oppo_compat) {
            Some(
                Some(
                    "cannot promote an existing 4:2:0 gain map to high-spec 4:4:4 because chroma information has already been discarded".to_string(),
                ),
            )
        } else {
            Some(None)
        },
    }
}

// ---------------------------------------------------------------------------
// Thumbnails
// ---------------------------------------------------------------------------

/// Where a thumbnail lies and how long it is, as the entries from number `i` on of the
/// directory at `ifd` say; `at` and `len` where they do not.
pub open spec fn thumbnail_entries(
    tiff: Seq<u8>,
    ifd: int,
    count: int,
    i: int,
    little: bool,
    at: Option<int>,
    len: Option<int>,
) -> (Option<int>, Option<int>)
    decreases count - i,
{
    let e = ifd + 2 + 12 * i;
    if i >= count || e + 12 > tiff.len() {
        (at, len)
    } else {
        let tag = int16(tiff, e, little);
        let value = int32(tiff, e + 8, little);
        thumbnail_entries(
            tiff,
            ifd,
            count,
            i + 1,
            little,
            if tag == 0x0201 {
                Some(value)
            } else {
                at
            },
            if tag == 0x0202 {
                Some(value)
            } else {
                len
            },
        )
    }
}

/// The thumbnail in the second directory of TIFF data.
pub open spec fn tiff_thumbnail(tiff: Seq<u8>) -> Option<Seq<u8>> {
    let little = tiff_little(tiff, 0);
    let ifd0 = int32(tiff, 4, little);
    let next = ifd0 + 2 + 12 * int16(tiff, ifd0, little);
    let ifd1 = int32(tiff, next, little);
    if tiff.len() < 8 || !tiff_mark_at(tiff, 0) || int16(tiff, 2, little) != 42 {
        None
    } else if ifd0 == 0 || ifd0 + 2 > tiff.len() || next + 4 > tiff.len() {
        None
    } else if ifd1 == 0 || ifd1 + 2 > tiff.len() {
        None
    } else {
        match thumbnail_entries(tiff, ifd1, int16(tiff, ifd1, little), 0, little, None, None) {
            (Some(at), Some(len)) => if at == 0 || len == 0 || at + len > tiff.len() {
                None
            } else {
                let jpeg = tiff.subrange(at, at + len);
                if starts_with(jpeg, SOI_MARKER@) {
                    Some(jpeg)
                } else {
                    None
                }
            },
            _ => None,
        }
    }
}

/// Where the TIFF data of an Exif item begins: its first four bytes say so, counted from the
/// beginning of the item or from behind themselves.
pub open spec fn thumbnail_tiff_start(x: Seq<u8>) -> Option<int> {
    let at = be32(x, 0);
    if x.len() < 8 {
        None
    } else if at + 8 <= x.len() && tiff_mark_at(x, at) {
        Some(at)
    } else if at + 12 <= x.len() && tiff_mark_at(x, at + 4) {
        Some(at + 4)
    } else {
        None
    }
}

/// The thumbnail in an Exif item.
pub open spec fn exif_thumbnail(x: Seq<u8>) -> Option<Seq<u8>> {
    match thumbnail_tiff_start(x) {
        None => None,
        Some(p) => tiff_thumbnail(x.skip(p)),
    }
}

fn find_thumbnail_tiff(x: &[u8]) -> (r: Option<usize>)
    ensures
        match r {
            Some(p) => thumbnail_tiff_start(x@) == Some(p as int) && p + 8 <= x@.len(),
            None => thumbnail_tiff_start(x@) is None,
        },
{
    let total: usize = x.len();
    if total < 8 {
        return None;
    }
    let at: u64 = read32(x, 0, false) as u64;
    if at + 8 <= total as u64 && tiff_order(x, at as usize).is_some() {
        return Some(at as usize);
    }
    if at + 12 <= total as u64 && tiff_order(x, at as usize + 4).is_some() {
        return Some(at as usize + 4);
    }
    None
}

fn read_tiff_thumbnail(tiff: &[u8]) -> (r: Option<Vec<u8>>)
    requires
        tiff.len() >= 8,
    ensures
        opt_bytes(r) == tiff_thumbnail(tiff@),
{
    let total: usize = tiff.len();
    let little: bool = match tiff_order(tiff, 0) {
        None => {
            return None;
        },
        Some(l) => l,
    };
    if read16(tiff, 2, little) != 42 {
        return None;
    }
    let ifd0: u64 = read32(tiff, 4, little) as u64;
    if ifd0 == 0 || ifd0 + 2 > total as u64 {
        return None;
    }
    let next: u64 = ifd0 + 2 + 12 * read16(tiff, ifd0 as usize, little) as u64;
    if next + 4 > total as u64 {
        return None;
    }
    let ifd1: u64 = read32(tiff, next as usize, little) as u64;
    if ifd1 == 0 || ifd1 + 2 > total as u64 {
        return None;
    }
    let count: u16 = read16(tiff, ifd1 as usize, little);
    let (at, len): (u32, u32) = match find_thumbnail(tiff, ifd1 as usize, count, little) {
        (Some(a), Some(l)) => (a, l),
        _ => {
            return None;
        },
    };
    if at == 0 || len == 0 || at as u64 + len as u64 > total as u64 {
        return None;
    }
    let jpeg: &[u8] = vstd::slice::slice_subrange(tiff, at as usize, at as usize + len as usize);
    if matches_at(jpeg, SOI_MARKER.as_slice(), 0) {
        let copy: Vec<u8> = copy_range(jpeg, 0, jpeg.len());
        assert(copy@ =~= jpeg@);
        Some(copy)
    } else {
        None
    }
}

/// An optional 32-bit number as a number.
pub open spec fn opt_int(v: Option<u32>) -> Option<int> {
    match v {
        Some(n) => Some(n as int),
        None => None,
    }
}

fn find_thumbnail(tiff: &[u8], ifd: usize, count: u16, little: bool) -> (r: (Option<u32>, Option<u32>))
    requires
        ifd + 2 <= tiff.len(),
    ensures
        (opt_int(r.0), opt_int(r.1)) == thumbnail_entries(
            tiff@,
            ifd as int,
            count as int,
            0,
            little,
            None,
            None,
        ),
{
    let total: usize = tiff.len();
    let mut at: Option<u32> = None;
    let mut len: Option<u32> = None;
    let mut i: u16 = 0;
    let mut e: usize = ifd + 2;
    let ghost all = thumbnail_entries(tiff@, ifd as int, count as int, 0, little, None, None);
    while i < count
        invariant
            i <= count,
            total == tiff@.len(),
            e == ifd + 2 + 12 * i,
            e <= total,
            all == thumbnail_entries(tiff@, ifd as int, count as int, 0, little, None, None),
            all == thumbnail_entries(
                tiff@,
                ifd as int,
                count as int,
                i as int,
                little,
                opt_int(at),
                opt_int(len),
            ),
        decreases count - i,
    {
        if total - e < 12 {
            return (at, len);
        }
        let tag: u16 = read16(tiff, e, little);
        let value: u32 = read32(tiff, e + 8, little);
        if tag == 0x0201 {
            at = Some(value);
        }
        if tag == 0x0202 {
            len = Some(value);
        }
        e = e + 12;
        i = i + 1;
    }
    (at, len)
}

/// The thumbnail in the Exif item of a file. `None` where the item information or the
/// locations are cut short by the end of the data, or where the end of the item exceeds
/// the address range.
pub open spec fn file_thumbnail(s: Seq<u8>) -> Option<Option<Seq<u8>>> {
    match first_box(boxes_in(s, 0, s.len() as int), META@) {
        None => Some(None),
        Some(meta) => {
            let kids = boxes_in(s, meta.data_start + 4, meta.data_end);
            match (first_box(kids, IINF@), first_box(kids, ILOC@)) {
                (Some(iinf), Some(iloc)) => match (iinf_at(s, iinf), iloc_at(s, iloc.data_start)) {
                    (Some(items), Some(entries)) => match exif_location(items, entries) {
                        None => Some(None),
                        Some(e) => if e.extents.len() == 0 {
                            Some(None)
                        } else {
                            let (offset, length) = e.extents[0];
                            if offset + length > usize::MAX {
                                None
                            } else if offset + length > s.len() {
                                Some(None)
                            } else {
                                Some(exif_thumbnail(s.subrange(offset as int, offset + length)))
                            }
                        },
                    },
                    _ => None,
                },
                _ => Some(None),
            }
        },
    }
}

/// Extract the thumbnail from the Exif item of a file. `None` where the item information
/// or the locations are cut short by the end of the data, or where the end of the item
/// exceeds the address range.
pub fn extract_exif_thumbnail(data: &[u8]) -> (r: Option<Option<Vec<u8>>>)
    ensures
        match r {
            None => file_thumbnail(data@) is None,
            Some(t) => file_thumbnail(data@) == Some(opt_bytes(t)),
        },
{
    let total: usize = data.len();
    let top: Vec<BoxHeader> = parse_boxes(data, 0, total);
    proof {
        lemma_first_where_has(views(top@), of_type(META@));
        lemma_boxes_within(data@, 0, data@.len() as int);
    }
    let meta: BoxHeader = match find_in(top.as_slice(), &META) {
        None => {
            return Some(None);
        },
        Some(b) => b,
    };
    let kids: Vec<BoxHeader> = parse_children(data, &meta, 4);
    proof {
        lemma_first_where_has(views(kids@), of_type(IINF@));
        lemma_first_where_has(views(kids@), of_type(ILOC@));
    }
    let iinf: BoxHeader = match find_in(kids.as_slice(), &IINF) {
        None => {
            return Some(None);
        },
        Some(b) => b,
    };
    let iloc: BoxHeader = match find_in(kids.as_slice(), &ILOC) {
        None => {
            return Some(None);
        },
        Some(b) => b,
    };
    let items: Vec<ItemInfo> = match try_parse_iinf(data, &iinf) {
        None => {
            return None;
        },
        Some(v) => v,
    };
    let entries: Vec<IlocEntry> = match try_parse_iloc(data, &iloc) {
        None => {
            return None;
        },
        Some(v) => v,
    };
    let entry: &IlocEntry = match find_exif_iloc_entry(&items, &entries) {
        None => {
            return Some(None);
        },
        Some(e) => e,
    };
    if entry.extents.len() == 0 {
        return Some(None);
    }
    let (offset, length): (u64, u64) = entry.extents[0];
    if offset > usize::MAX as u64 || length > usize::MAX as u64 - offset {
        return None;
    }
    if offset > total as u64 || length > total as u64 - offset {
        return Some(None);
    }
    let x: &[u8] = vstd::slice::slice_subrange(data, offset as usize, offset as usize + length as usize);
    let at: usize = match find_thumbnail_tiff(x) {
        None => {
            return Some(None);
        },
        Some(p) => p,
    };
    let tiff: &[u8] = vstd::slice::slice_subrange(x, at, x.len());
    assert(tiff@ =~= x@.skip(at as int));
    Some(read_tiff_thumbnail(tiff))
}

/// The three bytes that an embedded JPEG begins with.
pub const JPEG_START: [u8; 3] = [0xff, 0xd8, 0xff];

/// The two bytes that a JPEG ends with.
pub const JPEG_END: [u8; 2] = [0xff, 0xd9];

/// The first JPEG from `pos` on that has more than 1 KiB and less than 2 MiB.
pub open spec fn first_jpeg(s: Seq<u8>, pos: int) -> Option<Seq<u8>>
    decreases s.len() - pos,
{
    if pos + 3 >= s.len() {
        None
    } else {
        match find_from(s, JPEG_START@, pos) {
            None => None,
            Some(start) => if start < pos || start + 3 > s.len() {
                None
            } else {
                match find_from(s, JPEG_END@, start + 3) {
                    Some(end) => if 1024 < end + 2 - start < 0x20_0000 {
                        Some(s.subrange(start, end + 2))
                    } else {
                        first_jpeg(s, start + 3)
                    },
                    None => first_jpeg(s, start + 3),
                }
            },
        }
    }
}

/// Find the first JPEG in a file that has the size of a thumbnail.
pub fn find_first_jpeg(data: &[u8]) -> (r: Option<Vec<u8>>)
    ensures
        opt_bytes(r) == first_jpeg(data@, 0),
{
    let total: usize = data.len();
    let mut pos: usize = 0;
    while pos < total && total - pos > 3
        invariant
            total == data@.len(),
            pos <= total,
            first_jpeg(data@, 0) == first_jpeg(data@, pos as int),
        decreases total - pos,
    {
        let start: usize = match find_bytes(data, JPEG_START.as_slice(), pos) {
            None => {
                return None;
            },
            Some(p) => p,
        };
        match find_bytes(data, JPEG_END.as_slice(), start + 3) {
            None => {},
            Some(end) => {
                let len: usize = end + 2 - start;
                if len > 1024 && len < 0x20_0000 {
                    return Some(copy_range(data, start, end + 2));
                }
            },
        }
        pos = start + 3;
    }
    None
}

/// The thumbnail of a file: the one in its Exif item, or the first JPEG in it.
pub open spec fn thumbnail_of(s: Seq<u8>) -> Option<Option<Seq<u8>>> {
    match file_thumbnail(s) {
        None => None,
        Some(Some(t)) => Some(Some(t)),
        Some(None) => Some(first_jpeg(s, 0)),
    }
}

/// Extract a thumbnail from a file: the one in its Exif item, or the first JPEG in it.
/// `None` where the metadata is cut short by the end of the data.
pub fn extract_thumbnail(data: &[u8]) -> (r: Option<Option<Vec<u8>>>)
    ensures
        match r {
            None => thumbnail_of(data@) is None,
            Some(t) => thumbnail_of(data@) == Some(opt_bytes(t)),
        },
{
    match extract_exif_thumbnail(data) {
        None => None,
        Some(Some(t)) => Some(Some(t)),
        Some(None) => Some(find_first_jpeg(data)),
    }
}

} // verus!
