//! ISOBMFF LHDR/UHDR output assembly and item payloads.

pub use crate::assemble::{
    assemble_iso_output, assign_new_ids, parse_source_structure, patch_oppo_usercomment,
    primary_is_presentation_oriented, GainMap, ParsedSource,
};
pub use crate::gain_tiles::{
    assemble_prepared_tiles, prepare_lhdr_tiles, prepare_uhdr_tiles, GainMetadata, PreparedTiles,
};
pub use crate::raster::{
    build_padded_gain_tile, orient_gainmap_pixels, tile_grid_dims, GAIN_TILE_SIZE,
};
use crate::bytes::{append, copy_range, find_bytes, find_from, matches_at, opt_bytes, starts_with};
use crate::exif::{exif_location, find_exif_iloc_entry};
use crate::fourcc::{IDAT, ILOC, INFE, IREF, MDAT, META};
use crate::isobmff::{
    BoxHeader, BoxView, IlocEntry, IrefEntry, IrefView, ItemInfo, ItemView, MetaView, ParsedMeta,
    box_bytes, box_within, boxes_in, end_of_name, find_in, first_box, iinf_bytes, infe_bytes,
    iref_at, iref_bytes, lemma_boxes_within, make_box, make_iinf_box, make_infe_box,
    make_iref_full_box, name_end, of_type, parse_boxes, parse_children, refs_named, source_meta,
    try_parse_source_meta,
};
use crate::items::{
    copy_infes, copy_irefs, find_iloc, find_item, iloc_for, item_typed, largest_item_id,
    max_item_id, raw_infes,
};
use crate::rebuild::{
    claim, claimed, find_iloc_index, iloc_index, lemma_refs_named, with_payload, write_with_payload,
};
use crate::seqs::{first_where, lemma_first_where_has, told_some, views};
use crate::text::{decimal, decimal_text, join};
use vstd::prelude::*;
use vstd::string::*;
use vstd::utf8::*;

verus! {

// ---------------------------------------------------------------------------
// Item payloads
// ---------------------------------------------------------------------------

/// The top-level meta and mdat boxes of a file, or why its payloads cannot be
/// changed.
pub open spec fn meta_and_mdat(s: Seq<u8>) -> Result<(BoxView, BoxView), Seq<char>> {
    let top = boxes_in(s, 0, s.len() as int);
    match first_box(top, META@) {
        None => Err("output meta box not found"@),
        Some(meta) => match first_box(top, MDAT@) {
            None => Err("output mdat box not found"@),
            Some(mdat) => if mdat.box_start < meta.box_start + meta.size {
                Err("unexpected box order: mdat before meta"@)
            } else {
                Ok((meta, mdat))
            },
        },
    }
}

fn find_meta_and_mdat(s: &[u8]) -> (r: Result<(BoxHeader, BoxHeader), String>)
    ensures
        match r {
            Ok((meta, mdat)) => meta_and_mdat(s@) == Ok::<(BoxView, BoxView), Seq<char>>(
                (meta@, mdat@),
            ) && box_within(meta@, s@.len() as int) && box_within(mdat@, s@.len() as int)
                && meta.data_end <= mdat.box_start && first_box(
                boxes_in(s@, 0, s@.len() as int),
                META@,
            ) == Some(meta@),
            Err(e) => meta_and_mdat(s@) == Err::<(BoxView, BoxView), Seq<char>>(e@),
        },
{
    let top: Vec<BoxHeader> = parse_boxes(s, 0, s.len());
    let meta: BoxHeader = match find_in(top.as_slice(), &META) {
        Some(b) => b,
        None => {
            return Err("output meta box not found".to_string());
        },
    };
    let mdat: BoxHeader = match find_in(top.as_slice(), &MDAT) {
        Some(b) => b,
        None => {
            return Err("output mdat box not found".to_string());
        },
    };
    if mdat.box_start < meta.box_start + meta.size {
        return Err("unexpected box order: mdat before meta".to_string());
    }
    Ok((meta, mdat))
}

/// The item that carries the Exif payload: the first item of that type, or a new
/// one after all others. `None` where there is no number after the largest.
pub open spec fn exif_id(items: Seq<ItemView>) -> Option<u32> {
    match first_where(items, item_typed("Exif"@)) {
        Some(it) => Some(it.item_id),
        None => if max_item_id(items) == u32::MAX {
            None
        } else if max_item_id(items) < 1 {
            Some(2u32)
        } else {
            Some((max_item_id(items) + 1) as u32)
        },
    }
}

/// The iinf box with an Exif item added, where there is none yet.
pub open spec fn exif_iinf(m: MetaView, id: u32) -> Option<Seq<u8>> {
    if first_where(m.items, item_typed("Exif"@)) is Some {
        None
    } else {
        Some(
            iinf_bytes(
                m.iinf_version,
                raw_infes(m.items).push(infe_bytes(id as int, "Exif"@, 0)),
            ),
        )
    }
}

/// The version of the iref box among `kids`, 0 where there is none.
pub open spec fn iref_version_among(s: Seq<u8>, kids: Seq<BoxView>) -> u8 {
    match first_box(kids, IREF@) {
        Some(b) => s[b.data_start],
        None => 0,
    }
}

/// The rule that an item describes the primary image.
pub open spec fn describes(from: u32, primary_id: u32) -> IrefView {
    IrefView { rtype: "cdsc"@, from, to: seq![primary_id] }
}

/// The iref box with a reference from the new Exif item to the primary, where
/// there is no Exif item yet.
pub open spec fn exif_iref(s: Seq<u8>, kids: Seq<BoxView>, m: MetaView, id: u32) -> Option<Seq<u8>> {
    if first_where(m.items, item_typed("Exif"@)) is Some {
        None
    } else {
        Some(iref_bytes(iref_version_among(s, kids), m.refs.push(describes(id, m.primary_id))))
    }
}

/// A file with an Exif payload installed: `Ok(None)` where the payload is empty
/// and nothing changes, else the new file or why there is none. `None` where the
/// file's metadata is cut short or a number of the new file does not fit.
pub open spec fn with_exif(s: Seq<u8>, payload: Seq<u8>) -> Option<
    Result<Option<Seq<u8>>, Seq<char>>,
> {
    if payload.len() == 0 {
        Some(Ok(None))
    } else {
        match meta_and_mdat(s) {
            Err(e) => Some(Err(e)),
            Ok((meta, mdat)) => match source_meta(s) {
                None => None,
                Some(Err(e)) => Some(Err("output meta parse: "@ + e)),
                Some(Ok(m)) => match exif_id(m.items) {
                    None => None,
                    Some(id) => if id > 0xffff {
                        Some(Err("no u16 item id space left for the Exif graft"@))
                    } else if mdat.data_end != s.len() {
                        Some(
                            Err(
                                "output has trailing data after mdat; graft before appending tails"@,
                            ),
                        )
                    } else {
                        let kids = boxes_in(s, meta.data_start + 4, meta.data_end);
                        match with_payload(
                            s,
                            meta,
                            mdat,
                            kids,
                            claimed(m.iloc_entries, id, payload.len() as u64),
                            exif_iinf(m, id),
                            exif_iref(s, kids, m, id),
                            id,
                            payload,
                        ) {
                            None => None,
                            Some(new) => Some(Ok(Some(new))),
                        }
                    },
                },
            },
        }
    }
}

/// What an attempt to change a file says.
pub open spec fn change_told(r: Option<Result<Option<Vec<u8>>, String>>) -> Option<
    Result<Option<Seq<u8>>, Seq<char>>,
> {
    match r {
        None => None,
        Some(Err(e)) => Some(Err(e@)),
        Some(Ok(b)) => Some(Ok(opt_bytes(b))),
    }
}

/// The metadata that was read has named references, and its boxes fit the file.
proof fn lemma_meta_boxes(s: Seq<u8>, meta: BoxView)
    requires
        first_box(boxes_in(s, 0, s.len() as int), META@) == Some(meta),
        box_within(meta, s.len() as int),
        source_meta(s) matches Some(Ok(_)),
    ensures
        meta.data_start + 4 <= meta.data_end,
        refs_named(source_meta(s)->0->Ok_0.refs),
        first_box(boxes_in(s, meta.data_start + 4, meta.data_end), IREF@) matches Some(b)
            ==> b.data_start < s.len(),
{
    let kids = boxes_in(s, meta.data_start + 4, meta.data_end);
    lemma_boxes_within(s, meta.data_start + 4, meta.data_end);
    lemma_first_where_has(kids, of_type(ILOC@));
    assert(kids.len() > 0);
    match first_box(kids, IREF@) {
        None => {
            assert(source_meta(s)->0->Ok_0.refs =~= Seq::empty());
        },
        Some(b) => {
            lemma_first_where_has(kids, of_type(IREF@));
            lemma_boxes_within(s, b.data_start + 4, b.data_end);
            assert(iref_at(s, b) is Some);
            lemma_refs_named(
                s,
                boxes_in(s, b.data_start + 4, b.data_end),
                0,
                s[b.data_start] >= 1,
                Seq::empty(),
            );
        },
    }
}

fn new_exif_iinf(meta: &ParsedMeta, id: u32) -> (r: Option<Vec<u8>>)
    ensures
        opt_bytes(r) == exif_iinf(meta@, id),
{
    if find_item(&meta.items, "Exif").is_some() {
        return None;
    }
    let mut infes: Vec<Vec<u8>> = copy_infes(&meta.items);
    let ghost before = infes@;
    let infe: Vec<u8> = make_infe_box(id, "Exif", 0);
    infes.push(infe);
    assert(views(infes@) =~= views(before).push(infe@));
    Some(make_iinf_box(meta.iinf_version, infes.as_slice()))
}

fn new_exif_iref(s: &[u8], kids: &Vec<BoxHeader>, meta: &ParsedMeta, id: u32) -> (r: Option<Vec<u8>>)
    requires
        refs_named(meta@.refs),
        first_box(views(kids@), IREF@) matches Some(b) ==> b.data_start < s@.len(),
    ensures
        opt_bytes(r) == exif_iref(s@, views(kids@), meta@, id),
{
    if find_item(&meta.items, "Exif").is_some() {
        return None;
    }
    let mut refs: Vec<IrefEntry> = copy_irefs(&meta.refs);
    let ghost before = refs@;
    let rule: IrefEntry = IrefEntry { rtype: "cdsc".to_string(), from: id, to: vec![meta.primary_id] };
    assert(rule@ =~= describes(id, meta.primary_id));
    refs.push(rule);
    assert(views(refs@) =~= views(before).push(rule@));
    proof {
        lemma_cdsc_len();
    }
    let version: u8 = match find_in(kids.as_slice(), &IREF) {
        Some(b) => s[b.data_start],
        None => 0,
    };
    Some(make_iref_full_box(version, refs.as_slice()))
}

/// The reference types that the writers use have four bytes.
pub proof fn lemma_cdsc_len()
    ensures
        encode_utf8("cdsc"@).len() == 4,
        encode_utf8("dimg"@).len() == 4,
{
    reveal_strlit("cdsc");
    reveal_strlit("dimg");
    assert(is_ascii_chars("cdsc"@));
    assert(is_ascii_chars("dimg"@));
    is_ascii_chars_encode_utf8("cdsc"@);
    is_ascii_chars_encode_utf8("dimg"@);
}

/// Install an Exif payload into a copy of a HEIF container; `None` where its
/// metadata is cut short or a number of the new file does not fit.
pub fn try_install_exif_payload(output: &[u8], payload: &[u8]) -> (r: Option<
    Result<Option<Vec<u8>>, String>,
>)
    ensures
        change_told(r) == with_exif(output@, payload@),
{
    if payload.len() == 0 {
        return Some(Ok(None));
    }
    let (meta, mdat): (BoxHeader, BoxHeader) = match find_meta_and_mdat(output) {
        Ok(v) => v,
        Err(e) => {
            return Some(Err(e));
        },
    };
    let parsed: ParsedMeta = match try_parse_source_meta(output) {
        None => {
            return None;
        },
        Some(Err(e)) => {
            return Some(Err(join("output meta parse: ", e.as_str())));
        },
        Some(Ok(m)) => m,
    };
    proof {
        lemma_meta_boxes(output@, meta@);
    }
    let id: u32 = match find_item(&parsed.items, "Exif") {
        Some(it) => it.item_id,
        None => {
            let max: u32 = largest_item_id(&parsed.items);
            if max == u32::MAX {
                return None;
            }
            if max < 1 {
                2
            } else {
                max + 1
            }
        },
    };
    if id > 0xffff {
        return Some(Err("no u16 item id space left for the Exif graft".to_string()));
    }
    if mdat.data_end != output.len() {
        return Some(
            Err(
                "output has trailing data after mdat; graft before appending tails".to_string(),
            ),
        );
    }
    let kids: Vec<BoxHeader> = parse_children(output, &meta, 4);
    let iinf: Option<Vec<u8>> = new_exif_iinf(&parsed, id);
    let iref: Option<Vec<u8>> = new_exif_iref(output, &kids, &parsed, id);
    let entries: Vec<IlocEntry> = claim(&parsed.iloc_entries, id, payload.len() as u64);
    match write_with_payload(output, &meta, &mdat, &kids, &entries, &iinf, &iref, id, payload) {
        None => None,
        Some(new) => Some(Ok(Some(new))),
    }
}

/// Install an Exif payload into a HEIF container: when an Exif item already
/// exists its iloc entry is re-pointed at the new payload appended to mdat;
/// otherwise a new item (infe + iloc + cdsc to the primary) is created.
pub fn install_exif_payload(output: &mut Vec<u8>, payload: &[u8]) -> (r: Result<bool, String>)
    requires
        with_exif(old(output)@, payload@) is Some,
    ensures
        match with_exif(old(output)@, payload@)->0 {
            Err(e) => r is Err && r->Err_0@ == e && final(output)@ == old(output)@,
            Ok(None) => r == Ok::<bool, String>(false) && final(output)@ == old(output)@,
            Ok(Some(new)) => r == Ok::<bool, String>(true) && final(output)@ == new,
        },
{
    match try_install_exif_payload(output.as_slice(), payload).unwrap() {
        Err(e) => Err(e),
        Ok(None) => Ok(false),
        Ok(Some(new)) => {
            *output = new;
            Ok(true)
        },
    }
}

/// The letters `uri`.
pub const URI: [u8; 3] = [0x75, 0x72, 0x69];

/// The item type `uri `.
pub const URI_TYPE: [u8; 4] = [0x75, 0x72, 0x69, 0x20];

/// The infe box of a `uri ` item with its name replaced and its content type
/// kept, or why there is none. `None` where the box has no room for what must
/// stand around the type.
pub open spec fn renamed_uri(raw: Seq<u8>, name: Seq<char>) -> Option<Result<Seq<u8>, Seq<char>>> {
    match find_from(raw, URI_TYPE@, 0) {
        None => Some(Err("uri item without 'uri ' item_type"@)),
        Some(at) => {
            let end = name_end(raw, at + 4, raw.len() as int);
            if at < 8 || end + 1 > raw.len() {
                None
            } else {
                Some(
                    Ok(
                        box_bytes(
                            INFE@,
                            raw.subrange(at - 8, at) + URI_TYPE@ + encode_utf8(name) + seq![0u8]
                                + raw.subrange(end + 1, raw.len() as int),
                        ),
                    ),
                )
            }
        },
    }
}

/// The infe box of an item after `item_id` was renamed.
pub open spec fn renamed_infe(it: ItemView, item_id: u32, name: Seq<char>) -> Option<
    Result<Seq<u8>, Seq<char>>,
> {
    if it.item_id != item_id {
        Some(Ok(it.raw_infe))
    } else if starts_with(encode_utf8(it.itype), URI@) {
        renamed_uri(it.raw_infe, name)
    } else {
        Some(Ok(infe_bytes(item_id as int, name, it.flags as int)))
    }
}

/// The infe boxes of all items from the `i`-th on after `item_id` was renamed.
pub open spec fn renamed_infes(
    items: Seq<ItemView>,
    i: int,
    item_id: u32,
    name: Seq<char>,
    acc: Seq<Seq<u8>>,
) -> Option<Result<Seq<Seq<u8>>, Seq<char>>>
    decreases items.len() - i,
{
    if i >= items.len() {
        Some(Ok(acc))
    } else {
        match renamed_infe(items[i], item_id, name) {
            None => None,
            Some(Err(e)) => Some(Err(e)),
            Some(Ok(b)) => renamed_infes(items, i + 1, item_id, name, acc.push(b)),
        }
    }
}

/// The iinf box after an item was renamed: no change without a new name.
pub open spec fn renamed_iinf(m: MetaView, item_id: u32, name: Option<Seq<char>>) -> Option<
    Result<Option<Seq<u8>>, Seq<char>>,
> {
    match name {
        None => Some(Ok(None)),
        Some(n) => match renamed_infes(m.items, 0, item_id, n, Seq::empty()) {
            None => None,
            Some(Err(e)) => Some(Err(e)),
            Some(Ok(infes)) => Some(Ok(Some(iinf_bytes(m.iinf_version, infes)))),
        },
    }
}

/// A file with the payload of an item replaced and the item renamed where a name
/// is given, or why there is none. `None` where the file's metadata is cut short
/// or a number of the new file does not fit.
pub open spec fn with_item_payload(
    s: Seq<u8>,
    item_id: u32,
    name: Option<Seq<char>>,
    payload: Seq<u8>,
) -> Option<Result<Seq<u8>, Seq<char>>> {
    match meta_and_mdat(s) {
        Err(e) => Some(Err(e)),
        Ok((meta, mdat)) => match source_meta(s) {
            None => None,
            Some(Err(e)) => Some(Err("output meta parse: "@ + e)),
            Some(Ok(m)) => if iloc_index(m.iloc_entries, item_id, 0) is None {
                Some(Err("item "@ + decimal_text(item_id as int) + " has no iloc entry"@))
            } else {
                match renamed_iinf(m, item_id, name) {
                    None => None,
                    Some(iinf) => if mdat.data_end != s.len() {
                        Some(Err("output has trailing data after mdat"@))
                    } else {
                        match iinf {
                            Err(e) => Some(Err(e)),
                            Ok(iinf) => match with_payload(
                                s,
                                meta,
                                mdat,
                                boxes_in(s, meta.data_start + 4, meta.data_end),
                                claimed(m.iloc_entries, item_id, payload.len() as u64),
                                iinf,
                                None,
                                item_id,
                                payload,
                            ) {
                                None => None,
                                Some(new) => Some(Ok(new)),
                            },
                        }
                    },
                }
            },
        },
    }
}

fn rename_uri(raw: &Vec<u8>, name: &str) -> (r: Option<Result<Vec<u8>, String>>)
    ensures
        told_some(r) == renamed_uri(raw@, name@),
{
    let at: usize = match find_bytes(raw.as_slice(), URI_TYPE.as_slice(), 0) {
        Some(i) => i,
        None => {
            return Some(Err("uri item without 'uri ' item_type".to_string()));
        },
    };
    assert(URI_TYPE@.len() == 4);
    assert(at + 4 <= raw.len());
    let end: usize = end_of_name(raw.as_slice(), at + 4, raw.len());
    if at < 8 || end >= raw.len() {
        return None;
    }
    let mut payload: Vec<u8> = copy_range(raw.as_slice(), at - 8, at);
    append(&mut payload, URI_TYPE.as_slice());
    append(&mut payload, name.as_bytes());
    payload.push(0u8);
    append(&mut payload, vstd::slice::slice_subrange(raw.as_slice(), end + 1, raw.len()));
    assert(payload@ =~= raw@.subrange(at - 8, at as int) + URI_TYPE@ + encode_utf8(name@) + seq![0u8]
        + raw@.subrange(end + 1, raw@.len() as int));
    Some(Ok(make_box(&INFE, payload.as_slice())))
}

fn rename_infe(it: &ItemInfo, item_id: u32, name: &str) -> (r: Option<Result<Vec<u8>, String>>)
    ensures
        told_some(r) == renamed_infe(it@, item_id, name@),
{
    if it.item_id != item_id {
        let raw: Vec<u8> = copy_range(it.raw_infe.as_slice(), 0, it.raw_infe.len());
        assert(raw@ =~= it.raw_infe@);
        Some(Ok(raw))
    } else if matches_at(it.itype.as_str().as_bytes(), URI.as_slice(), 0) {
        rename_uri(&it.raw_infe, name)
    } else {
        Some(Ok(make_infe_box(item_id, name, it.flags)))
    }
}

fn rename_infes(items: &Vec<ItemInfo>, item_id: u32, name: &str) -> (r: Option<
    Result<Vec<Vec<u8>>, String>,
>)
    ensures
        match r {
            None => renamed_infes(views(items@), 0, item_id, name@, Seq::empty()) is None,
            Some(Err(e)) => renamed_infes(views(items@), 0, item_id, name@, Seq::empty()) == Some(
                Err::<Seq<Seq<u8>>, Seq<char>>(e@),
            ),
            Some(Ok(v)) => renamed_infes(views(items@), 0, item_id, name@, Seq::empty()) == Some(
                Ok::<Seq<Seq<u8>>, Seq<char>>(views(v@)),
            ),
        },
{
    let mut infes: Vec<Vec<u8>> = Vec::new();
    let mut i: usize = 0;
    assert(views(infes@) =~= Seq::empty());
    while i < items.len()
        invariant
            i <= items@.len(),
            renamed_infes(views(items@), 0, item_id, name@, Seq::empty()) == renamed_infes(
                views(items@),
                i as int,
                item_id,
                name@,
                views(infes@),
            ),
        decreases items@.len() - i,
    {
        assert(views(items@)[i as int] == items@[i as int]@);
        match rename_infe(&items[i], item_id, name) {
            None => {
                return None;
            },
            Some(Err(e)) => {
                return Some(Err(e));
            },
            Some(Ok(b)) => {
                let ghost before = infes@;
                infes.push(b);
                assert(views(infes@) =~= views(before).push(b@));
            },
        }
        i = i + 1;
    }
    Some(Ok(infes))
}

/// The view of an optional text.
pub open spec fn opt_text(t: Option<&str>) -> Option<Seq<char>> {
    match t {
        Some(s) => Some(s@),
        None => None,
    }
}

fn rename_iinf(meta: &ParsedMeta, item_id: u32, name: Option<&str>) -> (r: Option<
    Result<Option<Vec<u8>>, String>,
>)
    ensures
        change_told(r) == renamed_iinf(meta@, item_id, opt_text(name)),
{
    match name {
        None => Some(Ok(None)),
        Some(n) => match rename_infes(&meta.items, item_id, n) {
            None => None,
            Some(Err(e)) => Some(Err(e)),
            Some(Ok(infes)) => Some(Ok(Some(make_iinf_box(meta.iinf_version, infes.as_slice())))),
        },
    }
}

/// Replace an item's payload in a copy of a file; `None` where its metadata is
/// cut short or a number of the new file does not fit.
pub fn try_replace_item_payload(
    output: &[u8],
    item_id: u32,
    new_itype: Option<&str>,
    new_payload: &[u8],
) -> (r: Option<Result<Vec<u8>, String>>)
    ensures
        told_some(r) == with_item_payload(output@, item_id, opt_text(new_itype), new_payload@),
{
    let (meta, mdat): (BoxHeader, BoxHeader) = match find_meta_and_mdat(output) {
        Ok(v) => v,
        Err(e) => {
            return Some(Err(e));
        },
    };
    let parsed: ParsedMeta = match try_parse_source_meta(output) {
        None => {
            return None;
        },
        Some(Err(e)) => {
            return Some(Err(join("output meta parse: ", e.as_str())));
        },
        Some(Ok(m)) => m,
    };
    proof {
        lemma_meta_boxes(output@, meta@);
    }
    if find_iloc_index(&parsed.iloc_entries, item_id).is_none() {
        let number: String = decimal(item_id as u64);
        return Some(
            Err(join(join("item ", number.as_str()).as_str(), " has no iloc entry")),
        );
    }
    let renamed: Result<Option<Vec<u8>>, String> = match rename_iinf(&parsed, item_id, new_itype) {
        None => {
            return None;
        },
        Some(r) => r,
    };
    if mdat.data_end != output.len() {
        return Some(Err("output has trailing data after mdat".to_string()));
    }
    let iinf: Option<Vec<u8>> = match renamed {
        Ok(v) => v,
        Err(e) => {
            return Some(Err(e));
        },
    };
    let kids: Vec<BoxHeader> = parse_children(output, &meta, 4);
    let entries: Vec<IlocEntry> = claim(&parsed.iloc_entries, item_id, new_payload.len() as u64);
    let none: Option<Vec<u8>> = None;
    match write_with_payload(output, &meta, &mdat, &kids, &entries, &iinf, &none, item_id, new_payload) {
        None => None,
        Some(new) => Some(Ok(new)),
    }
}

/// Replace an existing item's payload and optionally rename its infe item
/// type. The item must already exist; the new payload is appended to mdat
/// and the iloc entry re-pointed.
pub fn replace_item_payload(
    output: &mut Vec<u8>,
    item_id: u32,
    new_itype: Option<&str>,
    new_payload: &[u8],
) -> (r: Result<(), String>)
    requires
        with_item_payload(old(output)@, item_id, opt_text(new_itype), new_payload@) is Some,
    ensures
        match with_item_payload(old(output)@, item_id, opt_text(new_itype), new_payload@)->0 {
            Err(e) => r is Err && r->Err_0@ == e && final(output)@ == old(output)@,
            Ok(new) => r is Ok && final(output)@ == new,
        },
{
    match try_replace_item_payload(output.as_slice(), item_id, new_itype, new_payload).unwrap() {
        Err(e) => Err(e),
        Ok(new) => {
            *output = new;
            Ok(())
        },
    }
}

// ---------------------------------------------------------------------------
// Reading and grafting the Exif payload
// ---------------------------------------------------------------------------

/// The idat box of the metadata of a file.
pub open spec fn idat_box(s: Seq<u8>) -> Option<BoxView> {
    match first_box(boxes_in(s, 0, s.len() as int), META@) {
        None => None,
        Some(meta) => first_box(boxes_in(s, meta.data_start + 4, meta.data_end), IDAT@),
    }
}

pub fn find_idat(data: &[u8]) -> (r: Option<BoxHeader>)
    ensures
        match r {
            Some(b) => idat_box(data@) == Some(b@) && box_within(b@, data@.len() as int),
            None => idat_box(data@) is None,
        },
{
    let top: Vec<BoxHeader> = parse_boxes(data, 0, data.len());
    match find_in(top.as_slice(), &META) {
        None => None,
        Some(meta) => {
            let kids: Vec<BoxHeader> = parse_children(data, &meta, 4);
            find_in(kids.as_slice(), &IDAT)
        },
    }
}

/// The Exif bytes that extents name from the `i`-th on, or why there are none.
/// `None` where an end does not fit the machine.
pub open spec fn exif_extents(
    s: Seq<u8>,
    method: u16,
    extents: Seq<(u64, u64)>,
    idat: Option<BoxView>,
    i: int,
    acc: Seq<u8>,
) -> Option<Result<Seq<u8>, Seq<char>>>
    decreases extents.len() - i,
{
    if i >= extents.len() {
        Some(Ok(acc))
    } else if method == 1 && idat is None {
        Some(Err("Exif uses idat but no idat box found"@))
    } else if method > 1 {
        Some(Err("unsupported Exif construction method "@ + decimal_text(method as int)))
    } else {
        let start = (if method == 1 {
            idat->0.data_start
        } else {
            0
        }) + extents[i].0;
        let end = start + extents[i].1;
        if end > usize::MAX {
            None
        } else if end > s.len() {
            Some(Err("Exif extent out of range"@))
        } else {
            exif_extents(s, method, extents, idat, i + 1, acc + s.subrange(start, end))
        }
    }
}

/// The Exif payload of a file: `Ok(None)` where it has none. `None` where its
/// metadata is cut short or an end does not fit the machine.
pub open spec fn exif_payload(s: Seq<u8>) -> Option<Result<Option<Seq<u8>>, Seq<char>>> {
    match source_meta(s) {
        None => None,
        Some(Err(_)) => Some(Ok(None)),
        Some(Ok(m)) => match exif_location(m.items, m.iloc_entries) {
            None => Some(Ok(None)),
            Some(e) => match exif_extents(
                s,
                e.construction_method,
                e.extents,
                idat_box(s),
                0,
                Seq::empty(),
            ) {
                None => None,
                Some(Err(text)) => Some(Err(text)),
                Some(Ok(payload)) => if payload.len() == 0 {
                    Some(Ok(None))
                } else {
                    Some(Ok(Some(payload)))
                },
            },
        },
    }
}

/// The view of an optional box.
pub open spec fn opt_header(b: Option<BoxHeader>) -> Option<BoxView> {
    match b {
        Some(h) => Some(h@),
        None => None,
    }
}

/// The place that an extent names: `None` where its end does not fit the machine.
fn extent_range(base: usize, extent: (u64, u64)) -> (r: Option<(usize, usize)>)
    ensures
        match r {
            Some((start, end)) => start == base + extent.0 && end == start + extent.1,
            None => base + extent.0 + extent.1 > usize::MAX,
        },
{
    if extent.0 > (usize::MAX - base) as u64 {
        return None;
    }
    let start: usize = base + extent.0 as usize;
    if extent.1 > (usize::MAX - start) as u64 {
        return None;
    }
    Some((start, start + extent.1 as usize))
}

fn read_exif_extents(data: &[u8], entry: &IlocEntry, idat: Option<BoxHeader>) -> (r: Option<
    Result<Vec<u8>, String>,
>)
    ensures
        told_some(r) == exif_extents(
            data@,
            entry.construction_method,
            entry.extents@,
            opt_header(idat),
            0,
            Seq::empty(),
        ),
{
    let mut payload: Vec<u8> = Vec::new();
    let mut i: usize = 0;
    while i < entry.extents.len()
        invariant
            i <= entry.extents@.len(),
            exif_extents(
                data@,
                entry.construction_method,
                entry.extents@,
                opt_header(idat),
                0,
                Seq::empty(),
            ) == exif_extents(
                data@,
                entry.construction_method,
                entry.extents@,
                opt_header(idat),
                i as int,
                payload@,
            ),
        decreases entry.extents@.len() - i,
    {
        let base: usize = if entry.construction_method == 0 {
            0
        } else if entry.construction_method == 1 {
            match idat {
                Some(b) => b.data_start,
                None => {
                    return Some(Err("Exif uses idat but no idat box found".to_string()));
                },
            }
        } else {
            return Some(
                Err(
                    join(
                        "unsupported Exif construction method ",
                        decimal(entry.construction_method as u64).as_str(),
                    ),
                ),
            );
        };
        match extent_range(base, entry.extents[i]) {
            None => {
                return None;
            },
            Some((start, end)) => {
                if end > data.len() {
                    return Some(Err("Exif extent out of range".to_string()));
                }
                append(&mut payload, vstd::slice::slice_subrange(data, start, end));
            },
        }
        i = i + 1;
    }
    Some(Ok(payload))
}

/// Read the Exif item payload of a HEIF container; `None` where its metadata is
/// cut short or an end does not fit the machine.
pub fn try_read_exif_payload(data: &[u8]) -> (r: Option<Result<Option<Vec<u8>>, String>>)
    ensures
        change_told(r) == exif_payload(data@),
{
    let meta: ParsedMeta = match try_parse_source_meta(data) {
        None => {
            return None;
        },
        Some(Err(_)) => {
            return Some(Ok(None));
        },
        Some(Ok(m)) => m,
    };
    let entry: &IlocEntry = match find_exif_iloc_entry(&meta.items, &meta.iloc_entries) {
        Some(e) => e,
        None => {
            return Some(Ok(None));
        },
    };
    match read_exif_extents(data, entry, find_idat(data)) {
        None => None,
        Some(Err(e)) => Some(Err(e)),
        Some(Ok(payload)) => if payload.len() == 0 {
            Some(Ok(None))
        } else {
            Some(Ok(Some(payload)))
        },
    }
}

/// Read the Exif item payload of a HEIF container, if present.
pub fn read_exif_payload(data: &[u8]) -> (r: Result<Option<Vec<u8>>, String>)
    requires
        exif_payload(data@) is Some,
    ensures
        change_told(Some(r)) == exif_payload(data@),
{
    try_read_exif_payload(data).unwrap()
}

/// The Exif bytes of a donor that extents name from the `i`-th on, or why there
/// are none. `None` where an end does not fit the machine.
pub open spec fn donor_extents(
    s: Seq<u8>,
    method: u16,
    extents: Seq<(u64, u64)>,
    idat: Option<BoxView>,
    i: int,
    acc: Seq<u8>,
) -> Option<Result<Seq<u8>, Seq<char>>>
    decreases extents.len() - i,
{
    if i >= extents.len() {
        Some(Ok(acc))
    } else if method == 1 && idat is None {
        Some(Err("donor Exif uses idat but no idat box found"@))
    } else if method > 1 {
        Some(Err("unsupported donor Exif construction method "@ + decimal_text(method as int)))
    } else {
        let start = (if method == 1 {
            idat->0.data_start
        } else {
            0
        }) + extents[i].0;
        let end = start + extents[i].1;
        if end > usize::MAX {
            None
        } else if method == 1 && end > idat->0.data_end {
            Some(Err("donor Exif idat extent out of range"@))
        } else if end > s.len() {
            Some(Err("donor Exif extent out of range"@))
        } else {
            donor_extents(s, method, extents, idat, i + 1, acc + s.subrange(start, end))
        }
    }
}

/// The Exif payload of a donor: empty where it has none. `None` where its
/// metadata is cut short or an end does not fit the machine.
pub open spec fn donor_payload(s: Seq<u8>) -> Option<Result<Seq<u8>, Seq<char>>> {
    match source_meta(s) {
        None => None,
        Some(Err(e)) => Some(Err("donor meta parse: "@ + e)),
        Some(Ok(m)) => match first_where(m.items, item_typed("Exif"@)) {
            None => Some(Ok(Seq::empty())),
            Some(it) => match first_where(m.iloc_entries, iloc_for(it.item_id)) {
                None => Some(Err("donor Exif item has no iloc entry"@)),
                Some(e) => donor_extents(
                    s,
                    e.construction_method,
                    e.extents,
                    idat_box(s),
                    0,
                    Seq::empty(),
                ),
            },
        },
    }
}

/// A file with the donor's Exif payload grafted in: `Ok(None)` where the donor
/// has none and nothing changes.
pub open spec fn grafted(s: Seq<u8>, donor: Seq<u8>) -> Option<Result<Option<Seq<u8>>, Seq<char>>> {
    match donor_payload(donor) {
        None => None,
        Some(Err(e)) => Some(Err(e)),
        Some(Ok(payload)) => with_exif(s, payload),
    }
}

fn read_donor_extents(data: &[u8], entry: &IlocEntry, idat: Option<BoxHeader>) -> (r: Option<
    Result<Vec<u8>, String>,
>)
    ensures
        told_some(r) == donor_extents(
            data@,
            entry.construction_method,
            entry.extents@,
            opt_header(idat),
            0,
            Seq::empty(),
        ),
{
    let mut payload: Vec<u8> = Vec::new();
    let mut i: usize = 0;
    while i < entry.extents.len()
        invariant
            i <= entry.extents@.len(),
            donor_extents(
                data@,
                entry.construction_method,
                entry.extents@,
                opt_header(idat),
                0,
                Seq::empty(),
            ) == donor_extents(
                data@,
                entry.construction_method,
                entry.extents@,
                opt_header(idat),
                i as int,
                payload@,
            ),
        decreases entry.extents@.len() - i,
    {
        let (base, limit): (usize, usize) = if entry.construction_method == 0 {
            (0, usize::MAX)
        } else if entry.construction_method == 1 {
            match idat {
                Some(b) => (b.data_start, b.data_end),
                None => {
                    return Some(Err("donor Exif uses idat but no idat box found".to_string()));
                },
            }
        } else {
            return Some(
                Err(
                    join(
                        "unsupported donor Exif construction method ",
                        decimal(entry.construction_method as u64).as_str(),
                    ),
                ),
            );
        };
        match extent_range(base, entry.extents[i]) {
            None => {
                return None;
            },
            Some((start, end)) => {
                if end > limit {
                    return Some(Err("donor Exif idat extent out of range".to_string()));
                }
                if end > data.len() {
                    return Some(Err("donor Exif extent out of range".to_string()));
                }
                append(&mut payload, vstd::slice::slice_subrange(data, start, end));
            },
        }
        i = i + 1;
    }
    Some(Ok(payload))
}

fn read_donor_payload(donor: &[u8]) -> (r: Option<Result<Vec<u8>, String>>)
    ensures
        told_some(r) == donor_payload(donor@),
{
    let meta: ParsedMeta = match try_parse_source_meta(donor) {
        None => {
            return None;
        },
        Some(Err(e)) => {
            return Some(Err(join("donor meta parse: ", e.as_str())));
        },
        Some(Ok(m)) => m,
    };
    let id: u32 = match find_item(&meta.items, "Exif") {
        Some(it) => it.item_id,
        None => {
            let none: Vec<u8> = Vec::new();
            return Some(Ok(none));
        },
    };
    match find_iloc(&meta.iloc_entries, id) {
        None => Some(Err("donor Exif item has no iloc entry".to_string())),
        Some(entry) => read_donor_extents(donor, entry, find_idat(donor)),
    }
}

/// Graft a donor's Exif payload into a copy of a file; `None` where metadata is
/// cut short or a number does not fit.
pub fn try_graft_exif_item(output: &[u8], donor: &[u8]) -> (r: Option<
    Result<Option<Vec<u8>>, String>,
>)
    ensures
        change_told(r) == grafted(output@, donor@),
{
    match read_donor_payload(donor) {
        None => None,
        Some(Err(e)) => Some(Err(e)),
        Some(Ok(payload)) => try_install_exif_payload(output, payload.as_slice()),
    }
}

/// Graft the donor's Exif item payload into an already-assembled HEIC output.
///
/// Apple Photos return files frequently drop the Exif item entirely; the
/// writeback paths rebuild the container from that returned source, so the
/// final output would silently lose EXIF (including the GPS IFD) unless the
/// untouched donor's Exif is grafted back in.
///
/// Behaviour:
/// - donor has no Exif item: Ok(false), output untouched
/// - output already has an Exif item: its iloc entry is re-pointed at the
///   donor payload appended to mdat (the donor is capture-time ground truth;
///   a Photos-processed Exif may have had location data stripped)
/// - output has no Exif item: a new item (infe + iloc + cdsc to the primary) is
///   created with the donor payload appended to mdat
///
/// Must be called before any trailing vendor footer (e.g. the OPPO camera
/// tail) is appended, because grafting shifts absolute mdat offsets.
/// Returns Ok(true) when the output was modified.
pub fn graft_exif_item(output: &mut Vec<u8>, donor: &[u8]) -> (r: Result<bool, String>)
    requires
        grafted(old(output)@, donor@) is Some,
    ensures
        match grafted(old(output)@, donor@)->0 {
            Err(e) => r is Err && r->Err_0@ == e && final(output)@ == old(output)@,
            Ok(None) => r == Ok::<bool, String>(false) && final(output)@ == old(output)@,
            Ok(Some(new)) => r == Ok::<bool, String>(true) && final(output)@ == new,
        },
{
    match try_graft_exif_item(output.as_slice(), donor).unwrap() {
        Err(e) => Err(e),
        Ok(None) => Ok(false),
        Ok(Some(new)) => {
            *output = new;
            Ok(true)
        },
    }
}

} // verus!
