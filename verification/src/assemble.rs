//! Assembling an ISO 21496-1 file from a source file and an encoded gain map.

use crate::bytes::{append, be32, bytes_eq, copy_range, enc32, opt_bytes, push32_sum3};
use crate::container::{OppoCameraTail, file_tail_under, get_oppo_tail};
use crate::exif::{
    ExifOrientation, OppoCompat, OppoUserCommentPatch, adjusted_extent, adjusted_extent_for_patch,
    apply_oppo_usercomment_patch, exif_location, find_exif_iloc_entry, patched_media,
};
use crate::fourcc::{
    DINF, FTYP, GRPL, HDLR, HVCC, IDAT, IINF, ILOC, IPCO, IPMA, IPRP, IREF, MDAT, META, PITM,
    same_tag,
};
use crate::isobmff::{
    AUX_C_BOX, BoxHeader, BoxView, COLR_BT2020_PQ_BOX, COLR_SRGB_BOX, COLR_UNSPECIFIED_BT601_BOX,
    DINF_BOX, IlocEntry, IlocView, IpmaEntry, IpmaView, IrefEntry, IrefView, ItemInfo, ItemView,
    PIXI_RGB10_BOX, PIXI_RGB8_BOX, PropertyInfo, PropertyView, append_all, as_is, box_bytes,
    box_within, boxes_in, find_in, find_ipma, first_box, ftyp_bytes, grid_payload, grpl_altr_bytes,
    iinf_at, iinf_bytes, iloc_at, iloc_bytes, infe_bytes, ipma_at, ipma_entry_bytes, ipma_for,
    iref_at, iref_bytes, irot_bytes, irot_quarter_turns, is_irot, is_ispe, ispe_bytes,
    ispe_dimensions, lemma_boxes_within, make_box, make_ftyp_box, make_grid_box, make_grpl_altr_box,
    make_iinf_box, make_iloc_box, make_imageio_canonical_tmap_ispe_box, make_infe_box,
    make_ipma_entry, make_iref_full_box, make_irot_box, make_ispe_box, make_mime_infe_box,
    make_pitm_box, mime_infe_bytes, of_type, parse_boxes, parse_children, parse_iprp_properties,
    pitm_at, pitm_bytes, properties_in, refs_named, try_parse_iinf, try_parse_iloc, try_parse_ipma,
    try_parse_iref, try_parse_pitm,
};
use crate::isobmff_write::{lemma_cdsc_len, opt_header};
use crate::items::{
    copy_ids, copy_iloc, copy_ilocs, copy_infes, copy_iref, largest_item_id, max_item_id, raw_infes,
};
use crate::raster::GAIN_TILE_SIZE;
use crate::rebuild::{
    find_iloc_index, iloc_index, lemma_refs_named, move_offset, moved, single_extent,
};
use crate::seqs::{
    first_where, flat, lemma_first_where_has, lemma_flat_add, lemma_flat_take, told_some, views,
};
use crate::text::same_text;
use vstd::prelude::*;
use vstd::string::*;
use vstd::utf8::*;

verus! {

// ---------------------------------------------------------------------------
// The source
// ---------------------------------------------------------------------------

/// The metadata of a source file that the assembly works on.
pub struct ParsedSource {
    pub items: Vec<ItemInfo>,
    pub iloc_entries: Vec<IlocEntry>,
    pub props: Vec<PropertyInfo>,
    pub ipma_entries: Vec<IpmaEntry>,
    pub ipma_flags: u32,
    pub ipma_box: BoxHeader,
    pub ipco_box: Option<BoxHeader>,
    pub refs: Vec<IrefEntry>,
    pub iref_version: u8,
    pub pitm_version: u8,
    pub iinf_version: u8,
    pub primary_id: u32,
    pub max_src_id: u32,
    pub idat: Option<BoxHeader>,
}

/// What the metadata of a source file says.
#[verifier::ext_equal]
pub struct SourceView {
    pub items: Seq<ItemView>,
    pub iloc_entries: Seq<IlocView>,
    pub props: Seq<PropertyView>,
    pub ipma_entries: Seq<IpmaView>,
    pub ipma_flags: u32,
    pub ipma_box: BoxView,
    pub ipco_box: Option<BoxView>,
    pub refs: Seq<IrefView>,
    pub iref_version: u8,
    pub pitm_version: u8,
    pub iinf_version: u8,
    pub primary_id: u32,
    pub max_src_id: u32,
    pub idat: Option<BoxView>,
}

impl View for ParsedSource {
    type V = SourceView;

    open spec fn view(&self) -> SourceView {
        SourceView {
            items: views(self.items@),
            iloc_entries: views(self.iloc_entries@),
            props: views(self.props@),
            ipma_entries: views(self.ipma_entries@),
            ipma_flags: self.ipma_flags,
            ipma_box: self.ipma_box@,
            ipco_box: opt_header(self.ipco_box),
            refs: views(self.refs@),
            iref_version: self.iref_version,
            pitm_version: self.pitm_version,
            iinf_version: self.iinf_version,
            primary_id: self.primary_id,
            max_src_id: self.max_src_id,
            idat: opt_header(self.idat),
        }
    }
}

/// The version and the rules of the iref box among `kids`, none where there is no
/// such box. `None` where it is cut short by the end of the data.
pub open spec fn versioned_refs(s: Seq<u8>, kids: Seq<BoxView>) -> Option<(u8, Seq<IrefView>)> {
    match first_box(kids, IREF@) {
        None => Some((0u8, Seq::empty())),
        Some(b) => iref_at(s, b),
    }
}

/// What the boxes of the metadata say together.
pub open spec fn structure_from(
    s: Seq<u8>,
    kids: Seq<BoxView>,
    pitm: BoxView,
    iinf: BoxView,
    iloc: BoxView,
    iprp: BoxView,
) -> Option<Result<SourceView, Seq<char>>> {
    match (pitm_at(s, pitm.data_start), iinf_at(s, iinf), iloc_at(s, iloc.data_start)) {
        (Some(primary_id), Some(items), Some(iloc_entries)) => match properties_in(s, iprp) {
            None => Some(Err("ipco not found in iprp"@)),
            Some(props) => {
                let inner = boxes_in(s, iprp.data_start, iprp.data_end);
                match first_box(inner, IPMA@) {
                    None => Some(Err("ipma missing"@)),
                    Some(ipma_box) => match (ipma_at(s, ipma_box.data_start), versioned_refs(s, kids)) {
                        (Some((ipma_flags, ipma_entries)), Some((iref_version, refs))) => Some(
                            Ok(
                                SourceView {
                                    items,
                                    iloc_entries,
                                    props,
                                    ipma_entries,
                                    ipma_flags,
                                    ipma_box,
                                    ipco_box: first_box(inner, IPCO@),
                                    refs,
                                    iref_version,
                                    pitm_version: s[pitm.data_start],
                                    iinf_version: s[iinf.data_start],
                                    primary_id,
                                    max_src_id: max_item_id(items),
                                    idat: first_box(kids, IDAT@),
                                },
                            ),
                        ),
                        _ => None,
                    },
                }
            },
        },
        _ => None,
    }
}

/// The structure of a source file whose metadata is in the box `meta`, or what is
/// missing of it. `None` where a box of it is cut short by the end of the data.
pub open spec fn source_structure(s: Seq<u8>, meta: BoxView) -> Option<
    Result<SourceView, Seq<char>>,
> {
    let kids = boxes_in(s, meta.data_start + 4, meta.data_end);
    match first_box(kids, PITM@) {
        None => Some(Err("pitm missing"@)),
        Some(pitm) => match first_box(kids, IINF@) {
            None => Some(Err("iinf missing"@)),
            Some(iinf) => match first_box(kids, ILOC@) {
                None => Some(Err("iloc missing"@)),
                Some(iloc) => match first_box(kids, IPRP@) {
                    None => Some(Err("iprp missing"@)),
                    Some(iprp) => if first_box(boxes_in(s, 0, s.len() as int), MDAT@) is None {
                        Some(Err("mdat missing"@))
                    } else {
                        structure_from(s, kids, pitm, iinf, iloc, iprp)
                    },
                },
            },
        },
    }
}

fn read_versioned_refs(data: &[u8], kids: &Vec<BoxHeader>) -> (r: Option<(u8, Vec<IrefEntry>)>)
    ensures
        match r {
            Some((version, refs)) => versioned_refs(data@, views(kids@)) == Some(
                (version, views(refs@)),
            ),
            None => versioned_refs(data@, views(kids@)) is None,
        },
{
    match find_in(kids.as_slice(), &IREF) {
        None => {
            let none: Vec<IrefEntry> = Vec::new();
            assert(views(none@) =~= Seq::empty());
            Some((0, none))
        },
        Some(b) => try_parse_iref(data, &b),
    }
}

/// What holds of a structure that was read: its boxes lie in the file and its
/// references have names that a box type can hold.
pub open spec fn source_fits(src: SourceView, len: int) -> bool {
    &&& box_within(src.ipma_box, len)
    &&& src.ipma_box.data_start + 8 <= len
    &&& src.ipco_box matches Some(b) ==> box_within(b, len)
    &&& src.idat matches Some(b) ==> box_within(b, len)
    &&& refs_named(src.refs)
}

fn read_structure_from(
    data: &[u8],
    kids: &Vec<BoxHeader>,
    pitm: &BoxHeader,
    iinf: &BoxHeader,
    iloc: &BoxHeader,
    iprp: &BoxHeader,
) -> (r: Option<Result<ParsedSource, String>>)
    requires
        box_within(pitm@, data@.len() as int),
        box_within(iinf@, data@.len() as int),
        box_within(iloc@, data@.len() as int),
        box_within(iprp@, data@.len() as int),
        forall|i: int|
            0 <= i < kids@.len() ==> box_within((#[trigger] kids@[i])@, data@.len() as int),
    ensures
        told_some(r) == structure_from(data@, views(kids@), pitm@, iinf@, iloc@, iprp@),
        r matches Some(Ok(src)) ==> source_fits(src@, data@.len() as int),
{
    let primary_id: u32 = match try_parse_pitm(data, pitm) {
        Some(v) => v,
        None => {
            return None;
        },
    };
    let items: Vec<ItemInfo> = match try_parse_iinf(data, iinf) {
        Some(v) => v,
        None => {
            return None;
        },
    };
    let iloc_entries: Vec<IlocEntry> = match try_parse_iloc(data, iloc) {
        Some(v) => v,
        None => {
            return None;
        },
    };
    let props: Vec<PropertyInfo> = match parse_iprp_properties(data, iprp) {
        Ok(v) => v,
        Err(e) => {
            return Some(Err(e));
        },
    };
    let inner: Vec<BoxHeader> = parse_boxes(data, iprp.data_start, iprp.data_end);
    let ipma_box: BoxHeader = match find_in(inner.as_slice(), &IPMA) {
        Some(b) => b,
        None => {
            return Some(Err("ipma missing".to_string()));
        },
    };
    let (ipma_flags, ipma_entries): (u32, Vec<IpmaEntry>) = match try_parse_ipma(data, &ipma_box) {
        Some(v) => v,
        None => {
            return None;
        },
    };
    let (iref_version, refs): (u8, Vec<IrefEntry>) = match read_versioned_refs(data, kids) {
        Some(v) => v,
        None => {
            return None;
        },
    };
    proof {
        let v = views(kids@);
        match first_box(v, IREF@) {
            None => {
                assert(views(refs@) =~= Seq::empty());
            },
            Some(b) => {
                lemma_first_where_has(v, of_type(IREF@));
                let i = choose|i: int| 0 <= i < v.len() && #[trigger] v[i] == b;
                assert(v[i] == kids@[i]@);
                lemma_boxes_within(data@, b.data_start + 4, b.data_end);
                lemma_refs_named(
                    data@,
                    boxes_in(data@, b.data_start + 4, b.data_end),
                    0,
                    data@[b.data_start] >= 1,
                    Seq::empty(),
                );
            },
        }
    }
    let max_src_id: u32 = largest_item_id(&items);
    let ipco_box: Option<BoxHeader> = find_in(inner.as_slice(), &IPCO);
    let idat: Option<BoxHeader> = find_in(kids.as_slice(), &IDAT);
    Some(
        Ok(
            ParsedSource {
                items,
                iloc_entries,
                props,
                ipma_entries,
                ipma_flags,
                ipma_box,
                ipco_box,
                refs,
                iref_version,
                pitm_version: data[pitm.data_start],
                iinf_version: data[iinf.data_start],
                primary_id,
                max_src_id,
                idat,
            },
        ),
    )
}

/// Read the structure of a source file; `None` where a box of its metadata is cut
/// short by the end of the data.
pub fn parse_source_structure(source_data: &[u8], meta: &BoxHeader) -> (r: Option<
    Result<ParsedSource, String>,
>)
    requires
        box_within(meta@, source_data@.len() as int),
    ensures
        told_some(r) == source_structure(source_data@, meta@),
        r matches Some(Ok(src)) ==> source_fits(src@, source_data@.len() as int)
            && meta.data_start + 12 <= meta.data_end,
{
    let kids: Vec<BoxHeader> = parse_children(source_data, meta, 4);
    let pitm: BoxHeader = match find_in(kids.as_slice(), &PITM) {
        Some(b) => b,
        None => {
            return Some(Err("pitm missing".to_string()));
        },
    };
    let iinf: BoxHeader = match find_in(kids.as_slice(), &IINF) {
        Some(b) => b,
        None => {
            return Some(Err("iinf missing".to_string()));
        },
    };
    let iloc: BoxHeader = match find_in(kids.as_slice(), &ILOC) {
        Some(b) => b,
        None => {
            return Some(Err("iloc missing".to_string()));
        },
    };
    let iprp: BoxHeader = match find_in(kids.as_slice(), &IPRP) {
        Some(b) => b,
        None => {
            return Some(Err("iprp missing".to_string()));
        },
    };
    let top: Vec<BoxHeader> = parse_boxes(source_data, 0, source_data.len());
    if find_in(top.as_slice(), &MDAT).is_none() {
        return Some(Err("mdat missing".to_string()));
    }
    read_structure_from(source_data, &kids, &pitm, &iinf, &iloc, &iprp)
}

// ---------------------------------------------------------------------------
// Properties of the primary item
// ---------------------------------------------------------------------------

/// The number of the first property of a type among associations from the `i`-th
/// on. A number is one more than the place of its property.
pub open spec fn number_among(
    props: Seq<PropertyView>,
    assocs: Seq<(u32, bool)>,
    i: int,
    ptype: Seq<char>,
) -> Option<u32>
    decreases assocs.len() - i,
{
    if i >= assocs.len() {
        None
    } else {
        let n = assocs[i].0;
        if 1 <= n <= props.len() && props[n - 1].ptype == ptype {
            Some(n)
        } else {
            number_among(props, assocs, i + 1, ptype)
        }
    }
}

/// The number of the first property of a type that an item is associated with.
pub open spec fn property_number(src: SourceView, item_id: u32, ptype: Seq<char>) -> Option<u32> {
    match first_where(src.ipma_entries, ipma_for(item_id)) {
        None => None,
        Some(e) => number_among(src.props, e.associations, 0, ptype),
    }
}

/// Return the first property of `property_type` explicitly associated with an
/// item. Looking at the primary item's IPMA associations avoids accidentally
/// selecting a tile `ispe` from elsewhere in the property container.
pub fn item_property_index(parsed: &ParsedSource, item_id: u32, property_type: &str) -> (r: Option<
    u32,
>)
    ensures
        r == property_number(parsed@, item_id, property_type@),
        r matches Some(n) ==> 1 <= n <= parsed.props@.len(),
{
    let entry: &IpmaEntry = match find_ipma(&parsed.ipma_entries, item_id) {
        Some(e) => e,
        None => {
            return None;
        },
    };
    let mut i: usize = 0;
    while i < entry.associations.len()
        invariant
            i <= entry.associations@.len(),
            property_number(parsed@, item_id, property_type@) == number_among(
                parsed@.props,
                entry.associations@,
                i as int,
                property_type@,
            ),
        decreases entry.associations@.len() - i,
    {
        let n: u32 = entry.associations[i].0;
        if n >= 1 && (n as usize) <= parsed.props.len() {
            assert(parsed@.props[n - 1] == parsed.props@[n - 1]@);
            if same_text(parsed.props[n as usize - 1].ptype.as_str(), property_type) {
                return Some(n);
            }
        }
        i = i + 1;
    }
    None
}

/// Whether the primary's tiles are already stored in presentation orientation:
/// the file is turned, but the primary declares an explicit zero turn.
pub open spec fn stored_as_presented(src: SourceView, orientation: ExifOrientation) -> bool {
    orientation != ExifOrientation::Normal && (property_number(src, src.primary_id, "irot"@) matches Some(
        n,
    ) && is_irot(src.props[n - 1].raw) && src.props[n - 1].raw[8] % 4 == 0)
}

/// Whether the source primary's tiles are already stored in presentation
/// orientation, i.e. its gain map still needs the container's EXIF transform.
///
/// A container synthesized from an Ultra HDR JPEG bakes the EXIF rotation into
/// the primary tiles and declares an explicit zero-turn `irot`, while its Exif
/// item keeps the source JPEG's orientation so the gain map can be brought into
/// the same presentation frame. A passthrough primary keeps its storage layout
/// instead, so it and its gain map share the EXIF-derived `irot` and the
/// gain-map pixels must not move.
pub fn primary_is_presentation_oriented(parsed: &ParsedSource, orientation: ExifOrientation) -> (r: bool)
    ensures
        r == stored_as_presented(parsed@, orientation),
{
    if orientation == ExifOrientation::Normal {
        return false;
    }
    match item_property_index(parsed, parsed.primary_id, "irot") {
        None => false,
        Some(n) => {
            assert(parsed@.props[n - 1] == parsed.props@[n - 1]@);
            match irot_quarter_turns(parsed.props[n as usize - 1].raw.as_slice()) {
                Ok(turns) => turns == 0,
                Err(_) => false,
            }
        },
    }
}

// ---------------------------------------------------------------------------
// Property numbers
// ---------------------------------------------------------------------------

/// The numbers of the properties that the assembly adds.
#[derive(Clone, Copy)]
pub struct PropertyNumbers {
    pub irot: u32,
    pub pq_colr: u32,
    pub pixi10: u32,
    pub base_clli: u32,
    pub tmap_clli: u32,
    pub gain_pixi: u32,
    pub gain_colr: u32,
    pub gain_hvcc: u32,
    pub grid_ispe: u32,
    pub tile_ispe: u32,
    pub tmap_ispe: u32,
}

/// The numbers of the added properties behind `n` of the source. The gain map has
/// a colour property of its own only where it is RGB for OPPO; the tmap shares
/// the primary's size property where that is the same.
pub open spec fn property_numbers(n: int, oppo_rgb: bool, shared_ispe: Option<u32>) -> PropertyNumbers {
    let k = if oppo_rgb {
        n + 9
    } else {
        n + 8
    };
    PropertyNumbers {
        irot: (n + 2) as u32,
        pq_colr: (n + 3) as u32,
        pixi10: (n + 5) as u32,
        base_clli: (n + 6) as u32,
        tmap_clli: (n + 7) as u32,
        gain_pixi: (n + 8) as u32,
        gain_colr: if oppo_rgb {
            (n + 9) as u32
        } else {
            (n + 4) as u32
        },
        gain_hvcc: (k + 1) as u32,
        grid_ispe: (k + 2) as u32,
        tile_ispe: (k + 3) as u32,
        tmap_ispe: match shared_ispe {
            Some(i) => i,
            None => (k + 4) as u32,
        },
    }
}

fn number_properties(n: u32, oppo_rgb: bool, shared_ispe: Option<u32>) -> (r: PropertyNumbers)
    requires
        n + 16 <= u32::MAX,
    ensures
        r == property_numbers(n as int, oppo_rgb, shared_ispe),
{
    let k: u32 = if oppo_rgb {
        n + 9
    } else {
        n + 8
    };
    PropertyNumbers {
        irot: n + 2,
        pq_colr: n + 3,
        pixi10: n + 5,
        base_clli: n + 6,
        tmap_clli: n + 7,
        gain_pixi: n + 8,
        gain_colr: if oppo_rgb {
            n + 9
        } else {
            n + 4
        },
        gain_hvcc: k + 1,
        grid_ispe: k + 2,
        tile_ispe: k + 3,
        tmap_ispe: match shared_ispe {
            Some(i) => i,
            None => k + 4,
        },
    }
}

// ---------------------------------------------------------------------------
// What is assembled
// ---------------------------------------------------------------------------

/// The encoded gain map and the metadata that go into an output.
pub struct OutputConfig {
    /// Whether the gain map is RGB for OPPO, or UHDR with three channels.
    pub oppo_rgb: bool,
    pub tail_policy: OppoCameraTail,
    /// The encoded tiles, with length-prefixed NAL units.
    pub tile_payloads: Vec<Vec<u8>>,
    pub tile_ids: Vec<u32>,
    pub gain_grid_id: u32,
    pub tmap_id: u32,
    pub xmp_id: u32,
    pub group_id: u32,
    pub tmap_payload: Vec<u8>,
    pub xmp_bytes: Vec<u8>,
    /// The HEVC decoder configuration of the tiles.
    pub gain_hvcc: Vec<u8>,
    /// Content light level of the primary grid and of the tmap item.
    pub base_clli: Vec<u8>,
    pub tmap_clli: Vec<u8>,
    pub gain_width: u32,
    pub gain_height: u32,
    pub cols: u32,
    pub rows: u32,
}

/// What goes into an output.
#[verifier::ext_equal]
pub struct ConfigView {
    pub oppo_rgb: bool,
    pub tail_policy: OppoCameraTail,
    pub tiles: Seq<Seq<u8>>,
    pub tile_ids: Seq<u32>,
    pub gain_grid_id: u32,
    pub tmap_id: u32,
    pub xmp_id: u32,
    pub group_id: u32,
    pub tmap_payload: Seq<u8>,
    pub xmp: Seq<u8>,
    pub gain_hvcc: Seq<u8>,
    pub base_clli: Seq<u8>,
    pub tmap_clli: Seq<u8>,
    pub gain_width: u32,
    pub gain_height: u32,
    pub cols: u32,
    pub rows: u32,
}

impl View for OutputConfig {
    type V = ConfigView;

    open spec fn view(&self) -> ConfigView {
        ConfigView {
            oppo_rgb: self.oppo_rgb,
            tail_policy: self.tail_policy,
            tiles: views(self.tile_payloads@),
            tile_ids: self.tile_ids@,
            gain_grid_id: self.gain_grid_id,
            tmap_id: self.tmap_id,
            xmp_id: self.xmp_id,
            group_id: self.group_id,
            tmap_payload: self.tmap_payload@,
            xmp: self.xmp_bytes@,
            gain_hvcc: self.gain_hvcc@,
            base_clli: self.base_clli@,
            tmap_clli: self.tmap_clli@,
            gain_width: self.gain_width,
            gain_height: self.gain_height,
            cols: self.cols,
            rows: self.rows,
        }
    }
}

/// A length of at least one.
pub open spec fn at_least_one(v: u32) -> int {
    if v == 0 {
        1
    } else {
        v as int
    }
}

/// The bytes of a box of the source, none where there is no such box.
pub open spec fn box_payload(s: Seq<u8>, b: Option<BoxView>) -> Seq<u8> {
    match b {
        Some(h) => s.subrange(h.data_start, h.data_end),
        None => Seq::empty(),
    }
}

/// The property container: the source's properties and the added ones.
#[verifier::opaque]
pub open spec fn output_ipco(
    s: Seq<u8>,
    src: SourceView,
    c: ConfigView,
    irot: Seq<u8>,
    tmap_ispe: Option<Seq<u8>>,
) -> Seq<u8> {
    box_payload(s, src.ipco_box) + AUX_C_BOX@ + irot + COLR_BT2020_PQ_BOX@ + COLR_SRGB_BOX@
        + PIXI_RGB10_BOX@ + c.base_clli + c.tmap_clli + PIXI_RGB8_BOX@ + (if c.oppo_rgb {
        COLR_UNSPECIFIED_BT601_BOX@
    } else {
        Seq::empty()
    }) + box_bytes(HVCC@, c.gain_hvcc) + ispe_bytes(
        at_least_one(c.gain_width),
        at_least_one(c.gain_height),
    ) + ispe_bytes(512, 512) + (match tmap_ispe {
        Some(b) => b,
        None => Seq::empty(),
    })
}

fn payload_of(s: &[u8], b: &Option<BoxHeader>) -> (r: Vec<u8>)
    requires
        opt_header(*b) matches Some(h) ==> box_within(h, s@.len() as int),
    ensures
        r@ == box_payload(s@, opt_header(*b)),
{
    match b {
        Some(h) => copy_range(s, h.data_start, h.data_end),
        None => {
            let none: Vec<u8> = Vec::new();
            none
        },
    }
}

fn build_ipco(
    s: &[u8],
    src: &ParsedSource,
    c: &OutputConfig,
    irot: &Vec<u8>,
    tmap_ispe: &Option<Vec<u8>>,
) -> (r: Vec<u8>)
    requires
        source_fits(src@, s@.len() as int),
    ensures
        r@ == output_ipco(s@, src@, c@, irot@, opt_bytes(*tmap_ispe)),
{
    reveal(output_ipco);
    let mut out: Vec<u8> = payload_of(s, &src.ipco_box);
    append(&mut out, AUX_C_BOX.as_slice());
    append(&mut out, irot.as_slice());
    append(&mut out, COLR_BT2020_PQ_BOX.as_slice());
    append(&mut out, COLR_SRGB_BOX.as_slice());
    append(&mut out, PIXI_RGB10_BOX.as_slice());
    append(&mut out, c.base_clli.as_slice());
    append(&mut out, c.tmap_clli.as_slice());
    append(&mut out, PIXI_RGB8_BOX.as_slice());
    let ghost before = out@;
    if c.oppo_rgb {
        append(&mut out, COLR_UNSPECIFIED_BT601_BOX.as_slice());
    }
    assert(out@ =~= before + (if c.oppo_rgb {
        COLR_UNSPECIFIED_BT601_BOX@
    } else {
        Seq::empty()
    }));
    append(&mut out, make_box(&HVCC, c.gain_hvcc.as_slice()).as_slice());
    let width: u32 = if c.gain_width == 0 {
        1
    } else {
        c.gain_width
    };
    let height: u32 = if c.gain_height == 0 {
        1
    } else {
        c.gain_height
    };
    append(&mut out, make_ispe_box(width, height).as_slice());
    append(&mut out, make_ispe_box(GAIN_TILE_SIZE, GAIN_TILE_SIZE).as_slice());
    let ghost before = out@;
    match tmap_ispe {
        Some(b) => {
            append(&mut out, b.as_slice());
        },
        None => {
            assert(before + Seq::<u8>::empty() =~= before);
        },
    }
    out
}

// ---------------------------------------------------------------------------
// Associations
// ---------------------------------------------------------------------------

/// The associations with one more, where the property is not among them yet.
pub open spec fn with_association(assocs: Seq<(u32, bool)>, index: u32, essential: bool) -> Seq<
    (u32, bool),
> {
    if exists|i: int| 0 <= i < assocs.len() && (#[trigger] assocs[i]).0 == index {
        assocs
    } else {
        assocs.push((index, essential))
    }
}

/// The associations of a source item: those of the primary gain its colour
/// profile, the base light level and a rotation.
pub open spec fn output_associations(
    e: IpmaView,
    primary_id: u32,
    colr: u32,
    clli: u32,
    irot: u32,
) -> Seq<(u32, bool)> {
    if e.item_id == primary_id {
        with_association(
            with_association(with_association(e.associations, colr, true), clli, false),
            irot,
            true,
        )
    } else {
        e.associations
    }
}

/// The ipma entry of a source item.
pub open spec fn source_ipma(flags: u32, primary_id: u32, colr: u32, clli: u32, irot: u32) -> spec_fn(
    IpmaView,
) -> Seq<u8> {
    |e: IpmaView|
        ipma_entry_bytes(
            e.item_id as int,
            output_associations(e, primary_id, colr, clli, irot),
            flags as int,
        )
}

/// The ipma entry of a gain-map tile.
pub open spec fn tile_ipma(flags: u32, p: PropertyNumbers) -> spec_fn(u32) -> Seq<u8> {
    |id: u32|
        ipma_entry_bytes(
            id as int,
            seq![(p.tile_ispe, true), (p.gain_colr, true), (p.gain_hvcc, true)],
            flags as int,
        )
}

/// The ipma payload behind its version and flags.
#[verifier::opaque]
pub open spec fn output_ipma(src: SourceView, c: ConfigView, p: PropertyNumbers, colr: u32, irot: u32) -> Seq<
    u8,
> {
    enc32(src.ipma_entries.len() as int + c.tiles.len() + 2) + flat(
        src.ipma_entries,
        source_ipma(src.ipma_flags, src.primary_id, colr, p.base_clli, irot),
    ) + flat(c.tile_ids, tile_ipma(src.ipma_flags, p)) + ipma_entry_bytes(
        c.gain_grid_id as int,
        seq![(p.grid_ispe, true), (p.gain_colr, true), (p.gain_pixi, true), (irot, true)],
        src.ipma_flags as int,
    ) + ipma_entry_bytes(
        c.tmap_id as int,
        seq![
            (p.pq_colr, true),
            (p.pixi10, true),
            (p.tmap_ispe, true),
            (p.tmap_clli, false),
            (irot, true),
        ],
        src.ipma_flags as int,
    )
}

fn associate(assocs: &mut Vec<(u32, bool)>, index: u32, essential: bool)
    ensures
        final(assocs)@ == with_association(old(assocs)@, index, essential),
{
    let mut i: usize = 0;
    while i < assocs.len()
        invariant
            i <= assocs@.len(),
            assocs@ == old(assocs)@,
            forall|j: int| 0 <= j < i ==> (#[trigger] assocs@[j]).0 != index,
        decreases assocs@.len() - i,
    {
        if assocs[i].0 == index {
            assert(old(assocs)@[i as int].0 == index);
            return;
        }
        i = i + 1;
    }
    assocs.push((index, essential));
}

fn associations_of(e: &IpmaEntry, primary_id: u32, colr: u32, clli: u32, irot: u32) -> (r: Vec<
    (u32, bool),
>)
    ensures
        r@ == output_associations(e@, primary_id, colr, clli, irot),
{
    let mut out: Vec<(u32, bool)> = Vec::new();
    let mut i: usize = 0;
    while i < e.associations.len()
        invariant
            i <= e.associations@.len(),
            out@ == e.associations@.take(i as int),
        decreases e.associations@.len() - i,
    {
        out.push(e.associations[i]);
        i = i + 1;
        assert(out@ =~= e.associations@.take(i as int));
    }
    assert(out@ =~= e.associations@);
    if e.item_id == primary_id {
        associate(&mut out, colr, true);
        associate(&mut out, clli, false);
        associate(&mut out, irot, true);
    }
    out
}

fn push_source_ipma(out: &mut Vec<u8>, src: &ParsedSource, colr: u32, clli: u32, irot: u32)
    ensures
        final(out)@ == old(out)@ + flat(
            src@.ipma_entries,
            source_ipma(src.ipma_flags, src.primary_id, colr, clli, irot),
        ),
{
    let ghost v = src@.ipma_entries;
    let ghost f = source_ipma(src.ipma_flags, src.primary_id, colr, clli, irot);
    let ghost base = out@;
    let mut i: usize = 0;
    assert(v.take(0) =~= Seq::empty());
    assert(out@ =~= base + flat(v.take(0), f));
    while i < src.ipma_entries.len()
        invariant
            i <= v.len(),
            v == src@.ipma_entries,
            f == source_ipma(src.ipma_flags, src.primary_id, colr, clli, irot),
            out@ == base + flat(v.take(i as int), f),
        decreases v.len() - i,
    {
        let e: &IpmaEntry = &src.ipma_entries[i];
        assert(v[i as int] == e@);
        let assocs: Vec<(u32, bool)> = associations_of(e, src.primary_id, colr, clli, irot);
        append(out, make_ipma_entry(e.item_id, assocs.as_slice(), src.ipma_flags).as_slice());
        proof {
            lemma_flat_take(v, f, i as int);
        }
        i = i + 1;
        assert(out@ =~= base + flat(v.take(i as int), f));
    }
    assert(v.take(i as int) =~= v);
}

fn push_tile_ipma(out: &mut Vec<u8>, ids: &Vec<u32>, flags: u32, p: &PropertyNumbers)
    ensures
        final(out)@ == old(out)@ + flat(ids@, tile_ipma(flags, *p)),
{
    let ghost f = tile_ipma(flags, *p);
    let ghost base = out@;
    let assocs: [(u32, bool); 3] = [
        (p.tile_ispe, true),
        (p.gain_colr, true),
        (p.gain_hvcc, true),
    ];
    assert(assocs@ =~= seq![(p.tile_ispe, true), (p.gain_colr, true), (p.gain_hvcc, true)]);
    let mut i: usize = 0;
    assert(ids@.take(0) =~= Seq::empty());
    assert(out@ =~= base + flat(ids@.take(0), f));
    while i < ids.len()
        invariant
            i <= ids@.len(),
            f == tile_ipma(flags, *p),
            assocs@ == seq![(p.tile_ispe, true), (p.gain_colr, true), (p.gain_hvcc, true)],
            out@ == base + flat(ids@.take(i as int), f),
        decreases ids@.len() - i,
    {
        append(out, make_ipma_entry(ids[i], assocs.as_slice(), flags).as_slice());
        proof {
            lemma_flat_take(ids@, f, i as int);
        }
        i = i + 1;
        assert(out@ =~= base + flat(ids@.take(i as int), f));
    }
    assert(ids@.take(i as int) =~= ids@);
}

fn build_ipma(src: &ParsedSource, c: &OutputConfig, p: &PropertyNumbers, colr: u32, irot: u32) -> (r: Vec<
    u8,
>)
    ensures
        r@ == output_ipma(src@, c@, *p, colr, irot),
{
    reveal(output_ipma);
    let mut out: Vec<u8> = Vec::new();
    push32_sum3(&mut out, src.ipma_entries.len(), c.tile_payloads.len(), 2);
    push_source_ipma(&mut out, src, colr, p.base_clli, irot);
    push_tile_ipma(&mut out, &c.tile_ids, src.ipma_flags, p);
    let grid: [(u32, bool); 4] = [
        (p.grid_ispe, true),
        (p.gain_colr, true),
        (p.gain_pixi, true),
        (irot, true),
    ];
    assert(grid@ =~= seq![
        (p.grid_ispe, true),
        (p.gain_colr, true),
        (p.gain_pixi, true),
        (irot, true),
    ]);
    append(&mut out, make_ipma_entry(c.gain_grid_id, grid.as_slice(), src.ipma_flags).as_slice());
    let tmap: [(u32, bool); 5] = [
        (p.pq_colr, true),
        (p.pixi10, true),
        (p.tmap_ispe, true),
        (p.tmap_clli, false),
        (irot, true),
    ];
    assert(tmap@ =~= seq![
        (p.pq_colr, true),
        (p.pixi10, true),
        (p.tmap_ispe, true),
        (p.tmap_clli, false),
        (irot, true),
    ]);
    append(&mut out, make_ipma_entry(c.tmap_id, tmap.as_slice(), src.ipma_flags).as_slice());
    assert(out@ =~= output_ipma(src@, c@, *p, colr, irot));
    out
}

// ---------------------------------------------------------------------------
// Items and references
// ---------------------------------------------------------------------------

/// The infe boxes of the tiles.
pub open spec fn tile_infes(ids: Seq<u32>) -> Seq<Seq<u8>> {
    Seq::new(ids.len(), |i: int| infe_bytes(ids[i] as int, "hvc1"@, 1))
}

/// The iinf box: the source's items, the tiles, the gain grid, the tmap and the
/// XMP item. All added ones but the tmap are hidden.
#[verifier::opaque]
pub open spec fn output_iinf(src: SourceView, c: ConfigView) -> Seq<u8> {
    iinf_bytes(
        src.iinf_version,
        raw_infes(src.items) + tile_infes(c.tile_ids) + seq![
            infe_bytes(c.gain_grid_id as int, "grid"@, 1),
            infe_bytes(c.tmap_id as int, "tmap"@, 0),
            mime_infe_bytes(c.xmp_id as int, 1),
        ],
    )
}

fn build_iinf(src: &ParsedSource, c: &OutputConfig) -> (r: Vec<u8>)
    ensures
        r@ == output_iinf(src@, c@),
{
    reveal(output_iinf);
    let mut infes: Vec<Vec<u8>> = copy_infes(&src.items);
    let ghost base = views(infes@);
    let mut i: usize = 0;
    assert(views(infes@) =~= base + tile_infes(c.tile_ids@.take(0)));
    while i < c.tile_ids.len()
        invariant
            i <= c.tile_ids@.len(),
            views(infes@) == base + tile_infes(c.tile_ids@.take(i as int)),
        decreases c.tile_ids@.len() - i,
    {
        let ghost before = infes@;
        let infe: Vec<u8> = make_infe_box(c.tile_ids[i], "hvc1", 1);
        infes.push(infe);
        i = i + 1;
        assert(views(infes@) =~= views(before).push(infe@));
        assert(views(infes@) =~= base + tile_infes(c.tile_ids@.take(i as int)));
    }
    assert(c.tile_ids@.take(i as int) =~= c.tile_ids@);
    let ghost tiles = views(infes@);
    let grid: Vec<u8> = make_infe_box(c.gain_grid_id, "grid", 1);
    let tmap: Vec<u8> = make_infe_box(c.tmap_id, "tmap", 0);
    let xmp: Vec<u8> = make_mime_infe_box(c.xmp_id, 1);
    infes.push(grid);
    infes.push(tmap);
    infes.push(xmp);
    assert(views(infes@) =~= tiles + seq![grid@, tmap@, xmp@]);
    make_iinf_box(src.iinf_version, infes.as_slice())
}

/// Whether an item is an Exif item.
pub open spec fn is_exif_item(items: Seq<ItemView>, id: u32) -> bool {
    exists|i: int|
        0 <= i < items.len() && (#[trigger] items[i]).item_id == id && items[i].itype == "Exif"@
}

/// Whether a rule lets an Exif item describe something.
pub open spec fn describes_exif(items: Seq<ItemView>, r: IrefView) -> bool {
    r.rtype == "cdsc"@ && is_exif_item(items, r.from)
}

/// The source's references from the `i`-th on without entity groups. The rule of
/// an Exif item names the primary alone; another one that names the primary and
/// the tmap goes into the second sequence.
pub open spec fn source_refs(
    refs: Seq<IrefView>,
    items: Seq<ItemView>,
    primary_id: u32,
    tmap_id: u32,
    i: int,
    kept: Seq<IrefView>,
    extra: Seq<IrefView>,
) -> (Seq<IrefView>, Seq<IrefView>)
    decreases refs.len() - i,
{
    if i >= refs.len() {
        (kept, extra)
    } else if refs[i].rtype == "grpl"@ {
        source_refs(refs, items, primary_id, tmap_id, i + 1, kept, extra)
    } else if describes_exif(items, refs[i]) {
        source_refs(
            refs,
            items,
            primary_id,
            tmap_id,
            i + 1,
            kept.push(IrefView { to: seq![primary_id], ..refs[i] }),
            extra.push(
                IrefView { rtype: "cdsc"@, from: refs[i].from, to: seq![primary_id, tmap_id] },
            ),
        )
    } else {
        source_refs(refs, items, primary_id, tmap_id, i + 1, kept.push(refs[i]), extra)
    }
}

/// The references of the output: the source's, those of its Exif items to the
/// tmap, the tiles of the gain grid, the parts of the tmap and what the XMP item
/// describes.
#[verifier::opaque]
pub open spec fn output_refs(src: SourceView, c: ConfigView) -> Seq<IrefView> {
    let old = source_refs(
        src.refs,
        src.items,
        src.primary_id,
        c.tmap_id,
        0,
        Seq::empty(),
        Seq::empty(),
    );
    old.0 + old.1 + (if c.tile_ids.len() == 0 {
        Seq::empty()
    } else {
        seq![IrefView { rtype: "dimg"@, from: c.gain_grid_id, to: c.tile_ids }]
    }) + seq![
        IrefView { rtype: "dimg"@, from: c.tmap_id, to: seq![src.primary_id, c.gain_grid_id] },
        IrefView { rtype: "cdsc"@, from: c.xmp_id, to: seq![src.primary_id, c.tmap_id] },
    ]
}

/// Whether an item number of a rule takes more than 16 bits.
pub open spec fn is_wide(r: IrefView) -> bool {
    r.from > 0xffff || exists|k: int| 0 <= k < r.to.len() && #[trigger] r.to[k] > 0xffff
}

/// The version of the iref box: 1 where a number takes more than 16 bits, else
/// that of the source.
pub open spec fn output_iref_version(refs: Seq<IrefView>, version: u8) -> u8 {
    if exists|i: int| 0 <= i < refs.len() && is_wide(#[trigger] refs[i]) {
        1
    } else {
        version
    }
}

fn item_is_exif(items: &Vec<ItemInfo>, id: u32) -> (r: bool)
    ensures
        r == is_exif_item(views(items@), id),
{
    let ghost v = views(items@);
    let mut i: usize = 0;
    while i < items.len()
        invariant
            i <= items@.len(),
            v == views(items@),
            forall|j: int|
                0 <= j < i ==> !((#[trigger] v[j]).item_id == id && v[j].itype == "Exif"@),
        decreases items@.len() - i,
    {
        assert(v[i as int] == items@[i as int]@);
        if items[i].item_id == id && same_text(items[i].itype.as_str(), "Exif") {
            return true;
        }
        i = i + 1;
    }
    false
}

fn make_rule(rtype: &str, from: u32, to: Vec<u32>) -> (r: IrefEntry)
    ensures
        r@ == (IrefView { rtype: rtype@, from, to: to@ }),
{
    IrefEntry { rtype: rtype.to_string(), from, to }
}

fn push_rule(refs: &mut Vec<IrefEntry>, r: IrefEntry)
    ensures
        views(final(refs)@) == views(old(refs)@).push(r@),
{
    refs.push(r);
    assert(views(refs@) =~= views(old(refs)@).push(r@));
}

fn build_refs(src: &ParsedSource, c: &OutputConfig) -> (r: Vec<IrefEntry>)
    requires
        refs_named(src@.refs),
    ensures
        views(r@) == output_refs(src@, c@),
        refs_named(views(r@)),
{
    reveal(output_refs);
    let ghost v = src@.refs;
    let mut refs: Vec<IrefEntry> = Vec::new();
    let mut extra: Vec<IrefEntry> = Vec::new();
    let mut i: usize = 0;
    proof {
        lemma_cdsc_len();
        assert(views(refs@) =~= Seq::empty());
        assert(views(extra@) =~= Seq::empty());
    }
    while i < src.refs.len()
        invariant
            i <= src.refs@.len(),
            v == src@.refs,
            refs_named(v),
            encode_utf8("cdsc"@).len() == 4,
            refs_named(views(refs@)),
            refs_named(views(extra@)),
            source_refs(
                v,
                src@.items,
                src.primary_id,
                c.tmap_id,
                0,
                Seq::empty(),
                Seq::empty(),
            ) == source_refs(
                v,
                src@.items,
                src.primary_id,
                c.tmap_id,
                i as int,
                views(refs@),
                views(extra@),
            ),
        decreases src.refs@.len() - i,
    {
        let r: &IrefEntry = &src.refs[i];
        assert(v[i as int] == r@);
        assert(encode_utf8(v[i as int].rtype).len() >= 4);
        if !same_text(r.rtype.as_str(), "grpl") {
            if same_text(r.rtype.as_str(), "cdsc") && item_is_exif(&src.items, r.from) {
                let from: u32 = r.from;
                let own: Vec<u32> = vec![src.primary_id];
                let both: Vec<u32> = vec![src.primary_id, c.tmap_id];
                assert(own@ =~= seq![src.primary_id]);
                assert(both@ =~= seq![src.primary_id, c.tmap_id]);
                push_rule(&mut refs, make_rule("cdsc", from, own));
                push_rule(&mut extra, make_rule("cdsc", from, both));
            } else {
                push_rule(&mut refs, copy_iref(r));
            }
        }
        i = i + 1;
    }
    let ghost kept = views(refs@);
    let ghost more = views(extra@);
    let mut k: usize = 0;
    assert(views(refs@) =~= kept + more.take(0));
    while k < extra.len()
        invariant
            k <= extra@.len(),
            more == views(extra@),
            refs_named(more),
            refs_named(views(refs@)),
            views(refs@) == kept + more.take(k as int),
        decreases extra@.len() - k,
    {
        assert(more[k as int] == extra@[k as int]@);
        push_rule(&mut refs, copy_iref(&extra[k]));
        k = k + 1;
        assert(views(refs@) =~= kept + more.take(k as int));
    }
    assert(more.take(k as int) =~= more);
    let ghost before = views(refs@);
    if c.tile_ids.len() > 0 {
        push_rule(&mut refs, make_rule("dimg", c.gain_grid_id, copy_ids(&c.tile_ids)));
    }
    let ghost tiled = views(refs@);
    assert(tiled =~= before + (if c.tile_ids@.len() == 0 {
        Seq::empty()
    } else {
        seq![IrefView { rtype: "dimg"@, from: c.gain_grid_id, to: c.tile_ids@ }]
    }));
    let parts: Vec<u32> = vec![src.primary_id, c.gain_grid_id];
    let described: Vec<u32> = vec![src.primary_id, c.tmap_id];
    assert(parts@ =~= seq![src.primary_id, c.gain_grid_id]);
    assert(described@ =~= seq![src.primary_id, c.tmap_id]);
    push_rule(&mut refs, make_rule("dimg", c.tmap_id, parts));
    push_rule(&mut refs, make_rule("cdsc", c.xmp_id, described));
    assert(views(refs@) =~= output_refs(src@, c@));
    refs
}

fn rule_is_wide(r: &IrefEntry) -> (w: bool)
    ensures
        w == is_wide(r@),
{
    if r.from > 0xffff {
        return true;
    }
    let mut k: usize = 0;
    while k < r.to.len()
        invariant
            k <= r.to@.len(),
            forall|j: int| 0 <= j < k ==> #[trigger] r.to@[j] <= 0xffff,
        decreases r.to@.len() - k,
    {
        if r.to[k] > 0xffff {
            assert(r@.to[k as int] > 0xffff);
            return true;
        }
        k = k + 1;
    }
    false
}

fn choose_iref_version(refs: &Vec<IrefEntry>, version: u8) -> (r: u8)
    ensures
        r == output_iref_version(views(refs@), version),
{
    let ghost v = views(refs@);
    let mut i: usize = 0;
    while i < refs.len()
        invariant
            i <= refs@.len(),
            v == views(refs@),
            forall|j: int| 0 <= j < i ==> !is_wide(#[trigger] v[j]),
        decreases refs@.len() - i,
    {
        assert(v[i as int] == refs@[i as int]@);
        if rule_is_wide(&refs[i]) {
            return 1;
        }
        i = i + 1;
    }
    version
}

// ---------------------------------------------------------------------------
// Item data and locations
// ---------------------------------------------------------------------------

/// The idat payload: the source's, the gain grid, the tmap and the XMP.
#[verifier::opaque]
pub open spec fn output_idat(s: Seq<u8>, src: SourceView, c: ConfigView) -> Seq<u8> {
    box_payload(s, src.idat) + grid_payload(
        c.rows as int,
        c.cols as int,
        c.gain_width as int,
        c.gain_height as int,
    ) + c.tmap_payload + c.xmp
}

fn build_idat(s: &[u8], src: &ParsedSource, c: &OutputConfig) -> (r: Vec<u8>)
    requires
        source_fits(src@, s@.len() as int),
        c.rows >= 1,
        c.cols >= 1,
    ensures
        r@ == output_idat(s@, src@, c@),
{
    reveal(output_idat);
    reveal(box_bytes);
    let mut out: Vec<u8> = payload_of(s, &src.idat);
    let grid: Vec<u8> = make_grid_box(
        GAIN_TILE_SIZE,
        GAIN_TILE_SIZE,
        c.rows,
        c.cols,
        c.gain_width,
        c.gain_height,
    );
    let ghost g = grid_payload(
        c.rows as int,
        c.cols as int,
        c.gain_width as int,
        c.gain_height as int,
    );
    assert(grid@.len() == 16);
    assert(grid@.subrange(8, 16) =~= g);
    append(&mut out, vstd::slice::slice_subrange(grid.as_slice(), 8, grid.len()));
    append(&mut out, c.tmap_payload.as_slice());
    append(&mut out, c.xmp_bytes.as_slice());
    out
}

/// A location entry that names one extent of the idat box.
pub open spec fn idat_extent(item_id: u32, offset: int, length: int) -> IlocView {
    IlocView {
        item_id,
        construction_method: 1,
        data_reference_index: 0,
        extents: seq![(offset as u64, length as u64)],
    }
}

/// The locations of the tiles, before their places are known.
pub open spec fn tile_locations(ids: Seq<u32>, tiles: Seq<Seq<u8>>) -> Seq<IlocView> {
    Seq::new(tiles.len(), |i: int| single_extent(ids[i], 0, tiles[i].len() as u64))
}

/// All locations, before the places of the tiles are known. `old` is the length
/// of the source's idat payload.
#[verifier::opaque]
pub open spec fn placeholder_locations(src: SourceView, c: ConfigView, old: int) -> Seq<IlocView> {
    src.iloc_entries + tile_locations(c.tile_ids, c.tiles) + seq![
        idat_extent(c.gain_grid_id, old, 8),
        idat_extent(c.tmap_id, old + 8, c.tmap_payload.len() as int),
        idat_extent(c.xmp_id, old + 8 + c.tmap_payload.len(), c.xmp.len() as int),
    ]
}

fn idat_entry(item_id: u32, offset: usize, length: usize) -> (r: IlocEntry)
    ensures
        r@ == idat_extent(item_id, offset as int, length as int),
{
    let extents: Vec<(u64, u64)> = vec![(offset as u64, length as u64)];
    assert(extents@ =~= seq![(offset as u64, length as u64)]);
    IlocEntry { item_id, construction_method: 1, data_reference_index: 0, extents }
}

fn push_iloc(entries: &mut Vec<IlocEntry>, e: IlocEntry)
    ensures
        views(final(entries)@) == views(old(entries)@).push(e@),
{
    entries.push(e);
    assert(views(entries@) =~= views(old(entries)@).push(e@));
}

fn build_placeholders(src: &ParsedSource, c: &OutputConfig, old: usize) -> (r: Vec<IlocEntry>)
    requires
        c.tile_ids@.len() == c.tile_payloads@.len(),
        old + 8 + c.tmap_payload@.len() <= usize::MAX,
    ensures
        views(r@) == placeholder_locations(src@, c@, old as int),
{
    reveal(placeholder_locations);
    let mut out: Vec<IlocEntry> = copy_ilocs(&src.iloc_entries);
    let ghost base = views(out@);
    let ghost tiles = c@.tiles;
    let mut i: usize = 0;
    assert(views(out@) =~= base + tile_locations(c.tile_ids@, tiles).take(0));
    while i < c.tile_payloads.len()
        invariant
            i <= c.tile_payloads@.len(),
            c.tile_ids@.len() == c.tile_payloads@.len(),
            tiles == c@.tiles,
            views(out@) == base + tile_locations(c.tile_ids@, tiles).take(i as int),
        decreases c.tile_payloads@.len() - i,
    {
        assert(tiles[i as int] == c.tile_payloads@[i as int]@);
        let extents: Vec<(u64, u64)> = vec![(0u64, c.tile_payloads[i].len() as u64)];
        assert(extents@ =~= seq![(0u64, tiles[i as int].len() as u64)]);
        push_iloc(
            &mut out,
            IlocEntry {
                item_id: c.tile_ids[i],
                construction_method: 0,
                data_reference_index: 0,
                extents,
            },
        );
        i = i + 1;
        assert(views(out@) =~= base + tile_locations(c.tile_ids@, tiles).take(i as int));
    }
    assert(tile_locations(c.tile_ids@, tiles).take(i as int) =~= tile_locations(
        c.tile_ids@,
        tiles,
    ));
    push_iloc(&mut out, idat_entry(c.gain_grid_id, old, 8));
    push_iloc(&mut out, idat_entry(c.tmap_id, old + 8, c.tmap_payload.len()));
    push_iloc(&mut out, idat_entry(c.xmp_id, old + 8 + c.tmap_payload.len(), c.xmp_bytes.len()));
    assert(views(out@) =~= placeholder_locations(src@, c@, old as int));
    out
}

/// Extents from the `i`-th on, adjusted for a patch of the Exif item and moved
/// with the media data. `None` where one straddles the patched item.
pub open spec fn patched_extents(
    x: Seq<(u64, u64)>,
    patch: Option<OppoUserCommentPatch>,
    old: int,
    new: int,
    i: int,
    acc: Seq<(u64, u64)>,
) -> Option<Seq<(u64, u64)>>
    decreases x.len() - i,
{
    if i >= x.len() {
        Some(acc)
    } else {
        match adjusted_extent(x[i].0, x[i].1, patch) {
            None => None,
            Some((offset, length)) => patched_extents(
                x,
                patch,
                old,
                new,
                i + 1,
                acc.push((moved(offset, old, new), length)),
            ),
        }
    }
}

/// The source's locations from the `i`-th on in the new file. `None` where an
/// extent straddles the patched item.
pub open spec fn source_locations(
    entries: Seq<IlocView>,
    patch: Option<OppoUserCommentPatch>,
    old: int,
    new: int,
    i: int,
    acc: Seq<IlocView>,
) -> Option<Seq<IlocView>>
    decreases entries.len() - i,
{
    if i >= entries.len() {
        Some(acc)
    } else if entries[i].construction_method != 0 {
        source_locations(entries, patch, old, new, i + 1, acc.push(entries[i]))
    } else {
        match patched_extents(entries[i].extents, patch, old, new, 0, Seq::empty()) {
            None => None,
            Some(extents) => source_locations(
                entries,
                patch,
                old,
                new,
                i + 1,
                acc.push(IlocView { extents, ..entries[i] }),
            ),
        }
    }
}

/// The entries with the first one of an item naming one extent.
pub open spec fn repointed(entries: Seq<IlocView>, id: u32, offset: int, length: int) -> Seq<IlocView> {
    match iloc_index(entries, id, 0) {
        None => entries,
        Some(k) => entries.update(
            k,
            IlocView { extents: seq![(offset as u64, length as u64)], ..entries[k] },
        ),
    }
}

/// The entries with the tiles from the `i`-th on placed one after the other from
/// `offset` on.
pub open spec fn tiles_placed(
    entries: Seq<IlocView>,
    ids: Seq<u32>,
    tiles: Seq<Seq<u8>>,
    offset: int,
    i: int,
) -> Seq<IlocView>
    decreases tiles.len() - i,
{
    if i >= tiles.len() {
        entries
    } else {
        tiles_placed(
            repointed(entries, ids[i], offset, tiles[i].len() as int),
            ids,
            tiles,
            offset + tiles[i].len(),
            i + 1,
        )
    }
}

fn patch_extents(
    x: &Vec<(u64, u64)>,
    patch: Option<&OppoUserCommentPatch>,
    old: usize,
    new: usize,
) -> (r: Option<Vec<(u64, u64)>>)
    ensures
        match r {
            Some(v) => patched_extents(
                x@,
                opt_patch(patch),
                old as int,
                new as int,
                0,
                Seq::empty(),
            ) == Some(v@),
            None => patched_extents(
                x@,
                opt_patch(patch),
                old as int,
                new as int,
                0,
                Seq::empty(),
            ) is None,
        },
{
    let mut out: Vec<(u64, u64)> = Vec::new();
    let mut i: usize = 0;
    while i < x.len()
        invariant
            i <= x@.len(),
            patched_extents(x@, opt_patch(patch), old as int, new as int, 0, Seq::empty())
                == patched_extents(
                x@,
                opt_patch(patch),
                old as int,
                new as int,
                i as int,
                out@,
            ),
        decreases x@.len() - i,
    {
        match adjusted_extent_for_patch(x[i].0, x[i].1, patch) {
            None => {
                return None;
            },
            Some((offset, length)) => {
                out.push((move_offset(offset, old, new), length));
            },
        }
        i = i + 1;
    }
    Some(out)
}

/// The view of an optional patch.
pub open spec fn opt_patch(p: Option<&OppoUserCommentPatch>) -> Option<OppoUserCommentPatch> {
    match p {
        Some(v) => Some(*v),
        None => None,
    }
}

fn locate_source(
    entries: &Vec<IlocEntry>,
    patch: Option<&OppoUserCommentPatch>,
    old: usize,
    new: usize,
) -> (r: Option<Vec<IlocEntry>>)
    ensures
        match r {
            Some(v) => source_locations(
                views(entries@),
                opt_patch(patch),
                old as int,
                new as int,
                0,
                Seq::empty(),
            ) == Some(views(v@)),
            None => source_locations(
                views(entries@),
                opt_patch(patch),
                old as int,
                new as int,
                0,
                Seq::empty(),
            ) is None,
        },
{
    let ghost v = views(entries@);
    let mut out: Vec<IlocEntry> = Vec::new();
    let mut i: usize = 0;
    assert(views(out@) =~= Seq::empty());
    while i < entries.len()
        invariant
            i <= entries@.len(),
            v == views(entries@),
            source_locations(v, opt_patch(patch), old as int, new as int, 0, Seq::empty())
                == source_locations(
                v,
                opt_patch(patch),
                old as int,
                new as int,
                i as int,
                views(out@),
            ),
        decreases entries@.len() - i,
    {
        let e: &IlocEntry = &entries[i];
        assert(v[i as int] == e@);
        if e.construction_method != 0 {
            push_iloc(&mut out, copy_iloc(e));
        } else {
            match patch_extents(&e.extents, patch, old, new) {
                None => {
                    return None;
                },
                Some(extents) => {
                    push_iloc(
                        &mut out,
                        IlocEntry {
                            item_id: e.item_id,
                            construction_method: e.construction_method,
                            data_reference_index: e.data_reference_index,
                            extents,
                        },
                    );
                },
            }
        }
        i = i + 1;
    }
    Some(out)
}

fn repoint(entries: &mut Vec<IlocEntry>, id: u32, offset: usize, length: usize)
    ensures
        views(final(entries)@) == repointed(
            views(old(entries)@),
            id,
            offset as int,
            length as int,
        ),
{
    match find_iloc_index(entries, id) {
        None => {},
        Some(k) => {
            let ghost before = entries@;
            let extents: Vec<(u64, u64)> = vec![(offset as u64, length as u64)];
            assert(extents@ =~= seq![(offset as u64, length as u64)]);
            let e: IlocEntry = IlocEntry {
                item_id: entries[k].item_id,
                construction_method: entries[k].construction_method,
                data_reference_index: entries[k].data_reference_index,
                extents,
            };
            entries[k] = e;
            assert(views(entries@) =~= views(before).update(k as int, e@));
        },
    }
}

/// The total length of the tiles.
pub open spec fn tiles_len(tiles: Seq<Seq<u8>>) -> int {
    flat(tiles, as_is()).len() as int
}

fn place_tiles(entries: &mut Vec<IlocEntry>, c: &OutputConfig, start: usize)
    requires
        c.tile_ids@.len() == c.tile_payloads@.len(),
        start + tiles_len(c@.tiles) <= usize::MAX,
    ensures
        views(final(entries)@) == tiles_placed(
            views(old(entries)@),
            c.tile_ids@,
            c@.tiles,
            start as int,
            0,
        ),
{
    let ghost tiles = c@.tiles;
    let ghost all = tiles_placed(views(entries@), c.tile_ids@, tiles, start as int, 0);
    let mut offset: usize = start;
    let mut i: usize = 0;
    assert(tiles.take(0) =~= Seq::empty());
    while i < c.tile_payloads.len()
        invariant
            i <= c.tile_payloads@.len(),
            c.tile_ids@.len() == c.tile_payloads@.len(),
            tiles == c@.tiles,
            start + tiles_len(tiles) <= usize::MAX,
            offset == start + tiles_len(tiles.take(i as int)),
            all == tiles_placed(views(entries@), c.tile_ids@, tiles, offset as int, i as int),
        decreases c.tile_payloads@.len() - i,
    {
        assert(tiles[i as int] == c.tile_payloads@[i as int]@);
        proof {
            lemma_flat_take(tiles, as_is(), i as int);
            lemma_flat_add(tiles.take(i + 1), tiles.skip(i + 1), as_is());
            assert(tiles.take(i + 1) + tiles.skip(i + 1) =~= tiles);
        }
        let length: usize = c.tile_payloads[i].len();
        repoint(entries, c.tile_ids[i], offset, length);
        offset = offset + length;
        i = i + 1;
    }
}

// ---------------------------------------------------------------------------
// The meta box
// ---------------------------------------------------------------------------

/// A child of the source's meta box in the output. The iprp, iref and idat boxes
/// are given; entity groups are dropped.
pub open spec fn output_kid(
    s: Seq<u8>,
    has_dinf: bool,
    pitm: Seq<u8>,
    iinf: Seq<u8>,
    iloc: Seq<u8>,
    iprp: Seq<u8>,
    iref: Seq<u8>,
    idat: Seq<u8>,
) -> spec_fn(BoxView) -> Seq<u8> {
    |kid: BoxView|
        {
            let own = s.subrange(kid.box_start, kid.data_end);
            if kid.btype == HDLR@ {
                own + (if has_dinf {
                    Seq::empty()
                } else {
                    DINF_BOX@
                })
            } else if kid.btype == PITM@ {
                pitm
            } else if kid.btype == IINF@ {
                iinf
            } else if kid.btype == ILOC@ {
                iloc
            } else if kid.btype == IPRP@ {
                iprp
            } else if kid.btype == IREF@ {
                iref
            } else if kid.btype == IDAT@ {
                idat
            } else if kid.btype == GRPL@ {
                Seq::empty()
            } else {
                own
            }
        }
}

/// `b` where none of `kids` has the type `t`.
pub open spec fn unless_present(kids: Seq<BoxView>, t: Seq<u8>, b: Seq<u8>) -> Seq<u8> {
    if first_box(kids, t) is None {
        b
    } else {
        Seq::empty()
    }
}

/// The meta box of the output: the source's children, replaced where the output
/// has its own, the iref and idat boxes where the source had none, and the entity
/// group of the tmap and the primary.
#[verifier::opaque]
pub open spec fn output_meta(
    s: Seq<u8>,
    meta: BoxView,
    kids: Seq<BoxView>,
    pitm: Seq<u8>,
    iinf: Seq<u8>,
    iloc: Seq<u8>,
    iprp: Seq<u8>,
    iref: Seq<u8>,
    idat: Seq<u8>,
    grpl: Seq<u8>,
) -> Seq<u8> {
    box_bytes(
        META@,
        s.subrange(meta.data_start, meta.data_start + 4) + flat(
            kids,
            output_kid(s, first_box(kids, DINF@) is Some, pitm, iinf, iloc, iprp, iref, idat),
        ) + unless_present(kids, IREF@, iref) + unless_present(kids, IDAT@, idat) + grpl,
    )
}

/// The boxes that the output puts in place of the source's, but for the iloc.
pub struct MetaParts {
    pub pitm: Vec<u8>,
    pub iinf: Vec<u8>,
    pub iprp: Vec<u8>,
    pub iref: Vec<u8>,
    pub idat: Vec<u8>,
    pub grpl: Vec<u8>,
}

fn push_output_kid(
    out: &mut Vec<u8>,
    s: &[u8],
    kid: &BoxHeader,
    has_dinf: bool,
    m: &MetaParts,
    iloc: &Vec<u8>,
)
    requires
        box_within(kid@, s@.len() as int),
    ensures
        final(out)@ == old(out)@ + output_kid(
            s@,
            has_dinf,
            m.pitm@,
            m.iinf@,
            iloc@,
            m.iprp@,
            m.iref@,
            m.idat@,
        )(kid@),
{
    let own: &[u8] = vstd::slice::slice_subrange(s, kid.box_start, kid.data_end);
    let ghost before = out@;
    if same_tag(&kid.btype, &HDLR) {
        append(out, own);
        if !has_dinf {
            append(out, DINF_BOX.as_slice());
        }
        assert(out@ =~= before + (own@ + (if has_dinf {
            Seq::empty()
        } else {
            DINF_BOX@
        })));
    } else if same_tag(&kid.btype, &PITM) {
        append(out, m.pitm.as_slice());
    } else if same_tag(&kid.btype, &IINF) {
        append(out, m.iinf.as_slice());
    } else if same_tag(&kid.btype, &ILOC) {
        append(out, iloc.as_slice());
    } else if same_tag(&kid.btype, &IPRP) {
        append(out, m.iprp.as_slice());
    } else if same_tag(&kid.btype, &IREF) {
        append(out, m.iref.as_slice());
    } else if same_tag(&kid.btype, &IDAT) {
        append(out, m.idat.as_slice());
    } else if same_tag(&kid.btype, &GRPL) {
        assert(out@ =~= before + Seq::<u8>::empty());
    } else {
        append(out, own);
    }
}

/// Build the meta box of the output.
pub fn assemble_meta(
    s: &[u8],
    meta: &BoxHeader,
    kids: &Vec<BoxHeader>,
    m: &MetaParts,
    iloc: &Vec<u8>,
) -> (r: Vec<u8>)
    requires
        meta.data_start + 4 <= s.len(),
        forall|i: int| 0 <= i < kids@.len() ==> box_within((#[trigger] kids@[i])@, s@.len() as int),
    ensures
        r@ == output_meta(
            s@,
            meta@,
            views(kids@),
            m.pitm@,
            m.iinf@,
            iloc@,
            m.iprp@,
            m.iref@,
            m.idat@,
            m.grpl@,
        ),
{
    reveal(output_meta);
    let has_dinf: bool = find_in(kids.as_slice(), &DINF).is_some();
    let has_iref: bool = find_in(kids.as_slice(), &IREF).is_some();
    let has_idat: bool = find_in(kids.as_slice(), &IDAT).is_some();
    let mut body: Vec<u8> = copy_range(s, meta.data_start, meta.data_start + 4);
    let ghost head = body@;
    let ghost v = views(kids@);
    let ghost f = output_kid(
        s@,
        has_dinf,
        m.pitm@,
        m.iinf@,
        iloc@,
        m.iprp@,
        m.iref@,
        m.idat@,
    );
    let mut i: usize = 0;
    assert(v.take(0) =~= Seq::empty());
    assert(body@ =~= head + flat(v.take(0), f));
    while i < kids.len()
        invariant
            i <= kids@.len(),
            v == views(kids@),
            f == output_kid(
                s@,
                has_dinf,
                m.pitm@,
                m.iinf@,
                iloc@,
                m.iprp@,
                m.iref@,
                m.idat@,
            ),
            forall|j: int|
                0 <= j < kids@.len() ==> box_within((#[trigger] kids@[j])@, s@.len() as int),
            body@ == head + flat(v.take(i as int), f),
        decreases kids@.len() - i,
    {
        assert(v[i as int] == kids@[i as int]@);
        push_output_kid(&mut body, s, &kids[i], has_dinf, m, iloc);
        proof {
            lemma_flat_take(v, f, i as int);
        }
        i = i + 1;
        assert(body@ =~= head + flat(v.take(i as int), f));
    }
    assert(v.take(i as int) =~= v);
    let ghost kept = body@;
    if !has_iref {
        append(&mut body, m.iref.as_slice());
    }
    assert(body@ =~= kept + unless_present(v, IREF@, m.iref@));
    let ghost kept = body@;
    if !has_idat {
        append(&mut body, m.idat.as_slice());
    }
    assert(body@ =~= kept + unless_present(v, IDAT@, m.idat@));
    append(&mut body, m.grpl.as_slice());
    make_box(&META, body.as_slice())
}

// ---------------------------------------------------------------------------
// The whole file
// ---------------------------------------------------------------------------

/// The place of the first property of a type, from the `i`-th on.
pub open spec fn first_property(props: Seq<PropertyView>, ptype: Seq<char>, i: int) -> Option<int>
    decreases props.len() - i,
{
    if i >= props.len() {
        None
    } else if props[i].ptype == ptype {
        Some(i)
    } else {
        first_property(props, ptype, i + 1)
    }
}

/// The number of the source's first colour property, 1 where it has none.
pub open spec fn colour_number(props: Seq<PropertyView>) -> u32 {
    match first_property(props, "colr"@, 0) {
        Some(i) => (i + 1) as u32,
        None => 1,
    }
}

fn find_colour_number(props: &Vec<PropertyInfo>) -> (r: u32)
    requires
        props@.len() < u32::MAX,
    ensures
        r == colour_number(views(props@)),
{
    let ghost v = views(props@);
    let mut i: usize = 0;
    while i < props.len()
        invariant
            i <= props@.len(),
            props@.len() < u32::MAX,
            v == views(props@),
            first_property(v, "colr"@, 0) == first_property(v, "colr"@, i as int),
        decreases props@.len() - i,
    {
        assert(v[i as int] == props@[i as int]@);
        if same_text(props[i].ptype.as_str(), "colr") {
            return i as u32 + 1;
        }
        i = i + 1;
    }
    1
}

/// The boxes of the output's metadata but for the iloc.
pub struct PartsView {
    pub pitm: Seq<u8>,
    pub iinf: Seq<u8>,
    pub iprp: Seq<u8>,
    pub iref: Seq<u8>,
    pub idat: Seq<u8>,
    pub grpl: Seq<u8>,
}

impl View for MetaParts {
    type V = PartsView;

    open spec fn view(&self) -> PartsView {
        PartsView {
            pitm: self.pitm@,
            iinf: self.iinf@,
            iprp: self.iprp@,
            iref: self.iref@,
            idat: self.idat@,
            grpl: self.grpl@,
        }
    }
}

/// The size property of the tmap: that of the primary, whose number is `ispe`.
pub open spec fn tmap_ispe(src: SourceView, ispe: u32) -> Seq<u8> {
    ispe_bytes(be32(src.props[ispe - 1].raw, 12), be32(src.props[ispe - 1].raw, 16))
}

/// Whether the tmap can share the primary's size property.
pub open spec fn shares_ispe(src: SourceView, ispe: u32) -> bool {
    tmap_ispe(src, ispe) == src.props[ispe - 1].raw
}

/// The numbers of the added properties.
pub open spec fn added_numbers(src: SourceView, c: ConfigView, ispe: u32) -> PropertyNumbers {
    property_numbers(
        src.props.len() as int,
        c.oppo_rgb,
        if shares_ispe(src, ispe) {
            Some(ispe)
        } else {
            None
        },
    )
}

/// The number of the rotation: the primary's own, else the added one.
pub open spec fn rotation_number(src: SourceView, p: PropertyNumbers) -> u32 {
    match property_number(src, src.primary_id, "irot"@) {
        Some(n) => n,
        None => p.irot,
    }
}

/// The iprp box of the output. `ispe` is the number of the primary's size
/// property.
#[verifier::opaque]
pub open spec fn output_iprp(
    s: Seq<u8>,
    src: SourceView,
    c: ConfigView,
    orientation: ExifOrientation,
    ispe: u32,
) -> Seq<u8> {
    let p = added_numbers(src, c, ispe);
    let ipco = output_ipco(
        s,
        src,
        c,
        irot_bytes(orientation.turns()),
        if shares_ispe(src, ispe) {
            None
        } else {
            Some(tmap_ispe(src, ispe))
        },
    );
    let ipma = s.subrange(src.ipma_box.data_start, src.ipma_box.data_start + 4) + output_ipma(
        src,
        c,
        p,
        colour_number(src.props),
        rotation_number(src, p),
    );
    box_bytes(IPRP@, box_bytes(IPCO@, ipco) + box_bytes(IPMA@, ipma))
}

fn build_iprp(
    s: &[u8],
    src: &ParsedSource,
    c: &OutputConfig,
    orientation: ExifOrientation,
    ispe: u32,
) -> (r: Vec<u8>)
    requires
        source_fits(src@, s@.len() as int),
        1 <= ispe <= src.props@.len(),
        is_ispe(src.props@[ispe - 1].raw@),
        src.props@.len() + 16 <= u32::MAX,
    ensures
        r@ == output_iprp(s@, src@, c@, orientation, ispe),
{
    reveal(output_iprp);
    let irot_box: Vec<u8> = make_irot_box(orientation.irot_quarter_turns_ccw());
    assert(src@.props[ispe - 1] == src.props@[ispe - 1]@);
    let raw: &Vec<u8> = &src.props[ispe as usize - 1].raw;
    let size: Vec<u8> = match make_imageio_canonical_tmap_ispe_box(
        raw.as_slice(),
        irot_box.as_slice(),
    ) {
        Ok(b) => b,
        Err(_) => Vec::new(),
    };
    assert(size@ == tmap_ispe(src@, ispe));
    let shared: bool = bytes_eq(size.as_slice(), raw.as_slice());
    assert(shared == shares_ispe(src@, ispe));
    let shared_number: Option<u32> = if shared {
        Some(ispe)
    } else {
        None
    };
    let p: PropertyNumbers = number_properties(src.props.len() as u32, c.oppo_rgb, shared_number);
    assert(p == added_numbers(src@, c@, ispe));
    let irot: u32 = match item_property_index(src, src.primary_id, "irot") {
        Some(n) => n,
        None => p.irot,
    };
    let added: Option<Vec<u8>> = if shared {
        None
    } else {
        Some(size)
    };
    let ipco: Vec<u8> = build_ipco(s, src, c, &irot_box, &added);
    let colour: u32 = find_colour_number(&src.props);
    let len: usize = s.len();
    assert(src.ipma_box.data_start + 8 <= len);
    let mut ipma: Vec<u8> = copy_range(s, src.ipma_box.data_start, src.ipma_box.data_start + 4);
    append(&mut ipma, build_ipma(src, c, &p, colour, irot).as_slice());
    let mut iprp: Vec<u8> = make_box(&IPCO, ipco.as_slice());
    append(&mut iprp, make_box(&IPMA, ipma.as_slice()).as_slice());
    make_box(&IPRP, iprp.as_slice())
}

/// The iref box of the output.
pub open spec fn output_iref(src: SourceView, c: ConfigView) -> Seq<u8> {
    iref_bytes(
        output_iref_version(output_refs(src, c), src.iref_version),
        output_refs(src, c),
    )
}

/// The boxes of the output's metadata but for the iloc. `ispe` is the number of
/// the primary's size property.
pub open spec fn output_parts(
    s: Seq<u8>,
    src: SourceView,
    c: ConfigView,
    orientation: ExifOrientation,
    ispe: u32,
) -> PartsView {
    PartsView {
        pitm: pitm_bytes(src.pitm_version, src.primary_id as int),
        iinf: output_iinf(src, c),
        iprp: output_iprp(s, src, c, orientation, ispe),
        iref: output_iref(src, c),
        idat: box_bytes(IDAT@, output_idat(s, src, c)),
        grpl: grpl_altr_bytes(c.group_id as int, c.tmap_id as int, src.primary_id as int),
    }
}

fn build_parts(
    s: &[u8],
    src: &ParsedSource,
    c: &OutputConfig,
    orientation: ExifOrientation,
    ispe: u32,
) -> (r: MetaParts)
    requires
        source_fits(src@, s@.len() as int),
        1 <= ispe <= src.props@.len(),
        is_ispe(src.props@[ispe - 1].raw@),
        src.props@.len() + 16 <= u32::MAX,
        c.rows >= 1,
        c.cols >= 1,
    ensures
        r@ == output_parts(s@, src@, c@, orientation, ispe),
        box_payload(s@, src@.idat).len() + 8 + c.tmap_payload@.len() <= usize::MAX,
{
    let iprp: Vec<u8> = build_iprp(s, src, c, orientation, ispe);
    let refs: Vec<IrefEntry> = build_refs(src, c);
    let version: u8 = choose_iref_version(&refs, src.iref_version);
    let idat: Vec<u8> = build_idat(s, src, c);
    proof {
        assert(idat.len() <= usize::MAX);
        reveal(output_idat);
    }
    MetaParts {
        pitm: make_pitm_box(src.pitm_version, src.primary_id),
        iinf: build_iinf(src, c),
        iprp,
        iref: make_iref_full_box(version, refs.as_slice()),
        idat: make_box(&IDAT, idat.as_slice()),
        grpl: make_grpl_altr_box(c.group_id, c.tmap_id, src.primary_id),
    }
}

/// The meta box around given parts and locations.
pub open spec fn meta_with(
    s: Seq<u8>,
    meta: BoxView,
    m: PartsView,
    entries: Seq<IlocView>,
) -> Seq<u8> {
    output_meta(
        s,
        meta,
        boxes_in(s, meta.data_start + 4, meta.data_end),
        m.pitm,
        m.iinf,
        iloc_bytes(entries),
        m.iprp,
        m.iref,
        m.idat,
        m.grpl,
    )
}

/// Where the media data starts in the output: its header is 8 bytes long.
pub open spec fn output_start(
    s: Seq<u8>,
    ftyp: BoxView,
    meta: BoxView,
    mdat: BoxView,
    m: PartsView,
    placeholders: Seq<IlocView>,
) -> int {
    ftyp_bytes(s.subrange(ftyp.data_start, ftyp.data_end)).len() + meta_with(
        s,
        meta,
        m,
        placeholders,
    ).len() + (mdat.box_start - meta.data_end) + 8
}

/// The locations in the output, whose media data starts at `start`. `None` where
/// an extent of the source straddles the patched item.
pub open spec fn output_locations(
    src: SourceView,
    c: ConfigView,
    placeholders: Seq<IlocView>,
    patch: Option<OppoUserCommentPatch>,
    old_start: int,
    start: int,
    media_len: int,
) -> Option<Seq<IlocView>> {
    match source_locations(src.iloc_entries, patch, old_start, start, 0, Seq::empty()) {
        None => None,
        Some(located) => Some(
            tiles_placed(
                located + placeholders.skip(src.iloc_entries.len() as int),
                c.tile_ids,
                c.tiles,
                start + media_len,
                0,
            ),
        ),
    }
}

/// The bytes of the output around given metadata and locations.
pub open spec fn output_bytes(
    s: Seq<u8>,
    ftyp: BoxView,
    meta: BoxView,
    mdat: BoxView,
    m: PartsView,
    entries: Seq<IlocView>,
    media: Seq<u8>,
    c: ConfigView,
) -> Seq<u8> {
    ftyp_bytes(s.subrange(ftyp.data_start, ftyp.data_end)) + meta_with(s, meta, m, entries)
        + s.subrange(meta.data_end, mdat.box_start) + box_bytes(
        MDAT@,
        media + flat(c.tiles, as_is()),
    ) + (match file_tail_under(s, c.tail_policy) {
        Some(tail) => tail,
        None => Seq::empty(),
    })
}

/// The output file: the ftyp box, the meta box, what stands between meta and mdat
/// in the source, the media data with the tiles behind it, and what the policy
/// keeps of the vendor tail. Or why there is none. `None` where the boxes of the
/// source stand in another order, an extent straddles the patched Exif item, or a
/// number does not fit.
pub open spec fn output_file(
    s: Seq<u8>,
    ftyp: BoxView,
    meta: BoxView,
    mdat: BoxView,
    src: SourceView,
    media: Seq<u8>,
    patch: Option<OppoUserCommentPatch>,
    orientation: ExifOrientation,
    c: ConfigView,
) -> Option<Result<Seq<u8>, Seq<char>>> {
    match property_number(src, src.primary_id, "ispe"@) {
        None => Some(Err("primary item has no ispe property association"@)),
        Some(ispe) => if !is_ispe(src.props[ispe - 1].raw) {
            Some(Err("invalid ispe property"@))
        } else if src.props.len() + 16 > u32::MAX || c.rows == 0 || c.cols == 0 || ftyp.data_end
            - ftyp.data_start < 8 || mdat.box_start < meta.data_end {
            None
        } else {
            let m = output_parts(s, src, c, orientation, ispe);
            let first = placeholder_locations(src, c, box_payload(s, src.idat).len() as int);
            let start = output_start(s, ftyp, meta, mdat, m, first);
            if start + media.len() + tiles_len(c.tiles) > usize::MAX - 16 {
                None
            } else {
                match output_locations(
                    src,
                    c,
                    first,
                    patch,
                    mdat.data_start,
                    start,
                    media.len() as int,
                ) {
                    None => None,
                    Some(entries) => Some(
                        Ok(output_bytes(s, ftyp, meta, mdat, m, entries, media, c)),
                    ),
                }
            }
        },
    }
}

/// Copy the entries behind the first `from`.
fn append_ilocs(out: &mut Vec<IlocEntry>, entries: &Vec<IlocEntry>, from: usize)
    requires
        from <= entries@.len(),
    ensures
        views(final(out)@) == views(old(out)@) + views(entries@).skip(from as int),
{
    let mut i: usize = from;
    let ghost v = views(entries@);
    assert(views(out@) =~= views(old(out)@) + v.subrange(from as int, from as int));
    while i < entries.len()
        invariant
            from <= i <= entries@.len(),
            v == views(entries@),
            views(out@) == views(old(out)@) + v.subrange(from as int, i as int),
        decreases entries@.len() - i,
    {
        assert(v[i as int] == entries@[i as int]@);
        push_iloc(out, copy_iloc(&entries[i]));
        i = i + 1;
        assert(views(out@) =~= views(old(out)@) + v.subrange(from as int, i as int));
    }
    assert(v.subrange(from as int, i as int) =~= v.skip(from as int));
}

fn build_locations(
    src: &ParsedSource,
    c: &OutputConfig,
    placeholders: &Vec<IlocEntry>,
    patch: Option<&OppoUserCommentPatch>,
    old_start: usize,
    start: usize,
    media_len: usize,
) -> (r: Option<Vec<IlocEntry>>)
    requires
        c.tile_ids@.len() == c.tile_payloads@.len(),
        src.iloc_entries@.len() <= placeholders@.len(),
        start + media_len + tiles_len(c@.tiles) <= usize::MAX,
    ensures
        match r {
            Some(v) => output_locations(
                src@,
                c@,
                views(placeholders@),
                opt_patch(patch),
                old_start as int,
                start as int,
                media_len as int,
            ) == Some(views(v@)),
            None => output_locations(
                src@,
                c@,
                views(placeholders@),
                opt_patch(patch),
                old_start as int,
                start as int,
                media_len as int,
            ) is None,
        },
{
    let mut entries: Vec<IlocEntry> = match locate_source(
        &src.iloc_entries,
        patch,
        old_start,
        start,
    ) {
        Some(v) => v,
        None => {
            return None;
        },
    };
    append_ilocs(&mut entries, placeholders, src.iloc_entries.len());
    place_tiles(&mut entries, c, start + media_len);
    Some(entries)
}

fn write_output(
    s: &[u8],
    ftyp_box: Vec<u8>,
    meta: &BoxHeader,
    mdat: &BoxHeader,
    m: &MetaParts,
    kids: &Vec<BoxHeader>,
    entries: &Vec<IlocEntry>,
    payload: &Vec<u8>,
    policy: OppoCameraTail,
) -> (r: Vec<u8>)
    requires
        box_within(mdat@, s@.len() as int),
        meta.data_start + 4 <= s.len(),
        meta.data_end <= mdat.box_start,
        views(kids@) == boxes_in(s@, meta.data_start + 4, meta.data_end as int),
        forall|i: int| 0 <= i < kids@.len() ==> box_within((#[trigger] kids@[i])@, s@.len() as int),
    ensures
        r@ == ftyp_box@ + meta_with(s@, meta@, m@, views(entries@)) + s@.subrange(
            meta.data_end as int,
            mdat.box_start as int,
        ) + box_bytes(MDAT@, payload@) + (match file_tail_under(s@, policy) {
            Some(tail) => tail,
            None => Seq::empty(),
        }),
{
    let final_meta: Vec<u8> = assemble_meta(s, meta, kids, m, &make_iloc_box(entries.as_slice()));
    let mut out: Vec<u8> = ftyp_box;
    append(&mut out, final_meta.as_slice());
    append(&mut out, vstd::slice::slice_subrange(s, meta.data_end, mdat.box_start));
    append(&mut out, make_box(&MDAT, payload.as_slice()).as_slice());
    match get_oppo_tail(s, policy) {
        Some(tail) => {
            append(&mut out, tail.as_slice());
        },
        None => {
            assert(out@ + Seq::<u8>::empty() =~= out@);
        },
    }
    out
}

/// Assemble the output file.
#[verifier::rlimit(60)]
pub fn assemble_output(
    s: &[u8],
    ftyp: &BoxHeader,
    meta: &BoxHeader,
    mdat: &BoxHeader,
    src: &ParsedSource,
    media: &Vec<u8>,
    patch: Option<&OppoUserCommentPatch>,
    orientation: ExifOrientation,
    c: &OutputConfig,
) -> (r: Option<Result<Vec<u8>, String>>)
    requires
        box_within(ftyp@, s@.len() as int),
        box_within(meta@, s@.len() as int),
        box_within(mdat@, s@.len() as int),
        meta.data_start + 4 <= meta.data_end,
        source_fits(src@, s@.len() as int),
        c.tile_ids@.len() == c.tile_payloads@.len(),
    ensures
        told_some(r) == output_file(
            s@,
            ftyp@,
            meta@,
            mdat@,
            src@,
            media@,
            opt_patch(patch),
            orientation,
            c@,
        ),
{
    let ispe: u32 = match item_property_index(src, src.primary_id, "ispe") {
        Some(n) => n,
        None => {
            return Some(Err("primary item has no ispe property association".to_string()));
        },
    };
    assert(src@.props[ispe - 1] == src.props@[ispe - 1]@);
    match ispe_dimensions(src.props[ispe as usize - 1].raw.as_slice()) {
        Ok(_) => {},
        Err(e) => {
            return Some(Err(e));
        },
    }
    if src.props.len() > (u32::MAX - 16) as usize || c.rows == 0 || c.cols == 0 || ftyp.data_end
        - ftyp.data_start < 8 || mdat.box_start < meta.data_end {
        return None;
    }
    let m: MetaParts = build_parts(s, src, c, orientation, ispe);
    let held: usize = match &src.idat {
        Some(b) => b.data_end - b.data_start,
        None => 0,
    };
    let first: Vec<IlocEntry> = build_placeholders(src, c, held);
    let kids: Vec<BoxHeader> = parse_children(s, meta, 4);
    let placeholder: Vec<u8> = assemble_meta(s, meta, &kids, &m, &make_iloc_box(first.as_slice()));
    let ftyp_box: Vec<u8> = make_ftyp_box(
        vstd::slice::slice_subrange(s, ftyp.data_start, ftyp.data_end),
    );
    let mut payload: Vec<u8> = copy_range(media.as_slice(), 0, media.len());
    assert(payload@ =~= media@);
    append_all(&mut payload, c.tile_payloads.as_slice());
    let between: usize = mdat.box_start - meta.data_end;
    let limit: usize = usize::MAX - 24;
    if ftyp_box.len() > limit || placeholder.len() > limit - ftyp_box.len() || between > limit
        - ftyp_box.len() - placeholder.len() {
        return None;
    }
    let start: usize = ftyp_box.len() + placeholder.len() + between + 8;
    assert(start == output_start(s@, ftyp@, meta@, mdat@, m@, views(first@)));
    if payload.len() > usize::MAX - 16 - start {
        return None;
    }
    proof {
        reveal(placeholder_locations);
        assert(views(first@).len() == first@.len());
    }
    match build_locations(src, c, &first, patch, mdat.data_start, start, media.len()) {
        None => None,
        Some(entries) => Some(
            Ok(write_output(s, ftyp_box, meta, mdat, &m, &kids, &entries, &payload, c.tail_policy)),
        ),
    }
}

// ---------------------------------------------------------------------------
// From a source file to an output file
// ---------------------------------------------------------------------------

/// The first item number that the source does not use: at least 2.
pub open spec fn first_new_id(src: SourceView) -> int {
    if src.max_src_id == 0 {
        2
    } else {
        src.max_src_id + 1
    }
}

/// The item numbers of the gain grid, the tmap, the XMP item and the entity group
/// behind `num_tiles` tiles.
pub open spec fn new_ids(src: SourceView, num_tiles: int) -> (int, int, int, int) {
    let grid = first_new_id(src) + num_tiles;
    (grid, grid + 1, grid + 2, grid + 3)
}

/// Assign the item numbers of the gain grid, the tmap, the XMP item and the entity
/// group behind `num_tiles` tiles.
pub fn assign_new_ids(parsed: &ParsedSource, num_tiles: u32) -> (r: (u32, u32, u32, u32))
    requires
        first_new_id(parsed@) + num_tiles + 3 <= u32::MAX,
    ensures
        (r.0 as int, r.1 as int, r.2 as int, r.3 as int) == new_ids(parsed@, num_tiles as int),
{
    let first_new: u32 = if parsed.max_src_id == 0 {
        2
    } else {
        parsed.max_src_id + 1
    };
    let grid: u32 = first_new + num_tiles;
    (grid, grid + 1, grid + 2, grid + 3)
}

/// Added items have numbers of their own that no item of the source has.
pub proof fn new_ids_are_fresh(src: SourceView, num_tiles: nat, i: int, j: int)
    requires
        src.max_src_id == max_item_id(src.items),
        0 <= i < src.items.len(),
        0 <= j < num_tiles,
    ensures
        src.items[i].item_id < first_new_id(src) + j,
        first_new_id(src) + j < new_ids(src, num_tiles as int).0,
{
    lemma_max_item_id(src.items, i);
}

proof fn lemma_max_item_id(items: Seq<ItemView>, i: int)
    requires
        0 <= i < items.len(),
    ensures
        items[i].item_id <= max_item_id(items),
    decreases items.len(),
{
    if items.len() > 1 && i < items.len() - 1 {
        lemma_max_item_id(items.drop_last(), i);
        assert(items.drop_last()[i] == items[i]);
    }
}

/// The item numbers of the tiles.
pub open spec fn tile_numbers(src: SourceView, n: nat) -> Seq<u32> {
    Seq::new(n, |i: int| (first_new_id(src) + i) as u32)
}

fn number_tiles(src: &ParsedSource, n: usize) -> (r: Vec<u32>)
    requires
        first_new_id(src@) + n <= u32::MAX,
    ensures
        r@ == tile_numbers(src@, n as nat),
{
    let first_new: u32 = if src.max_src_id == 0 {
        2
    } else {
        src.max_src_id + 1
    };
    let mut ids: Vec<u32> = Vec::new();
    let mut i: usize = 0;
    while i < n
        invariant
            i <= n,
            first_new == first_new_id(src@),
            first_new + n <= u32::MAX,
            ids@ == tile_numbers(src@, i as nat),
        decreases n - i,
    {
        ids.push(first_new + i as u32);
        i = i + 1;
        assert(ids@ =~= tile_numbers(src@, i as nat));
    }
    ids
}

/// Media data whose Exif item may have been patched, and the patch.
pub open spec fn media_for(src: SourceView, media: Seq<u8>, start: int, compat: OppoCompat) -> (
    Seq<u8>,
    Option<OppoUserCommentPatch>,
) {
    match exif_location(src.items, src.iloc_entries) {
        Some(e) => if !compat.patches() {
            (media, None)
        } else {
            match patched_media(media, start, e, compat) {
                Some((m, p)) => (m, Some(p)),
                None => (media, None),
            }
        },
        None => (media, None),
    }
}

/// Locate the source Exif item and apply the OPPO UserComment patch to the
/// source mdat payload, confined to the Exif iloc extent. Returns `None` when no
/// patch is wanted, the Exif item is absent, or the patch would not apply.
pub fn patch_oppo_usercomment(
    parsed: &ParsedSource,
    source_mdat: &mut Vec<u8>,
    mdat_data_start: usize,
    oppo_compat: OppoCompat,
) -> (r: Option<OppoUserCommentPatch>)
    requires
        mdat_data_start + old(source_mdat)@.len() + 32 <= isize::MAX,
    ensures
        (final(source_mdat)@, r) == media_for(
            parsed@,
            old(source_mdat)@,
            mdat_data_start as int,
            oppo_compat,
        ),
{
    if !oppo_compat.wants_patch() {
        return None;
    }
    match find_exif_iloc_entry(&parsed.items, &parsed.iloc_entries) {
        None => None,
        Some(e) => apply_oppo_usercomment_patch(source_mdat, mdat_data_start, e, oppo_compat),
    }
}

/// An encoded gain map and the metadata that describes it.
pub struct GainMap {
    /// The encoded tiles, with length-prefixed NAL units, row by row.
    pub tiles: Vec<Vec<u8>>,
    /// The HEVC decoder configuration of the tiles.
    pub hvcc: Vec<u8>,
    pub width: u32,
    pub height: u32,
    pub cols: u32,
    pub rows: u32,
    /// Whether the gain map is RGB for OPPO, or UHDR with three channels.
    pub oppo_rgb: bool,
    pub tmap_payload: Vec<u8>,
    pub xmp_bytes: Vec<u8>,
    pub base_clli: Vec<u8>,
    pub tmap_clli: Vec<u8>,
}

/// What an encoded gain map says.
#[verifier::ext_equal]
pub struct GainView {
    pub tiles: Seq<Seq<u8>>,
    pub hvcc: Seq<u8>,
    pub width: u32,
    pub height: u32,
    pub cols: u32,
    pub rows: u32,
    pub oppo_rgb: bool,
    pub tmap_payload: Seq<u8>,
    pub xmp: Seq<u8>,
    pub base_clli: Seq<u8>,
    pub tmap_clli: Seq<u8>,
}

impl View for GainMap {
    type V = GainView;

    open spec fn view(&self) -> GainView {
        GainView {
            tiles: views(self.tiles@),
            hvcc: self.hvcc@,
            width: self.width,
            height: self.height,
            cols: self.cols,
            rows: self.rows,
            oppo_rgb: self.oppo_rgb,
            tmap_payload: self.tmap_payload@,
            xmp: self.xmp_bytes@,
            base_clli: self.base_clli@,
            tmap_clli: self.tmap_clli@,
        }
    }
}

/// What goes into the output of a source and a gain map.
pub open spec fn config_for(src: SourceView, g: GainView, policy: OppoCameraTail) -> ConfigView {
    let ids = new_ids(src, g.tiles.len() as int);
    ConfigView {
        oppo_rgb: g.oppo_rgb,
        tail_policy: policy,
        tiles: g.tiles,
        tile_ids: tile_numbers(src, g.tiles.len()),
        gain_grid_id: ids.0 as u32,
        tmap_id: ids.1 as u32,
        xmp_id: ids.2 as u32,
        group_id: ids.3 as u32,
        tmap_payload: g.tmap_payload,
        xmp: g.xmp,
        gain_hvcc: g.hvcc,
        base_clli: g.base_clli,
        tmap_clli: g.tmap_clli,
        gain_width: g.width,
        gain_height: g.height,
        cols: g.cols,
        rows: g.rows,
    }
}

/// The output of a source file and a gain map, or why there is none. `None` where
/// the source's metadata is cut short or a number does not fit.
pub open spec fn iso_output(
    s: Seq<u8>,
    orientation: ExifOrientation,
    compat: OppoCompat,
    policy: OppoCameraTail,
    g: GainView,
) -> Option<Result<Seq<u8>, Seq<char>>> {
    let top = boxes_in(s, 0, s.len() as int);
    match first_box(top, FTYP@) {
        None => Some(Err("ftyp missing"@)),
        Some(ftyp) => match first_box(top, META@) {
            None => Some(Err("meta missing"@)),
            Some(meta) => match first_box(top, MDAT@) {
                None => Some(Err("mdat missing"@)),
                Some(mdat) => match source_structure(s, meta) {
                    None => None,
                    Some(Err(e)) => Some(Err(e)),
                    Some(Ok(src)) => if first_new_id(src) + g.tiles.len() + 3 > u32::MAX || s.len()
                        + 32 > isize::MAX {
                        None
                    } else {
                        let (media, patch) = media_for(
                            src,
                            s.subrange(mdat.data_start, mdat.data_end),
                            mdat.data_start,
                            compat,
                        );
                        output_file(
                            s,
                            ftyp,
                            meta,
                            mdat,
                            src,
                            media,
                            patch,
                            orientation,
                            config_for(src, g, policy),
                        )
                    },
                },
            },
        },
    }
}

/// Assemble the ISO 21496-1 output of a source file and an encoded gain map;
/// `None` where the source's metadata is cut short or a number does not fit.
pub fn assemble_iso_output(
    source: &[u8],
    orientation: ExifOrientation,
    oppo_compat: OppoCompat,
    tail_policy: OppoCameraTail,
    gain: GainMap,
) -> (r: Option<Result<Vec<u8>, String>>)
    ensures
        told_some(r) == iso_output(source@, orientation, oppo_compat, tail_policy, gain@),
{
    let top: Vec<BoxHeader> = parse_boxes(source, 0, source.len());
    let ftyp: BoxHeader = match find_in(top.as_slice(), &FTYP) {
        Some(b) => b,
        None => {
            return Some(Err("ftyp missing".to_string()));
        },
    };
    let meta: BoxHeader = match find_in(top.as_slice(), &META) {
        Some(b) => b,
        None => {
            return Some(Err("meta missing".to_string()));
        },
    };
    let mdat: BoxHeader = match find_in(top.as_slice(), &MDAT) {
        Some(b) => b,
        None => {
            return Some(Err("mdat missing".to_string()));
        },
    };
    let src: ParsedSource = match parse_source_structure(source, &meta) {
        None => {
            return None;
        },
        Some(Err(e)) => {
            return Some(Err(e));
        },
        Some(Ok(v)) => v,
    };
    let first_new: u64 = if src.max_src_id == 0 {
        2
    } else {
        src.max_src_id as u64 + 1
    };
    let n: usize = gain.tiles.len();
    if first_new > u32::MAX as u64 - 3 || n as u64 > u32::MAX as u64 - 3 - first_new {
        return None;
    }
    if source.len() > isize::MAX as usize - 32 {
        return None;
    }
    let tile_ids: Vec<u32> = number_tiles(&src, n);
    let (gain_grid_id, tmap_id, xmp_id, group_id) = assign_new_ids(&src, n as u32);
    let mut media: Vec<u8> = copy_range(source, mdat.data_start, mdat.data_end);
    let patch: Option<OppoUserCommentPatch> = patch_oppo_usercomment(
        &src,
        &mut media,
        mdat.data_start,
        oppo_compat,
    );
    let ghost g = gain@;
    let c: OutputConfig = OutputConfig {
        oppo_rgb: gain.oppo_rgb,
        tail_policy,
        tile_payloads: gain.tiles,
        tile_ids,
        gain_grid_id,
        tmap_id,
        xmp_id,
        group_id,
        tmap_payload: gain.tmap_payload,
        xmp_bytes: gain.xmp_bytes,
        gain_hvcc: gain.hvcc,
        base_clli: gain.base_clli,
        tmap_clli: gain.tmap_clli,
        gain_width: gain.width,
        gain_height: gain.height,
        cols: gain.cols,
        rows: gain.rows,
    };
    assert(c@ == config_for(src@, g, tail_policy));
    assemble_output(
        source,
        &ftyp,
        &meta,
        &mdat,
        &src,
        &media,
        patch.as_ref(),
        orientation,
        &c,
    )
}

} // verus!
