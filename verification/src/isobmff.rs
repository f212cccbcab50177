//! ISOBMFF box types, parsers, constructors, and byte-level helpers.

use crate::bytes::{
    append, be16, be32, be64, contains_bytes, copy_range, enc16, enc24, enc32, has_bytes,
    lemma_enc32_low_bits, matches_at, occurs_at, push16, push16_of, push24, push32, push32_of,
    push32_sum, read16, read32,
};
use crate::fourcc::{
    ALTR, CLLI, FTYP, GRID, GRPL, HVCC, IINF, ILOC, INFE, IPCO, IPMA, IPRP, IREF, IROT, ISPE, META,
    PITM, same_tag,
};
use crate::seqs::{
    first_where, flat, lemma_first_where_at, lemma_first_where_none, lemma_flat_take, told,
    told_some, views,
};
use crate::text::{name_from_bytes, name_text, same_text};
use vstd::prelude::*;
use vstd::string::*;
use vstd::utf8::*;

verus! {

// ---------------------------------------------------------------------------
// Types and what they stand for
// ---------------------------------------------------------------------------

/// A parsed ISOBMFF box header.
#[derive(Debug, Clone, Copy)]
pub struct BoxHeader {
    /// Four-character box type code.
    pub btype: [u8; 4],
    /// Offset of the first payload byte (right after the 8- or 16-byte header).
    pub data_start: usize,
    /// Offset of the first byte past the box (data_start + payload_len).
    pub data_end: usize,
    /// Offset of the box start in the parent buffer.
    pub box_start: usize,
    /// Total box size including header (size field value).
    pub size: usize,
}

/// What a box header says.
#[verifier::ext_equal]
pub struct BoxView {
    pub btype: Seq<u8>,
    pub data_start: int,
    pub data_end: int,
    pub box_start: int,
    pub size: int,
}

impl View for BoxHeader {
    type V = BoxView;

    open spec fn view(&self) -> BoxView {
        BoxView {
            btype: self.btype@,
            data_start: self.data_start as int,
            data_end: self.data_end as int,
            box_start: self.box_start as int,
            size: self.size as int,
        }
    }
}

/// An iloc entry (item location).
#[derive(Debug, Clone)]
pub struct IlocEntry {
    pub item_id: u32,
    pub construction_method: u16,
    pub data_reference_index: u16,
    /// Each element is (offset, length).
    pub extents: Vec<(u64, u64)>,
}

/// What an iloc entry says.
#[verifier::ext_equal]
pub struct IlocView {
    pub item_id: u32,
    pub construction_method: u16,
    pub data_reference_index: u16,
    pub extents: Seq<(u64, u64)>,
}

impl View for IlocEntry {
    type V = IlocView;

    open spec fn view(&self) -> IlocView {
        IlocView {
            item_id: self.item_id,
            construction_method: self.construction_method,
            data_reference_index: self.data_reference_index,
            extents: self.extents@,
        }
    }
}

/// An ipma entry (item-property association).
#[derive(Debug, Clone)]
pub struct IpmaEntry {
    pub item_id: u32,
    /// Each element is (property_index, essential).
    pub associations: Vec<(u32, bool)>,
}

/// What an ipma entry says.
#[verifier::ext_equal]
pub struct IpmaView {
    pub item_id: u32,
    pub associations: Seq<(u32, bool)>,
}

impl View for IpmaEntry {
    type V = IpmaView;

    open spec fn view(&self) -> IpmaView {
        IpmaView { item_id: self.item_id, associations: self.associations@ }
    }
}

/// Parsed item-info entry from iinf.
#[derive(Debug, Clone)]
pub struct ItemInfo {
    pub item_id: u32,
    pub itype: String,
    pub flags: u32,
    pub raw_infe: Vec<u8>,
}

/// What an item-info entry says.
#[verifier::ext_equal]
pub struct ItemView {
    pub item_id: u32,
    pub itype: Seq<char>,
    pub flags: u32,
    pub raw_infe: Seq<u8>,
}

impl View for ItemInfo {
    type V = ItemView;

    open spec fn view(&self) -> ItemView {
        ItemView {
            item_id: self.item_id,
            itype: self.itype@,
            flags: self.flags,
            raw_infe: self.raw_infe@,
        }
    }
}

/// A single iref reference rule.
#[derive(Debug, Clone)]
pub struct IrefEntry {
    pub rtype: String,
    pub from: u32,
    pub to: Vec<u32>,
}

/// What a reference rule says.
#[verifier::ext_equal]
pub struct IrefView {
    pub rtype: Seq<char>,
    pub from: u32,
    pub to: Seq<u32>,
}

impl View for IrefEntry {
    type V = IrefView;

    open spec fn view(&self) -> IrefView {
        IrefView { rtype: self.rtype@, from: self.from, to: self.to@ }
    }
}

/// A property from ipco.
#[derive(Debug, Clone)]
pub struct PropertyInfo {
    /// 1-based index in the ipco box.
    pub index: u32,
    pub ptype: String,
    pub raw: Vec<u8>,
}

/// What a property says.
#[verifier::ext_equal]
pub struct PropertyView {
    pub index: u32,
    pub ptype: Seq<char>,
    pub raw: Seq<u8>,
}

impl View for PropertyInfo {
    type V = PropertyView;

    open spec fn view(&self) -> PropertyView {
        PropertyView { index: self.index, ptype: self.ptype@, raw: self.raw@ }
    }
}

/// Complete parsed metadata from a source HEIC.
#[derive(Debug, Clone)]
pub struct ParsedMeta {
    pub iloc_entries: Vec<IlocEntry>,
    pub ipma_entries: Vec<IpmaEntry>,
    pub ipma_flags: u32,
    pub items: Vec<ItemInfo>,
    pub refs: Vec<IrefEntry>,
    pub props: Vec<PropertyInfo>,
    pub primary_id: u32,
    pub pitm_version: u8,
    pub iinf_version: u8,
}

/// What the metadata of a source HEIC says.
#[verifier::ext_equal]
pub struct MetaView {
    pub iloc_entries: Seq<IlocView>,
    pub ipma_entries: Seq<IpmaView>,
    pub ipma_flags: u32,
    pub items: Seq<ItemView>,
    pub refs: Seq<IrefView>,
    pub props: Seq<PropertyView>,
    pub primary_id: u32,
    pub pitm_version: u8,
    pub iinf_version: u8,
}

impl View for ParsedMeta {
    type V = MetaView;

    open spec fn view(&self) -> MetaView {
        MetaView {
            iloc_entries: views(self.iloc_entries@),
            ipma_entries: views(self.ipma_entries@),
            ipma_flags: self.ipma_flags,
            items: views(self.items@),
            refs: views(self.refs@),
            props: views(self.props@),
            primary_id: self.primary_id,
            pitm_version: self.pitm_version,
            iinf_version: self.iinf_version,
        }
    }
}

// ---------------------------------------------------------------------------
// Static box constants
// ---------------------------------------------------------------------------

/// ISO 21496-1 auxiliary type marker: `urn:iso:std:iso:ts:21496:-1`
pub const AUX_C_BOX: [u8; 40] = [
    0x00, 0x00, 0x00, 0x28, 0x61, 0x75, 0x78, 0x43, 0x00, 0x00, 0x00, 0x00, 0x75, 0x72, 0x6e, 0x3a,
    0x69, 0x73, 0x6f, 0x3a, 0x73, 0x74, 0x64, 0x3a, 0x69, 0x73, 0x6f, 0x3a, 0x74, 0x73, 0x3a, 0x32,
    0x31, 0x34, 0x39, 0x36, 0x3a, 0x2d, 0x31, 0x00,
];

/// Data information box with dref + url.
pub const DINF_BOX: [u8; 36] = [
    0x00, 0x00, 0x00, 0x24, 0x64, 0x69, 0x6e, 0x66, 0x00, 0x00, 0x00, 0x1c, 0x64, 0x72, 0x65, 0x66,
    0x00, 0x00, 0x00, 0x00, 0x00, 0x00, 0x00, 0x01, 0x00, 0x00, 0x00, 0x0c, 0x75, 0x72, 0x6c, 0x20,
    0x00, 0x00, 0x00, 0x01,
];

/// Image rotation box (rotation = 0).
pub const IROT_BOX: [u8; 9] = [
    0x00, 0x00, 0x00, 0x09, 0x69, 0x72, 0x6f, 0x74, 0x00,
];

/// sRGB color box (nclx: primaries=2, transfer=2, matrix=2).
pub const COLR_SRGB_BOX: [u8; 19] = [
    0x00, 0x00, 0x00, 0x13, 0x63, 0x6f, 0x6c, 0x72, 0x6e, 0x63, 0x6c, 0x78, 0x00, 0x02, 0x00, 0x02,
    0x00, 0x02, 0x80,
];

/// BT.2020 PQ color box (nclx: primaries=9, transfer=16, matrix=9).
pub const COLR_BT2020_PQ_BOX: [u8; 19] = [
    0x00, 0x00, 0x00, 0x13, 0x63, 0x6f, 0x6c, 0x72, 0x6e, 0x63, 0x6c, 0x78, 0x00, 0x09, 0x00, 0x10,
    0x00, 0x09, 0x80,
];

/// Unspecified BT.601 color box (nclx: primaries=2, transfer=2, matrix=6).
/// This is the color metadata expected for RGB compatibility gain-map tiles.
pub const COLR_UNSPECIFIED_BT601_BOX: [u8; 19] = [
    0x00, 0x00, 0x00, 0x13, 0x63, 0x6f, 0x6c, 0x72, 0x6e, 0x63, 0x6c, 0x78, 0x00, 0x02, 0x00, 0x02,
    0x00, 0x06, 0x80,
];

/// Pixel information: 1 channel × 8 bits.
pub const PIXI_MONO8_BOX: [u8; 14] = [
    0x00, 0x00, 0x00, 0x0e, 0x70, 0x69, 0x78, 0x69, 0x00, 0x00, 0x00, 0x00, 0x01, 0x08,
];

/// Pixel information: 3 channels × 8 bits.
pub const PIXI_RGB8_BOX: [u8; 16] = [
    0x00, 0x00, 0x00, 0x10, 0x70, 0x69, 0x78, 0x69, 0x00, 0x00, 0x00, 0x00, 0x03, 0x08, 0x08, 0x08,
];

/// Pixel information: 3 channels × 10 bits.
pub const PIXI_RGB10_BOX: [u8; 16] = [
    0x00, 0x00, 0x00, 0x10, 0x70, 0x69, 0x78, 0x69, 0x00, 0x00, 0x00, 0x00, 0x03, 0x0a, 0x0a, 0x0a,
];

/// The letters of the ISO 21496-1 auxiliary type.
pub const GAIN_MAP_URN: [u8; 27] = [
    0x75, 0x72, 0x6e, 0x3a, 0x69, 0x73, 0x6f, 0x3a, 0x73, 0x74, 0x64, 0x3a, 0x69, 0x73, 0x6f, 0x3a,
    0x74, 0x73, 0x3a, 0x32, 0x31, 0x34, 0x39, 0x36, 0x3a, 0x2d, 0x31,
];

/// The brands that mark a file as an ISO 21496-1 image: `tmap`, `MiHE`, `MiHB`.
pub const BRAND_TMAP: [u8; 4] = [0x74, 0x6d, 0x61, 0x70];

pub const BRAND_MIHE: [u8; 4] = [0x4d, 0x69, 0x48, 0x45];

pub const BRAND_MIHB: [u8; 4] = [0x4d, 0x69, 0x48, 0x42];

/// What follows the item type in the infe box of the gain-map XMP item: the
/// type `mime`, the name `hdrgm-xmp` and the content type `application/rdf+xml`.
pub const MIME_XMP_NAME: [u8; 34] = [
    0x6d, 0x69, 0x6d, 0x65, 0x68, 0x64, 0x72, 0x67, 0x6d, 0x2d, 0x78, 0x6d, 0x70, 0x00, 0x61, 0x70,
    0x70, 0x6c, 0x69, 0x63, 0x61, 0x74, 0x69, 0x6f, 0x6e, 0x2f, 0x72, 0x64, 0x66, 0x2b, 0x78, 0x6d,
    0x6c, 0x00,
];

// ---------------------------------------------------------------------------
// Integers
// ---------------------------------------------------------------------------

/// Read a big-endian u16 at `offset`.
pub fn read_u16be(data: &[u8], offset: usize) -> (r: u16)
    requires
        offset + 2 <= data.len(),
    ensures
        r == be16(data@, offset as int),
{
    read16(data, offset, false)
}

/// Read a big-endian u32 at `offset`.
pub fn read_u32be(data: &[u8], offset: usize) -> (r: u32)
    requires
        offset + 4 <= data.len(),
    ensures
        r == be32(data@, offset as int),
{
    read32(data, offset, false)
}

/// Read a big-endian u64 at `offset`.
pub fn read_u64be(data: &[u8], offset: usize) -> (r: u64)
    requires
        offset + 8 <= data.len(),
    ensures
        r == be64(data@, offset as int),
{
    read32(data, offset, false) as u64 * 0x1_0000_0000 + read32(data, offset + 4, false) as u64
}

/// Append a big-endian u16 to `out`.
pub fn write_u16be(value: u16, out: &mut Vec<u8>)
    ensures
        final(out)@ == old(out)@ + enc16(value as int),
{
    push16(out, value);
}

/// Append a big-endian u32 to `out`.
pub fn write_u32be(value: u32, out: &mut Vec<u8>)
    ensures
        final(out)@ == old(out)@ + enc32(value as int),
{
    push32(out, value);
}

/// Append a big-endian i32 to `out`.
pub fn write_i32be(value: i32, out: &mut Vec<u8>)
    ensures
        final(out)@ == old(out)@ + enc32(value as int),
{
    if value >= 0 {
        push32(out, value as u32);
    } else {
        proof {
            lemma_enc32_low_bits(value as int);
        }
        push32(out, (value as i64 + 0x1_0000_0000) as u32);
    }
}

// ---------------------------------------------------------------------------
// Box construction
// ---------------------------------------------------------------------------

/// A box: its size in 32 bits, its type and its payload.
#[verifier::opaque]
pub open spec fn box_bytes(btype: Seq<u8>, payload: Seq<u8>) -> Seq<u8> {
    enc32(payload.len() as int + 8) + btype + payload
}

/// Build an ISOBMFF box: `[size:4][type:4][payload]`.
pub fn make_box(btype: &[u8; 4], payload: &[u8]) -> (r: Vec<u8>)
    ensures
        r@ == box_bytes(btype@, payload@),
{
    reveal(box_bytes);
    let mut out: Vec<u8> = Vec::new();
    push32_sum(&mut out, payload.len(), 8);
    append(&mut out, btype.as_slice());
    append(&mut out, payload);
    assert(out@ =~= box_bytes(btype@, payload@));
    out
}

/// Build an `irot` box from counter-clockwise quarter turns.
pub fn make_irot_box(quarter_turns_ccw: u8) -> (r: Vec<u8>)
    ensures
        r@ == irot_bytes(quarter_turns_ccw as int),
{
    let payload: [u8; 1] = [quarter_turns_ccw % 4];
    assert(payload@ =~= seq![(quarter_turns_ccw % 4) as u8]);
    make_box(&IROT, payload.as_slice())
}

/// An `irot` box.
pub open spec fn irot_bytes(turns: int) -> Seq<u8> {
    box_bytes(IROT@, seq![(turns % 4) as u8])
}

/// Whether a brand stands among the compatible brands of an ftyp payload.
pub open spec fn has_brand(payload: Seq<u8>, brand: Seq<u8>) -> bool {
    exists|k: int| 2 <= k && 4 * k + 4 <= payload.len() && #[trigger] occurs_at(payload, brand, 4 * k)
}

/// `brand`, where `payload` does not list it yet.
pub open spec fn missing_brand(payload: Seq<u8>, brand: Seq<u8>) -> Seq<u8> {
    if has_brand(payload, brand) {
        Seq::empty()
    } else {
        brand
    }
}

/// The ftyp box with the ISO 21496-1 brands that the payload lacks.
pub open spec fn ftyp_bytes(payload: Seq<u8>) -> Seq<u8> {
    box_bytes(
        FTYP@,
        payload + missing_brand(payload, BRAND_TMAP@) + missing_brand(payload, BRAND_MIHE@)
            + missing_brand(payload, BRAND_MIHB@),
    )
}

fn lists_brand(payload: &[u8], brand: &[u8; 4]) -> (r: bool)
    ensures
        r == has_brand(payload@, brand@),
{
    let mut at: usize = 8;
    let mut k: usize = 2;
    while at <= payload.len() && payload.len() - at >= 4
        invariant
            at == 4 * k,
            k >= 2,
            at <= payload.len() + 8,
            forall|j: int| 2 <= j < k ==> !#[trigger] occurs_at(payload@, brand@, 4 * j),
        decreases payload@.len() + 8 - at,
    {
        if matches_at(payload, brand.as_slice(), at) {
            assert(occurs_at(payload@, brand@, 4 * (k as int)));
            return true;
        }
        at = at + 4;
        k = k + 1;
    }
    proof {
        if has_brand(payload@, brand@) {
            let j = choose|j: int|
                2 <= j && 4 * j + 4 <= payload@.len() && #[trigger] occurs_at(payload@, brand@, 4 * j);
            assert(j < k);
        }
    }
    false
}

/// Build the ftyp box with required brands appended.
pub fn make_ftyp_box(original_ftyp_payload: &[u8]) -> (r: Vec<u8>)
    requires
        original_ftyp_payload@.len() >= 8,
    ensures
        r@ == ftyp_bytes(original_ftyp_payload@),
{
    let mut payload: Vec<u8> = copy_range(original_ftyp_payload, 0, original_ftyp_payload.len());
    let ghost p = original_ftyp_payload@;
    assert(payload@ =~= p);
    if !lists_brand(original_ftyp_payload, &BRAND_TMAP) {
        append(&mut payload, BRAND_TMAP.as_slice());
    }
    assert(payload@ =~= p + missing_brand(p, BRAND_TMAP@));
    if !lists_brand(original_ftyp_payload, &BRAND_MIHE) {
        append(&mut payload, BRAND_MIHE.as_slice());
    }
    assert(payload@ =~= p + missing_brand(p, BRAND_TMAP@) + missing_brand(p, BRAND_MIHE@));
    if !lists_brand(original_ftyp_payload, &BRAND_MIHB) {
        append(&mut payload, BRAND_MIHB.as_slice());
    }
    assert(payload@ =~= p + missing_brand(p, BRAND_TMAP@) + missing_brand(p, BRAND_MIHE@)
        + missing_brand(p, BRAND_MIHB@));
    make_box(&FTYP, payload.as_slice())
}

/// An item number as wide as the version of the box asks for.
pub open spec fn id_bytes(id: int, wide: bool) -> Seq<u8> {
    if wide {
        enc32(id)
    } else {
        enc16(id)
    }
}

fn push_id(out: &mut Vec<u8>, id: u32, wide: bool)
    ensures
        final(out)@ == old(out)@ + id_bytes(id as int, wide),
{
    if wide {
        push32(out, id);
    } else {
        push16_of(out, id as u64);
    }
}

/// The version byte and three zero flag bytes of a full box.
pub open spec fn full_head(version: u8) -> Seq<u8> {
    seq![version, 0u8, 0u8, 0u8]
}

/// A pitm box.
pub open spec fn pitm_bytes(version: u8, primary_id: int) -> Seq<u8> {
    box_bytes(PITM@, full_head(version) + id_bytes(primary_id, version >= 1))
}

/// Build the pitm box.
pub fn make_pitm_box(version: u8, primary_id: u32) -> (r: Vec<u8>)
    ensures
        r@ == pitm_bytes(version, primary_id as int),
{
    let mut payload: Vec<u8> = vec![version, 0u8, 0u8, 0u8];
    push_id(&mut payload, primary_id, version >= 1);
    assert(payload@ =~= full_head(version) + id_bytes(primary_id as int, version >= 1));
    make_box(&PITM, payload.as_slice())
}

/// The bytes themselves.
pub open spec fn as_is() -> spec_fn(Seq<u8>) -> Seq<u8> {
    |b: Seq<u8>| b
}

/// An iinf box.
pub open spec fn iinf_bytes(version: u8, infes: Seq<Seq<u8>>) -> Seq<u8> {
    box_bytes(
        IINF@,
        full_head(version) + id_bytes(infes.len() as int, version >= 1) + flat(infes, as_is()),
    )
}

/// Append each of `parts` to `out`.
pub fn append_all(out: &mut Vec<u8>, parts: &[Vec<u8>])
    ensures
        final(out)@ == old(out)@ + flat(views(parts@), as_is()),
{
    let mut i: usize = 0;
    assert(views(parts@).take(0) =~= Seq::empty());
    assert(out@ =~= old(out)@ + flat(views(parts@).take(0), as_is()));
    while i < parts.len()
        invariant
            i <= parts@.len(),
            out@ == old(out)@ + flat(views(parts@).take(i as int), as_is()),
        decreases parts@.len() - i,
    {
        append(out, parts[i].as_slice());
        proof {
            lemma_flat_take(views(parts@), as_is(), i as int);
        }
        i = i + 1;
        assert(out@ =~= old(out)@ + flat(views(parts@).take(i as int), as_is()));
    }
    assert(views(parts@).take(i as int) =~= views(parts@));
}

/// Build the iinf box from raw infe entries.
pub fn make_iinf_box(version: u8, infes: &[Vec<u8>]) -> (r: Vec<u8>)
    ensures
        r@ == iinf_bytes(version, views(infes@)),
{
    let mut payload: Vec<u8> = vec![version, 0u8, 0u8, 0u8];
    let count: u64 = infes.len() as u64;
    if version >= 1 {
        push32_of(&mut payload, count);
    } else {
        push16_of(&mut payload, count);
    }
    append_all(&mut payload, infes);
    assert(payload@ =~= full_head(version) + id_bytes(infes@.len() as int, version >= 1) + flat(
        views(infes@),
        as_is(),
    ));
    make_box(&IINF, payload.as_slice())
}

/// The version, flags, item number and protection index of an infe box.
pub open spec fn infe_head(item_id: int, flags: int) -> Seq<u8> {
    seq![2u8] + enc24(flags) + enc16(item_id) + enc16(0)
}

/// An infe box for an item without a content type.
pub open spec fn infe_bytes(item_id: int, itype: Seq<char>, flags: int) -> Seq<u8> {
    box_bytes(INFE@, infe_head(item_id, flags) + encode_utf8(itype) + seq![0u8])
}

/// The infe box of the gain-map XMP item.
pub open spec fn mime_infe_bytes(item_id: int, flags: int) -> Seq<u8> {
    box_bytes(INFE@, infe_head(item_id, flags) + MIME_XMP_NAME@ + seq![0u8])
}

fn infe_start(item_id: u32, flags: u32) -> (r: Vec<u8>)
    ensures
        r@ == infe_head(item_id as int, flags as int),
{
    let mut payload: Vec<u8> = vec![2u8];
    push24(&mut payload, flags);
    push16_of(&mut payload, item_id as u64);
    push16(&mut payload, 0);
    assert(payload@ =~= infe_head(item_id as int, flags as int));
    payload
}

/// Build an infe box for item types like hvc1, grid, tmap, jpeg.
pub fn make_infe_box(item_id: u32, itype: &str, flags: u32) -> (r: Vec<u8>)
    ensures
        r@ == infe_bytes(item_id as int, itype@, flags as int),
{
    let mut payload: Vec<u8> = infe_start(item_id, flags);
    append(&mut payload, itype.as_bytes());
    payload.push(0u8);
    assert(payload@ =~= infe_head(item_id as int, flags as int) + encode_utf8(itype@) + seq![0u8]);
    make_box(&INFE, payload.as_slice())
}

/// Build an infe box for mime-type items (XMP).
pub fn make_mime_infe_box(item_id: u32, flags: u32) -> (r: Vec<u8>)
    ensures
        r@ == mime_infe_bytes(item_id as int, flags as int),
{
    let mut payload: Vec<u8> = infe_start(item_id, flags);
    append(&mut payload, MIME_XMP_NAME.as_slice());
    payload.push(0u8);
    assert(payload@ =~= infe_head(item_id as int, flags as int) + MIME_XMP_NAME@ + seq![0u8]);
    make_box(&INFE, payload.as_slice())
}

/// An extent with 32-bit offset and length.
pub open spec fn extent_bytes() -> spec_fn((u64, u64)) -> Seq<u8> {
    |x: (u64, u64)| enc32(x.0 as int) + enc32(x.1 as int)
}

/// An item location with 16-bit fields and 32-bit extents.
pub open spec fn iloc_entry_bytes() -> spec_fn(IlocView) -> Seq<u8> {
    |e: IlocView|
        enc16(e.item_id as int) + enc16(e.construction_method as int) + enc16(
            e.data_reference_index as int,
        ) + enc16(e.extents.len() as int) + flat(e.extents, extent_bytes())
}

/// An iloc box: version 1, 4-byte offsets and lengths, no base offset.
pub open spec fn iloc_bytes(entries: Seq<IlocView>) -> Seq<u8> {
    box_bytes(
        ILOC@,
        seq![1u8, 0u8, 0u8, 0u8, 0x44u8, 0u8] + enc16(entries.len() as int) + flat(
            entries,
            iloc_entry_bytes(),
        ),
    )
}

fn push_iloc_entry(out: &mut Vec<u8>, entry: &IlocEntry)
    ensures
        final(out)@ == old(out)@ + iloc_entry_bytes()(entry@),
{
    push16_of(out, entry.item_id as u64);
    push16(out, entry.construction_method);
    push16(out, entry.data_reference_index);
    push16_of(out, entry.extents.len() as u64);
    let ghost base = out@;
    let ghost x = entry.extents@;
    let mut i: usize = 0;
    assert(x.take(0) =~= Seq::empty());
    assert(out@ =~= base + flat(x.take(0), extent_bytes()));
    while i < entry.extents.len()
        invariant
            i <= x.len(),
            x == entry.extents@,
            out@ == base + flat(x.take(i as int), extent_bytes()),
        decreases x.len() - i,
    {
        let (offset, length) = entry.extents[i];
        push32_of(out, offset);
        push32_of(out, length);
        proof {
            lemma_flat_take(x, extent_bytes(), i as int);
        }
        i = i + 1;
        assert(out@ =~= base + flat(x.take(i as int), extent_bytes()));
    }
    assert(x.take(i as int) =~= x);
    assert(out@ =~= old(out)@ + iloc_entry_bytes()(entry@));
}

/// Build the iloc box (always version 1, 4-byte offsets, 4-byte lengths).
pub fn make_iloc_box(entries: &[IlocEntry]) -> (r: Vec<u8>)
    ensures
        r@ == iloc_bytes(views(entries@)),
{
    let mut payload: Vec<u8> = vec![1u8, 0u8, 0u8, 0u8, 0x44u8, 0u8];
    push16_of(&mut payload, entries.len() as u64);
    let ghost base = payload@;
    let ghost v = views(entries@);
    let mut i: usize = 0;
    assert(v.take(0) =~= Seq::empty());
    assert(payload@ =~= base + flat(v.take(0), iloc_entry_bytes()));
    while i < entries.len()
        invariant
            i <= entries@.len(),
            v == views(entries@),
            payload@ == base + flat(v.take(i as int), iloc_entry_bytes()),
        decreases entries@.len() - i,
    {
        push_iloc_entry(&mut payload, &entries[i]);
        proof {
            lemma_flat_take(v, iloc_entry_bytes(), i as int);
        }
        i = i + 1;
        assert(payload@ =~= base + flat(v.take(i as int), iloc_entry_bytes()));
    }
    assert(v.take(i as int) =~= v);
    assert(payload@ =~= seq![1u8, 0u8, 0u8, 0u8, 0x44u8, 0u8] + enc16(entries@.len() as int) + flat(
        v,
        iloc_entry_bytes(),
    ));
    make_box(&ILOC, payload.as_slice())
}

/// An ispe box.
pub open spec fn ispe_bytes(width: int, height: int) -> Seq<u8> {
    box_bytes(ISPE@, full_head(0) + enc32(width) + enc32(height))
}

/// Build the ispe (image spatial extents) box.
pub fn make_ispe_box(width: u32, height: u32) -> (r: Vec<u8>)
    ensures
        r@ == ispe_bytes(width as int, height as int),
{
    let mut payload: Vec<u8> = vec![0u8, 0u8, 0u8, 0u8];
    push32(&mut payload, width);
    push32(&mut payload, height);
    assert(payload@ =~= full_head(0) + enc32(width as int) + enc32(height as int));
    make_box(&ISPE, payload.as_slice())
}

/// Whether a box is a complete `ispe` property.
pub open spec fn is_ispe(ispe: Seq<u8>) -> bool {
    ispe.len() >= 20 && occurs_at(ispe, ISPE@, 4)
}

/// Read the dimensions from a complete `ispe` property box.
pub fn ispe_dimensions(ispe: &[u8]) -> (r: Result<(u32, u32), String>)
    ensures
        r is Ok <==> is_ispe(ispe@),
        r matches Ok(d) ==> d.0 == be32(ispe@, 12) && d.1 == be32(ispe@, 16),
        r matches Err(e) ==> e@ == "invalid ispe property"@,
{
    if ispe.len() < 20 || !matches_at(ispe, ISPE.as_slice(), 4) {
        return Err("invalid ispe property".to_string());
    }
    Ok((read_u32be(ispe, 12), read_u32be(ispe, 16)))
}

/// Whether a box is a complete `irot` property.
pub open spec fn is_irot(irot: Seq<u8>) -> bool {
    irot.len() >= 9 && occurs_at(irot, IROT@, 4)
}

/// Read the counter-clockwise quarter-turn count from a complete `irot`
/// property box.
pub fn irot_quarter_turns(irot: &[u8]) -> (r: Result<u8, String>)
    ensures
        r is Ok <==> is_irot(irot@),
        r matches Ok(t) ==> t == irot@[8] % 4,
        r matches Err(e) ==> e@ == "invalid irot property"@,
{
    if irot.len() < 9 || !matches_at(irot, IROT.as_slice(), 4) {
        return Err("invalid irot property".to_string());
    }
    Ok(irot[8] % 4)
}

/// Build the tmap `ispe` geometry expected by ImageIO: the primary image's
/// storage dimensions, whatever its rotation.
pub fn make_imageio_canonical_tmap_ispe_box(primary_ispe: &[u8], _irot: &[u8]) -> (r: Result<
    Vec<u8>,
    String,
>)
    ensures
        r is Ok <==> is_ispe(primary_ispe@),
        r matches Ok(b) ==> b@ == ispe_bytes(be32(primary_ispe@, 12), be32(primary_ispe@, 16)),
        r matches Err(e) ==> e@ == "invalid ispe property"@,
{
    match ispe_dimensions(primary_ispe) {
        Ok((width, height)) => Ok(make_ispe_box(width, height)),
        Err(e) => Err(e),
    }
}

/// Item numbers, each as wide as the version of the box asks for.
pub open spec fn ids_bytes(wide: bool) -> spec_fn(u32) -> Seq<u8> {
    |id: u32| id_bytes(id as int, wide)
}

/// A reference box: the first four bytes of its type, the item that refers and
/// the items that it refers to.
pub open spec fn iref_entry_bytes(rtype: Seq<char>, from: int, to: Seq<u32>, wide: bool) -> Seq<u8> {
    box_bytes(
        encode_utf8(rtype).take(4),
        id_bytes(from, wide) + enc16(to.len() as int) + flat(to, ids_bytes(wide)),
    )
}

/// Build a single iref reference entry.
pub fn make_iref_entry(rtype: &str, from: u32, to: &[u32], id_size_4: bool) -> (r: Vec<u8>)
    requires
        encode_utf8(rtype@).len() >= 4,
    ensures
        r@ == iref_entry_bytes(rtype@, from as int, to@, id_size_4),
{
    let mut payload: Vec<u8> = Vec::new();
    push_id(&mut payload, from, id_size_4);
    push16_of(&mut payload, to.len() as u64);
    let ghost base = payload@;
    let mut i: usize = 0;
    assert(to@.take(0) =~= Seq::empty());
    assert(payload@ =~= base + flat(to@.take(0), ids_bytes(id_size_4)));
    while i < to.len()
        invariant
            i <= to@.len(),
            payload@ == base + flat(to@.take(i as int), ids_bytes(id_size_4)),
        decreases to@.len() - i,
    {
        push_id(&mut payload, to[i], id_size_4);
        proof {
            lemma_flat_take(to@, ids_bytes(id_size_4), i as int);
        }
        i = i + 1;
        assert(payload@ =~= base + flat(to@.take(i as int), ids_bytes(id_size_4)));
    }
    assert(to@.take(i as int) =~= to@);
    assert(payload@ =~= id_bytes(from as int, id_size_4) + enc16(to@.len() as int) + flat(
        to@,
        ids_bytes(id_size_4),
    ));
    let b: &[u8] = rtype.as_bytes();
    let btype: [u8; 4] = [b[0], b[1], b[2], b[3]];
    assert(btype@ =~= encode_utf8(rtype@).take(4));
    make_box(&btype, payload.as_slice())
}

/// A reference rule as a box.
pub open spec fn iref_rule_bytes(wide: bool) -> spec_fn(IrefView) -> Seq<u8> {
    |r: IrefView| iref_entry_bytes(r.rtype, r.from as int, r.to, wide)
}

/// An iref box.
pub open spec fn iref_bytes(version: u8, refs: Seq<IrefView>) -> Seq<u8> {
    box_bytes(IREF@, full_head(version) + flat(refs, iref_rule_bytes(version >= 1)))
}

/// Whether every reference type has the four bytes that a box type takes.
pub open spec fn refs_named(refs: Seq<IrefView>) -> bool {
    forall|i: int| 0 <= i < refs.len() ==> encode_utf8((#[trigger] refs[i]).rtype).len() >= 4
}

/// Build the iref full box containing multiple reference entries.
pub fn make_iref_full_box(version: u8, refs: &[IrefEntry]) -> (r: Vec<u8>)
    requires
        refs_named(views(refs@)),
    ensures
        r@ == iref_bytes(version, views(refs@)),
{
    let id_size_4: bool = version >= 1;
    let mut payload: Vec<u8> = vec![version, 0u8, 0u8, 0u8];
    let ghost base = payload@;
    let ghost v = views(refs@);
    let mut i: usize = 0;
    assert(v.take(0) =~= Seq::empty());
    assert(payload@ =~= base + flat(v.take(0), iref_rule_bytes(id_size_4)));
    while i < refs.len()
        invariant
            i <= refs@.len(),
            v == views(refs@),
            refs_named(v),
            payload@ == base + flat(v.take(i as int), iref_rule_bytes(id_size_4)),
        decreases refs@.len() - i,
    {
        assert(v[i as int] == refs@[i as int]@);
        let entry: Vec<u8> = make_iref_entry(
            refs[i].rtype.as_str(),
            refs[i].from,
            refs[i].to.as_slice(),
            id_size_4,
        );
        append(&mut payload, entry.as_slice());
        proof {
            lemma_flat_take(v, iref_rule_bytes(id_size_4), i as int);
        }
        i = i + 1;
        assert(payload@ =~= base + flat(v.take(i as int), iref_rule_bytes(id_size_4)));
    }
    assert(v.take(i as int) =~= v);
    assert(payload@ =~= full_head(version) + flat(v, iref_rule_bytes(id_size_4)));
    make_box(&IREF, payload.as_slice())
}

/// A property association: the essential bit and the property number.
pub open spec fn assoc_bytes(wide: bool) -> spec_fn((u32, bool)) -> Seq<u8> {
    |a: (u32, bool)|
        if wide {
            enc16(
                if a.1 {
                    0x8000 + a.0 as int % 0x8000
                } else {
                    a.0 as int
                },
            )
        } else {
            seq![
                if a.1 {
                    (0x80 + a.0 as int % 0x80) as u8
                } else {
                    (a.0 as int % 0x100) as u8
                },
            ]
        }
}

/// An ipma entry.
pub open spec fn ipma_entry_bytes(item_id: int, assocs: Seq<(u32, bool)>, flags: int) -> Seq<u8> {
    let wide = flags % 2 == 1;
    id_bytes(item_id, wide) + seq![(assocs.len() % 0x100) as u8] + flat(assocs, assoc_bytes(wide))
}

/// Build a single ipma entry.
pub fn make_ipma_entry(item_id: u32, assocs: &[(u32, bool)], flags: u32) -> (r: Vec<u8>)
    ensures
        r@ == ipma_entry_bytes(item_id as int, assocs@, flags as int),
{
    let use_large: bool = flags % 2 == 1;
    let mut out: Vec<u8> = Vec::new();
    push_id(&mut out, item_id, use_large);
    out.push((assocs.len() % 0x100) as u8);
    let ghost base = out@;
    let mut i: usize = 0;
    assert(assocs@.take(0) =~= Seq::empty());
    assert(out@ =~= base + flat(assocs@.take(0), assoc_bytes(use_large)));
    while i < assocs.len()
        invariant
            i <= assocs@.len(),
            out@ == base + flat(assocs@.take(i as int), assoc_bytes(use_large)),
        decreases assocs@.len() - i,
    {
        let (index, essential) = assocs[i];
        if use_large {
            if essential {
                push16(&mut out, (0x8000 + index % 0x8000) as u16);
            } else {
                push16_of(&mut out, index as u64);
            }
        } else if essential {
            out.push((0x80 + index % 0x80) as u8);
        } else {
            out.push((index % 0x100) as u8);
        }
        proof {
            lemma_flat_take(assocs@, assoc_bytes(use_large), i as int);
        }
        i = i + 1;
        assert(out@ =~= base + flat(assocs@.take(i as int), assoc_bytes(use_large)));
    }
    assert(assocs@.take(i as int) =~= assocs@);
    assert(out@ =~= ipma_entry_bytes(item_id as int, assocs@, flags as int));
    out
}

/// A grpl box with one altr group of the tmap and the primary item.
pub open spec fn grpl_altr_bytes(group_id: int, tmap_id: int, primary_id: int) -> Seq<u8> {
    box_bytes(
        GRPL@,
        box_bytes(
            ALTR@,
            full_head(0) + enc32(group_id) + enc32(2) + enc32(tmap_id) + enc32(primary_id),
        ),
    )
}

/// Build the grpl/altr box (entity group for alternate renditions).
pub fn make_grpl_altr_box(group_id: u32, tmap_id: u32, primary_id: u32) -> (r: Vec<u8>)
    ensures
        r@ == grpl_altr_bytes(group_id as int, tmap_id as int, primary_id as int),
{
    let mut altr_payload: Vec<u8> = vec![0u8, 0u8, 0u8, 0u8];
    push32(&mut altr_payload, group_id);
    push32(&mut altr_payload, 2);
    push32(&mut altr_payload, tmap_id);
    push32(&mut altr_payload, primary_id);
    assert(altr_payload@ =~= full_head(0) + enc32(group_id as int) + enc32(2) + enc32(
        tmap_id as int,
    ) + enc32(primary_id as int));
    let grpl_child: Vec<u8> = make_box(&ALTR, altr_payload.as_slice());
    make_box(&GRPL, grpl_child.as_slice())
}

/// Build a clli (content light level information) box.
pub fn make_clli_box(max_content_light_level: u32, max_pic_average_light_level: u32) -> (r: Vec<u8>)
    ensures
        r@ == box_bytes(
            CLLI@,
            enc16(max_content_light_level as int) + enc16(max_pic_average_light_level as int),
        ),
{
    let mut payload: Vec<u8> = Vec::new();
    push16_of(&mut payload, max_content_light_level as u64);
    push16_of(&mut payload, max_pic_average_light_level as u64);
    assert(payload@ =~= enc16(max_content_light_level as int) + enc16(
        max_pic_average_light_level as int,
    ));
    make_box(&CLLI, payload.as_slice())
}

/// The compact ImageGrid payload: version, flags, rows and columns less one,
/// output width and height.
pub open spec fn grid_payload(rows: int, cols: int, width: int, height: int) -> Seq<u8> {
    seq![0u8, 0u8, ((rows - 1) % 0x100) as u8, ((cols - 1) % 0x100) as u8] + enc16(width) + enc16(height)
}

/// Build a grid box for HEVC tile grids (ISOBMFF ImageGrid).
/// `output_width` and `output_height` are the composed image dimensions.
/// `cols` and `rows` define the grid layout.
pub fn make_grid_box(
    _tile_width: u32,
    _tile_height: u32,
    rows: u32,
    cols: u32,
    output_width: u32,
    output_height: u32,
) -> (r: Vec<u8>)
    requires
        rows >= 1,
        cols >= 1,
    ensures
        r@ == box_bytes(
            GRID@,
            grid_payload(rows as int, cols as int, output_width as int, output_height as int),
        ),
{
    let mut payload: Vec<u8> = vec![
        0u8,
        0u8,
        ((rows - 1) % 0x100) as u8,
        ((cols - 1) % 0x100) as u8,
    ];
    push16_of(&mut payload, output_width as u64);
    push16_of(&mut payload, output_height as u64);
    assert(payload@ =~= grid_payload(
        rows as int,
        cols as int,
        output_width as int,
        output_height as int,
    ));
    make_box(&GRID, payload.as_slice())
}

// ---------------------------------------------------------------------------
// Box parsing
// ---------------------------------------------------------------------------

/// The box that starts at `pos`, if one lies complete before `end`.
pub open spec fn box_at(s: Seq<u8>, pos: int, end: int) -> Option<BoxView> {
    if pos + 8 > end || (be32(s, pos) == 1 && pos + 16 > end) {
        None
    } else {
        let (size, header): (int, int) = if be32(s, pos) == 1 {
            (be64(s, pos + 8), 16)
        } else if be32(s, pos) == 0 {
            (end - pos, 8)
        } else {
            (be32(s, pos), 8)
        };
        if size < header || pos + size > end {
            None
        } else {
            Some(
                BoxView {
                    btype: s.subrange(pos + 4, pos + 8),
                    data_start: pos + header,
                    data_end: pos + size,
                    box_start: pos,
                    size,
                },
            )
        }
    }
}

/// The boxes that follow each other from `pos` on, up to the first place before
/// `end` where no complete box stands.
pub open spec fn boxes_in(s: Seq<u8>, pos: int, end: int) -> Seq<BoxView>
    decreases end - pos,
{
    match box_at(s, pos, end) {
        Some(b) => seq![b] + boxes_in(s, b.data_end, end),
        None => Seq::empty(),
    }
}

/// Whether a box lies in a buffer of `len` bytes, its header before its payload.
pub open spec fn box_within(b: BoxView, len: int) -> bool {
    &&& 0 <= b.box_start
    &&& b.box_start + 8 <= b.data_start <= b.data_end
    &&& b.data_end == b.box_start + b.size
    &&& b.data_end <= len
    &&& b.btype.len() == 4
}

/// Every box that stands before `end` lies in the buffer.
pub proof fn lemma_boxes_within(s: Seq<u8>, pos: int, end: int)
    requires
        0 <= pos,
        end <= s.len(),
    ensures
        forall|i: int|
            #![trigger boxes_in(s, pos, end)[i]]
            0 <= i < boxes_in(s, pos, end).len() ==> box_within(
                boxes_in(s, pos, end)[i],
                s.len() as int,
            ) && boxes_in(s, pos, end)[i].data_end <= end && pos <= boxes_in(s, pos, end)[i].box_start,
    decreases end - pos,
{
    match box_at(s, pos, end) {
        Some(b) => {
            lemma_boxes_within(s, b.data_end, end);
            let rest = boxes_in(s, b.data_end, end);
            assert forall|i: int| 0 <= i < boxes_in(s, pos, end).len() implies box_within(
                #[trigger] boxes_in(s, pos, end)[i],
                s.len() as int,
            ) && boxes_in(s, pos, end)[i].data_end <= end && pos <= boxes_in(
                s,
                pos,
                end,
            )[i].box_start by {
                if i > 0 {
                    assert(boxes_in(s, pos, end)[i] == rest[i - 1]);
                }
            }
        },
        None => {},
    }
}

/// Iterate over top-level ISOBMFF boxes in `data[start..end]`.
pub fn parse_boxes(data: &[u8], start: usize, end: usize) -> (r: Vec<BoxHeader>)
    requires
        end <= data.len(),
    ensures
        views(r@) == boxes_in(data@, start as int, end as int),
        forall|i: int|
            0 <= i < r@.len() ==> box_within((#[trigger] r@[i])@, data@.len() as int)
                && r@[i].data_end <= end && start <= r@[i].box_start,
{
    let mut result: Vec<BoxHeader> = Vec::new();
    let mut pos: usize = start;
    let ghost all = boxes_in(data@, start as int, end as int);
    assert(views(result@) + all =~= all);
    while pos <= end && end - pos >= 8
        invariant
            start <= pos,
            end <= data.len(),
            all == boxes_in(data@, start as int, end as int),
            views(result@) + boxes_in(data@, pos as int, end as int) == all,
        ensures
            views(result@) == all,
        decreases end + 8 - pos,
    {
        let small: u32 = read_u32be(data, pos);
        let btype: [u8; 4] = [data[pos + 4], data[pos + 5], data[pos + 6], data[pos + 7]];
        let mut header: usize = 8;
        let mut size: u64 = small as u64;
        if small == 1 {
            if end - pos < 16 {
                assert(views(result@) =~= all);
                break;
            }
            size = read_u64be(data, pos + 8);
            header = 16;
        } else if small == 0 {
            size = (end - pos) as u64;
        }
        if size < header as u64 || size > (end - pos) as u64 {
            assert(views(result@) =~= all);
            break;
        }
        let size: usize = size as usize;
        let ghost before = result@;
        result.push(
            BoxHeader { btype, data_start: pos + header, data_end: pos + size, box_start: pos, size },
        );
        proof {
            let b = box_at(data@, pos as int, end as int)->0;
            assert(btype@ =~= data@.subrange(pos + 4, pos + 8));
            assert(result@.last()@ == b);
            assert(views(result@) =~= views(before).push(b));
            assert(views(result@) + boxes_in(data@, pos + size, end as int) =~= views(before) + (
            seq![b] + boxes_in(data@, pos + size, end as int)));
        }
        pos = pos + size;
    }
    proof {
        lemma_boxes_within(data@, start as int, end as int);
        assert forall|i: int| 0 <= i < result@.len() implies box_within(
            (#[trigger] result@[i])@,
            data@.len() as int,
        ) && result@[i].data_end <= end && start <= result@[i].box_start by {
            assert(views(result@)[i] == result@[i]@);
        }
    }
    result
}

/// Having a given box type.
pub open spec fn of_type(btype: Seq<u8>) -> spec_fn(BoxView) -> bool {
    |b: BoxView| b.btype == btype
}

/// The first of `boxes` that has the given type.
pub open spec fn first_box(boxes: Seq<BoxView>, btype: Seq<u8>) -> Option<BoxView> {
    first_where(boxes, of_type(btype))
}

/// The first of `boxes` that has the given type.
pub fn find_in(boxes: &[BoxHeader], btype: &[u8; 4]) -> (r: Option<BoxHeader>)
    ensures
        match r {
            Some(b) => first_box(views(boxes@), btype@) == Some(b@) && exists|i: int|
                0 <= i < boxes@.len() && #[trigger] boxes@[i] == b,
            None => first_box(views(boxes@), btype@) is None,
        },
{
    let mut i: usize = 0;
    while i < boxes.len()
        invariant
            i <= boxes@.len(),
            forall|j: int| 0 <= j < i ==> (#[trigger] boxes@[j]).btype@ != btype@,
        decreases boxes@.len() - i,
    {
        if same_tag(&boxes[i].btype, btype) {
            proof {
                lemma_first_where_at(views(boxes@), of_type(btype@), i as int);
            }
            return Some(boxes[i]);
        }
        i = i + 1;
    }
    proof {
        lemma_first_where_none(views(boxes@), of_type(btype@));
    }
    None
}

/// Find the first box of a given type in `data`.
pub fn find_box(data: &[u8], btype: &[u8; 4], start: usize, end: usize) -> (r: Option<BoxHeader>)
    requires
        end <= data.len(),
    ensures
        match r {
            Some(b) => first_box(boxes_in(data@, start as int, end as int), btype@) == Some(b@),
            None => first_box(boxes_in(data@, start as int, end as int), btype@) is None,
        },
{
    find_in(parse_boxes(data, start, end).as_slice(), btype)
}

// ---------------------------------------------------------------------------
// Item locations
// ---------------------------------------------------------------------------

/// `n` bytes from `p` on shifted into a 64-bit integer, most significant first.
pub open spec fn shift_in(s: Seq<u8>, p: int, n: int, acc: int) -> int
    decreases n,
{
    if n <= 0 {
        acc
    } else {
        shift_in(s, p + 1, n - 1, (acc % 0x100_0000_0000_0000) * 0x100 + s[p] as int)
    }
}

fn read_shifted(data: &[u8], p: usize, n: usize, start: u64) -> (r: u64)
    requires
        n == 0 || p + n <= data.len(),
    ensures
        r == shift_in(data@, p as int, n as int, start as int),
{
    let mut acc: u64 = start;
    let mut i: usize = 0;
    while i < n
        invariant
            i <= n,
            n == 0 || p + n <= data.len(),
            shift_in(data@, p as int, n as int, start as int) == shift_in(
                data@,
                p + i,
                n - i,
                acc as int,
            ),
        decreases n - i,
    {
        acc = (acc % 0x100_0000_0000_0000) * 0x100 + data[p + i] as u64;
        i = i + 1;
    }
    acc
}

/// The widths that an iloc box declares for its fields.
pub struct IlocSizes {
    pub version: u8,
    pub offset_size: usize,
    pub length_size: usize,
    pub base_offset_size: usize,
    pub index_size: usize,
}

/// Where an extent lies: its offset counts from the item's base, within 64 bits.
pub open spec fn folded(base: int, offset: int) -> u64 {
    ((base + offset) % 0x1_0000_0000_0000_0000) as u64
}

/// `n` extents from `p` on, with the base offset folded in, and where they end. `None`
/// where one of them lies past the data.
pub open spec fn extents_at(
    s: Seq<u8>,
    p: int,
    n: int,
    base: int,
    z: IlocSizes,
    acc: Seq<(u64, u64)>,
) -> Option<(Seq<(u64, u64)>, int)>
    decreases n,
{
    if n <= 0 {
        Some((acc, p))
    } else {
        let q = p + z.index_size;
        let end = q + z.offset_size + z.length_size;
        if end > usize::MAX || (z.offset_size + z.length_size > 0 && end > s.len()) {
            None
        } else {
            let extent = (
                folded(base, shift_in(s, q, z.offset_size as int, 0)),
                shift_in(s, q + z.offset_size, z.length_size as int, 0) as u64,
            );
            extents_at(s, end, n - 1, base, z, acc.push(extent))
        }
    }
}

/// The item location at `p` and where it ends. `None` where it lies past the data.
pub open spec fn iloc_entry_at(s: Seq<u8>, p: int, z: IlocSizes) -> Option<(IlocView, int)> {
    let id_len: int = if z.version >= 2 {
        4
    } else {
        2
    };
    let method_len: int = if z.version == 1 || z.version == 2 {
        2
    } else {
        0
    };
    let q = p + id_len + method_len + 2;
    let r = q + z.base_offset_size;
    if r + 2 > s.len() {
        None
    } else {
        let base = shift_in(s, q, z.base_offset_size as int, 0);
        match extents_at(s, r + 2, be16(s, r), base, z, Seq::empty()) {
            None => None,
            Some((extents, end)) => Some(
                (
                    IlocView {
                        item_id: if z.version >= 2 {
                            be32(s, p) as u32
                        } else {
                            be16(s, p) as u32
                        },
                        construction_method: if method_len == 2 {
                            (be16(s, p + id_len) % 0x10) as u16
                        } else {
                            0
                        },
                        data_reference_index: be16(s, q - 2) as u16,
                        extents,
                    },
                    end,
                ),
            ),
        }
    }
}

/// `n` item locations from `p` on.
pub open spec fn iloc_entries_at(
    s: Seq<u8>,
    p: int,
    n: int,
    z: IlocSizes,
    acc: Seq<IlocView>,
) -> Option<Seq<IlocView>>
    decreases n,
{
    if n <= 0 {
        Some(acc)
    } else {
        match iloc_entry_at(s, p, z) {
            None => None,
            Some((e, end)) => iloc_entries_at(s, end, n - 1, z, acc.push(e)),
        }
    }
}

/// The widths declared by the iloc payload at `p`.
pub open spec fn iloc_sizes_at(s: Seq<u8>, p: int) -> IlocSizes {
    let version = s[p];
    IlocSizes {
        version,
        offset_size: (s[p + 4] / 0x10) as usize,
        length_size: (s[p + 4] % 0x10) as usize,
        base_offset_size: (s[p + 5] / 0x10) as usize,
        index_size: if version == 1 || version == 2 {
            (s[p + 5] % 0x10) as usize
        } else {
            0
        },
    }
}

/// The item locations of the iloc payload at `p`. `None` where the box is cut
/// short by the end of the data.
pub open spec fn iloc_at(s: Seq<u8>, p: int) -> Option<Seq<IlocView>> {
    if p + 6 > s.len() || p + 6 + (if s[p] >= 2 { 4int } else { 2int }) > s.len() {
        None
    } else {
        let z = iloc_sizes_at(s, p);
        if z.version >= 2 {
            iloc_entries_at(s, p + 10, be32(s, p + 6), z, Seq::empty())
        } else {
            iloc_entries_at(s, p + 8, be16(s, p + 6), z, Seq::empty())
        }
    }
}

fn read_extents(data: &[u8], start: usize, n: usize, base: u64, z: &IlocSizes) -> (r: Option<
    (Vec<(u64, u64)>, usize),
>)
    requires
        z.offset_size < 16,
        z.length_size < 16,
        z.index_size < 16,
    ensures
        match r {
            Some((x, end)) => extents_at(
                data@,
                start as int,
                n as int,
                base as int,
                *z,
                Seq::empty(),
            ) == Some((x@, end as int)),
            None => extents_at(data@, start as int, n as int, base as int, *z, Seq::empty()) is None,
        },
{
    let mut extents: Vec<(u64, u64)> = Vec::new();
    let mut p: usize = start;
    let mut i: usize = 0;
    while i < n
        invariant
            i <= n,
            z.offset_size < 16,
            z.length_size < 16,
            z.index_size < 16,
            extents_at(data@, start as int, n as int, base as int, *z, Seq::empty()) == extents_at(
                data@,
                p as int,
                n - i,
                base as int,
                *z,
                extents@,
            ),
        decreases n - i,
    {
        let step: usize = z.index_size + z.offset_size + z.length_size;
        if p > usize::MAX - step {
            return None;
        }
        if z.offset_size + z.length_size > 0 && p + step > data.len() {
            return None;
        }
        let q: usize = p + z.index_size;
        let offset: u64 = base.wrapping_add(read_shifted(data, q, z.offset_size, 0));
        let length: u64 = read_shifted(data, q + z.offset_size, z.length_size, 0);
        extents.push((offset, length));
        p = p + step;
        i = i + 1;
    }
    Some((extents, p))
}

fn read_iloc_entry(data: &[u8], p: usize, z: &IlocSizes) -> (r: Option<(IlocEntry, usize)>)
    requires
        z.offset_size < 16,
        z.length_size < 16,
        z.index_size < 16,
        z.base_offset_size < 16,
    ensures
        match r {
            Some((e, end)) => iloc_entry_at(data@, p as int, *z) == Some((e@, end as int)),
            None => iloc_entry_at(data@, p as int, *z) is None,
        },
{
    let id_len: usize = if z.version >= 2 {
        4
    } else {
        2
    };
    let method_len: usize = if z.version == 1 || z.version == 2 {
        2
    } else {
        0
    };
    let head: usize = id_len + method_len + 2 + z.base_offset_size + 2;
    if p > data.len() || data.len() - p < head {
        return None;
    }
    let item_id: u32 = if z.version >= 2 {
        read_u32be(data, p)
    } else {
        read_u16be(data, p) as u32
    };
    let construction_method: u16 = if method_len == 2 {
        read_u16be(data, p + id_len) % 0x10
    } else {
        0
    };
    let q: usize = p + id_len + method_len + 2;
    let data_reference_index: u16 = read_u16be(data, q - 2);
    let base: u64 = read_shifted(data, q, z.base_offset_size, 0);
    let r: usize = q + z.base_offset_size;
    let count: usize = read_u16be(data, r) as usize;
    match read_extents(data, r + 2, count, base, z) {
        None => None,
        Some((extents, end)) => Some(
            (IlocEntry { item_id, construction_method, data_reference_index, extents }, end),
        ),
    }
}

/// Parse an iloc payload; `None` where it is cut short by the end of the data.
pub fn try_parse_iloc(data: &[u8], box_hdr: &BoxHeader) -> (r: Option<Vec<IlocEntry>>)
    ensures
        match r {
            Some(v) => iloc_at(data@, box_hdr.data_start as int) == Some(views(v@)),
            None => iloc_at(data@, box_hdr.data_start as int) is None,
        },
{
    let p: usize = box_hdr.data_start;
    if p > data.len() || data.len() - p < 6 {
        return None;
    }
    let version: u8 = data[p];
    let sizes0: u8 = data[p + 4];
    let sizes1: u8 = data[p + 5];
    let z: IlocSizes = IlocSizes {
        version,
        offset_size: (sizes0 / 0x10) as usize,
        length_size: (sizes0 % 0x10) as usize,
        base_offset_size: (sizes1 / 0x10) as usize,
        index_size: if version == 1 || version == 2 {
            (sizes1 % 0x10) as usize
        } else {
            0
        },
    };
    let count_len: usize = if version >= 2 {
        4
    } else {
        2
    };
    if data.len() - p < 6 + count_len {
        return None;
    }
    let count: u32 = if version >= 2 {
        read_u32be(data, p + 6)
    } else {
        read_u16be(data, p + 6) as u32
    };
    let mut pos: usize = p + 6 + count_len;
    let mut entries: Vec<IlocEntry> = Vec::new();
    let mut i: u32 = 0;
    assert(z == iloc_sizes_at(data@, p as int));
    assert(views(entries@) =~= Seq::empty());
    while i < count
        invariant
            i <= count,
            p == box_hdr.data_start,
            z.offset_size < 16,
            z.length_size < 16,
            z.index_size < 16,
            z.base_offset_size < 16,
            iloc_at(data@, p as int) == iloc_entries_at(
                data@,
                pos as int,
                count - i,
                z,
                views(entries@),
            ),
        decreases count - i,
    {
        match read_iloc_entry(data, pos, &z) {
            None => {
                return None;
            },
            Some((entry, end)) => {
                let ghost before = entries@;
                entries.push(entry);
                assert(views(entries@) =~= views(before).push(entry@));
                pos = end;
            },
        }
        i = i + 1;
    }
    Some(entries)
}

/// Parse iloc box. Supports version 0, 1, 2.
pub fn parse_iloc(data: &[u8], box_hdr: &BoxHeader) -> (r: Result<Vec<IlocEntry>, String>)
    requires
        iloc_at(data@, box_hdr.data_start as int) is Some,
    ensures
        r is Ok,
        Some(views(r->Ok_0@)) == iloc_at(data@, box_hdr.data_start as int),
{
    Ok(try_parse_iloc(data, box_hdr).unwrap())
}

// ---------------------------------------------------------------------------
// Item infos
// ---------------------------------------------------------------------------

/// Where the name that starts at `p` ends: at its zero byte or at `end`.
pub open spec fn name_end(s: Seq<u8>, p: int, end: int) -> int
    decreases end - p,
{
    if p < end && s[p] != 0 {
        name_end(s, p + 1, end)
    } else {
        p
    }
}

/// Whether four bytes from `p` on are printable ASCII.
pub open spec fn printable_at(s: Seq<u8>, p: int) -> bool {
    forall|i: int| p <= i < p + 4 ==> 0x20 <= #[trigger] s[i] <= 0x7e
}

/// How many bytes an infe box spends on its item number before the protection
/// index: two or four where the type that follows tells which, else none are
/// skipped.
pub open spec fn infe_id_len(s: Seq<u8>, p: int, version: u8) -> int {
    if version >= 2 && p + 8 <= s.len() {
        if printable_at(s, p + 4) {
            2
        } else {
            4
        }
    } else {
        0
    }
}

/// The item info of an infe box. `None` where it is cut short by the end of the
/// data.
pub open spec fn infe_at(s: Seq<u8>, b: BoxView) -> Option<ItemView> {
    let p = b.data_start + 4;
    if b.data_start >= s.len() || p + 2 > s.len() {
        None
    } else {
        let version = s[b.data_start];
        let id_len = infe_id_len(s, p, version);
        let type_start = p + id_len + 2;
        if type_start > s.len() {
            None
        } else {
            Some(
                ItemView {
                    item_id: if id_len == 4 {
                        be32(s, p) as u32
                    } else {
                        be16(s, p) as u32
                    },
                    itype: name_text(s.subrange(type_start, name_end(s, type_start, b.data_end))),
                    flags: if version >= 2 {
                        (s[b.data_start + 1] * 0x1_0000 + s[b.data_start + 2] * 0x100 + s[b.data_start
                            + 3]) as u32
                    } else {
                        0
                    },
                    raw_infe: s.subrange(b.box_start, b.data_end),
                },
            )
        }
    }
}

/// The item infos of the infe boxes among `kids`, from the `i`-th on.
pub open spec fn infes_of(s: Seq<u8>, kids: Seq<BoxView>, i: int, acc: Seq<ItemView>) -> Option<
    Seq<ItemView>,
>
    decreases kids.len() - i,
{
    if i >= kids.len() {
        Some(acc)
    } else if kids[i].btype != INFE@ {
        infes_of(s, kids, i + 1, acc)
    } else {
        match infe_at(s, kids[i]) {
            None => None,
            Some(it) => infes_of(s, kids, i + 1, acc.push(it)),
        }
    }
}

/// The items of an iinf box. `None` where it is cut short by the end of the data.
pub open spec fn iinf_at(s: Seq<u8>, b: BoxView) -> Option<Seq<ItemView>> {
    let p = b.data_start;
    if b.data_end > s.len() || p + 4 > s.len() || p + 4 + (if s[p] >= 1 { 4int } else { 2int })
        > s.len() {
        None
    } else {
        let q = p + 4 + (if s[p] >= 1 { 4int } else { 2int });
        infes_of(s, boxes_in(s, q, b.data_end), 0, Seq::empty())
    }
}

/// Where the name that starts at `start` ends: at its zero byte or at `end`.
pub fn end_of_name(data: &[u8], start: usize, end: usize) -> (r: usize)
    requires
        end <= data.len(),
    ensures
        r == name_end(data@, start as int, end as int),
        start <= r,
        r <= end || r == start,
{
    let mut p: usize = start;
    while p < end && data[p] != 0
        invariant
            start <= p,
            p <= end || p == start,
            end <= data.len(),
            name_end(data@, start as int, end as int) == name_end(data@, p as int, end as int),
        decreases end - p,
    {
        p = p + 1;
    }
    p
}

fn is_printable(data: &[u8], p: usize) -> (r: bool)
    requires
        p + 4 <= data.len(),
    ensures
        r == printable_at(data@, p as int),
{
    let a: u8 = data[p];
    let b: u8 = data[p + 1];
    let c: u8 = data[p + 2];
    let d: u8 = data[p + 3];
    let r: bool = 0x20 <= a && a <= 0x7e && 0x20 <= b && b <= 0x7e && 0x20 <= c && c <= 0x7e && 0x20
        <= d && d <= 0x7e;
    proof {
        let s = data@;
        let q = p as int;
        if r {
            assert forall|i: int| q <= i < q + 4 implies 0x20 <= #[trigger] s[i] <= 0x7e by {
                assert(i == q || i == q + 1 || i == q + 2 || i == q + 3);
            }
        } else if printable_at(s, q) {
            assert(0x20 <= s[q] <= 0x7e && 0x20 <= s[q + 1] <= 0x7e && 0x20 <= s[q + 2] <= 0x7e && 0x20
                <= s[q + 3] <= 0x7e);
        }
    }
    r
}

fn read_infe(data: &[u8], b: &BoxHeader) -> (r: Option<ItemInfo>)
    requires
        box_within(b@, data@.len() as int),
    ensures
        match r {
            Some(it) => infe_at(data@, b@) == Some(it@),
            None => infe_at(data@, b@) is None,
        },
{
    let start: usize = b.data_start;
    if start >= data.len() || data.len() - start < 6 {
        return None;
    }
    let version: u8 = data[start];
    let p: usize = start + 4;
    let id_len: usize = if version >= 2 && data.len() - p >= 8 {
        if is_printable(data, p + 4) {
            2
        } else {
            4
        }
    } else {
        0
    };
    if data.len() - p < id_len + 2 {
        return None;
    }
    let item_id: u32 = if id_len == 4 {
        read_u32be(data, p)
    } else {
        read_u16be(data, p) as u32
    };
    let type_start: usize = p + id_len + 2;
    let type_end: usize = end_of_name(data, type_start, b.data_end);
    let itype: String = name_from_bytes(vstd::slice::slice_subrange(data, type_start, type_end));
    let flags: u32 = if version >= 2 {
        data[start + 1] as u32 * 0x1_0000 + data[start + 2] as u32 * 0x100 + data[start + 3] as u32
    } else {
        0
    };
    let raw_infe: Vec<u8> = copy_range(data, b.box_start, b.data_end);
    Some(ItemInfo { item_id, itype, flags, raw_infe })
}

/// Parse an iinf box; `None` where it is cut short by the end of the data.
pub fn try_parse_iinf(data: &[u8], box_hdr: &BoxHeader) -> (r: Option<Vec<ItemInfo>>)
    ensures
        match r {
            Some(v) => iinf_at(data@, box_hdr@) == Some(views(v@)),
            None => iinf_at(data@, box_hdr@) is None,
        },
{
    let p: usize = box_hdr.data_start;
    if box_hdr.data_end > data.len() || p > data.len() || data.len() - p < 4 {
        return None;
    }
    let count_len: usize = if data[p] >= 1 {
        4
    } else {
        2
    };
    if data.len() - p < 4 + count_len {
        return None;
    }
    let kids: Vec<BoxHeader> = parse_boxes(data, p + 4 + count_len, box_hdr.data_end);
    let mut items: Vec<ItemInfo> = Vec::new();
    let mut i: usize = 0;
    assert(views(items@) =~= Seq::empty());
    while i < kids.len()
        invariant
            i <= kids@.len(),
            forall|j: int|
                0 <= j < kids@.len() ==> box_within((#[trigger] kids@[j])@, data@.len() as int),
            iinf_at(data@, box_hdr@) == infes_of(data@, views(kids@), i as int, views(items@)),
        decreases kids@.len() - i,
    {
        assert(views(kids@)[i as int] == kids@[i as int]@);
        if same_tag(&kids[i].btype, &INFE) {
            match read_infe(data, &kids[i]) {
                None => {
                    return None;
                },
                Some(it) => {
                    let ghost before = items@;
                    items.push(it);
                    assert(views(items@) =~= views(before).push(it@));
                },
            }
        }
        i = i + 1;
    }
    Some(items)
}

/// Parse iinf box: the item infos in file order.
pub fn parse_iinf(data: &[u8], box_hdr: &BoxHeader) -> (r: Result<Vec<ItemInfo>, String>)
    requires
        iinf_at(data@, box_hdr@) is Some,
    ensures
        r is Ok,
        Some(views(r->Ok_0@)) == iinf_at(data@, box_hdr@),
{
    Ok(try_parse_iinf(data, box_hdr).unwrap())
}

// ---------------------------------------------------------------------------
// Primary item, associations, properties, references
// ---------------------------------------------------------------------------

/// An item number at `p`.
pub open spec fn id_at(s: Seq<u8>, p: int, wide: bool) -> int {
    if wide {
        be32(s, p)
    } else {
        be16(s, p)
    }
}

/// The length of an item number.
pub open spec fn id_len(wide: bool) -> int {
    if wide {
        4
    } else {
        2
    }
}

fn read_id(data: &[u8], p: usize, wide: bool) -> (r: u32)
    requires
        p + id_len(wide) <= data.len(),
    ensures
        r == id_at(data@, p as int, wide),
{
    if wide {
        read_u32be(data, p)
    } else {
        read_u16be(data, p) as u32
    }
}

/// The primary item number of the pitm payload at `p`. `None` where it is cut
/// short by the end of the data.
pub open spec fn pitm_at(s: Seq<u8>, p: int) -> Option<u32> {
    if p >= s.len() || p + 4 + id_len(s[p] >= 1) > s.len() {
        None
    } else {
        Some(id_at(s, p + 4, s[p] >= 1) as u32)
    }
}

/// Parse a pitm box; `None` where it is cut short by the end of the data.
pub fn try_parse_pitm(data: &[u8], box_hdr: &BoxHeader) -> (r: Option<u32>)
    ensures
        r == pitm_at(data@, box_hdr.data_start as int),
{
    let p: usize = box_hdr.data_start;
    if p >= data.len() {
        return None;
    }
    let wide: bool = data[p] >= 1;
    let len: usize = if wide {
        8
    } else {
        6
    };
    if data.len() - p < len {
        return None;
    }
    Some(read_id(data, p + 4, wide))
}

/// Parse pitm box. Returns the primary item ID.
pub fn parse_pitm(data: &[u8], box_hdr: &BoxHeader) -> (r: u32)
    requires
        pitm_at(data@, box_hdr.data_start as int) is Some,
    ensures
        Some(r) == pitm_at(data@, box_hdr.data_start as int),
{
    try_parse_pitm(data, box_hdr).unwrap()
}

/// The `k`-th association from `p` on.
pub open spec fn assoc_at(s: Seq<u8>, p: int, k: int, wide: bool) -> (u32, bool) {
    if wide {
        ((be16(s, p + 2 * k) % 0x8000) as u32, be16(s, p + 2 * k) >= 0x8000)
    } else {
        ((s[p + k] % 0x80) as u32, s[p + k] >= 0x80)
    }
}

/// The length of `n` associations.
pub open spec fn assocs_len(n: int, wide: bool) -> int {
    if wide {
        2 * n
    } else {
        n
    }
}

/// The ipma entry at `p` and where it ends. `None` where it lies past the data.
pub open spec fn ipma_entry_at(s: Seq<u8>, p: int, wide: bool) -> Option<(IpmaView, int)> {
    let q = p + id_len(wide) + 1;
    if q > s.len() || q + assocs_len(s[q - 1] as int, wide) > s.len() {
        None
    } else {
        let n = s[q - 1] as int;
        Some(
            (
                IpmaView {
                    item_id: id_at(s, p, wide) as u32,
                    associations: Seq::new(n as nat, |k: int| assoc_at(s, q, k, wide)),
                },
                q + assocs_len(n, wide),
            ),
        )
    }
}

/// `n` ipma entries from `p` on.
pub open spec fn ipma_entries_at(
    s: Seq<u8>,
    p: int,
    n: int,
    wide: bool,
    acc: Seq<IpmaView>,
) -> Option<Seq<IpmaView>>
    decreases n,
{
    if n <= 0 {
        Some(acc)
    } else {
        match ipma_entry_at(s, p, wide) {
            None => None,
            Some((e, end)) => ipma_entries_at(s, end, n - 1, wide, acc.push(e)),
        }
    }
}

/// The flags and entries of the ipma payload at `p`. `None` where it is cut short
/// by the end of the data.
pub open spec fn ipma_at(s: Seq<u8>, p: int) -> Option<(u32, Seq<IpmaView>)> {
    if p + 8 > s.len() {
        None
    } else {
        let flags = be32(s, p) % 0x100_0000;
        match ipma_entries_at(s, p + 8, be32(s, p + 4), flags % 2 == 1, Seq::empty()) {
            None => None,
            Some(entries) => Some((flags as u32, entries)),
        }
    }
}

fn read_ipma_entry(data: &[u8], p: usize, wide: bool) -> (r: Option<(IpmaEntry, usize)>)
    ensures
        match r {
            Some((e, end)) => ipma_entry_at(data@, p as int, wide) == Some((e@, end as int)),
            None => ipma_entry_at(data@, p as int, wide) is None,
        },
{
    let head: usize = if wide {
        5
    } else {
        3
    };
    if p > data.len() || data.len() - p < head {
        return None;
    }
    let item_id: u32 = read_id(data, p, wide);
    let q: usize = p + head;
    let n: usize = data[q - 1] as usize;
    let total: usize = if wide {
        2 * n
    } else {
        n
    };
    if data.len() - q < total {
        return None;
    }
    let mut associations: Vec<(u32, bool)> = Vec::new();
    let mut k: usize = 0;
    while k < n
        invariant
            k <= n,
            q + assocs_len(n as int, wide) <= data.len(),
            associations@ == Seq::new(k as nat, |j: int| assoc_at(data@, q as int, j, wide)),
        decreases n - k,
    {
        if wide {
            let raw: u16 = read_u16be(data, q + 2 * k);
            associations.push(((raw % 0x8000) as u32, raw >= 0x8000));
        } else {
            let raw: u8 = data[q + k];
            associations.push(((raw % 0x80) as u32, raw >= 0x80));
        }
        k = k + 1;
        assert(associations@ =~= Seq::new(k as nat, |j: int| assoc_at(data@, q as int, j, wide)));
    }
    Some((IpmaEntry { item_id, associations }, q + total))
}

/// Parse an ipma box; `None` where it is cut short by the end of the data.
pub fn try_parse_ipma(data: &[u8], box_hdr: &BoxHeader) -> (r: Option<(u32, Vec<IpmaEntry>)>)
    ensures
        match r {
            Some((flags, v)) => ipma_at(data@, box_hdr.data_start as int) == Some(
                (flags, views(v@)),
            ),
            None => ipma_at(data@, box_hdr.data_start as int) is None,
        },
{
    let p: usize = box_hdr.data_start;
    if p > data.len() || data.len() - p < 8 {
        return None;
    }
    let flags: u32 = read_u32be(data, p) % 0x100_0000;
    let wide: bool = flags % 2 == 1;
    let count: u32 = read_u32be(data, p + 4);
    let mut pos: usize = p + 8;
    let mut entries: Vec<IpmaEntry> = Vec::new();
    let mut i: u32 = 0;
    assert(views(entries@) =~= Seq::empty());
    while i < count
        invariant
            i <= count,
            p == box_hdr.data_start,
            p + 8 <= data.len(),
            flags == be32(data@, p as int) % 0x100_0000,
            wide == (flags % 2 == 1),
            count == be32(data@, p + 4),
            ipma_entries_at(data@, p + 8, count as int, wide, Seq::empty()) == ipma_entries_at(
                data@,
                pos as int,
                count - i,
                wide,
                views(entries@),
            ),
        decreases count - i,
    {
        match read_ipma_entry(data, pos, wide) {
            None => {
                return None;
            },
            Some((entry, end)) => {
                let ghost before = entries@;
                entries.push(entry);
                assert(views(entries@) =~= views(before).push(entry@));
                pos = end;
            },
        }
        i = i + 1;
    }
    Some((flags, entries))
}

/// Parse ipma box. Returns (flags, entries).
pub fn parse_ipma(data: &[u8], box_hdr: &BoxHeader) -> (r: (u32, Vec<IpmaEntry>))
    requires
        ipma_at(data@, box_hdr.data_start as int) is Some,
    ensures
        Some((r.0, views(r.1@))) == ipma_at(data@, box_hdr.data_start as int),
{
    try_parse_ipma(data, box_hdr).unwrap()
}

/// The `i`-th box of an ipco as a property.
pub open spec fn property_of(s: Seq<u8>, b: BoxView, i: int) -> PropertyView {
    PropertyView {
        index: ((i + 1) % 0x1_0000_0000) as u32,
        ptype: name_text(b.btype),
        raw: s.subrange(b.box_start, b.data_end),
    }
}

/// The properties of an iprp box, in order: `None` where it holds no ipco.
pub open spec fn properties_in(s: Seq<u8>, iprp: BoxView) -> Option<Seq<PropertyView>> {
    match first_box(boxes_in(s, iprp.data_start, iprp.data_end), IPCO@) {
        None => None,
        Some(ipco) => {
            let props = boxes_in(s, ipco.data_start, ipco.data_end);
            Some(Seq::new(props.len(), |i: int| property_of(s, props[i], i)))
        },
    }
}

fn read_property(data: &[u8], b: &BoxHeader, i: usize) -> (r: PropertyInfo)
    requires
        box_within(b@, data@.len() as int),
    ensures
        r@ == property_of(data@, b@, i as int),
{
    let index: u32 = ((i as u64 % 0x1_0000_0000 + 1) % 0x1_0000_0000) as u32;
    PropertyInfo {
        index,
        ptype: name_from_bytes(b.btype.as_slice()),
        raw: copy_range(data, b.box_start, b.data_end),
    }
}

/// Parse iprp box: extract property infos from ipco.
pub fn parse_iprp_properties(data: &[u8], iprp_box: &BoxHeader) -> (r: Result<
    Vec<PropertyInfo>,
    String,
>)
    requires
        iprp_box.data_end <= data.len(),
    ensures
        match r {
            Ok(v) => properties_in(data@, iprp_box@) == Some(views(v@)),
            Err(e) => properties_in(data@, iprp_box@) is None && e@ == "ipco not found in iprp"@,
        },
{
    let children: Vec<BoxHeader> = parse_boxes(data, iprp_box.data_start, iprp_box.data_end);
    let ipco: BoxHeader = match find_in(children.as_slice(), &IPCO) {
        Some(b) => b,
        None => {
            return Err("ipco not found in iprp".to_string());
        },
    };
    let props: Vec<BoxHeader> = parse_boxes(data, ipco.data_start, ipco.data_end);
    let mut result: Vec<PropertyInfo> = Vec::new();
    let mut i: usize = 0;
    let ghost all = boxes_in(data@, ipco.data_start as int, ipco.data_end as int);
    while i < props.len()
        invariant
            i <= props@.len(),
            views(props@) == all,
            forall|j: int|
                0 <= j < props@.len() ==> box_within((#[trigger] props@[j])@, data@.len() as int),
            views(result@) == Seq::new(i as nat, |j: int| property_of(data@, all[j], j)),
        decreases props@.len() - i,
    {
        let ghost before = result@;
        result.push(read_property(data, &props[i], i));
        i = i + 1;
        assert(result@.last()@ == property_of(data@, all[i - 1], i - 1));
        assert(views(result@) =~= views(before).push(property_of(data@, all[i - 1], i - 1)));
        assert(views(result@) =~= Seq::new(i as nat, |j: int| property_of(data@, all[j], j)));
    }
    assert(views(result@) =~= Seq::new(all.len(), |j: int| property_of(data@, all[j], j)));
    Ok(result)
}

/// The reference rule of a box of an iref. `None` where it lies past the data.
pub open spec fn iref_rule_at(s: Seq<u8>, b: BoxView, wide: bool) -> Option<IrefView> {
    let p = b.data_start + id_len(wide);
    if p + 2 > s.len() || p + 2 + be16(s, p) * id_len(wide) > s.len() {
        None
    } else {
        Some(
            IrefView {
                rtype: name_text(b.btype),
                from: id_at(s, b.data_start, wide) as u32,
                to: Seq::new(
                    be16(s, p) as nat,
                    |k: int| id_at(s, p + 2 + k * id_len(wide), wide) as u32,
                ),
            },
        )
    }
}

/// The reference rules of the boxes `kids`, from the `i`-th on.
pub open spec fn iref_rules_of(
    s: Seq<u8>,
    kids: Seq<BoxView>,
    i: int,
    wide: bool,
    acc: Seq<IrefView>,
) -> Option<Seq<IrefView>>
    decreases kids.len() - i,
{
    if i >= kids.len() {
        Some(acc)
    } else {
        match iref_rule_at(s, kids[i], wide) {
            None => None,
            Some(r) => iref_rules_of(s, kids, i + 1, wide, acc.push(r)),
        }
    }
}

/// The version and the rules of an iref box. `None` where it is cut short by the
/// end of the data.
pub open spec fn iref_at(s: Seq<u8>, b: BoxView) -> Option<(u8, Seq<IrefView>)> {
    if b.data_start >= s.len() || b.data_end > s.len() {
        None
    } else {
        let version = s[b.data_start];
        match iref_rules_of(
            s,
            boxes_in(s, b.data_start + 4, b.data_end),
            0,
            version >= 1,
            Seq::empty(),
        ) {
            None => None,
            Some(refs) => Some((version, refs)),
        }
    }
}

fn read_iref_rule(data: &[u8], b: &BoxHeader, wide: bool) -> (r: Option<IrefEntry>)
    requires
        box_within(b@, data@.len() as int),
    ensures
        match r {
            Some(e) => iref_rule_at(data@, b@, wide) == Some(e@),
            None => iref_rule_at(data@, b@, wide) is None,
        },
{
    let w: usize = if wide {
        4
    } else {
        2
    };
    if data.len() - b.data_start < w + 2 {
        return None;
    }
    let p: usize = b.data_start + w;
    let n: usize = read_u16be(data, p) as usize;
    assert(n * w == n * id_len(wide));
    assert(n * w <= 65535 * 4) by (nonlinear_arith)
        requires
            n <= 65535,
            w <= 4,
    ;
    if data.len() - p - 2 < n * w {
        return None;
    }
    let rtype: String = name_from_bytes(b.btype.as_slice());
    let from: u32 = read_id(data, b.data_start, wide);
    let mut to: Vec<u32> = Vec::new();
    let mut k: usize = 0;
    while k < n
        invariant
            k <= n,
            w == id_len(wide),
            n <= 65535,
            p + 2 + n * w <= data.len(),
            to@ == Seq::new(
                k as nat,
                |j: int| id_at(data@, p + 2 + j * id_len(wide), wide) as u32,
            ),
        decreases n - k,
    {
        assert(k * w + w <= n * w) by (nonlinear_arith)
            requires
                k < n,
        ;
        to.push(read_id(data, p + 2 + k * w, wide));
        k = k + 1;
        assert(to@ =~= Seq::new(
            k as nat,
            |j: int| id_at(data@, p + 2 + j * id_len(wide), wide) as u32,
        ));
    }
    Some(IrefEntry { rtype, from, to })
}

/// Parse an iref box; `None` where it is cut short by the end of the data.
pub fn try_parse_iref(data: &[u8], box_hdr: &BoxHeader) -> (r: Option<(u8, Vec<IrefEntry>)>)
    ensures
        match r {
            Some((version, v)) => iref_at(data@, box_hdr@) == Some((version, views(v@))),
            None => iref_at(data@, box_hdr@) is None,
        },
{
    if box_hdr.data_start >= data.len() || box_hdr.data_end > data.len() {
        return None;
    }
    let version: u8 = data[box_hdr.data_start];
    let wide: bool = version >= 1;
    let kids: Vec<BoxHeader> = if data.len() - box_hdr.data_start >= 4 {
        parse_boxes(data, box_hdr.data_start + 4, box_hdr.data_end)
    } else {
        Vec::new()
    };
    let ghost all = boxes_in(data@, box_hdr.data_start + 4, box_hdr.data_end as int);
    assert(views(kids@) =~= all);
    let mut refs: Vec<IrefEntry> = Vec::new();
    let mut i: usize = 0;
    assert(views(refs@) =~= Seq::empty());
    while i < kids.len()
        invariant
            i <= kids@.len(),
            box_hdr.data_start < data.len(),
            box_hdr.data_end <= data.len(),
            version == data@[box_hdr.data_start as int],
            wide == (version >= 1),
            views(kids@) == all,
            all == boxes_in(data@, box_hdr.data_start + 4, box_hdr.data_end as int),
            forall|j: int|
                0 <= j < kids@.len() ==> box_within((#[trigger] kids@[j])@, data@.len() as int),
            iref_rules_of(data@, all, 0, wide, Seq::empty()) == iref_rules_of(
                data@,
                all,
                i as int,
                wide,
                views(refs@),
            ),
        decreases kids@.len() - i,
    {
        assert(all[i as int] == kids@[i as int]@);
        match read_iref_rule(data, &kids[i], wide) {
            None => {
                return None;
            },
            Some(rule) => {
                let ghost before = refs@;
                refs.push(rule);
                assert(views(refs@) =~= views(before).push(rule@));
            },
        }
        i = i + 1;
    }
    Some((version, refs))
}

/// Parse iref box. Returns (version, entries).
pub fn parse_iref(data: &[u8], box_hdr: &BoxHeader) -> (r: (u8, Vec<IrefEntry>))
    requires
        iref_at(data@, box_hdr@) is Some,
    ensures
        Some((r.0, views(r.1@))) == iref_at(data@, box_hdr@),
{
    try_parse_iref(data, box_hdr).unwrap()
}

// ---------------------------------------------------------------------------
// Whole metadata
// ---------------------------------------------------------------------------

/// The boxes in a box, from `skip` bytes into its payload on.
pub fn parse_children(data: &[u8], b: &BoxHeader, skip: usize) -> (r: Vec<BoxHeader>)
    requires
        b.data_start <= data.len(),
        b.data_end <= data.len(),
    ensures
        views(r@) == boxes_in(data@, b.data_start + skip, b.data_end as int),
        forall|i: int|
            0 <= i < r@.len() ==> box_within((#[trigger] r@[i])@, data@.len() as int)
                && r@[i].data_end <= b.data_end && b.data_start + skip <= r@[i].box_start,
{
    if skip > data.len() - b.data_start {
        let none: Vec<BoxHeader> = Vec::new();
        assert(views(none@) =~= boxes_in(data@, b.data_start + skip, b.data_end as int));
        none
    } else {
        parse_boxes(data, b.data_start + skip, b.data_end)
    }
}

/// The reference rules of the iref box among `kids`, none where there is no such
/// box. `None` where it is cut short by the end of the data.
pub open spec fn refs_among(s: Seq<u8>, kids: Seq<BoxView>) -> Option<Seq<IrefView>> {
    match first_box(kids, IREF@) {
        None => Some(Seq::empty()),
        Some(b) => match iref_at(s, b) {
            None => None,
            Some((_, refs)) => Some(refs),
        },
    }
}

/// What the iloc, iinf, pitm, iprp and iref boxes say together.
pub open spec fn meta_from(
    s: Seq<u8>,
    kids: Seq<BoxView>,
    iloc: BoxView,
    iinf: BoxView,
    pitm: BoxView,
    iprp: BoxView,
) -> Option<Result<MetaView, Seq<char>>> {
    match (iloc_at(s, iloc.data_start), iinf_at(s, iinf), pitm_at(s, pitm.data_start)) {
        (Some(iloc_entries), Some(items), Some(primary_id)) => match first_box(
            boxes_in(s, iprp.data_start, iprp.data_end),
            IPMA@,
        ) {
            None => Some(Err("ipma not found in iprp"@)),
            Some(ipma) => match ipma_at(s, ipma.data_start) {
                None => None,
                Some((ipma_flags, ipma_entries)) => match properties_in(s, iprp) {
                    None => Some(Err("ipco not found in iprp"@)),
                    Some(props) => match refs_among(s, kids) {
                        None => None,
                        Some(refs) => Some(
                            Ok(
                                MetaView {
                                    iloc_entries,
                                    ipma_entries,
                                    ipma_flags,
                                    items,
                                    refs,
                                    props,
                                    primary_id,
                                    pitm_version: s[pitm.data_start],
                                    iinf_version: s[iinf.data_start],
                                },
                            ),
                        ),
                    },
                },
            },
        },
        _ => None,
    }
}

/// The metadata of a HEIC file, or what is missing. `None` where a box of it is
/// cut short by the end of the data.
pub open spec fn source_meta(s: Seq<u8>) -> Option<Result<MetaView, Seq<char>>> {
    match first_box(boxes_in(s, 0, s.len() as int), META@) {
        None => Some(Err("meta box not found"@)),
        Some(meta) => {
            let kids = boxes_in(s, meta.data_start + 4, meta.data_end);
            match first_box(kids, ILOC@) {
                None => Some(Err("iloc not found in meta"@)),
                Some(iloc) => match first_box(kids, IINF@) {
                    None => Some(Err("iinf not found in meta"@)),
                    Some(iinf) => match first_box(kids, PITM@) {
                        None => Some(Err("pitm not found in meta"@)),
                        Some(pitm) => match first_box(kids, IPRP@) {
                            None => Some(Err("iprp not found in meta"@)),
                            Some(iprp) => meta_from(s, kids, iloc, iinf, pitm, iprp),
                        },
                    },
                },
            }
        },
    }
}

fn read_refs_among(data: &[u8], kids: &[BoxHeader]) -> (r: Option<Vec<IrefEntry>>)
    ensures
        match r {
            Some(v) => refs_among(data@, views(kids@)) == Some(views(v@)),
            None => refs_among(data@, views(kids@)) is None,
        },
{
    match find_in(kids, &IREF) {
        None => {
            let none: Vec<IrefEntry> = Vec::new();
            assert(views(none@) =~= Seq::empty());
            Some(none)
        },
        Some(b) => match try_parse_iref(data, &b) {
            None => None,
            Some((_, refs)) => Some(refs),
        },
    }
}

fn read_meta_from(
    data: &[u8],
    kids: &[BoxHeader],
    iloc: &BoxHeader,
    iinf: &BoxHeader,
    pitm: &BoxHeader,
    iprp: &BoxHeader,
) -> (r: Option<Result<ParsedMeta, String>>)
    requires
        box_within(iloc@, data@.len() as int),
        box_within(iinf@, data@.len() as int),
        box_within(pitm@, data@.len() as int),
        box_within(iprp@, data@.len() as int),
    ensures
        told_some(r) == meta_from(data@, views(kids@), iloc@, iinf@, pitm@, iprp@),
{
    let iloc_entries: Vec<IlocEntry> = match try_parse_iloc(data, iloc) {
        Some(v) => v,
        None => {
            return None;
        },
    };
    let items: Vec<ItemInfo> = match try_parse_iinf(data, iinf) {
        Some(v) => v,
        None => {
            return None;
        },
    };
    let primary_id: u32 = match try_parse_pitm(data, pitm) {
        Some(v) => v,
        None => {
            return None;
        },
    };
    let iprp_kids: Vec<BoxHeader> = parse_boxes(data, iprp.data_start, iprp.data_end);
    let ipma: BoxHeader = match find_in(iprp_kids.as_slice(), &IPMA) {
        Some(b) => b,
        None => {
            return Some(Err("ipma not found in iprp".to_string()));
        },
    };
    let (ipma_flags, ipma_entries): (u32, Vec<IpmaEntry>) = match try_parse_ipma(data, &ipma) {
        Some(v) => v,
        None => {
            return None;
        },
    };
    let props: Vec<PropertyInfo> = match parse_iprp_properties(data, iprp) {
        Ok(v) => v,
        Err(e) => {
            return Some(Err(e));
        },
    };
    let refs: Vec<IrefEntry> = match read_refs_among(data, kids) {
        Some(v) => v,
        None => {
            return None;
        },
    };
    Some(
        Ok(
            ParsedMeta {
                iloc_entries,
                ipma_entries,
                ipma_flags,
                items,
                refs,
                props,
                primary_id,
                pitm_version: data[pitm.data_start],
                iinf_version: data[iinf.data_start],
            },
        ),
    )
}

/// Parse all metadata from a source HEIC file; `None` where a box of it is cut
/// short by the end of the data.
pub fn try_parse_source_meta(data: &[u8]) -> (r: Option<Result<ParsedMeta, String>>)
    ensures
        told_some(r) == source_meta(data@),
{
    let top: Vec<BoxHeader> = parse_boxes(data, 0, data.len());
    let meta: BoxHeader = match find_in(top.as_slice(), &META) {
        Some(b) => b,
        None => {
            return Some(Err("meta box not found".to_string()));
        },
    };
    let kids: Vec<BoxHeader> = parse_children(data, &meta, 4);
    let iloc: BoxHeader = match find_in(kids.as_slice(), &ILOC) {
        Some(b) => b,
        None => {
            return Some(Err("iloc not found in meta".to_string()));
        },
    };
    let iinf: BoxHeader = match find_in(kids.as_slice(), &IINF) {
        Some(b) => b,
        None => {
            return Some(Err("iinf not found in meta".to_string()));
        },
    };
    let pitm: BoxHeader = match find_in(kids.as_slice(), &PITM) {
        Some(b) => b,
        None => {
            return Some(Err("pitm not found in meta".to_string()));
        },
    };
    let iprp: BoxHeader = match find_in(kids.as_slice(), &IPRP) {
        Some(b) => b,
        None => {
            return Some(Err("iprp not found in meta".to_string()));
        },
    };
    read_meta_from(data, kids.as_slice(), &iloc, &iinf, &pitm, &iprp)
}

/// Parse all metadata from a source HEIC file.
///
/// This is the main entry point for reading an existing HEIC's ISOBMFF structure.
pub fn parse_source_meta(data: &[u8]) -> (r: Result<ParsedMeta, String>)
    requires
        source_meta(data@) is Some,
    ensures
        Some(told(r)) == source_meta(data@),
{
    try_parse_source_meta(data).unwrap()
}

// ---------------------------------------------------------------------------
// Lossy gain maps
// ---------------------------------------------------------------------------

/// Being the associations of a given item.
pub open spec fn ipma_for(item_id: u32) -> spec_fn(IpmaView) -> bool {
    |e: IpmaView| e.item_id == item_id
}

/// Being the property of a given number and type.
pub open spec fn property_is(index: u32, ptype: Seq<char>) -> spec_fn(PropertyView) -> bool {
    |p: PropertyView| p.index == index && p.ptype == ptype
}

/// The first property of type `ptype` among the associations from the `i`-th on.
pub open spec fn associated(
    props: Seq<PropertyView>,
    assocs: Seq<(u32, bool)>,
    i: int,
    ptype: Seq<char>,
) -> Option<PropertyView>
    decreases assocs.len() - i,
{
    if i >= assocs.len() {
        None
    } else {
        match first_where(props, property_is(assocs[i].0, ptype)) {
            Some(p) => Some(p),
            None => associated(props, assocs, i + 1, ptype),
        }
    }
}

/// The first property of type `ptype` that an item is associated with.
pub open spec fn item_property_view(m: MetaView, item_id: u32, ptype: Seq<char>) -> Option<
    PropertyView,
> {
    match first_where(m.ipma_entries, ipma_for(item_id)) {
        None => None,
        Some(e) => associated(m.props, e.associations, 0, ptype),
    }
}

/// The chroma format of a complete hvcC box: the low two bits of byte 16 of its
/// payload.
pub open spec fn chroma_format(hvcc: Seq<u8>) -> Option<u8> {
    if hvcc.len() < 25 || !occurs_at(hvcc, HVCC@, 4) {
        None
    } else {
        Some((hvcc[24] % 4) as u8)
    }
}

/// Whether an item is marked as an ISO 21496 gain map.
pub open spec fn is_iso_auxiliary(m: MetaView, item_id: u32) -> bool {
    item_property_view(m, item_id, "auxC"@) matches Some(p) && contains_bytes(p.raw, GAIN_MAP_URN@)
}

/// Whether an item's decoder configuration says 4:2:0.
pub open spec fn is_420(m: MetaView, item_id: u32) -> bool {
    item_property_view(m, item_id, "hvcC"@) matches Some(p) && chroma_format(p.raw) == Some(1u8)
}

/// Whether a rule is a `dimg` reference from the given item.
pub open spec fn derives(r: IrefView, from: u32) -> bool {
    r.rtype == "dimg"@ && r.from == from
}

/// Whether a rule marks its item as an ISO gain map of the primary image.
pub open spec fn marks_gain_map(m: MetaView, r: IrefView) -> bool {
    r.rtype == "auxl"@ && r.to.contains(m.primary_id) && is_iso_auxiliary(m, r.from)
}

/// Whether an item is one of the tiles that `from` is derived from.
pub open spec fn is_tile(m: MetaView, from: u32, id: u32) -> bool {
    exists|i: int|
        0 <= i < m.refs.len() && derives(#[trigger] m.refs[i], from) && m.refs[i].to.contains(id)
}

/// Whether `id` carries pixels of the gain map `from`: one of its tiles, or the
/// item itself where it has none.
pub open spec fn carries_gain_map(m: MetaView, from: u32, id: u32) -> bool {
    is_tile(m, from, id) || (id == from && forall|t: u32| !is_tile(m, from, t))
}

/// Whether some gain map of the primary image is encoded as 4:2:0.
pub open spec fn lossy_420(m: MetaView) -> bool {
    exists|i: int, id: u32|
        0 <= i < m.refs.len() && marks_gain_map(m, #[trigger] m.refs[i]) && #[trigger] carries_gain_map(
            m,
            m.refs[i].from,
            id,
        ) && is_420(m, id)
}

fn property_numbered<'a>(props: &'a Vec<PropertyInfo>, index: u32, ptype: &str) -> (r: Option<
    &'a PropertyInfo,
>)
    ensures
        match r {
            Some(p) => first_where(views(props@), property_is(index, ptype@)) == Some(p@),
            None => first_where(views(props@), property_is(index, ptype@)) is None,
        },
{
    let mut i: usize = 0;
    while i < props.len()
        invariant
            i <= props@.len(),
            forall|j: int|
                0 <= j < i ==> !((#[trigger] props@[j]).index == index && props@[j].ptype@ == ptype@),
        decreases props@.len() - i,
    {
        if props[i].index == index && same_text(props[i].ptype.as_str(), ptype) {
            proof {
                lemma_first_where_at(views(props@), property_is(index, ptype@), i as int);
            }
            return Some(&props[i]);
        }
        i = i + 1;
    }
    proof {
        lemma_first_where_none(views(props@), property_is(index, ptype@));
    }
    None
}

/// The associations of an item.
pub fn find_ipma<'a>(entries: &'a Vec<IpmaEntry>, item_id: u32) -> (r: Option<&'a IpmaEntry>)
    ensures
        match r {
            Some(e) => first_where(views(entries@), ipma_for(item_id)) == Some(e@),
            None => first_where(views(entries@), ipma_for(item_id)) is None,
        },
{
    let mut i: usize = 0;
    while i < entries.len()
        invariant
            i <= entries@.len(),
            forall|j: int| 0 <= j < i ==> (#[trigger] entries@[j]).item_id != item_id,
        decreases entries@.len() - i,
    {
        if entries[i].item_id == item_id {
            proof {
                lemma_first_where_at(views(entries@), ipma_for(item_id), i as int);
            }
            return Some(&entries[i]);
        }
        i = i + 1;
    }
    proof {
        lemma_first_where_none(views(entries@), ipma_for(item_id));
    }
    None
}

/// The first property of a type that an item is associated with.
pub fn item_property<'a>(meta: &'a ParsedMeta, item_id: u32, property_type: &str) -> (r: Option<
    &'a PropertyInfo,
>)
    ensures
        match r {
            Some(p) => item_property_view(meta@, item_id, property_type@) == Some(p@),
            None => item_property_view(meta@, item_id, property_type@) is None,
        },
{
    let entry: &IpmaEntry = match find_ipma(&meta.ipma_entries, item_id) {
        Some(e) => e,
        None => {
            return None;
        },
    };
    let mut i: usize = 0;
    while i < entry.associations.len()
        invariant
            i <= entry.associations@.len(),
            first_where(meta@.ipma_entries, ipma_for(item_id)) == Some(entry@),
            item_property_view(meta@, item_id, property_type@) == associated(
                meta@.props,
                entry.associations@,
                i as int,
                property_type@,
            ),
        decreases entry.associations@.len() - i,
    {
        match property_numbered(&meta.props, entry.associations[i].0, property_type) {
            Some(p) => {
                return Some(p);
            },
            None => {},
        }
        i = i + 1;
    }
    None
}

/// Read `chroma_format_idc` from a complete `hvcC` property box. ISO/IEC
/// 14496-15 stores it in the low two bits of byte 16 of the hvcC payload.
pub fn hvcc_chroma_format_idc(hvcc: &[u8]) -> (r: Option<u8>)
    ensures
        r == chroma_format(hvcc@),
{
    if hvcc.len() < 25 || !matches_at(hvcc, HVCC.as_slice(), 4) {
        return None;
    }
    Some(hvcc[24] % 4)
}

/// Whether an item is marked as an ISO 21496 gain map.
pub fn item_has_iso_auxc(meta: &ParsedMeta, item_id: u32) -> (r: bool)
    ensures
        r == is_iso_auxiliary(meta@, item_id),
{
    match item_property(meta, item_id, "auxC") {
        Some(p) => has_bytes(p.raw.as_slice(), GAIN_MAP_URN.as_slice()),
        None => false,
    }
}

fn item_is_420(meta: &ParsedMeta, item_id: u32) -> (r: bool)
    ensures
        r == is_420(meta@, item_id),
{
    match item_property(meta, item_id, "hvcC") {
        Some(p) => match hvcc_chroma_format_idc(p.raw.as_slice()) {
            Some(c) => c == 1,
            None => false,
        },
        None => false,
    }
}

/// Whether `ids` holds `id`.
pub fn holds_id(ids: &Vec<u32>, id: u32) -> (r: bool)
    ensures
        r == ids@.contains(id),
{
    let mut i: usize = 0;
    while i < ids.len()
        invariant
            i <= ids@.len(),
            forall|j: int| 0 <= j < i ==> ids@[j] != id,
        decreases ids@.len() - i,
    {
        if ids[i] == id {
            assert(ids@[i as int] == id);
            return true;
        }
        i = i + 1;
    }
    false
}

/// The items that `from` is derived from.
fn tiles_of(meta: &ParsedMeta, from: u32) -> (r: Vec<u32>)
    ensures
        forall|id: u32| #[trigger] r@.contains(id) <==> is_tile(meta@, from, id),
{
    let mut tiles: Vec<u32> = Vec::new();
    let ghost m = meta@;
    let mut i: usize = 0;
    while i < meta.refs.len()
        invariant
            i <= meta.refs@.len(),
            m == meta@,
            forall|id: u32| #[trigger]
                tiles@.contains(id) <==> exists|j: int|
                    0 <= j < i && derives(#[trigger] m.refs[j], from) && m.refs[j].to.contains(id),
        decreases meta.refs@.len() - i,
    {
        assert(m.refs[i as int] == meta.refs@[i as int]@);
        let ghost before = tiles@;
        if meta.refs[i].from == from && same_text(meta.refs[i].rtype.as_str(), "dimg") {
            let to: &Vec<u32> = &meta.refs[i].to;
            let mut k: usize = 0;
            while k < to.len()
                invariant
                    k <= to@.len(),
                    tiles@ == before + to@.take(k as int),
                decreases to@.len() - k,
            {
                tiles.push(to[k]);
                k = k + 1;
                assert(tiles@ =~= before + to@.take(k as int));
            }
            proof {
                assert(to@.take(k as int) =~= to@);
                assert forall|id: u32| #[trigger] tiles@.contains(id) <==> exists|j: int|
                    0 <= j < i + 1 && derives(#[trigger] m.refs[j], from) && m.refs[j].to.contains(id) by {
                    lemma_contains_sum(before, to@, id);
                    if to@.contains(id) {
                        assert(derives(m.refs[i as int], from) && m.refs[i as int].to.contains(id));
                    }
                    if before.contains(id) {
                        let j = choose|j: int|
                            0 <= j < i && derives(#[trigger] m.refs[j], from) && m.refs[j].to.contains(id);
                        assert(derives(m.refs[j], from));
                    }
                    if exists|j: int|
                        0 <= j < i + 1 && derives(#[trigger] m.refs[j], from) && m.refs[j].to.contains(
                            id,
                        ) {
                        let j = choose|j: int|
                            0 <= j < i + 1 && derives(#[trigger] m.refs[j], from)
                                && m.refs[j].to.contains(id);
                        if j < i {
                            assert(before.contains(id));
                        }
                    }
                }
            }
        } else {
            assert(!derives(m.refs[i as int], from));
        }
        i = i + 1;
    }
    tiles
}

proof fn lemma_contains_sum(a: Seq<u32>, b: Seq<u32>, id: u32)
    ensures
        (a + b).contains(id) <==> a.contains(id) || b.contains(id),
{
    if a.contains(id) {
        let i = choose|i: int| 0 <= i < a.len() && a[i] == id;
        assert((a + b)[i] == id);
    }
    if b.contains(id) {
        let i = choose|i: int| 0 <= i < b.len() && b[i] == id;
        assert((a + b)[a.len() + i] == id);
    }
    if (a + b).contains(id) {
        let i = choose|i: int| 0 <= i < (a + b).len() && (a + b)[i] == id;
        if i < a.len() {
            assert(a[i] == id);
        } else {
            assert(b[i - a.len()] == id);
        }
    }
}

/// Whether some item that carries the gain map `from` says 4:2:0.
fn gain_map_is_420(meta: &ParsedMeta, from: u32) -> (r: bool)
    ensures
        r == exists|id: u32| #[trigger] carries_gain_map(meta@, from, id) && is_420(meta@, id),
{
    let tiles: Vec<u32> = tiles_of(meta, from);
    if tiles.len() == 0 {
        assert forall|t: u32| !is_tile(meta@, from, t) by {
            assert(!tiles@.contains(t));
        }
        assert(carries_gain_map(meta@, from, from));
        return item_is_420(meta, from);
    }
    assert(tiles@.contains(tiles@[0]));
    assert(is_tile(meta@, from, tiles@[0]));
    let mut i: usize = 0;
    while i < tiles.len()
        invariant
            i <= tiles@.len(),
            forall|id: u32| #[trigger] tiles@.contains(id) <==> is_tile(meta@, from, id),
            forall|j: int| 0 <= j < i ==> !is_420(meta@, #[trigger] tiles@[j]),
        decreases tiles@.len() - i,
    {
        if item_is_420(meta, tiles[i]) {
            assert(tiles@.contains(tiles@[i as int]));
            assert(carries_gain_map(meta@, from, tiles@[i as int]));
            return true;
        }
        i = i + 1;
    }
    assert forall|id: u32| #[trigger] carries_gain_map(meta@, from, id) implies !is_420(
        meta@,
        id,
    ) by {
        assert(tiles@.contains(id));
        let j = choose|j: int| 0 <= j < tiles@.len() && tiles@[j] == id;
        assert(!is_420(meta@, tiles@[j]));
    }
    false
}

/// Whether some ISO gain map of the primary image is encoded as 4:2:0.
pub fn has_lossy_iso_gainmap_420_in_meta(meta: &ParsedMeta) -> (r: bool)
    ensures
        r == lossy_420(meta@),
{
    let ghost m = meta@;
    let mut i: usize = 0;
    while i < meta.refs.len()
        invariant
            i <= meta.refs@.len(),
            m == meta@,
            forall|j: int, id: u32|
                0 <= j < i && marks_gain_map(m, #[trigger] m.refs[j])
                    && #[trigger] carries_gain_map(m, m.refs[j].from, id) ==> !is_420(m, id),
        decreases meta.refs@.len() - i,
    {
        let r: &IrefEntry = &meta.refs[i];
        assert(m.refs[i as int] == r@);
        if same_text(r.rtype.as_str(), "auxl") && holds_id(&r.to, meta.primary_id)
            && item_has_iso_auxc(meta, r.from) {
            if gain_map_is_420(meta, r.from) {
                let ghost id = choose|id: u32| #[trigger]
                    carries_gain_map(m, r.from, id) && is_420(m, id);
                assert(marks_gain_map(m, m.refs[i as int]));
                assert(carries_gain_map(m, m.refs[i as int].from, id));
                return true;
            }
        }
        i = i + 1;
    }
    false
}

/// Return true when an existing ISO 21496 gain-map graph is encoded as
/// 4:2:0. The primary image is intentionally excluded: ordinary HEIC primary
/// images are often 4:2:0, whereas only the `auxC`/`auxl`-linked gain tiles
/// are relevant to lossy gain-map promotion.
pub fn has_lossy_iso_gainmap_420(data: &[u8]) -> (r: bool)
    requires
        lossy_gain_map(data@) is Some,
    ensures
        Some(r) == lossy_gain_map(data@),
{
    try_has_lossy_iso_gainmap_420(data).unwrap()
}

/// Whether a file has a gain map whose chroma is already subsampled. `None` where its
/// metadata is cut short by the end of the data.
pub open spec fn lossy_gain_map(s: Seq<u8>) -> Option<bool> {
    match source_meta(s) {
        None => None,
        Some(Err(_)) => Some(false),
        Some(Ok(m)) => Some(lossy_420(m)),
    }
}

/// Like `has_lossy_iso_gainmap_420`, for any data.
pub fn try_has_lossy_iso_gainmap_420(data: &[u8]) -> (r: Option<bool>)
    ensures
        r == lossy_gain_map(data@),
{
    match try_parse_source_meta(data) {
        None => None,
        Some(Err(_)) => Some(false),
        Some(Ok(meta)) => Some(has_lossy_iso_gainmap_420_in_meta(&meta)),
    }
}

} // verus!
