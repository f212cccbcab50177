//! Validation of the tiled gain-map structure of an ISO HDR HEIC.
//!
//! Every extent and every number is checked, and a file whose metadata disagrees
//! with itself is refused.

use crate::bytes::{append, be16, be32, bytes_eq, copy_range};
use crate::fourcc::{FTYP, IDAT, MDAT, META, same_tag};
use crate::isobmff::{
    BoxHeader, BoxView, IlocEntry, IlocView, IpmaEntry, IpmaView, IrefEntry, IrefView, ItemInfo,
    ItemView, MetaView, ParsedMeta, PropertyInfo, PropertyView, boxes_in, find_in, find_ipma,
    first_box, full_head, ipma_for, is_ispe, ispe_dimensions, lemma_boxes_within, of_type,
    parse_boxes, parse_children, read_u16be, read_u32be, source_meta, try_parse_source_meta,
};
use crate::items::{copy_ids, find_iloc, iloc_for, item_typed};
use crate::seqs::{
    first_where, lemma_first_where_at, lemma_first_where_has, lemma_first_where_none, told,
    told_some, views,
};
use crate::text::{decimal, decimal_text, digit_text, join, same_text};
use vstd::prelude::*;

verus! {

broadcast use vstd::std_specs::hash::group_hash_axioms;

/// What a validated gain map is made of.
#[derive(Debug, Clone, PartialEq, Eq)]
pub struct GainMapStructure {
    pub primary_item_id: u32,
    pub tmap_item_id: u32,
    pub gain_map_item_id: u32,
    pub tile_item_ids: Vec<u32>,
    pub width: u32,
    pub height: u32,
    pub rows: u32,
    pub columns: u32,
    /// Channel count of the pixel information: 1 for luminance only, 3 for RGB.
    pub channel_count: u8,
    /// General profile of the tiles, which all share it.
    pub general_profile_idc: u8,
    pub chroma_format_idc: u8,
    pub luma_bit_depth: u8,
    pub chroma_bit_depth: u8,
}

/// What a validated gain map says.
#[verifier::ext_equal]
pub struct StructureView {
    pub primary_item_id: u32,
    pub tmap_item_id: u32,
    pub gain_map_item_id: u32,
    pub tile_item_ids: Seq<u32>,
    pub width: u32,
    pub height: u32,
    pub rows: u32,
    pub columns: u32,
    pub channel_count: u8,
    pub general_profile_idc: u8,
    pub chroma_format_idc: u8,
    pub luma_bit_depth: u8,
    pub chroma_bit_depth: u8,
}

impl View for GainMapStructure {
    type V = StructureView;

    open spec fn view(&self) -> StructureView {
        StructureView {
            primary_item_id: self.primary_item_id,
            tmap_item_id: self.tmap_item_id,
            gain_map_item_id: self.gain_map_item_id,
            tile_item_ids: self.tile_item_ids@,
            width: self.width,
            height: self.height,
            rows: self.rows,
            columns: self.columns,
            channel_count: self.channel_count,
            general_profile_idc: self.general_profile_idc,
            chroma_format_idc: self.chroma_format_idc,
            luma_bit_depth: self.luma_bit_depth,
            chroma_bit_depth: self.chroma_bit_depth,
        }
    }
}

// ---------------------------------------------------------------------------
// Messages
// ---------------------------------------------------------------------------

/// A message of the validation.
pub open spec fn invalid_text(message: Seq<char>) -> Seq<char> {
    "iso-bmff validation: "@ + message
}

/// A message of the validation.
fn invalid(message: &str) -> (r: String)
    ensures
        r@ == invalid_text(message@),
{
    join("iso-bmff validation: ", message)
}

/// A message of the validation around a number.
pub open spec fn about_text(before: Seq<char>, n: int, after: Seq<char>) -> Seq<char> {
    invalid_text(before + decimal_text(n) + after)
}

/// A message of the validation around a number.
fn about(before: &str, n: u64, after: &str) -> (r: String)
    ensures
        r@ == about_text(before@, n as int, after@),
{
    invalid(join(join(before, decimal(n).as_str()).as_str(), after).as_str())
}

/// A message of the validation around two numbers.
pub open spec fn about_two_text(
    before: Seq<char>,
    n: int,
    between: Seq<char>,
    m: int,
    after: Seq<char>,
) -> Seq<char> {
    invalid_text(before + decimal_text(n) + between + decimal_text(m) + after)
}

/// A message of the validation around two numbers.
fn about_two(before: &str, n: u64, between: &str, m: u64, after: &str) -> (r: String)
    ensures
        r@ == about_two_text(before@, n as int, between@, m as int, after@),
{
    let first: String = join(join(before, decimal(n).as_str()).as_str(), between);
    invalid(join(join(first.as_str(), decimal(m).as_str()).as_str(), after).as_str())
}

/// A hexadecimal digit.
pub open spec fn hex_digit(d: int) -> Seq<char> {
    if d == 10 {
        "a"@
    } else if d == 11 {
        "b"@
    } else if d == 12 {
        "c"@
    } else if d == 13 {
        "d"@
    } else if d == 14 {
        "e"@
    } else if d == 15 {
        "f"@
    } else {
        digit_text(d)
    }
}

fn hex(d: u8) -> (r: String)
    requires
        d < 16,
    ensures
        r@ == hex_digit(d as int),
{
    if d == 10 {
        "a".to_string()
    } else if d == 11 {
        "b".to_string()
    } else if d == 12 {
        "c".to_string()
    } else if d == 13 {
        "d".to_string()
    } else if d == 14 {
        "e".to_string()
    } else if d == 15 {
        "f".to_string()
    } else {
        decimal(d as u64)
    }
}

/// The numbers of a list, with a comma and a space between them.
pub open spec fn listed(bits: Seq<u8>) -> Seq<char>
    decreases bits.len(),
{
    if bits.len() == 0 {
        ""@
    } else if bits.len() == 1 {
        decimal_text(bits[0] as int)
    } else {
        listed(bits.drop_last()) + ", "@ + decimal_text(bits.last() as int)
    }
}

fn list_numbers(bits: &Vec<u8>) -> (r: String)
    ensures
        r@ == listed(bits@),
{
    if bits.len() == 0 {
        return "".to_string();
    }
    let mut out: String = decimal(bits[0] as u64);
    let mut i: usize = 1;
    assert(bits@.take(1) =~= seq![bits@[0]]);
    while i < bits.len()
        invariant
            1 <= i <= bits@.len(),
            out@ == listed(bits@.take(i as int)),
        decreases bits@.len() - i,
    {
        out = join(join(out.as_str(), ", ").as_str(), decimal(bits[i] as u64).as_str());
        assert(bits@.take(i + 1).drop_last() =~= bits@.take(i as int));
        i = i + 1;
    }
    assert(bits@.take(i as int) =~= bits@);
    out
}

// ---------------------------------------------------------------------------
// Boxes and properties
// ---------------------------------------------------------------------------

/// The only box of a type, or that it is missing or repeated.
pub open spec fn sole_box(boxes: Seq<BoxView>, btype: Seq<u8>, name: Seq<char>) -> Result<
    BoxView,
    Seq<char>,
> {
    let found = boxes.filter(of_type(btype));
    if found.len() == 0 {
        Err(invalid_text(name + " is missing"@))
    } else if found.len() > 1 {
        Err(invalid_text(name + " appears more than once"@))
    } else {
        Ok(found[0])
    }
}

/// One element more of `s` is picked where it has the property.
pub proof fn lemma_filter_take<T>(s: Seq<T>, p: spec_fn(T) -> bool, i: int)
    requires
        0 <= i < s.len(),
    ensures
        s.take(i + 1).filter(p) == if p(s[i]) {
            s.take(i).filter(p).push(s[i])
        } else {
            s.take(i).filter(p)
        },
{
    reveal(Seq::filter);
    assert(s.take(i + 1).drop_last() =~= s.take(i));
}

/// Nothing is picked from nothing.
pub proof fn lemma_filter_none<T>(s: Seq<T>, p: spec_fn(T) -> bool)
    ensures
        s.take(0).filter(p).len() == 0,
{
    reveal(Seq::filter);
    assert(s.take(0) =~= Seq::empty());
}

fn one_top_level(boxes: &Vec<BoxHeader>, kind: &[u8; 4], context: &str) -> (r: Result<BoxHeader, String>)
    ensures
        told(r) == sole_box(views(boxes@), kind@, context@),
{
    let ghost v = views(boxes@);
    let ghost p = of_type(kind@);
    let mut found: Option<BoxHeader> = None;
    let mut i: usize = 0;
    proof {
        lemma_filter_none(v, p);
    }
    while i < boxes.len()
        invariant
            i <= boxes@.len(),
            v == views(boxes@),
            p == of_type(kind@),
            match found {
                None => v.take(i as int).filter(p).len() == 0,
                Some(b) => v.take(i as int).filter(p) == seq![b@],
            },
        decreases boxes@.len() - i,
    {
        proof {
            lemma_filter_take(v, p, i as int);
        }
        if same_tag(&boxes[i].btype, kind) {
            if found.is_some() {
                proof {
                    lemma_filter_grows(v, p, i + 1);
                }
                return Err(invalid(join(context, " appears more than once").as_str()));
            }
            found = Some(boxes[i]);
            assert(v.take(i + 1).filter(p) =~= seq![v[i as int]]);
        }
        i = i + 1;
    }
    assert(v.take(i as int) =~= v);
    match found {
        None => Err(invalid(join(context, " is missing").as_str())),
        Some(b) => Ok(b),
    }
}

/// More elements never make fewer of them be picked.
proof fn lemma_filter_grows<T>(s: Seq<T>, p: spec_fn(T) -> bool, i: int)
    requires
        0 <= i <= s.len(),
    ensures
        s.take(i).filter(p).len() <= s.filter(p).len(),
    decreases s.len() - i,
{
    if i < s.len() {
        lemma_filter_take(s, p, i);
        lemma_filter_grows(s, p, i + 1);
    } else {
        assert(s.take(i) =~= s);
    }
}

/// The payload of a property that is exactly one box.
pub open spec fn property_payload(raw: Seq<u8>) -> Result<Seq<u8>, Seq<char>> {
    let boxes = boxes_in(raw, 0, raw.len() as int);
    if boxes.len() != 1 {
        Err(invalid_text("property does not contain exactly one box"@))
    } else {
        Ok(raw.subrange(boxes[0].data_start, boxes[0].data_end))
    }
}

fn property_box_bytes(raw: &[u8]) -> (r: Result<Vec<u8>, String>)
    ensures
        told(r) == property_payload(raw@),
{
    let headers: Vec<BoxHeader> = parse_boxes(raw, 0, raw.len());
    if headers.len() != 1 {
        return Err(invalid("property does not contain exactly one box"));
    }
    assert(headers@[0]@ == views(headers@)[0]);
    Ok(copy_range(raw, headers[0].data_start, headers[0].data_end))
}

/// The size that an `ispe` property states.
pub open spec fn stated_size(raw: Seq<u8>) -> Result<(u32, u32), Seq<char>> {
    match property_payload(raw) {
        Err(e) => Err(e),
        Ok(_) => if is_ispe(raw) {
            Ok((be32(raw, 12) as u32, be32(raw, 16) as u32))
        } else {
            Err("invalid ispe property"@)
        },
    }
}

/// What a result of plain values says.
pub open spec fn said<T>(r: Result<T, String>) -> Result<T, Seq<char>> {
    match r {
        Ok(v) => Ok(v),
        Err(e) => Err(e@),
    }
}

fn ispe_dims(property_raw: &[u8]) -> (r: Result<(u32, u32), String>)
    ensures
        said(r) == stated_size(property_raw@),
{
    match property_box_bytes(property_raw) {
        Err(e) => Err(e),
        Ok(_) => ispe_dimensions(property_raw),
    }
}

/// The bit depths that a `pixi` property states, one for each channel.
pub open spec fn stated_depths(raw: Seq<u8>) -> Result<Seq<u8>, Seq<char>> {
    match property_payload(raw) {
        Err(e) => Err(e),
        Ok(p) => if p.len() < 5 || p.take(4) != full_head(0) {
            Err(invalid_text("pixi must use version 0 with zero flags"@))
        } else if p[4] == 0 {
            Err(invalid_text("pixi declares zero channels"@))
        } else if p.len() != p[4] + 5 {
            Err(
                about_two_text(
                    "pixi declares "@,
                    p[4] as int,
                    " channels but has "@,
                    p.len() as int,
                    " payload bytes"@,
                ),
            )
        } else {
            Ok(p.skip(5))
        },
    }
}

fn parse_pixi_property(property_raw: &[u8]) -> (r: Result<Vec<u8>, String>)
    ensures
        told(r) == stated_depths(property_raw@),
        r matches Ok(d) ==> 1 <= d@.len() <= 255,
{
    let p: Vec<u8> = match property_box_bytes(property_raw) {
        Err(e) => {
            return Err(e);
        },
        Ok(p) => p,
    };
    if p.len() < 5 || p[0] != 0 || p[1] != 0 || p[2] != 0 || p[3] != 0 {
        proof {
            if p@.len() >= 5 {
                let t = p@.take(4);
                assert(t[0] == p@[0] && t[1] == p@[1] && t[2] == p@[2] && t[3] == p@[3]);
                assert(full_head(0)[0] == 0 && full_head(0)[1] == 0 && full_head(0)[2] == 0
                    && full_head(0)[3] == 0);
            }
        }
        return Err(invalid("pixi must use version 0 with zero flags"));
    }
    assert(p@.take(4) =~= full_head(0));
    let channel_count: u8 = p[4];
    if channel_count == 0 {
        return Err(invalid("pixi declares zero channels"));
    }
    if p.len() != channel_count as usize + 5 {
        return Err(
            about_two(
                "pixi declares ",
                channel_count as u64,
                " channels but has ",
                p.len() as u64,
                " payload bytes",
            ),
        );
    }
    let depths: Vec<u8> = copy_range(p.as_slice(), 5, p.len());
    assert(depths@ =~= p@.skip(5));
    Ok(depths)
}

/// What the fixed part of an HEVC decoder configuration says of a stream.
#[derive(Debug, Clone, Copy, PartialEq, Eq, Structural)]
pub struct HvcCProfile {
    pub general_profile_idc: u8,
    pub chroma_format_idc: u8,
    pub luma_bit_depth: u8,
    pub chroma_bit_depth: u8,
}

/// What the fixed part of an HEVC decoder configuration says: the profile stands in
/// byte 1, the chroma format in byte 16, the bit depths in bytes 17 and 18.
pub open spec fn hvcc_profile(p: Seq<u8>) -> Result<HvcCProfile, Seq<char>> {
    if p.len() < 23 {
        Err(invalid_text("hvcC record is shorter than its fixed prefix"@))
    } else if p[0] != 1 {
        Err(about_text("hvcC configurationVersion "@, p[0] as int, " is unsupported"@))
    } else {
        Ok(
            HvcCProfile {
                general_profile_idc: (p[1] % 32) as u8,
                chroma_format_idc: (p[16] % 4) as u8,
                luma_bit_depth: (p[17] % 8 + 8) as u8,
                chroma_bit_depth: (p[18] % 8 + 8) as u8,
            },
        )
    }
}

fn parse_hvcc_profile(payload: &[u8]) -> (r: Result<HvcCProfile, String>)
    ensures
        said(r) == hvcc_profile(payload@),
{
    if payload.len() < 23 {
        return Err(invalid("hvcC record is shorter than its fixed prefix"));
    }
    if payload[0] != 1 {
        return Err(about("hvcC configurationVersion ", payload[0] as u64, " is unsupported"));
    }
    Ok(
        HvcCProfile {
            general_profile_idc: payload[1] % 32,
            chroma_format_idc: payload[16] % 4,
            luma_bit_depth: payload[17] % 8 + 8,
            chroma_bit_depth: payload[18] % 8 + 8,
        },
    )
}

/// Rows, columns, width and height that a grid item states. Bit 0 of its flags makes
/// the sizes 32 bits wide.
pub open spec fn stated_grid(p: Seq<u8>) -> Result<(u32, u32, u32, u32), Seq<char>> {
    if p.len() < 4 {
        Err(invalid_text("grid payload is shorter than its header"@))
    } else if p[0] != 0 {
        Err(about_text("grid version "@, p[0] as int, " is unsupported"@))
    } else if p[1] > 1 {
        Err(
            invalid_text(
                "grid flags 0x"@ + hex_digit(p[1] as int / 16) + hex_digit(p[1] as int % 16)
                    + " contain unsupported bits"@,
            ),
        )
    } else if p[1] == 1 && p.len() != 12 {
        Err(invalid_text("large grid payload must be exactly 12 bytes"@))
    } else if p[1] == 0 && p.len() != 8 {
        Err(invalid_text("small grid payload must be exactly 8 bytes"@))
    } else {
        let (width, height) = if p[1] == 1 {
            (be32(p, 4), be32(p, 8))
        } else {
            (be16(p, 4), be16(p, 6))
        };
        if width == 0 || height == 0 {
            Err(invalid_text("grid dimensions must be non-zero"@))
        } else {
            Ok(((p[2] + 1) as u32, (p[3] + 1) as u32, width as u32, height as u32))
        }
    }
}

fn parse_grid_payload(payload: &[u8]) -> (r: Result<(u32, u32, u32, u32), String>)
    ensures
        said(r) == stated_grid(payload@),
        r matches Ok(g) ==> g.0 <= 256 && g.1 <= 256,
{
    if payload.len() < 4 {
        return Err(invalid("grid payload is shorter than its header"));
    }
    if payload[0] != 0 {
        return Err(about("grid version ", payload[0] as u64, " is unsupported"));
    }
    let flags: u8 = payload[1];
    if flags > 1 {
        let first: String = join("grid flags 0x", hex(flags / 16).as_str());
        let both: String = join(first.as_str(), hex(flags % 16).as_str());
        return Err(invalid(join(both.as_str(), " contain unsupported bits").as_str()));
    }
    let rows: u32 = payload[2] as u32 + 1;
    let columns: u32 = payload[3] as u32 + 1;
    let (width, height): (u32, u32) = if flags == 1 {
        if payload.len() != 12 {
            return Err(invalid("large grid payload must be exactly 12 bytes"));
        }
        (read_u32be(payload, 4), read_u32be(payload, 8))
    } else {
        if payload.len() != 8 {
            return Err(invalid("small grid payload must be exactly 8 bytes"));
        }
        (read_u16be(payload, 4) as u32, read_u16be(payload, 6) as u32)
    };
    if width == 0 || height == 0 {
        return Err(invalid("grid dimensions must be non-zero"));
    }
    Ok((rows, columns, width, height))
}

// ---------------------------------------------------------------------------
// Item payloads
// ---------------------------------------------------------------------------

/// Where an extent of an item begins in the file; `None` where its place in the
/// item data box exceeds the address range.
pub open spec fn extent_start(idat: Option<(int, int)>, e: IlocView, offset: u64) -> Option<
    Result<int, Seq<char>>,
> {
    if e.construction_method == 0 {
        if offset > usize::MAX {
            Some(Err(about_text("item "@, e.item_id as int, " offset exceeds usize"@)))
        } else {
            Some(Ok(offset as int))
        }
    } else if e.construction_method == 1 {
        match idat {
            None => Some(
                Err(about_text("item "@, e.item_id as int, " uses idat without an idat box"@)),
            ),
            Some((start, end)) => if offset > usize::MAX {
                Some(Err(about_text("item "@, e.item_id as int, " idat offset exceeds usize"@)))
            } else if start + offset > usize::MAX {
                None
            } else if start + offset > end {
                Some(
                    Err(about_text("item "@, e.item_id as int, " idat extent starts outside idat"@)),
                )
            } else {
                Some(Ok(start + offset))
            },
        }
    } else {
        Some(
            Err(
                about_two_text(
                    "item "@,
                    e.item_id as int,
                    " uses unsupported construction_method "@,
                    e.construction_method as int,
                    ""@,
                ),
            ),
        )
    }
}

/// Where the storage of an item ends: the item data box or the file.
pub open spec fn storage_end(len: int, idat: Option<(int, int)>, e: IlocView) -> int {
    if e.construction_method == 1 {
        match idat {
            Some((_, end)) => end,
            None => 0,
        }
    } else {
        len
    }
}

/// That an extent leaves its storage.
pub open spec fn outside_text(id: u32, start: int, end: int, limit: int) -> Seq<char> {
    invalid_text(
        "item "@ + decimal_text(id as int) + " extent "@ + decimal_text(start) + ".."@ + decimal_text(
            end,
        ) + " exceeds its backing storage ending at "@ + decimal_text(limit),
    )
}

/// The bytes of one extent of an item.
pub open spec fn extent_payload(s: Seq<u8>, idat: Option<(int, int)>, e: IlocView, k: int) -> Option<
    Result<Seq<u8>, Seq<char>>,
> {
    let (offset, length) = e.extents[k];
    if length > usize::MAX {
        Some(Err(about_text("item "@, e.item_id as int, " extent length exceeds usize"@)))
    } else {
        match extent_start(idat, e, offset) {
            None => None,
            Some(Err(m)) => Some(Err(m)),
            Some(Ok(start)) => if start + length > usize::MAX {
                Some(Err(about_text("item "@, e.item_id as int, " extent end overflows"@)))
            } else if start + length > storage_end(s.len() as int, idat, e) {
                Some(
                    Err(
                        outside_text(
                            e.item_id,
                            start,
                            start + length,
                            storage_end(s.len() as int, idat, e),
                        ),
                    ),
                )
            } else {
                Some(Ok(s.subrange(start, start + length)))
            },
        }
    }
}

/// The bytes of an item from its extent `k` on, behind `acc`.
pub open spec fn payload_from(
    s: Seq<u8>,
    idat: Option<(int, int)>,
    e: IlocView,
    k: int,
    acc: Seq<u8>,
) -> Option<Result<Seq<u8>, Seq<char>>>
    decreases e.extents.len() - k,
{
    if k < 0 || k >= e.extents.len() {
        Some(Ok(acc))
    } else {
        match extent_payload(s, idat, e, k) {
            None => None,
            Some(Err(m)) => Some(Err(m)),
            Some(Ok(b)) => payload_from(s, idat, e, k + 1, acc + b),
        }
    }
}

/// The bytes of an item, with every extent checked.
pub open spec fn checked_payload(s: Seq<u8>, idat: Option<(int, int)>, e: IlocView) -> Option<
    Result<Seq<u8>, Seq<char>>,
> {
    if e.data_reference_index != 0 {
        Some(
            Err(
                about_two_text(
                    "item "@,
                    e.item_id as int,
                    " uses unsupported data_reference_index "@,
                    e.data_reference_index as int,
                    ""@,
                ),
            ),
        )
    } else {
        payload_from(s, idat, e, 0, Seq::empty())
    }
}

/// The range of the item data box, where there is one.
pub open spec fn range_view(r: Option<(usize, usize)>) -> Option<(int, int)> {
    match r {
        Some((a, b)) => Some((a as int, b as int)),
        None => None,
    }
}

/// What a result of plain values says, where there is one.
pub open spec fn said_some<T>(r: Option<Result<T, String>>) -> Option<Result<T, Seq<char>>> {
    match r {
        Some(v) => Some(said(v)),
        None => None,
    }
}

/// A place in the file as a number.
pub open spec fn place(r: Option<Result<usize, String>>) -> Option<Result<int, Seq<char>>> {
    match r {
        Some(Ok(v)) => Some(Ok(v as int)),
        Some(Err(e)) => Some(Err(e@)),
        None => None,
    }
}

fn find_extent_start(idat: Option<(usize, usize)>, entry: &IlocEntry, offset: u64) -> (r: Option<
    Result<usize, String>,
>)
    ensures
        place(r) == extent_start(range_view(idat), entry@, offset),
{
    let id: u64 = entry.item_id as u64;
    if entry.construction_method == 0 {
        if offset > usize::MAX as u64 {
            return Some(Err(about("item ", id, " offset exceeds usize")));
        }
        Some(Ok(offset as usize))
    } else if entry.construction_method == 1 {
        match idat {
            None => Some(Err(about("item ", id, " uses idat without an idat box"))),
            Some((start, end)) => {
                if offset > usize::MAX as u64 {
                    return Some(Err(about("item ", id, " idat offset exceeds usize")));
                }
                if offset as usize > usize::MAX - start {
                    return None;
                }
                let at: usize = start + offset as usize;
                if at > end {
                    return Some(Err(about("item ", id, " idat extent starts outside idat")));
                }
                Some(Ok(at))
            },
        }
    } else {
        Some(
            Err(
                about_two(
                    "item ",
                    id,
                    " uses unsupported construction_method ",
                    entry.construction_method as u64,
                    "",
                ),
            ),
        )
    }
}

fn outside(id: u32, start: usize, end: usize, limit: usize) -> (r: String)
    ensures
        r@ == outside_text(id, start as int, end as int, limit as int),
{
    let a: String = join(join("item ", decimal(id as u64).as_str()).as_str(), " extent ");
    let b: String = join(join(a.as_str(), decimal(start as u64).as_str()).as_str(), "..");
    let c: String = join(
        join(b.as_str(), decimal(end as u64).as_str()).as_str(),
        " exceeds its backing storage ending at ",
    );
    invalid(join(c.as_str(), decimal(limit as u64).as_str()).as_str())
}

fn read_extent<'a>(data: &'a [u8], idat: Option<(usize, usize)>, entry: &IlocEntry, k: usize) -> (r: Option<
    Result<&'a [u8], String>,
>)
    requires
        k < entry.extents.len(),
        idat matches Some(x) ==> x.1 <= data.len(),
    ensures
        match r {
            None => extent_payload(data@, range_view(idat), entry@, k as int) is None,
            Some(Err(e)) => extent_payload(data@, range_view(idat), entry@, k as int) == Some(
                Err::<Seq<u8>, Seq<char>>(e@),
            ),
            Some(Ok(b)) => extent_payload(data@, range_view(idat), entry@, k as int) == Some(
                Ok::<Seq<u8>, Seq<char>>(b@),
            ),
        },
{
    let (offset, length): (u64, u64) = entry.extents[k];
    let id: u64 = entry.item_id as u64;
    if length > usize::MAX as u64 {
        return Some(Err(about("item ", id, " extent length exceeds usize")));
    }
    let start: usize = match find_extent_start(idat, entry, offset) {
        None => {
            return None;
        },
        Some(Err(e)) => {
            return Some(Err(e));
        },
        Some(Ok(s)) => s,
    };
    if length as usize > usize::MAX - start {
        return Some(Err(about("item ", id, " extent end overflows")));
    }
    let end: usize = start + length as usize;
    let limit: usize = if entry.construction_method == 1 {
        match idat {
            Some((_, e)) => e,
            None => 0,
        }
    } else {
        data.len()
    };
    if end > limit {
        return Some(Err(outside(entry.item_id, start, end, limit)));
    }
    Some(Ok(vstd::slice::slice_subrange(data, start, end)))
}

/// Read the payload of an item from the file (construction method 0) or from the
/// item data box (1), with every extent checked; `None` where an offset into the
/// item data box exceeds the address range.
pub fn item_payload(data: &[u8], idat: Option<(usize, usize)>, entry: &IlocEntry) -> (r: Option<
    Result<Vec<u8>, String>,
>)
    requires
        idat matches Some(x) ==> x.1 <= data.len(),
    ensures
        told_some(r) == checked_payload(data@, range_view(idat), entry@),
{
    if entry.data_reference_index != 0 {
        return Some(
            Err(
                about_two(
                    "item ",
                    entry.item_id as u64,
                    " uses unsupported data_reference_index ",
                    entry.data_reference_index as u64,
                    "",
                ),
            ),
        );
    }
    let ghost all = checked_payload(data@, range_view(idat), entry@);
    let mut payload: Vec<u8> = Vec::new();
    let mut k: usize = 0;
    while k < entry.extents.len()
        invariant
            k <= entry.extents@.len(),
            idat matches Some(x) ==> x.1 <= data.len(),
            all == checked_payload(data@, range_view(idat), entry@),
            all == payload_from(data@, range_view(idat), entry@, k as int, payload@),
        decreases entry.extents@.len() - k,
    {
        match read_extent(data, idat, entry, k) {
            None => {
                return None;
            },
            Some(Err(e)) => {
                return Some(Err(e));
            },
            Some(Ok(b)) => {
                append(&mut payload, b);
            },
        }
        k = k + 1;
    }
    Some(Ok(payload))
}

// ---------------------------------------------------------------------------
// Integrity of the metadata
// ---------------------------------------------------------------------------

/// The numbers of items.
pub open spec fn item_numbers(items: Seq<ItemView>) -> Seq<u32> {
    Seq::new(items.len(), |i: int| items[i].item_id)
}

/// The numbers of located items.
pub open spec fn iloc_numbers(entries: Seq<IlocView>) -> Seq<u32> {
    Seq::new(entries.len(), |i: int| entries[i].item_id)
}

/// The numbers of items with properties.
pub open spec fn ipma_numbers(entries: Seq<IpmaView>) -> Seq<u32> {
    Seq::new(entries.len(), |i: int| entries[i].item_id)
}

/// The numbers of properties.
pub open spec fn prop_numbers(props: Seq<PropertyView>) -> Seq<u32> {
    Seq::new(props.len(), |i: int| props[i].index)
}

/// The first number from place `i` on that stands at an earlier place too.
pub open spec fn first_repeat(ids: Seq<u32>, i: int) -> Option<u32>
    decreases ids.len() - i,
{
    if i < 0 || i >= ids.len() {
        None
    } else if ids.take(i).contains(ids[i]) {
        Some(ids[i])
    } else {
        first_repeat(ids, i + 1)
    }
}

/// What is wrong with the location entries from `i` on.
pub open spec fn iloc_fault(
    s: Seq<u8>,
    idat: Option<(int, int)>,
    items: Seq<u32>,
    entries: Seq<IlocView>,
    i: int,
) -> Option<Option<Seq<char>>>
    decreases entries.len() - i,
{
    if i < 0 || i >= entries.len() {
        Some(None)
    } else {
        let id = entries[i].item_id;
        if !items.contains(id) {
            Some(Some(about_text("iloc references unknown item "@, id as int, ""@)))
        } else if iloc_numbers(entries).take(i).contains(id) {
            Some(Some(about_text("duplicate iloc item ID "@, id as int, ""@)))
        } else {
            match checked_payload(s, idat, entries[i]) {
                None => None,
                Some(Err(e)) => Some(Some(e)),
                Some(Ok(_)) => iloc_fault(s, idat, items, entries, i + 1),
            }
        }
    }
}

/// The property numbers of associations.
pub open spec fn assoc_numbers(assocs: Seq<(u32, bool)>) -> Seq<u32> {
    Seq::new(assocs.len(), |i: int| assocs[i].0)
}

/// What is wrong with the associations of an item from `j` on.
pub open spec fn assoc_fault(id: u32, props: Seq<u32>, assocs: Seq<(u32, bool)>, j: int) -> Option<
    Seq<char>,
>
    decreases assocs.len() - j,
{
    if j < 0 || j >= assocs.len() {
        None
    } else {
        let index = assocs[j].0;
        if index == 0 {
            Some(about_text("item "@, id as int, " has an ipma association to property index 0"@))
        } else if assoc_numbers(assocs).take(j).contains(index) {
            Some(
                about_two_text(
                    "item "@,
                    id as int,
                    " repeats ipma property index "@,
                    index as int,
                    ""@,
                ),
            )
        } else if !props.contains(index) {
            Some(
                about_two_text(
                    "item "@,
                    id as int,
                    " references missing ipco property "@,
                    index as int,
                    ""@,
                ),
            )
        } else {
            assoc_fault(id, props, assocs, j + 1)
        }
    }
}

/// What is wrong with the property associations from `i` on.
pub open spec fn ipma_fault(items: Seq<u32>, props: Seq<u32>, entries: Seq<IpmaView>, i: int) -> Option<
    Seq<char>,
>
    decreases entries.len() - i,
{
    if i < 0 || i >= entries.len() {
        None
    } else {
        let id = entries[i].item_id;
        if !items.contains(id) {
            Some(about_text("ipma references unknown item "@, id as int, ""@))
        } else if ipma_numbers(entries).take(i).contains(id) {
            Some(about_text("duplicate ipma item ID "@, id as int, ""@))
        } else {
            match assoc_fault(id, props, entries[i].associations, 0) {
                Some(e) => Some(e),
                None => ipma_fault(items, props, entries, i + 1),
            }
        }
    }
}

/// What is wrong with the targets of a reference from `j` on.
pub open spec fn target_fault(items: Seq<u32>, r: IrefView, j: int) -> Option<Seq<char>>
    decreases r.to.len() - j,
{
    if j < 0 || j >= r.to.len() {
        None
    } else if !items.contains(r.to[j]) {
        Some(
            about_two_text(
                r.rtype + " reference from item "@,
                r.from as int,
                " targets unknown item "@,
                r.to[j] as int,
                ""@,
            ),
        )
    } else {
        target_fault(items, r, j + 1)
    }
}

/// What is wrong with the references from `i` on.
pub open spec fn refs_fault(items: Seq<u32>, refs: Seq<IrefView>, i: int) -> Option<Seq<char>>
    decreases refs.len() - i,
{
    if i < 0 || i >= refs.len() {
        None
    } else if !items.contains(refs[i].from) {
        Some(
            about_text(
                refs[i].rtype + " reference originates from unknown item "@,
                refs[i].from as int,
                ""@,
            ),
        )
    } else {
        match target_fault(items, refs[i], 0) {
            Some(e) => Some(e),
            None => refs_fault(items, refs, i + 1),
        }
    }
}

/// What is wrong with the associations and references of the metadata.
pub open spec fn graph_fault(m: MetaView) -> Option<Seq<char>> {
    let items = item_numbers(m.items);
    if first_repeat(prop_numbers(m.props), 0) is Some {
        Some(invalid_text("duplicate ipco property index"@))
    } else {
        match ipma_fault(items, prop_numbers(m.props), m.ipma_entries, 0) {
            Some(e) => Some(e),
            None => refs_fault(items, m.refs, 0),
        }
    }
}

/// What is wrong with the metadata of a file: repeated or unknown numbers, extents
/// outside their storage. `None` where an offset exceeds the address range.
pub open spec fn integrity_fault(s: Seq<u8>, m: MetaView, idat: Option<(int, int)>) -> Option<
    Option<Seq<char>>,
> {
    let items = item_numbers(m.items);
    match first_repeat(items, 0) {
        Some(id) => Some(Some(about_text("duplicate iinf item ID "@, id as int, ""@))),
        None => if !items.contains(m.primary_id) {
            Some(Some(about_text("pitm references unknown item "@, m.primary_id as int, ""@)))
        } else {
            match iloc_fault(s, idat, items, m.iloc_entries, 0) {
                None => None,
                Some(Some(e)) => Some(Some(e)),
                Some(None) => Some(graph_fault(m)),
            }
        },
    }
}

/// A message, where there is one.
pub open spec fn fault_told(f: Option<String>) -> Option<Seq<char>> {
    match f {
        Some(s) => Some(s@),
        None => None,
    }
}

/// Whether `set` holds exactly the numbers of `ids`.
pub open spec fn set_of(set: Set<u32>, ids: Seq<u32>) -> bool {
    forall|id: u32| #[trigger] set.contains(id) == ids.contains(id)
}

proof fn lemma_set_of_push(set: Set<u32>, ids: Seq<u32>, i: int)
    requires
        0 <= i < ids.len(),
        set_of(set, ids.take(i)),
    ensures
        set_of(set.insert(ids[i]), ids.take(i + 1)),
{
    let more = ids.take(i + 1);
    assert forall|id: u32| #[trigger] set.insert(ids[i]).contains(id) == more.contains(id) by {
        if id == ids[i] {
            assert(more[i] == id);
        } else if ids.take(i).contains(id) {
            let k = choose|k: int| 0 <= k < i && ids.take(i)[k] == id;
            assert(more[k] == id);
        } else if more.contains(id) {
            let k = choose|k: int| 0 <= k < i + 1 && more[k] == id;
            assert(ids.take(i)[k] == id);
        }
    }
}

/// The set of the numbers of `ids`, or the first that is repeated.
fn collect_ids(ids: &Vec<u32>) -> (r: Result<std::collections::HashSet<u32>, u32>)
    ensures
        match r {
            Ok(set) => first_repeat(ids@, 0) is None && set_of(set@, ids@),
            Err(id) => first_repeat(ids@, 0) == Some(id),
        },
{
    let mut set: std::collections::HashSet<u32> = std::collections::HashSet::new();
    let mut i: usize = 0;
    assert(ids@.take(0) =~= Seq::empty());
    while i < ids.len()
        invariant
            i <= ids@.len(),
            set_of(set@, ids@.take(i as int)),
            first_repeat(ids@, 0) == first_repeat(ids@, i as int),
        decreases ids@.len() - i,
    {
        proof {
            lemma_set_of_push(set@, ids@, i as int);
        }
        if !set.insert(ids[i]) {
            return Err(ids[i]);
        }
        i = i + 1;
    }
    assert(ids@.take(i as int) =~= ids@);
    Ok(set)
}

fn numbers_of_items(items: &Vec<ItemInfo>) -> (r: Vec<u32>)
    ensures
        r@ == item_numbers(views(items@)),
{
    let mut out: Vec<u32> = Vec::new();
    let mut i: usize = 0;
    while i < items.len()
        invariant
            i <= items@.len(),
            out@ == item_numbers(views(items@)).take(i as int),
        decreases items@.len() - i,
    {
        out.push(items[i].item_id);
        i = i + 1;
        assert(out@ =~= item_numbers(views(items@)).take(i as int));
    }
    assert(out@ =~= item_numbers(views(items@)));
    out
}

fn numbers_of_props(props: &Vec<PropertyInfo>) -> (r: Vec<u32>)
    ensures
        r@ == prop_numbers(views(props@)),
{
    let mut out: Vec<u32> = Vec::new();
    let mut i: usize = 0;
    while i < props.len()
        invariant
            i <= props@.len(),
            out@ == prop_numbers(views(props@)).take(i as int),
        decreases props@.len() - i,
    {
        out.push(props[i].index);
        i = i + 1;
        assert(out@ =~= prop_numbers(views(props@)).take(i as int));
    }
    assert(out@ =~= prop_numbers(views(props@)));
    out
}

/// A message, where one could be made.
pub open spec fn fault_some(f: Option<Option<String>>) -> Option<Option<Seq<char>>> {
    match f {
        Some(v) => Some(fault_told(v)),
        None => None,
    }
}

fn check_ilocs(
    data: &[u8],
    idat: Option<(usize, usize)>,
    items: &std::collections::HashSet<u32>,
    entries: &Vec<IlocEntry>,
    ids: Ghost<Seq<u32>>,
) -> (r: Option<Option<String>>)
    requires
        idat matches Some(x) ==> x.1 <= data.len(),
        set_of(items@, ids@),
    ensures
        fault_some(r) == iloc_fault(data@, range_view(idat), ids@, views(entries@), 0),
{
    let ghost v = views(entries@);
    let mut seen: std::collections::HashSet<u32> = std::collections::HashSet::new();
    let mut i: usize = 0;
    assert(iloc_numbers(v).take(0) =~= Seq::empty());
    while i < entries.len()
        invariant
            i <= entries@.len(),
            v == views(entries@),
            idat matches Some(x) ==> x.1 <= data.len(),
            set_of(items@, ids@),
            set_of(seen@, iloc_numbers(v).take(i as int)),
            iloc_fault(data@, range_view(idat), ids@, v, 0) == iloc_fault(
                data@,
                range_view(idat),
                ids@,
                v,
                i as int,
            ),
        decreases entries@.len() - i,
    {
        let id: u32 = entries[i].item_id;
        assert(v[i as int] == entries@[i as int]@);
        assert(iloc_numbers(v)[i as int] == id);
        if !items.contains(&id) {
            return Some(Some(about("iloc references unknown item ", id as u64, "")));
        }
        proof {
            lemma_set_of_push(seen@, iloc_numbers(v), i as int);
        }
        if !seen.insert(id) {
            return Some(Some(about("duplicate iloc item ID ", id as u64, "")));
        }
        match item_payload(data, idat, &entries[i]) {
            None => {
                return None;
            },
            Some(Err(e)) => {
                return Some(Some(e));
            },
            Some(Ok(_)) => {},
        }
        i = i + 1;
    }
    Some(None)
}

fn check_associations(
    id: u32,
    props: &std::collections::HashSet<u32>,
    assocs: &Vec<(u32, bool)>,
    ids: Ghost<Seq<u32>>,
) -> (r: Option<String>)
    requires
        set_of(props@, ids@),
    ensures
        fault_told(r) == assoc_fault(id, ids@, assocs@, 0),
{
    let ghost n = assoc_numbers(assocs@);
    let mut seen: std::collections::HashSet<u32> = std::collections::HashSet::new();
    let mut j: usize = 0;
    assert(n.take(0) =~= Seq::empty());
    while j < assocs.len()
        invariant
            j <= assocs@.len(),
            n == assoc_numbers(assocs@),
            set_of(props@, ids@),
            set_of(seen@, n.take(j as int)),
            assoc_fault(id, ids@, assocs@, 0) == assoc_fault(id, ids@, assocs@, j as int),
        decreases assocs@.len() - j,
    {
        let index: u32 = assocs[j].0;
        assert(n[j as int] == index);
        if index == 0 {
            return Some(about("item ", id as u64, " has an ipma association to property index 0"));
        }
        proof {
            lemma_set_of_push(seen@, n, j as int);
        }
        if !seen.insert(index) {
            return Some(
                about_two("item ", id as u64, " repeats ipma property index ", index as u64, ""),
            );
        }
        if !props.contains(&index) {
            return Some(
                about_two("item ", id as u64, " references missing ipco property ", index as u64, ""),
            );
        }
        j = j + 1;
    }
    None
}

fn check_ipma(
    items: &std::collections::HashSet<u32>,
    props: &std::collections::HashSet<u32>,
    entries: &Vec<IpmaEntry>,
    item_ids: Ghost<Seq<u32>>,
    prop_ids: Ghost<Seq<u32>>,
) -> (r: Option<String>)
    requires
        set_of(items@, item_ids@),
        set_of(props@, prop_ids@),
    ensures
        fault_told(r) == ipma_fault(item_ids@, prop_ids@, views(entries@), 0),
{
    let ghost v = views(entries@);
    let mut seen: std::collections::HashSet<u32> = std::collections::HashSet::new();
    let mut i: usize = 0;
    assert(ipma_numbers(v).take(0) =~= Seq::empty());
    while i < entries.len()
        invariant
            i <= entries@.len(),
            v == views(entries@),
            set_of(items@, item_ids@),
            set_of(props@, prop_ids@),
            set_of(seen@, ipma_numbers(v).take(i as int)),
            ipma_fault(item_ids@, prop_ids@, v, 0) == ipma_fault(item_ids@, prop_ids@, v, i as int),
        decreases entries@.len() - i,
    {
        let id: u32 = entries[i].item_id;
        assert(v[i as int] == entries@[i as int]@);
        assert(ipma_numbers(v)[i as int] == id);
        if !items.contains(&id) {
            return Some(about("ipma references unknown item ", id as u64, ""));
        }
        proof {
            lemma_set_of_push(seen@, ipma_numbers(v), i as int);
        }
        if !seen.insert(id) {
            return Some(about("duplicate ipma item ID ", id as u64, ""));
        }
        match check_associations(id, props, &entries[i].associations, prop_ids) {
            Some(e) => {
                return Some(e);
            },
            None => {},
        }
        i = i + 1;
    }
    None
}

fn check_targets(items: &std::collections::HashSet<u32>, entry: &IrefEntry, ids: Ghost<Seq<u32>>) -> (r: Option<
    String,
>)
    requires
        set_of(items@, ids@),
    ensures
        fault_told(r) == target_fault(ids@, entry@, 0),
{
    let mut j: usize = 0;
    while j < entry.to.len()
        invariant
            j <= entry.to@.len(),
            set_of(items@, ids@),
            target_fault(ids@, entry@, 0) == target_fault(ids@, entry@, j as int),
        decreases entry.to@.len() - j,
    {
        if !items.contains(&entry.to[j]) {
            let before: String = join(entry.rtype.as_str(), " reference from item ");
            return Some(
                about_two(
                    before.as_str(),
                    entry.from as u64,
                    " targets unknown item ",
                    entry.to[j] as u64,
                    "",
                ),
            );
        }
        j = j + 1;
    }
    None
}

fn check_refs(items: &std::collections::HashSet<u32>, refs: &Vec<IrefEntry>, ids: Ghost<Seq<u32>>) -> (r: Option<
    String,
>)
    requires
        set_of(items@, ids@),
    ensures
        fault_told(r) == refs_fault(ids@, views(refs@), 0),
{
    let ghost v = views(refs@);
    let mut i: usize = 0;
    while i < refs.len()
        invariant
            i <= refs@.len(),
            v == views(refs@),
            set_of(items@, ids@),
            refs_fault(ids@, v, 0) == refs_fault(ids@, v, i as int),
        decreases refs@.len() - i,
    {
        assert(v[i as int] == refs@[i as int]@);
        if !items.contains(&refs[i].from) {
            let before: String = join(
                refs[i].rtype.as_str(),
                " reference originates from unknown item ",
            );
            return Some(about(before.as_str(), refs[i].from as u64, ""));
        }
        match check_targets(items, &refs[i], ids) {
            Some(e) => {
                return Some(e);
            },
            None => {},
        }
        i = i + 1;
    }
    None
}

/// Say what is wrong with the metadata of a file, if anything is; `None` where an
/// offset into the item data box exceeds the address range.
pub fn validate_meta_integrity(data: &[u8], meta: &ParsedMeta, idat: Option<(usize, usize)>) -> (r: Option<
    Option<String>,
>)
    requires
        idat matches Some(x) ==> x.1 <= data.len(),
    ensures
        fault_some(r) == integrity_fault(data@, meta@, range_view(idat)),
{
    let item_ids: Vec<u32> = numbers_of_items(&meta.items);
    let ghost ids = item_ids@;
    let items: std::collections::HashSet<u32> = match collect_ids(&item_ids) {
        Err(id) => {
            return Some(Some(about("duplicate iinf item ID ", id as u64, "")));
        },
        Ok(set) => set,
    };
    if !items.contains(&meta.primary_id) {
        return Some(Some(about("pitm references unknown item ", meta.primary_id as u64, "")));
    }
    match check_ilocs(data, idat, &items, &meta.iloc_entries, Ghost(ids)) {
        None => {
            return None;
        },
        Some(Some(e)) => {
            return Some(Some(e));
        },
        Some(None) => {},
    }
    let prop_ids: Vec<u32> = numbers_of_props(&meta.props);
    let ghost pids = prop_ids@;
    let props: std::collections::HashSet<u32> = match collect_ids(&prop_ids) {
        Err(_) => {
            return Some(Some(invalid("duplicate ipco property index")));
        },
        Ok(set) => set,
    };
    match check_ipma(&items, &props, &meta.ipma_entries, Ghost(ids), Ghost(pids)) {
        Some(e) => Some(Some(e)),
        None => Some(check_refs(&items, &meta.refs, Ghost(ids))),
    }
}

// ---------------------------------------------------------------------------
// The gain-map graph
// ---------------------------------------------------------------------------

/// Being the item with a given number.
pub open spec fn item_numbered(id: u32) -> spec_fn(ItemView) -> bool {
    |it: ItemView| it.item_id == id
}

/// Being the property with a given number.
pub open spec fn prop_numbered(index: u32) -> spec_fn(PropertyView) -> bool {
    |p: PropertyView| p.index == index
}

/// Being an association with a property of a given type.
pub open spec fn assoc_typed(props: Seq<PropertyView>, ptype: Seq<char>) -> spec_fn((u32, bool)) -> bool {
    |a: (u32, bool)|
        match first_where(props, prop_numbered(a.0)) {
            Some(p) => p.ptype == ptype,
            None => false,
        }
}

/// The only property of a type that an item has.
pub open spec fn sole_property(m: MetaView, id: u32, ptype: Seq<char>) -> Result<
    PropertyView,
    Seq<char>,
> {
    match first_where(m.ipma_entries, ipma_for(id)) {
        None => Err(about_text("item "@, id as int, " has no ipma entry"@)),
        Some(e) => {
            let found = e.associations.filter(assoc_typed(m.props, ptype));
            if found.len() == 0 {
                Err(about_text("item "@, id as int, " is missing "@ + ptype))
            } else if found.len() > 1 {
                Err(about_text("item "@, id as int, " has more than one "@ + ptype))
            } else {
                Ok(first_where(m.props, prop_numbered(found[0].0)).unwrap())
            }
        },
    }
}

/// A property by number.
fn find_property<'a>(props: &'a Vec<PropertyInfo>, index: u32) -> (r: Option<&'a PropertyInfo>)
    ensures
        match r {
            Some(p) => first_where(views(props@), prop_numbered(index)) == Some(p@),
            None => first_where(views(props@), prop_numbered(index)) is None,
        },
{
    let mut i: usize = 0;
    while i < props.len()
        invariant
            i <= props@.len(),
            forall|j: int| 0 <= j < i ==> (#[trigger] props@[j]).index != index,
        decreases props@.len() - i,
    {
        if props[i].index == index {
            proof {
                lemma_first_where_at(views(props@), prop_numbered(index), i as int);
            }
            return Some(&props[i]);
        }
        i = i + 1;
    }
    proof {
        lemma_first_where_none(views(props@), prop_numbered(index));
    }
    None
}

/// An item by number.
pub fn find_item_numbered<'a>(items: &'a Vec<ItemInfo>, id: u32) -> (r: Option<&'a ItemInfo>)
    ensures
        match r {
            Some(it) => first_where(views(items@), item_numbered(id)) == Some(it@),
            None => first_where(views(items@), item_numbered(id)) is None,
        },
{
    let mut i: usize = 0;
    while i < items.len()
        invariant
            i <= items@.len(),
            forall|j: int| 0 <= j < i ==> (#[trigger] items@[j]).item_id != id,
        decreases items@.len() - i,
    {
        if items[i].item_id == id {
            proof {
                lemma_first_where_at(views(items@), item_numbered(id), i as int);
            }
            return Some(&items[i]);
        }
        i = i + 1;
    }
    proof {
        lemma_first_where_none(views(items@), item_numbered(id));
    }
    None
}

/// The only property of a type that an item has.
fn associated_property<'a>(meta: &'a ParsedMeta, item_id: u32, kind: &str) -> (r: Result<
    &'a PropertyInfo,
    String,
>)
    ensures
        match r {
            Ok(p) => sole_property(meta@, item_id, kind@) == Ok::<PropertyView, Seq<char>>(p@),
            Err(e) => sole_property(meta@, item_id, kind@) == Err::<PropertyView, Seq<char>>(e@),
        },
{
    let id: u64 = item_id as u64;
    let entry: &IpmaEntry = match find_ipma(&meta.ipma_entries, item_id) {
        None => {
            return Err(about("item ", id, " has no ipma entry"));
        },
        Some(e) => e,
    };
    let ghost v = entry.associations@;
    let ghost p = assoc_typed(meta@.props, kind@);
    let mut found: Option<&'a PropertyInfo> = None;
    let mut i: usize = 0;
    proof {
        lemma_filter_none(v, p);
    }
    while i < entry.associations.len()
        invariant
            i <= entry.associations@.len(),
            v == entry.associations@,
            p == assoc_typed(meta@.props, kind@),
            id == item_id,
            first_where(meta@.ipma_entries, ipma_for(item_id)) == Some(entry@),
            match found {
                None => v.take(i as int).filter(p).len() == 0,
                Some(x) => v.take(i as int).filter(p).len() == 1 && first_where(
                    meta@.props,
                    prop_numbered(v.take(i as int).filter(p)[0].0),
                ) == Some(x@),
            },
        decreases entry.associations@.len() - i,
    {
        proof {
            lemma_filter_take(v, p, i as int);
        }
        match find_property(&meta.props, entry.associations[i].0) {
            None => {},
            Some(property) => {
                if same_text(property.ptype.as_str(), kind) {
                    if found.is_some() {
                        proof {
                            lemma_filter_grows(v, p, i + 1);
                        }
                        return Err(about("item ", id, join(" has more than one ", kind).as_str()));
                    }
                    found = Some(property);
                }
            },
        }
        i = i + 1;
    }
    assert(v.take(i as int) =~= v);
    match found {
        None => Err(about("item ", id, join(" is missing ", kind).as_str())),
        Some(x) => Ok(x),
    }
}

/// Being a `dimg` reference of a given item.
pub open spec fn derived_from(from: u32) -> spec_fn(IrefView) -> bool {
    |r: IrefView| r.rtype == "dimg"@ && r.from == from
}

/// The only `dimg` reference of an item, by its place, where there is just one.
fn sole_derivation(refs: &Vec<IrefEntry>, from: u32) -> (r: Option<usize>)
    ensures
        r is Some <==> views(refs@).filter(derived_from(from)).len() == 1,
        r matches Some(i) ==> i < refs@.len() && views(refs@).filter(derived_from(from))[0]
            == refs@[i as int]@,
{
    let ghost v = views(refs@);
    let ghost p = derived_from(from);
    let mut found: Option<usize> = None;
    let mut i: usize = 0;
    proof {
        lemma_filter_none(v, p);
    }
    while i < refs.len()
        invariant
            i <= refs@.len(),
            v == views(refs@),
            p == derived_from(from),
            match found {
                None => v.take(i as int).filter(p).len() == 0,
                Some(k) => k < refs@.len() && v.take(i as int).filter(p).len() == 1 && v.take(
                    i as int,
                ).filter(p)[0] == refs@[k as int]@,
            },
        decreases refs@.len() - i,
    {
        proof {
            lemma_filter_take(v, p, i as int);
        }
        if refs[i].from == from && same_text(refs[i].rtype.as_str(), "dimg") {
            if found.is_some() {
                proof {
                    lemma_filter_grows(v, p, i + 1);
                }
                return None;
            }
            found = Some(i);
        }
        i = i + 1;
    }
    assert(v.take(i as int) =~= v);
    found
}

/// The number of items of a type and the first of them.
fn count_items(items: &Vec<ItemInfo>, itype: &str) -> (r: (usize, u32))
    ensures
        r.0 == views(items@).filter(item_typed(itype@)).len(),
        r.0 > 0 ==> r.1 == views(items@).filter(item_typed(itype@))[0].item_id,
{
    let ghost v = views(items@);
    let ghost p = item_typed(itype@);
    let mut count: usize = 0;
    let mut first: u32 = 0;
    let mut i: usize = 0;
    proof {
        lemma_filter_none(v, p);
    }
    while i < items.len()
        invariant
            count <= i <= items@.len(),
            v == views(items@),
            p == item_typed(itype@),
            count == v.take(i as int).filter(p).len(),
            count > 0 ==> first == v.take(i as int).filter(p)[0].item_id,
        decreases items@.len() - i,
    {
        proof {
            lemma_filter_take(v, p, i as int);
        }
        if same_text(items[i].itype.as_str(), itype) {
            if count == 0 {
                first = items[i].item_id;
            }
            count = count + 1;
        }
        i = i + 1;
    }
    assert(v.take(i as int) =~= v);
    (count, first)
}

/// The tone-map item, the gain map and the tiles of the gain map.
#[verifier::ext_equal]
pub struct GraphView {
    pub tmap: u32,
    pub gain: u32,
    pub tiles: Seq<u32>,
}

/// The gain-map graph: one tone-map item, derived from the primary image and the
/// gain map, which is a grid of distinct tiles.
pub open spec fn gain_graph(m: MetaView) -> Result<GraphView, Seq<char>> {
    let tmaps = m.items.filter(item_typed("tmap"@));
    let tmap = tmaps[0].item_id;
    let bases = m.refs.filter(derived_from(tmap));
    let targets = bases[0].to;
    let gain = targets[1];
    let parts = m.refs.filter(derived_from(gain));
    if tmaps.len() != 1 {
        Err(about_text("expected exactly one tmap item, found "@, tmaps.len() as int, ""@))
    } else if bases.len() != 1 {
        Err(about_text("tmap item "@, tmap as int, " must have exactly one dimg reference"@))
    } else if targets.len() != 2 || targets[0] != m.primary_id {
        Err(
            about_text(
                "tmap item "@,
                tmap as int,
                " must dimg-reference [primary, gain-map] in that order"@,
            ),
        )
    } else {
        match first_where(m.items, item_numbered(gain)) {
            None => Err(about_text("gain-map item "@, gain as int, " is missing"@)),
            Some(it) => if it.itype != "grid"@ {
                Err(
                    about_text("gain-map item "@, gain as int, " is "@ + it.itype + ", expected grid"@),
                )
            } else if parts.len() != 1 || parts[0].to.len() == 0 {
                Err(
                    about_text(
                        "grid gain-map item "@,
                        gain as int,
                        " must have exactly one non-empty dimg reference"@,
                    ),
                )
            } else if first_repeat(parts[0].to, 0) is Some {
                Err(invalid_text("gain-map dimg reference repeats a tile item ID"@))
            } else {
                Ok(GraphView { tmap, gain, tiles: parts[0].to })
            },
        }
    }
}

/// The tone-map item, the gain map and the tiles of the gain map.
struct GainGraph {
    tmap: u32,
    gain: u32,
    tiles: Vec<u32>,
}

fn find_gain_graph(meta: &ParsedMeta) -> (r: Result<GainGraph, String>)
    ensures
        match r {
            Ok(g) => gain_graph(meta@) == Ok::<GraphView, Seq<char>>(
                GraphView { tmap: g.tmap, gain: g.gain, tiles: g.tiles@ },
            ) && g.tiles@.len() > 0,
            Err(e) => gain_graph(meta@) == Err::<GraphView, Seq<char>>(e@),
        },
{
    let (count, tmap) = count_items(&meta.items, "tmap");
    if count != 1 {
        return Err(about("expected exactly one tmap item, found ", count as u64, ""));
    }
    let t: u64 = tmap as u64;
    let base: &IrefEntry = match sole_derivation(&meta.refs, tmap) {
        None => {
            return Err(about("tmap item ", t, " must have exactly one dimg reference"));
        },
        Some(i) => &meta.refs[i],
    };
    if base.to.len() != 2 || base.to[0] != meta.primary_id {
        return Err(
            about("tmap item ", t, " must dimg-reference [primary, gain-map] in that order"),
        );
    }
    let gain: u32 = base.to[1];
    let g: u64 = gain as u64;
    match find_item_numbered(&meta.items, gain) {
        None => {
            return Err(about("gain-map item ", g, " is missing"));
        },
        Some(it) => {
            if !same_text(it.itype.as_str(), "grid") {
                let after: String = join(join(" is ", it.itype.as_str()).as_str(), ", expected grid");
                return Err(about("gain-map item ", g, after.as_str()));
            }
        },
    }
    let parts: &IrefEntry = match sole_derivation(&meta.refs, gain) {
        None => {
            return Err(
                about(
                    "grid gain-map item ",
                    g,
                    " must have exactly one non-empty dimg reference",
                ),
            );
        },
        Some(i) => &meta.refs[i],
    };
    if parts.to.len() == 0 {
        return Err(
            about("grid gain-map item ", g, " must have exactly one non-empty dimg reference"),
        );
    }
    if collect_ids(&parts.to).is_err() {
        return Err(invalid("gain-map dimg reference repeats a tile item ID"));
    }
    Ok(GainGraph { tmap, gain, tiles: copy_ids(&parts.to) })
}

/// What a tile must be: an HEVC item with a location, a size and a decoder
/// configuration.
pub open spec fn tile_profile(m: MetaView, id: u32) -> Result<HvcCProfile, Seq<char>> {
    match first_where(m.items, item_numbered(id)) {
        None => Err(about_text("tile item "@, id as int, " is missing"@)),
        Some(it) => if it.itype != "hvc1"@ {
            Err(about_text("gain-map tile "@, id as int, " is "@ + it.itype + ", expected hvc1"@))
        } else if first_where(m.iloc_entries, iloc_for(id)) is None {
            Err(about_text("tile item "@, id as int, " has no iloc entry"@))
        } else {
            match sole_property(m, id, "ispe"@) {
                Err(e) => Err(e),
                Ok(ispe) => match stated_size(ispe.raw) {
                    Err(e) => Err(e),
                    Ok(_) => match sole_property(m, id, "hvcC"@) {
                        Err(e) => Err(e),
                        Ok(hvcc) => match property_payload(hvcc.raw) {
                            Err(e) => Err(e),
                            Ok(p) => hvcc_profile(p),
                        },
                    },
                },
            }
        },
    }
}

fn read_tile_profile(meta: &ParsedMeta, id: u32) -> (r: Result<HvcCProfile, String>)
    ensures
        said(r) == tile_profile(meta@, id),
{
    match find_item_numbered(&meta.items, id) {
        None => {
            return Err(about("tile item ", id as u64, " is missing"));
        },
        Some(it) => {
            if !same_text(it.itype.as_str(), "hvc1") {
                let after: String = join(join(" is ", it.itype.as_str()).as_str(), ", expected hvc1");
                return Err(about("gain-map tile ", id as u64, after.as_str()));
            }
        },
    }
    if find_iloc(&meta.iloc_entries, id).is_none() {
        return Err(about("tile item ", id as u64, " has no iloc entry"));
    }
    let ispe: &PropertyInfo = match associated_property(meta, id, "ispe") {
        Err(e) => {
            return Err(e);
        },
        Ok(p) => p,
    };
    match ispe_dims(ispe.raw.as_slice()) {
        Err(e) => {
            return Err(e);
        },
        Ok(_) => {},
    }
    let hvcc: &PropertyInfo = match associated_property(meta, id, "hvcC") {
        Err(e) => {
            return Err(e);
        },
        Ok(p) => p,
    };
    match property_box_bytes(hvcc.raw.as_slice()) {
        Err(e) => Err(e),
        Ok(p) => parse_hvcc_profile(p.as_slice()),
    }
}

/// The profile that the tiles from `i` on share with `codec`.
pub open spec fn shared_profile(m: MetaView, tiles: Seq<u32>, i: int, codec: Option<HvcCProfile>) -> Result<
    Option<HvcCProfile>,
    Seq<char>,
>
    decreases tiles.len() - i,
{
    if i < 0 || i >= tiles.len() {
        Ok(codec)
    } else {
        match tile_profile(m, tiles[i]) {
            Err(e) => Err(e),
            Ok(p) => match codec {
                None => shared_profile(m, tiles, i + 1, Some(p)),
                Some(q) => if p == q {
                    shared_profile(m, tiles, i + 1, codec)
                } else {
                    Err(
                        about_text(
                            "tile item "@,
                            tiles[i] as int,
                            " uses a different hvcC channel layout"@,
                        ),
                    )
                },
            },
        }
    }
}

fn find_shared_profile(meta: &ParsedMeta, tiles: &Vec<u32>) -> (r: Result<Option<HvcCProfile>, String>)
    ensures
        said(r) == shared_profile(meta@, tiles@, 0, None),
{
    let mut codec: Option<HvcCProfile> = None;
    let mut i: usize = 0;
    while i < tiles.len()
        invariant
            i <= tiles@.len(),
            shared_profile(meta@, tiles@, 0, None) == shared_profile(meta@, tiles@, i as int, codec),
        decreases tiles@.len() - i,
    {
        let parsed: HvcCProfile = match read_tile_profile(meta, tiles[i]) {
            Err(e) => {
                return Err(e);
            },
            Ok(p) => p,
        };
        match codec {
            None => {
                codec = Some(parsed);
            },
            Some(expected) => {
                if parsed != expected {
                    return Err(
                        about(
                            "tile item ",
                            tiles[i] as u64,
                            " uses a different hvcC channel layout",
                        ),
                    );
                }
            },
        }
        i = i + 1;
    }
    Ok(codec)
}

/// Rows, columns, width and height of the gain map, which its tiles and its `ispe`
/// property agree with.
pub open spec fn gain_grid(s: Seq<u8>, m: MetaView, idat: Option<(int, int)>, g: GraphView) -> Option<
    Result<(u32, u32, u32, u32), Seq<char>>,
> {
    match first_where(m.iloc_entries, iloc_for(g.gain)) {
        None => Some(Err(about_text("gain-map item "@, g.gain as int, " has no iloc entry"@))),
        Some(e) => match checked_payload(s, idat, e) {
            None => None,
            Some(Err(e)) => Some(Err(e)),
            Some(Ok(payload)) => Some(
                match stated_grid(payload) {
                    Err(e) => Err(e),
                    Ok((rows, columns, width, height)) => if rows * columns != g.tiles.len() {
                        Err(
                            invalid_text(
                                "grid declares "@ + decimal_text(rows as int) + "x"@ + decimal_text(
                                    columns as int,
                                ) + " tiles but dimg contains "@ + decimal_text(g.tiles.len() as int)
                                    + " items"@,
                            ),
                        )
                    } else {
                        match sole_property(m, g.gain, "ispe"@) {
                            Err(e) => Err(e),
                            Ok(ispe) => match stated_size(ispe.raw) {
                                Err(e) => Err(e),
                                Ok(size) => if size != (width, height) {
                                    Err(
                                        invalid_text(
                                            "grid payload dimensions "@ + decimal_text(width as int)
                                                + "x"@ + decimal_text(height as int)
                                                + " disagree with ispe "@ + decimal_text(
                                                size.0 as int,
                                            ) + "x"@ + decimal_text(size.1 as int),
                                        ),
                                    )
                                } else {
                                    Ok((rows, columns, width, height))
                                },
                            },
                        }
                    },
                },
            ),
        },
    }
}

fn check_gain_grid(data: &[u8], meta: &ParsedMeta, idat: Option<(usize, usize)>, g: &GainGraph) -> (r: Option<
    Result<(u32, u32, u32, u32), String>,
>)
    requires
        idat matches Some(x) ==> x.1 <= data.len(),
    ensures
        said_some(r) == gain_grid(
            data@,
            meta@,
            range_view(idat),
            GraphView { tmap: g.tmap, gain: g.gain, tiles: g.tiles@ },
        ),
{
    let entry: &IlocEntry = match find_iloc(&meta.iloc_entries, g.gain) {
        None => {
            return Some(Err(about("gain-map item ", g.gain as u64, " has no iloc entry")));
        },
        Some(e) => e,
    };
    let payload: Vec<u8> = match item_payload(data, idat, entry) {
        None => {
            return None;
        },
        Some(Err(e)) => {
            return Some(Err(e));
        },
        Some(Ok(p)) => p,
    };
    let (rows, columns, width, height): (u32, u32, u32, u32) = match parse_grid_payload(
        payload.as_slice(),
    ) {
        Err(e) => {
            return Some(Err(e));
        },
        Ok(v) => v,
    };
    assert(rows * columns <= 0x1_0000) by (nonlinear_arith)
        requires
            rows <= 256,
            columns <= 256,
    ;
    if (rows * columns) as u64 != g.tiles.len() as u64 {
        let a: String = join(join("grid declares ", decimal(rows as u64).as_str()).as_str(), "x");
        let b: String = join(
            join(a.as_str(), decimal(columns as u64).as_str()).as_str(),
            " tiles but dimg contains ",
        );
        let c: String = join(
            join(b.as_str(), decimal(g.tiles.len() as u64).as_str()).as_str(),
            " items",
        );
        return Some(Err(invalid(c.as_str())));
    }
    let ispe: &PropertyInfo = match associated_property(meta, g.gain, "ispe") {
        Err(e) => {
            return Some(Err(e));
        },
        Ok(p) => p,
    };
    let (ispe_w, ispe_h): (u32, u32) = match ispe_dims(ispe.raw.as_slice()) {
        Err(e) => {
            return Some(Err(e));
        },
        Ok(v) => v,
    };
    if ispe_w != width || ispe_h != height {
        let a: String = join(
            join("grid payload dimensions ", decimal(width as u64).as_str()).as_str(),
            "x",
        );
        let b: String = join(
            join(a.as_str(), decimal(height as u64).as_str()).as_str(),
            " disagree with ispe ",
        );
        let c: String = join(join(b.as_str(), decimal(ispe_w as u64).as_str()).as_str(), "x");
        return Some(Err(invalid(join(c.as_str(), decimal(ispe_h as u64).as_str()).as_str())));
    }
    Some(Ok((rows, columns, width, height)))
}

/// The bit depths of the channels of the gain map, one or three. The tone-map item
/// has a size and pixel information too.
pub open spec fn gain_depths(m: MetaView, g: GraphView) -> Result<Seq<u8>, Seq<char>> {
    match sole_property(m, g.gain, "pixi"@) {
        Err(e) => Err(e),
        Ok(pixi) => match stated_depths(pixi.raw) {
            Err(e) => Err(e),
            Ok(depths) => if depths.len() != 1 && depths.len() != 3 {
                Err(
                    about_text(
                        "gain-map pixi must declare one or three channels, got "@,
                        depths.len() as int,
                        ""@,
                    ),
                )
            } else {
                match sole_property(m, g.tmap, "ispe"@) {
                    Err(e) => Err(e),
                    Ok(ispe) => match stated_size(ispe.raw) {
                        Err(e) => Err(e),
                        Ok(_) => match sole_property(m, g.tmap, "pixi"@) {
                            Err(e) => Err(e),
                            Ok(p) => match stated_depths(p.raw) {
                                Err(e) => Err(e),
                                Ok(_) => Ok(depths),
                            },
                        },
                    },
                }
            },
        },
    }
}

fn check_gain_depths(meta: &ParsedMeta, g: &GainGraph) -> (r: Result<Vec<u8>, String>)
    ensures
        told(r) == gain_depths(meta@, GraphView { tmap: g.tmap, gain: g.gain, tiles: g.tiles@ }),
        r matches Ok(d) ==> d@.len() == 1 || d@.len() == 3,
{
    let gain_pixi: &PropertyInfo = match associated_property(meta, g.gain, "pixi") {
        Err(e) => {
            return Err(e);
        },
        Ok(p) => p,
    };
    let depths: Vec<u8> = match parse_pixi_property(gain_pixi.raw.as_slice()) {
        Err(e) => {
            return Err(e);
        },
        Ok(d) => d,
    };
    if depths.len() != 1 && depths.len() != 3 {
        return Err(
            about("gain-map pixi must declare one or three channels, got ", depths.len() as u64, ""),
        );
    }
    let tmap_ispe: &PropertyInfo = match associated_property(meta, g.tmap, "ispe") {
        Err(e) => {
            return Err(e);
        },
        Ok(p) => p,
    };
    match ispe_dims(tmap_ispe.raw.as_slice()) {
        Err(e) => {
            return Err(e);
        },
        Ok(_) => {},
    }
    let tmap_pixi: &PropertyInfo = match associated_property(meta, g.tmap, "pixi") {
        Err(e) => {
            return Err(e);
        },
        Ok(p) => p,
    };
    match parse_pixi_property(tmap_pixi.raw.as_slice()) {
        Err(e) => Err(e),
        Ok(_) => Ok(depths),
    }
}

/// The bit depths that a stream of this profile has for each of the channels.
pub open spec fn profile_depths(channels: int, p: HvcCProfile) -> Seq<u8> {
    if channels == 1 {
        seq![p.luma_bit_depth]
    } else {
        seq![p.luma_bit_depth, p.chroma_bit_depth, p.chroma_bit_depth]
    }
}

/// What is wrong between the channels of the gain map and the profile of its tiles:
/// three channels need a chroma format, one is carried in 4:0:0 or 4:2:0, and the bit depths
/// must agree.
pub open spec fn channel_fault(depths: Seq<u8>, p: HvcCProfile) -> Option<Seq<char>> {
    if depths.len() == 3 && p.chroma_format_idc == 0 || depths.len() == 1 && p.chroma_format_idc
        >= 2 {
        Some(
            invalid_text(
                "gain-map pixi declares "@ + decimal_text(depths.len() as int)
                    + " channels but hvcC chroma_format_idc "@ + decimal_text(
                    p.chroma_format_idc as int,
                ) + " cannot carry it"@,
            ),
        )
    } else if depths != profile_depths(depths.len() as int, p) {
        Some(
            invalid_text(
                "gain-map pixi bit depths ["@ + listed(depths) + "] disagree with hvcC "@
                    + decimal_text(p.luma_bit_depth as int) + "/"@ + decimal_text(
                    p.chroma_bit_depth as int,
                ),
            ),
        )
    } else {
        None
    }
}

/// What is wrong between the channels of a gain map and the profile of its tiles.
pub fn check_channels(depths: &Vec<u8>, codec: HvcCProfile) -> (r: Option<String>)
    requires
        depths@.len() == 1 || depths@.len() == 3,
    ensures
        fault_told(r) == channel_fault(depths@, codec),
{
    if depths.len() == 3 && codec.chroma_format_idc == 0 || depths.len() == 1
        && codec.chroma_format_idc >= 2 {
        let a: String = join("gain-map pixi declares ", decimal(depths.len() as u64).as_str());
        let b: String = join(a.as_str(), " channels but hvcC chroma_format_idc ");
        let c: String = join(b.as_str(), decimal(codec.chroma_format_idc as u64).as_str());
        return Some(invalid(join(c.as_str(), " cannot carry it").as_str()));
    }
    let expected: Vec<u8> = if depths.len() == 1 {
        vec![codec.luma_bit_depth]
    } else {
        vec![codec.luma_bit_depth, codec.chroma_bit_depth, codec.chroma_bit_depth]
    };
    assert(expected@ =~= profile_depths(depths@.len() as int, codec));
    if !bytes_eq(depths.as_slice(), expected.as_slice()) {
        let a: String = join("gain-map pixi bit depths [", list_numbers(depths).as_str());
        let b: String = join(a.as_str(), "] disagree with hvcC ");
        let c: String = join(b.as_str(), decimal(codec.luma_bit_depth as u64).as_str());
        let d: String = join(join(c.as_str(), "/").as_str(), decimal(codec.chroma_bit_depth as u64).as_str());
        return Some(invalid(d.as_str()));
    }
    None
}

/// The structure of a file's gain map, from metadata without faults.
pub open spec fn structure_of(s: Seq<u8>, m: MetaView, idat: Option<(int, int)>) -> Option<
    Result<StructureView, Seq<char>>,
> {
    match gain_graph(m) {
        Err(e) => Some(Err(e)),
        Ok(g) => match gain_grid(s, m, idat, g) {
            None => None,
            Some(Err(e)) => Some(Err(e)),
            Some(Ok((rows, columns, width, height))) => match gain_depths(m, g) {
                Err(e) => Some(Err(e)),
                Ok(depths) => match shared_profile(m, g.tiles, 0, None) {
                    Err(e) => Some(Err(e)),
                    Ok(None) => Some(Err(invalid_text("gain-map contains no HEVC tiles"@))),
                    Ok(Some(p)) => match channel_fault(depths, p) {
                        Some(e) => Some(Err(e)),
                        None => Some(
                            Ok(
                                StructureView {
                                    primary_item_id: m.primary_id,
                                    tmap_item_id: g.tmap,
                                    gain_map_item_id: g.gain,
                                    tile_item_ids: g.tiles,
                                    width,
                                    height,
                                    rows,
                                    columns,
                                    channel_count: depths.len() as u8,
                                    general_profile_idc: p.general_profile_idc,
                                    chroma_format_idc: p.chroma_format_idc,
                                    luma_bit_depth: p.luma_bit_depth,
                                    chroma_bit_depth: p.chroma_bit_depth,
                                },
                            ),
                        ),
                    },
                },
            },
        },
    }
}

fn read_structure(data: &[u8], meta: &ParsedMeta, idat: Option<(usize, usize)>) -> (r: Option<
    Result<GainMapStructure, String>,
>)
    requires
        idat matches Some(x) ==> x.1 <= data.len(),
    ensures
        told_some(r) == structure_of(data@, meta@, range_view(idat)),
{
    let graph: GainGraph = match find_gain_graph(meta) {
        Err(e) => {
            return Some(Err(e));
        },
        Ok(g) => g,
    };
    let (rows, columns, width, height): (u32, u32, u32, u32) = match check_gain_grid(
        data,
        meta,
        idat,
        &graph,
    ) {
        None => {
            return None;
        },
        Some(Err(e)) => {
            return Some(Err(e));
        },
        Some(Ok(v)) => v,
    };
    let depths: Vec<u8> = match check_gain_depths(meta, &graph) {
        Err(e) => {
            return Some(Err(e));
        },
        Ok(d) => d,
    };
    let codec: HvcCProfile = match find_shared_profile(meta, &graph.tiles) {
        Err(e) => {
            return Some(Err(e));
        },
        Ok(None) => {
            return Some(Err(invalid("gain-map contains no HEVC tiles")));
        },
        Ok(Some(p)) => p,
    };
    match check_channels(&depths, codec) {
        Some(e) => {
            return Some(Err(e));
        },
        None => {},
    }
    let out: GainMapStructure = GainMapStructure {
        primary_item_id: meta.primary_id,
        tmap_item_id: graph.tmap,
        gain_map_item_id: graph.gain,
        tile_item_ids: graph.tiles,
        width,
        height,
        rows,
        columns,
        channel_count: depths.len() as u8,
        general_profile_idc: codec.general_profile_idc,
        chroma_format_idc: codec.chroma_format_idc,
        luma_bit_depth: codec.luma_bit_depth,
        chroma_bit_depth: codec.chroma_bit_depth,
    };
    Some(Ok(out))
}

/// The range of the item data box of a file.
pub open spec fn idat_range(s: Seq<u8>, meta: BoxView) -> Option<(int, int)> {
    match first_box(boxes_in(s, meta.data_start + 4, meta.data_end), IDAT@) {
        Some(b) => Some((b.data_start, b.data_end)),
        None => None,
    }
}

/// The structure of the gain map of a file, or why it has none that is valid.
/// `None` where the metadata is cut short by the end of the data, or where an offset
/// exceeds the address range.
pub open spec fn gain_map_structure(s: Seq<u8>) -> Option<Result<StructureView, Seq<char>>> {
    let top = boxes_in(s, 0, s.len() as int);
    match sole_box(top, FTYP@, "ftyp"@) {
        Err(e) => Some(Err(e)),
        Ok(_) => match sole_box(top, META@, "meta"@) {
            Err(e) => Some(Err(e)),
            Ok(meta_box) => match sole_box(top, MDAT@, "mdat"@) {
                Err(e) => Some(Err(e)),
                Ok(_) => match source_meta(s) {
                    None => None,
                    Some(Err(e)) => Some(Err(e)),
                    Some(Ok(m)) => {
                        let idat = idat_range(s, meta_box);
                        match integrity_fault(s, m, idat) {
                            None => None,
                            Some(Some(e)) => Some(Err(e)),
                            Some(None) => structure_of(s, m, idat),
                        }
                    },
                },
            },
        },
    }
}

/// Like `validate_gain_map_structure`, for any data.
pub fn try_validate_gain_map_structure(source: &[u8]) -> (r: Option<Result<GainMapStructure, String>>)
    ensures
        told_some(r) == gain_map_structure(source@),
{
    let top: Vec<BoxHeader> = parse_boxes(source, 0, source.len());
    match one_top_level(&top, &FTYP, "ftyp") {
        Err(e) => {
            return Some(Err(e));
        },
        Ok(_) => {},
    }
    let meta_box: BoxHeader = match one_top_level(&top, &META, "meta") {
        Err(e) => {
            return Some(Err(e));
        },
        Ok(b) => b,
    };
    match one_top_level(&top, &MDAT, "mdat") {
        Err(e) => {
            return Some(Err(e));
        },
        Ok(_) => {},
    }
    let meta: ParsedMeta = match try_parse_source_meta(source) {
        None => {
            return None;
        },
        Some(Err(e)) => {
            return Some(Err(e));
        },
        Some(Ok(m)) => m,
    };
    proof {
        lemma_boxes_within(source@, 0, source@.len() as int);
        lemma_filter_member(views(top@), of_type(META@));
    }
    let children: Vec<BoxHeader> = parse_children(source, &meta_box, 4);
    let idat: Option<(usize, usize)> = match find_in(children.as_slice(), &IDAT) {
        Some(b) => {
            proof {
                lemma_first_where_has(views(children@), of_type(IDAT@));
            }
            Some((b.data_start, b.data_end))
        },
        None => None,
    };
    match validate_meta_integrity(source, &meta, idat) {
        None => None,
        Some(Some(e)) => Some(Err(e)),
        Some(None) => read_structure(source, &meta, idat),
    }
}

/// What is picked is there.
proof fn lemma_filter_member<T>(s: Seq<T>, p: spec_fn(T) -> bool)
    ensures
        forall|j: int|
            0 <= j < s.filter(p).len() ==> exists|i: int|
                0 <= i < s.len() && s[i] == #[trigger] s.filter(p)[j],
    decreases s.len(),
{
    reveal(Seq::filter);
    if s.len() > 0 {
        let t = s.drop_last();
        lemma_filter_member(t, p);
        assert forall|j: int| 0 <= j < s.filter(p).len() implies exists|i: int|
            0 <= i < s.len() && s[i] == #[trigger] s.filter(p)[j] by {
            if j < t.filter(p).len() {
                let i = choose|i: int| 0 <= i < t.len() && t[i] == t.filter(p)[j];
                assert(s[i] == s.filter(p)[j]);
            } else {
                assert(s[s.len() - 1] == s.filter(p)[j]);
            }
        }
    }
}

/// Validate the tiled gain-map structure of an ISO HDR HEIC and say what it is made
/// of.
pub fn validate_gain_map_structure(source: &[u8]) -> (r: Result<GainMapStructure, String>)
    requires
        gain_map_structure(source@) is Some,
    ensures
        Some(told(r)) == gain_map_structure(source@),
{
    try_validate_gain_map_structure(source).unwrap()
}

pub proof fn lemma_no_repeat(ids: Seq<u32>, i: int)
    requires
        0 <= i,
        first_repeat(ids, i) is None,
    ensures
        forall|a: int, b: int| 0 <= a < b < ids.len() && i <= b ==> ids[a] != ids[b],
    decreases ids.len() - i,
{
    if i < ids.len() {
        lemma_no_repeat(ids, i + 1);
        assert forall|a: int, b: int| 0 <= a < b < ids.len() && i <= b implies ids[a] != ids[b] by {
            if b == i {
                assert(ids.take(i)[a] == ids[a]);
            }
        }
    }
}

/// A gain map that was found valid has exactly as many tiles as its rows and columns
/// ask for, all of them different items, has a size, and has one channel, or three in
/// a stream that carries chroma.
pub proof fn valid_gain_map_is_consistent(s: Seq<u8>, v: StructureView)
    requires
        gain_map_structure(s) == Some(Ok::<StructureView, Seq<char>>(v)),
    ensures
        v.tile_item_ids.len() == v.rows * v.columns,
        1 <= v.rows <= 256,
        1 <= v.columns <= 256,
        forall|a: int, b: int|
            0 <= a < b < v.tile_item_ids.len() ==> v.tile_item_ids[a] != v.tile_item_ids[b],
        v.width > 0 && v.height > 0,
        v.channel_count == 1 && v.chroma_format_idc <= 1 || (v.channel_count == 3 && 1 <= v.chroma_format_idc <= 3),
        8 <= v.luma_bit_depth <= 15 && 8 <= v.chroma_bit_depth <= 15,
{
    let top = boxes_in(s, 0, s.len() as int);
    let meta_box = sole_box(top, META@, "meta"@)->Ok_0;
    let m = source_meta(s)->0->Ok_0;
    let idat = idat_range(s, meta_box);
    let g = gain_graph(m)->Ok_0;
    lemma_no_repeat(g.tiles, 0);
    lemma_shared_profile(m, g.tiles, 0, None);
}

proof fn lemma_shared_profile(m: MetaView, tiles: Seq<u32>, i: int, codec: Option<HvcCProfile>)
    requires
        codec matches Some(p) ==> p.chroma_format_idc <= 3 && 8 <= p.luma_bit_depth <= 15 && 8
            <= p.chroma_bit_depth <= 15,
    ensures
        shared_profile(m, tiles, i, codec) matches Ok(Some(p)) ==> p.chroma_format_idc <= 3 && 8
            <= p.luma_bit_depth <= 15 && 8 <= p.chroma_bit_depth <= 15,
    decreases tiles.len() - i,
{
    if 0 <= i < tiles.len() {
        match tile_profile(m, tiles[i]) {
            Err(_) => {},
            Ok(p) => {
                lemma_shared_profile(m, tiles, i + 1, Some(p));
                lemma_shared_profile(m, tiles, i + 1, codec);
            },
        }
    }
}

/// The numbers in valid metadata mean what they should: no item is described or
/// located twice, and every location, association and reference is that of an item
/// that is described.
pub proof fn faultless_metadata_is_closed(s: Seq<u8>, m: MetaView, idat: Option<(int, int)>)
    requires
        integrity_fault(s, m, idat) == Some(None::<Seq<char>>),
    ensures
        forall|a: int, b: int| 0 <= a < b < m.items.len() ==> m.items[a].item_id != m.items[b].item_id,
        item_numbers(m.items).contains(m.primary_id),
        forall|i: int|
            0 <= i < m.iloc_entries.len() ==> item_numbers(m.items).contains(
                (#[trigger] m.iloc_entries[i]).item_id,
            ) && checked_payload(s, idat, m.iloc_entries[i]) matches Some(Ok(_)),
        forall|i: int|
            0 <= i < m.ipma_entries.len() ==> item_numbers(m.items).contains(
                (#[trigger] m.ipma_entries[i]).item_id,
            ),
        forall|i: int|
            0 <= i < m.refs.len() ==> item_numbers(m.items).contains((#[trigger] m.refs[i]).from),
        forall|i: int, j: int|
            0 <= i < m.refs.len() && 0 <= j < m.refs[i].to.len() ==> item_numbers(m.items).contains(
                #[trigger] m.refs[i].to[j],
            ),
{
    let items = item_numbers(m.items);
    lemma_no_repeat(items, 0);
    assert forall|a: int, b: int| 0 <= a < b < m.items.len() implies m.items[a].item_id
        != m.items[b].item_id by {
        assert(items[a] != items[b]);
    }
    lemma_ilocs_sound(s, idat, items, m.iloc_entries, 0);
    lemma_ipma_sound(items, prop_numbers(m.props), m.ipma_entries, 0);
    lemma_refs_sound(items, m.refs, 0);
}

proof fn lemma_ilocs_sound(
    s: Seq<u8>,
    idat: Option<(int, int)>,
    items: Seq<u32>,
    entries: Seq<IlocView>,
    i: int,
)
    requires
        0 <= i,
        iloc_fault(s, idat, items, entries, i) == Some(None::<Seq<char>>),
    ensures
        forall|k: int|
            i <= k < entries.len() ==> items.contains((#[trigger] entries[k]).item_id)
                && checked_payload(s, idat, entries[k]) matches Some(Ok(_)),
    decreases entries.len() - i,
{
    if i < entries.len() {
        lemma_ilocs_sound(s, idat, items, entries, i + 1);
    }
}

proof fn lemma_ipma_sound(items: Seq<u32>, props: Seq<u32>, entries: Seq<IpmaView>, i: int)
    requires
        0 <= i,
        ipma_fault(items, props, entries, i) is None,
    ensures
        forall|k: int| i <= k < entries.len() ==> items.contains((#[trigger] entries[k]).item_id),
    decreases entries.len() - i,
{
    if i < entries.len() {
        lemma_ipma_sound(items, props, entries, i + 1);
    }
}

proof fn lemma_targets_sound(items: Seq<u32>, r: IrefView, j: int)
    requires
        0 <= j,
        target_fault(items, r, j) is None,
    ensures
        forall|k: int| j <= k < r.to.len() ==> items.contains(#[trigger] r.to[k]),
    decreases r.to.len() - j,
{
    if j < r.to.len() {
        lemma_targets_sound(items, r, j + 1);
    }
}

proof fn lemma_refs_sound(items: Seq<u32>, refs: Seq<IrefView>, i: int)
    requires
        0 <= i,
        refs_fault(items, refs, i) is None,
    ensures
        forall|k: int| i <= k < refs.len() ==> items.contains((#[trigger] refs[k]).from),
        forall|k: int, j: int|
            i <= k < refs.len() && 0 <= j < refs[k].to.len() ==> items.contains(
                #[trigger] refs[k].to[j],
            ),
    decreases refs.len() - i,
{
    if i < refs.len() {
        lemma_refs_sound(items, refs, i + 1);
        lemma_targets_sound(items, refs[i], 0);
    }
}

} // verus!
