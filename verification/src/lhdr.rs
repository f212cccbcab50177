//! Gain-map data of a container. The floats of a metadata block are held by their bit
//! patterns, which order positive floats as the floats themselves.

use crate::bytes::{copy_range, le32, opt_bytes, read32};
use crate::container::{
    blocks_from, extension_of, extract_mask, extract_uhdr_parts, find_extension_region,
    float144_blocks, manifest_blocks, mask_of, named_blocks, uhdr_of,
};
use crate::manifest::{ManifestEntry, ManifestView, manifest_of, parse_manifest};
use crate::seqs::{first_where, views};
use crate::text::same_text;
use vstd::prelude::*;
use vstd::string::*;

verus! {

/// The least score of a block that counts as metadata.
pub const MIN_FLOAT144_SCORE: i32 = 10;

// ---------------------------------------------------------------------------
// Fields of a metadata block
// ---------------------------------------------------------------------------

/// The bit patterns of the little-endian floats that stand in `b`, one after the other.
pub open spec fn float_bits(b: Seq<u8>) -> Seq<u32> {
    Seq::new((b.len() / 4) as nat, |i: int| le32(b, 4 * i) as u32)
}

/// The single-precision floats less than 0.01 away from 144: the distance of two of them
/// there is 2^-16.
pub open spec fn near_144(bits: u32) -> bool {
    0x4310_0000 - 655 <= bits <= 0x4310_0000 + 655
}

/// The single-precision floats less than 0.01 away from -1: the distance of two of them is
/// 2^-24 above -1 and 2^-23 below.
pub open spec fn near_minus_1(bits: u32) -> bool {
    0xbf80_0000 - 167_772 <= bits <= 0xbf80_0000 + 83_886
}

/// The single-precision floats less than 0.01 away from 10: the distance of two of them
/// there is 2^-20.
pub open spec fn near_10(bits: u32) -> bool {
    0x4120_0000 - 10_485 <= bits <= 0x4120_0000 + 10_485
}

/// The single-precision floats less than 0.01 away from 6: the distance of two of them
/// there is 2^-21.
pub open spec fn near_6(bits: u32) -> bool {
    0x40c0_0000 - 20_971 <= bits <= 0x40c0_0000 + 20_971
}

/// The single-precision floats from 2 to 5.
pub open spec fn from_2_to_5(bits: u32) -> bool {
    0x4000_0000 <= bits <= 0x40a0_0000
}

/// The single-precision floats from 0 to 2000, negative zero among them.
pub open spec fn from_0_to_2000(bits: u32) -> bool {
    bits <= 0x44fa_0000 || bits == 0x8000_0000
}

/// The single-precision floats from 3 on, infinity among them.
pub open spec fn from_3(bits: u32) -> bool {
    0x4040_0000 <= bits <= 0x7f80_0000
}

/// The points for a field.
pub open spec fn points(holds: bool, n: int) -> int {
    if holds {
        n
    } else {
        0
    }
}

/// How many points a metadata block gets for fields that are what they usually are.
pub open spec fn lhdr_score(f: Seq<u32>) -> int {
    points(near_144(f[2]), 5) + points(near_minus_1(f[5]), 3) + points(near_10(f[18]), 2) + points(
        near_6(f[19]),
        2,
    ) + points(from_2_to_5(f[0]), 2) + points(from_0_to_2000(f[29]), 1)
}

/// Whether the sixth field of a whole block is the one that genuine blocks have.
pub open spec fn lhdr_plausible(f: Seq<u32>) -> bool {
    f.len() >= 36 && near_minus_1(f[5])
}

/// The bit patterns of the little-endian floats that stand in `bytes`, one after the other.
pub fn bytes_to_f32s(bytes: &[u8]) -> (r: Vec<u32>)
    ensures
        r@ == float_bits(bytes@),
{
    let mut out: Vec<u32> = Vec::new();
    let mut p: usize = 0;
    while bytes.len() - p >= 4
        invariant
            p <= bytes@.len(),
            p == 4 * out@.len(),
            out@ == float_bits(bytes@.take(p as int)),
        decreases bytes@.len() - p,
    {
        let ghost before = out@;
        out.push(read32(bytes, p, true));
        p = p + 4;
        assert(out@ =~= float_bits(bytes@.take(p as int))) by {
            let now = float_bits(bytes@.take(p as int));
            assert forall|i: int| 0 <= i < out@.len() implies out@[i] == #[trigger] now[i] by {
                if i < before.len() {
                    assert(before[i] == float_bits(bytes@.take(p - 4))[i]);
                }
            }
        }
    }
    assert(out@ =~= float_bits(bytes@)) by {
        let all = float_bits(bytes@);
        assert forall|i: int| 0 <= i < out@.len() implies out@[i] == #[trigger] all[i] by {
            assert(out@[i] == float_bits(bytes@.take(p as int))[i]);
        }
    }
    out
}

/// Score how well a metadata block matches what its fields usually are.
pub fn score_lhdr_meta(floats: &[u32]) -> (r: i32)
    requires
        floats@.len() >= 30,
    ensures
        r == lhdr_score(floats@),
        0 <= r <= 15,
{
    let mut score: i32 = 0;
    if floats[2] >= 0x4310_0000 - 655 && floats[2] <= 0x4310_0000 + 655 {
        score = score + 5;
    }
    if floats[5] >= 0xbf80_0000 - 167_772 && floats[5] <= 0xbf80_0000 + 83_886 {
        score = score + 3;
    }
    if floats[18] >= 0x4120_0000 - 10_485 && floats[18] <= 0x4120_0000 + 10_485 {
        score = score + 2;
    }
    if floats[19] >= 0x40c0_0000 - 20_971 && floats[19] <= 0x40c0_0000 + 20_971 {
        score = score + 2;
    }
    if floats[0] >= 0x4000_0000 && floats[0] <= 0x40a0_0000 {
        score = score + 2;
    }
    if floats[29] <= 0x44fa_0000 || floats[29] == 0x8000_0000 {
        score = score + 1;
    }
    score
}

/// Whether a metadata block is whole and has the field that genuine blocks have.
pub fn plausible_lhdr_meta(floats: &[u32]) -> (r: bool)
    ensures
        r == lhdr_plausible(floats@),
{
    floats.len() >= 36 && floats[5] >= 0xbf80_0000 - 167_772 && floats[5] <= 0xbf80_0000 + 83_886
}

// ---------------------------------------------------------------------------
// Finding the metadata block
// ---------------------------------------------------------------------------

/// The bit patterns of the fields of the block at `p`.
pub open spec fn block_at(ext: Seq<u8>, p: int) -> Seq<u32> {
    float_bits(ext.subrange(p, p + 144))
}

/// Whether the block at `p` is plausible and scores high enough.
pub open spec fn is_genuine(ext: Seq<u8>, p: int) -> bool {
    lhdr_plausible(block_at(ext, p)) && lhdr_score(block_at(ext, p)) >= MIN_FLOAT144_SCORE
}

/// The first genuine block of those that score highest.
pub open spec fn best_block(ext: Seq<u8>, blocks: Seq<usize>) -> Option<usize>
    decreases blocks.len(),
{
    if blocks.len() == 0 {
        None
    } else {
        let p = blocks.last();
        match best_block(ext, blocks.drop_last()) {
            None => if is_genuine(ext, p as int) {
                Some(p)
            } else {
                None
            },
            Some(q) => if is_genuine(ext, p as int) && lhdr_score(block_at(ext, p as int))
                > lhdr_score(block_at(ext, q as int)) {
                Some(p)
            } else {
                Some(q)
            },
        }
    }
}

/// The block that is found in an extension is genuine, and no genuine block scores higher;
/// one is found wherever there is a genuine block.
pub proof fn best_blocks_score_highest(ext: Seq<u8>, blocks: Seq<usize>)
    ensures
        match best_block(ext, blocks) {
            None => forall|i: int|
                0 <= i < blocks.len() ==> !is_genuine(ext, #[trigger] blocks[i] as int),
            Some(p) => {
                &&& blocks.contains(p)
                &&& is_genuine(ext, p as int)
                &&& forall|i: int|
                    0 <= i < blocks.len() && is_genuine(ext, #[trigger] blocks[i] as int)
                        ==> lhdr_score(block_at(ext, blocks[i] as int)) <= lhdr_score(
                        block_at(ext, p as int),
                    )
            },
        },
    decreases blocks.len(),
{
    if blocks.len() > 0 {
        let rest = blocks.drop_last();
        best_blocks_score_highest(ext, rest);
        assert(forall|i: int| 0 <= i < rest.len() ==> blocks[i] == rest[i]);
        let last = blocks.len() - 1;
        assert(blocks[last] == blocks.last());
        if best_block(ext, rest) is Some {
            let p = best_block(ext, rest)->0;
            let i = choose|i: int| 0 <= i < rest.len() && rest[i] == p;
            assert(blocks[i] == p);
        }
    }
}

fn copy_block(data: &[u8], p: usize) -> (r: Vec<u8>)
    requires
        p + 144 <= data@.len(),
    ensures
        r@ == data@.subrange(p as int, p + 144),
{
    let len: usize = data.len();
    assert(p + 144 <= len);
    copy_range(data, p, p + 144)
}

fn find_best_block(ext: &[u8], blocks: &Vec<usize>) -> (r: Option<usize>)
    requires
        forall|i: int| 0 <= i < blocks@.len() ==> #[trigger] blocks@[i] + 144 <= ext@.len(),
    ensures
        r == best_block(ext@, blocks@),
        r is Some ==> r->0 + 144 <= ext@.len(),
{
    let mut best: Option<usize> = None;
    let mut best_score: i32 = 0;
    let mut i: usize = 0;
    assert(blocks@.take(0) =~= Seq::empty());
    while i < blocks.len()
        invariant
            i <= blocks@.len(),
            forall|i: int| 0 <= i < blocks@.len() ==> #[trigger] blocks@[i] + 144 <= ext@.len(),
            best == best_block(ext@, blocks@.take(i as int)),
            match best {
                Some(p) => p + 144 <= ext@.len() && best_score == lhdr_score(
                    block_at(ext@, p as int),
                ),
                None => best_score == 0,
            },
        decreases blocks@.len() - i,
    {
        let p: usize = blocks[i];
        assert(blocks@.take(i + 1).drop_last() =~= blocks@.take(i as int));
        assert(blocks@.take(i + 1).last() == p);
        let block: Vec<u8> = copy_block(ext, p);
        let floats: Vec<u32> = bytes_to_f32s(block.as_slice());
        if plausible_lhdr_meta(floats.as_slice()) {
            let score: i32 = score_lhdr_meta(floats.as_slice());
            if score >= MIN_FLOAT144_SCORE && score > best_score {
                best = Some(p);
                best_score = score;
            }
        }
        i = i + 1;
    }
    assert(blocks@.take(i as int) =~= blocks@);
    best
}

/// Being a place in `s` where a float from 2 to 5 stands.
pub open spec fn starts_in_range(s: Seq<u8>) -> spec_fn(usize) -> bool {
    |p: usize| from_2_to_5(le32(s, p as int) as u32)
}

fn find_named_block(data: &[u8]) -> (r: Option<usize>)
    ensures
        r == first_where(named_blocks(data@), starts_in_range(data@)),
        r is Some ==> r->0 + 144 <= data@.len(),
{
    let blocks: Vec<usize> = manifest_blocks(data);
    let mut i: usize = 0;
    assert(blocks@.skip(0) =~= blocks@);
    while i < blocks.len()
        invariant
            i <= blocks@.len(),
            forall|i: int| 0 <= i < blocks@.len() ==> #[trigger] blocks@[i] + 144 <= data@.len(),
            blocks@ == named_blocks(data@),
            first_where(named_blocks(data@), starts_in_range(data@)) == first_where(
                blocks@.skip(i as int),
                starts_in_range(data@),
            ),
        decreases blocks@.len() - i,
    {
        let p: usize = blocks[i];
        let bits: u32 = read32(data, p, true);
        assert(blocks@.skip(i as int)[0] == p);
        if bits >= 0x4000_0000 && bits <= 0x40a0_0000 {
            return Some(p);
        }
        assert(blocks@.skip(i as int).drop_first() =~= blocks@.skip(i + 1));
        i = i + 1;
    }
    None
}

/// The metadata block of an extension: the best one that it holds, else the first one that
/// its manifest names whose first field is in range.
pub open spec fn lhdr_block(ext: Seq<u8>, blocks: Seq<usize>) -> Option<Seq<u8>> {
    match best_block(ext, blocks) {
        Some(p) => Some(ext.subrange(p as int, p + 144)),
        None => match first_where(named_blocks(ext), starts_in_range(ext)) {
            Some(p) => Some(ext.subrange(p as int, p + 144)),
            None => None,
        },
    }
}

fn find_lhdr_block(ext: &[u8], blocks: &Vec<usize>) -> (r: Option<Vec<u8>>)
    requires
        forall|i: int| 0 <= i < blocks@.len() ==> #[trigger] blocks@[i] + 144 <= ext@.len(),
    ensures
        opt_bytes(r) == lhdr_block(ext@, blocks@),
{
    match find_best_block(ext, blocks) {
        Some(p) => Some(copy_block(ext, p)),
        None => match find_named_block(ext) {
            Some(p) => Some(copy_block(ext, p)),
            None => None,
        },
    }
}

// ---------------------------------------------------------------------------
// Extraction
// ---------------------------------------------------------------------------

/// Parsed result of container extraction.
pub struct ExtractedLhdr {
    /// "lhdr" or "uhdr".
    pub mode: String,
    pub meta_bytes: Vec<u8>,
    /// The bit patterns of the floats of the metadata block.
    pub meta_floats: Vec<u32>,
    pub mask_data: Option<Vec<u8>>,
    pub gainmap_data: Option<Vec<u8>>,
    pub manifest_entries: Option<Vec<ManifestEntry>>,
}

/// What was extracted from a container.
#[verifier::ext_equal]
pub struct ExtractedView {
    pub mode: Seq<char>,
    pub meta_bytes: Seq<u8>,
    pub meta_floats: Seq<u32>,
    pub mask_data: Option<Seq<u8>>,
    pub gainmap_data: Option<Seq<u8>>,
    pub manifest_entries: Option<Seq<ManifestView>>,
}

impl View for ExtractedLhdr {
    type V = ExtractedView;

    open spec fn view(&self) -> ExtractedView {
        ExtractedView {
            mode: self.mode@,
            meta_bytes: self.meta_bytes@,
            meta_floats: self.meta_floats@,
            mask_data: opt_bytes(self.mask_data),
            gainmap_data: opt_bytes(self.gainmap_data),
            manifest_entries: match self.manifest_entries {
                Some(e) => Some(views(e@)),
                None => None,
            },
        }
    }
}

/// The gain-map data of a file: Ultra HDR data where it has some, else the metadata block
/// and the mask of local HDR. `None` where the end of an entry does not fit the machine or
/// a float 144 has no room for a block before it.
pub open spec fn lhdr_of(s: Seq<u8>) -> Option<Result<ExtractedView, Seq<char>>> {
    let ext = extension_of(s);
    match uhdr_of(s) {
        None => None,
        Some(Some(u)) => Some(
            Ok(
                ExtractedView {
                    mode: "uhdr"@,
                    meta_bytes: u.info,
                    meta_floats: float_bits(u.info),
                    mask_data: None,
                    gainmap_data: u.gainmap,
                    manifest_entries: Some(u.entries),
                },
            ),
        ),
        Some(None) => match blocks_from(ext, 0, Seq::empty()) {
            None => None,
            Some(blocks) => match lhdr_block(ext, blocks) {
                None => Some(Err("Failed to locate LHDR metadata block"@)),
                Some(block) => match mask_of(s) {
                    None => None,
                    Some(mask) => Some(
                        Ok(
                            ExtractedView {
                                mode: "lhdr"@,
                                meta_bytes: block,
                                meta_floats: float_bits(block),
                                mask_data: mask,
                                gainmap_data: None,
                                manifest_entries: match manifest_of(ext) {
                                    Some(m) => Some(m.0),
                                    None => None,
                                },
                            },
                        ),
                    ),
                },
            },
        },
    }
}

/// The view of an extraction.
pub open spec fn extraction_view(r: Result<ExtractedLhdr, String>) -> Result<
    ExtractedView,
    Seq<char>,
> {
    match r {
        Ok(e) => Ok(e@),
        Err(e) => Err(e@),
    }
}

/// Extract the gain-map data of a file; `None` where the end of an entry does not fit the
/// machine or a float 144 has no room for a block before it.
pub fn try_extract_lhdr_from_bytes(data: &[u8]) -> (r: Option<Result<ExtractedLhdr, String>>)
    ensures
        match r {
            None => lhdr_of(data@) is None,
            Some(r) => lhdr_of(data@) == Some(extraction_view(r)),
        },
{
    let mode: String = match extract_uhdr_parts(data) {
        None => {
            return None;
        },
        Some(Some(parts)) => {
            let meta_floats: Vec<u32> = bytes_to_f32s(parts.info.as_slice());
            let e: ExtractedLhdr = ExtractedLhdr {
                mode: "uhdr".to_string(),
                meta_bytes: parts.info,
                meta_floats,
                mask_data: None,
                gainmap_data: parts.gainmap,
                manifest_entries: Some(parts.entries),
            };
            return Some(Ok(e));
        },
        Some(None) => "lhdr".to_string(),
    };
    let from: usize = find_extension_region(data);
    let ext: &[u8] = vstd::slice::slice_subrange(data, from, data.len());
    let blocks: Vec<usize> = match float144_blocks(ext) {
        None => {
            return None;
        },
        Some(b) => b,
    };
    let meta_bytes: Vec<u8> = match find_lhdr_block(ext, &blocks) {
        None => {
            return Some(Err("Failed to locate LHDR metadata block".to_string()));
        },
        Some(b) => b,
    };
    let meta_floats: Vec<u32> = bytes_to_f32s(meta_bytes.as_slice());
    let mask_data: Option<Vec<u8>> = match extract_mask(data) {
        None => {
            return None;
        },
        Some(m) => m,
    };
    let manifest_entries: Option<Vec<ManifestEntry>> = match parse_manifest(ext) {
        Some((entries, _, _)) => Some(entries),
        None => None,
    };
    Some(
        Ok(
            ExtractedLhdr {
                mode,
                meta_bytes,
                meta_floats,
                mask_data,
                gainmap_data: None,
                manifest_entries,
            },
        ),
    )
}

/// Extract the gain-map data of a file.
pub fn extract_lhdr_from_bytes(data: &[u8]) -> (r: Result<ExtractedLhdr, String>)
    requires
        lhdr_of(data@) is Some,
    ensures
        lhdr_of(data@) == Some(extraction_view(r)),
{
    match try_extract_lhdr_from_bytes(data) {
        Some(r) => r,
        None => Err(String::new()),
    }
}

impl ExtractedLhdr {
    /// Whether Ultra HDR data was extracted.
    pub fn is_uhdr(&self) -> (r: bool)
        ensures
            r == (self@.mode == "uhdr"@),
    {
        same_text(self.mode.as_str(), "uhdr")
    }

    /// Whether the first field of the metadata block is at least 3.
    pub fn is_late(&self) -> (r: bool)
        ensures
            r == (self@.meta_floats.len() > 0 && from_3(self@.meta_floats[0])),
    {
        self.meta_floats.len() > 0 && self.meta_floats[0] >= 0x4040_0000 && self.meta_floats[0]
            <= 0x7f80_0000
    }
}

} // verus!
