//! What is extracted of a vendor tail that was written of named parts.

use crate::bytes::{contains_bytes, enc32_le, lemma_find_from_some};
use crate::container::{
    FOOTER_JXRS, QTI, QTI_DEBUG, UhdrView, entry_bytes, entry_named, entry_slice, extension_of,
    extension_region, kept_bytes, manifest_item, manifest_items, manifest_text, mask_of, names_of,
    rebuilt_tail, tail_entry, tail_names, uhdr_of,
};
use crate::lhdr::{ExtractedView, lhdr_of};
use crate::manifest::{MANIFEST_START, ManifestView, manifest_of};
use crate::round_trip::lemma_flat_same;
use crate::seqs::{
    first_where, flat, lemma_first_where_at, lemma_first_where_none, lemma_flat_add,
    lemma_flat_take,
};
use crate::tail_laws::{entry_text, is_plain_name, rebuilt_tails_read_back};
use vstd::prelude::*;
use vstd::string::*;
use vstd::utf8::*;

verus! {

// ---------------------------------------------------------------------------
// Tails of named parts
// ---------------------------------------------------------------------------

/// A part of a tail: a name and its bytes.
#[verifier::ext_equal]
pub struct PartView {
    pub name: Seq<char>,
    pub bytes: Seq<u8>,
}

/// The bytes of a part.
pub open spec fn part_bytes() -> spec_fn(PartView) -> Seq<u8> {
    |p: PartView| p.bytes
}

/// The bytes of parts one after the other.
pub open spec fn parts_data(parts: Seq<PartView>) -> Seq<u8> {
    flat(parts, part_bytes())
}

/// What the manifest says of the `i`-th part: its length, its name, and how far before the
/// manifest its bytes begin.
pub open spec fn part_text(parts: Seq<PartView>, i: int) -> Seq<u8> {
    entry_text(
        parts[i].bytes.len() as int,
        parts[i].name,
        parts_data(parts).len() - parts_data(parts.take(i)).len(),
    )
}

/// What the manifest says of the first `n` parts, with commas between.
pub open spec fn parts_text(parts: Seq<PartView>, n: int) -> Seq<u8>
    decreases n,
{
    if n <= 0 {
        Seq::empty()
    } else if n == 1 {
        part_text(parts, 0)
    } else {
        parts_text(parts, n - 1) + seq![0x2cu8] + part_text(parts, n - 1)
    }
}

/// The manifest of parts, a JSON array.
pub open spec fn parts_manifest(parts: Seq<PartView>) -> Seq<u8> {
    seq![0x5bu8] + parts_text(parts, parts.len() as int) + seq![0x5du8]
}

/// A tail of parts: their bytes, the manifest, and a footer that ends with how far the footer's
/// end lies behind the start of the manifest.
pub open spec fn written_tail(parts: Seq<PartView>) -> Seq<u8> {
    parts_data(parts) + parts_manifest(parts) + FOOTER_JXRS@ + enc32_le(
        parts_manifest(parts).len() as int + 9,
    )
}

/// Whether parts can be written: there are some, their names are plain, their bytes can be
/// counted, and the length at the end cannot be taken for the start of a manifest.
pub open spec fn parts_well(parts: Seq<PartView>) -> bool {
    &&& parts.len() > 0
    &&& forall|i: int| 0 <= i < parts.len() ==> is_plain_name((#[trigger] parts[i]).name)
    &&& parts_data(parts).len() <= usize::MAX
    &&& !contains_bytes(enc32_le(parts_manifest(parts).len() as int + 9), MANIFEST_START@)
}

/// The parts as entries of a tail.
spec fn as_kept(parts: Seq<PartView>) -> Seq<(int, ManifestView)> {
    Seq::new(
        parts.len(),
        |i: int|
            (
                parts_data(parts.take(i)).len() as int,
                ManifestView {
                    name: parts[i].name,
                    offset: 0,
                    length: parts[i].bytes.len() as u64,
                },
            ),
    )
}

proof fn lemma_part_place(parts: Seq<PartView>, i: int)
    requires
        0 <= i < parts.len(),
    ensures
        ({
            let at = parts_data(parts.take(i)).len() as int;
            let n = parts[i].bytes.len();
            &&& at + n <= parts_data(parts).len()
            &&& parts_data(parts).subrange(at, at + n) == parts[i].bytes
        }),
{
    let f = part_bytes();
    lemma_flat_take(parts, f, i);
    assert(parts =~= parts.take(i + 1) + parts.skip(i + 1));
    lemma_flat_add(parts.take(i + 1), parts.skip(i + 1), f);
    let before = flat(parts.take(i), f);
    let own = parts[i].bytes;
    assert(parts_data(parts) =~= before + own + flat(parts.skip(i + 1), f));
    assert(parts_data(parts).subrange(before.len() as int, (before.len() + own.len()) as int) =~= own);
}

/// The first parts as entries hold the bytes of the first parts.
proof fn lemma_kept_data(parts: Seq<PartView>, i: int)
    requires
        0 <= i <= parts.len(),
        parts_data(parts).len() <= u64::MAX,
    ensures
        flat(as_kept(parts).take(i), kept_bytes(parts_data(parts))) == parts_data(parts.take(i)),
{
    let kept = as_kept(parts).take(i);
    let own = parts.take(i);
    assert forall|k: int| 0 <= k < kept.len() implies kept_bytes(parts_data(parts))(
        #[trigger] kept[k],
    ) == part_bytes()(own[k]) by {
        lemma_part_place(parts, k);
    }
    lemma_flat_same(kept, kept_bytes(parts_data(parts)), own, part_bytes());
}

proof fn lemma_same_items(parts: Seq<PartView>, n: int)
    requires
        0 <= n <= parts.len(),
        parts_data(parts).len() <= u64::MAX,
    ensures
        manifest_items(parts_data(parts), as_kept(parts), n) == parts_text(parts, n),
    decreases n,
{
    if n > 0 {
        let data = parts_data(parts);
        let kept = as_kept(parts);
        lemma_same_items(parts, n - 1);
        lemma_kept_data(parts, n - 1);
        lemma_kept_data(parts, parts.len() as int);
        lemma_part_place(parts, n - 1);
        assert(kept.take(kept.len() as int) =~= kept);
        assert(parts.take(parts.len() as int) =~= parts);
        assert(manifest_item(data, kept, n - 1) == part_text(parts, n - 1));
        if n == 1 {
            let none = Seq::<u8>::empty();
            assert(none + none + part_text(parts, 0) =~= part_text(parts, 0));
        }
    }
}

proof fn lemma_same_tail(parts: Seq<PartView>)
    requires
        parts_data(parts).len() <= u64::MAX,
    ensures
        rebuilt_tail(parts_data(parts), as_kept(parts)) == written_tail(parts),
        manifest_text(parts_data(parts), as_kept(parts)) == parts_manifest(parts),
{
    let kept = as_kept(parts);
    lemma_same_items(parts, parts.len() as int);
    lemma_kept_data(parts, parts.len() as int);
    assert(kept.take(kept.len() as int) =~= kept);
    assert(parts.take(parts.len() as int) =~= parts);
}

/// Every part of a tail is listed in its manifest and read back from it, byte for byte.
pub proof fn parts_are_read_back(parts: Seq<PartView>, i: int)
    requires
        parts_well(parts),
        0 <= i < parts.len(),
    ensures
        manifest_of(written_tail(parts)) matches Some((entries, start, _)) && {
            &&& entries.len() == parts.len()
            &&& entries[i].name == parts[i].name
            &&& entry_bytes(written_tail(parts), start, entries[i]) == Some(parts[i].bytes)
            &&& entry_slice(written_tail(parts), start, entries[i]) == Some(Some(parts[i].bytes))
                || written_tail(parts).len() > usize::MAX
        },
{
    let kept = as_kept(parts);
    let data = parts_data(parts);
    assert forall|k: int| 0 <= k < kept.len() implies is_plain_name((#[trigger] kept[k]).1.name)
        && 0 <= kept[k].0 && kept[k].0 + kept[k].1.length <= data.len() by {
        lemma_part_place(parts, k);
        assert(is_plain_name(parts[k].name));
    }
    lemma_kept_data(parts, parts.len() as int);
    assert(kept.take(kept.len() as int) =~= kept);
    assert(parts.take(parts.len() as int) =~= parts);
    lemma_same_tail(parts);
    rebuilt_tails_read_back(data, kept, i);
    lemma_part_place(parts, i);
    assert(kept[i].1.length == parts[i].bytes.len());
}

/// Whether the `i`-th part is the first of a name.
pub open spec fn is_first_part(parts: Seq<PartView>, i: int, name: Seq<char>) -> bool {
    &&& 0 <= i < parts.len()
    &&& parts[i].name == name
    &&& forall|j: int| 0 <= j < i ==> (#[trigger] parts[j]).name != name
}

/// Whether no part has a name.
pub open spec fn has_no_part(parts: Seq<PartView>, name: Seq<char>) -> bool {
    forall|j: int| 0 <= j < parts.len() ==> (#[trigger] parts[j]).name != name
}

proof fn lemma_found(parts: Seq<PartView>, name: Seq<char>, i: int)
    requires
        parts_well(parts),
        is_first_part(parts, i, name),
    ensures
        manifest_of(written_tail(parts)) matches Some((entries, start, _)) && first_where(
            entries,
            entry_named(name),
        ) == Some(entries[i]) && i < entries.len(),
{
    parts_are_read_back(parts, i);
    let (entries, start, _) = manifest_of(written_tail(parts))->0;
    assert forall|j: int| 0 <= j < i implies !entry_named(name)(#[trigger] entries[j]) by {
        parts_are_read_back(parts, j);
        assert(parts[j].name != name);
    }
    lemma_first_where_at(entries, entry_named(name), i);
}

proof fn lemma_not_found(parts: Seq<PartView>, name: Seq<char>)
    requires
        parts_well(parts),
        has_no_part(parts, name),
    ensures
        manifest_of(written_tail(parts)) matches Some((entries, start, _)) && first_where(
            entries,
            entry_named(name),
        ) is None,
{
    parts_are_read_back(parts, 0);
    let (entries, start, _) = manifest_of(written_tail(parts))->0;
    assert forall|j: int| 0 <= j < entries.len() implies !entry_named(name)(
        #[trigger] entries[j],
    ) by {
        parts_are_read_back(parts, j);
        assert(parts[j].name != name);
    }
    lemma_first_where_none(entries, entry_named(name));
}

// ---------------------------------------------------------------------------
// Extracting
// ---------------------------------------------------------------------------

/// A named entry of a file is the part that was written under that name, and there is none
/// where no part has it; the names that are listed are those of the parts, in order.
pub proof fn entries_are_those_of_their_names(
    s: Seq<u8>,
    parts: Seq<PartView>,
    name: Seq<char>,
    i: int,
)
    requires
        parts_well(parts),
        extension_of(s) == written_tail(parts),
    ensures
        is_first_part(parts, i, name) ==> tail_entry(s, name) == Some(parts[i].bytes),
        has_no_part(parts, name) ==> tail_entry(s, name) is None,
        tail_names(s) == Seq::new(parts.len(), |k: int| parts[k].name),
{
    if is_first_part(parts, i, name) {
        lemma_found(parts, name, i);
        parts_are_read_back(parts, i);
    }
    if has_no_part(parts, name) {
        lemma_not_found(parts, name);
    }
    parts_are_read_back(parts, 0);
    let (entries, start, _) = manifest_of(written_tail(parts))->0;
    assert forall|k: int| 0 <= k < entries.len() implies (#[trigger] names_of(entries)[k])
        == parts[k].name by {
        parts_are_read_back(parts, k);
    }
    assert(tail_names(s) =~= Seq::new(parts.len(), |k: int| parts[k].name));
}

/// The mask of a file whose tail lists `local.hdr.linear.mask` is the part of that name; a tail
/// that lists no such part has no mask.
pub proof fn masks_are_the_parts_of_their_name(s: Seq<u8>, parts: Seq<PartView>, i: int)
    requires
        parts_well(parts),
        extension_of(s) == written_tail(parts),
        s.len() <= usize::MAX,
    ensures
        is_first_part(parts, i, "local.hdr.linear.mask"@) ==> mask_of(s) == Some(
            Some(parts[i].bytes),
        ),
        has_no_part(parts, "local.hdr.linear.mask"@) ==> mask_of(s) == Some(None::<Seq<u8>>),
{
    let name = "local.hdr.linear.mask"@;
    lemma_region(s);
    if is_first_part(parts, i, name) {
        lemma_found(parts, name, i);
        parts_are_read_back(parts, i);
    }
    if has_no_part(parts, name) {
        lemma_not_found(parts, name);
    }
}

/// The extension of a file is no longer than the file.
proof fn lemma_region(s: Seq<u8>)
    ensures
        0 <= extension_region(s) <= s.len(),
{
    lemma_find_from_some(s, QTI_DEBUG@, 0);
    lemma_find_from_some(s, QTI@, 0);
}

/// The Ultra HDR data of a file are the parts `local.uhdr.gainmap.info` and
/// `local.uhdr.gainmap.data` of its tail, where both are listed and the first holds twenty
/// floats of four bytes; else it has none.
pub proof fn ultra_hdr_data_are_the_parts_of_their_names(
    s: Seq<u8>,
    parts: Seq<PartView>,
    i: int,
    k: int,
)
    requires
        parts_well(parts),
        extension_of(s) == written_tail(parts),
        s.len() <= usize::MAX,
    ensures
        is_first_part(parts, i, "local.uhdr.gainmap.info"@) && is_first_part(
            parts,
            k,
            "local.uhdr.gainmap.data"@,
        ) && parts[i].bytes.len() >= 80 ==> (uhdr_of(s) matches Some(Some(u)) && u.info
            == parts[i].bytes && u.gainmap == Some(parts[k].bytes)),
        is_first_part(parts, i, "local.uhdr.gainmap.info"@) && parts[i].bytes.len() < 80
            ==> uhdr_of(s) == Some(None::<UhdrView>),
        has_no_part(parts, "local.uhdr.gainmap.info"@) || has_no_part(
            parts,
            "local.uhdr.gainmap.data"@,
        ) ==> uhdr_of(s) == Some(None::<UhdrView>),
{
    let (a, b) = ("local.uhdr.gainmap.info"@, "local.uhdr.gainmap.data"@);
    lemma_region(s);
    if is_first_part(parts, i, a) {
        lemma_found(parts, a, i);
        parts_are_read_back(parts, i);
    }
    if is_first_part(parts, k, b) {
        lemma_found(parts, b, k);
        parts_are_read_back(parts, k);
    }
    if has_no_part(parts, a) {
        lemma_not_found(parts, a);
    }
    if has_no_part(parts, b) {
        lemma_not_found(parts, b);
    }
}

/// What is extracted of a file whose tail has no Ultra HDR pair is local HDR data with the mask
/// that was written under `local.hdr.linear.mask`; of a file whose tail has the pair it is the
/// pair, and no mask.
pub proof fn extractions_hold_the_parts(
    s: Seq<u8>,
    parts: Seq<PartView>,
    v: ExtractedView,
    m: int,
    i: int,
    k: int,
)
    requires
        parts_well(parts),
        extension_of(s) == written_tail(parts),
        s.len() <= usize::MAX,
        lhdr_of(s) == Some(Ok::<ExtractedView, Seq<char>>(v)),
    ensures
        (has_no_part(parts, "local.uhdr.gainmap.info"@) || has_no_part(
            parts,
            "local.uhdr.gainmap.data"@,
        )) ==> {
            &&& v.mode == "lhdr"@
            &&& v.gainmap_data is None
            &&& is_first_part(parts, m, "local.hdr.linear.mask"@) ==> v.mask_data == Some(
                parts[m].bytes,
            )
            &&& has_no_part(parts, "local.hdr.linear.mask"@) ==> v.mask_data is None
        },
        is_first_part(parts, i, "local.uhdr.gainmap.info"@) && is_first_part(
            parts,
            k,
            "local.uhdr.gainmap.data"@,
        ) && parts[i].bytes.len() >= 80 ==> {
            &&& v.mode == "uhdr"@
            &&& v.meta_bytes == parts[i].bytes
            &&& v.gainmap_data == Some(parts[k].bytes)
            &&& v.mask_data is None
        },
{
    masks_are_the_parts_of_their_name(s, parts, m);
    ultra_hdr_data_are_the_parts_of_their_names(s, parts, i, k);
}

/// The fields of an extraction are the little-endian words of its metadata, one after the
/// other.
pub proof fn extracted_fields_are_those_of_the_metadata(s: Seq<u8>, v: ExtractedView, i: int)
    requires
        lhdr_of(s) == Some(Ok::<ExtractedView, Seq<char>>(v)),
        0 <= i,
        4 * i + 4 <= v.meta_bytes.len(),
    ensures
        v.meta_floats.len() == v.meta_bytes.len() / 4,
        v.meta_floats[i] == v.meta_bytes[4 * i] + v.meta_bytes[4 * i + 1] * 0x100 + v.meta_bytes[4
            * i + 2] * 0x1_0000 + v.meta_bytes[4 * i + 3] * 0x100_0000,
{
}

} // verus!
