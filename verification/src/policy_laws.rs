use crate::bytes::{be32, find_from, le32, lemma_find_from_some, occurs_at};
use crate::container::{
    OppoCameraTail, PNG_IHDR, PNG_MAGIC, QTI, QTI_DEBUG, canvas_rect, display_adjustment_names,
    display_filter_names, display_names, extension_of, extension_region, extension_start,
    first_foreign_box, has_footed_manifest, is_image_box, is_portrait_editing, is_watermark_entry,
    keeps, neutralizes, overlay_rect, raw_tail, tail_entry, tail_start, text_starts,
};
use crate::fourcc::{FREE, FTYP, MDAT, META};
use crate::thumb_laws::in_a_row;
use crate::validate_laws::whole_box;
use vstd::prelude::*;
use vstd::string::*;
use vstd::utf8::*;

verus! {

// ---------------------------------------------------------------------------
// What policies keep
// ---------------------------------------------------------------------------

/// A name that begins with the letters of another text.
pub open spec fn name_begins(name: Seq<char>, with: Seq<char>) -> bool {
    encode_utf8(with).len() <= encode_utf8(name).len() && encode_utf8(name).take(
        encode_utf8(with).len() as int,
    ) == encode_utf8(with)
}

/// Names of private HDR data: those of the Ultra HDR gain map, and all that begin so.
pub open spec fn private_hdr(name: Seq<char>) -> bool {
    ||| name == "local.uhdr.gainmap.data"@
    ||| name == "local.uhdr.gainmap.info"@
    ||| name_begins(name, "hdr."@)
    ||| name_begins(name, "local.hdr."@)
    ||| name_begins(name, "src.local.hdr."@)
}

/// Names of the visible watermark and of what goes with it.
pub open spec fn visible_watermark(name: Seq<char>) -> bool {
    ||| name_begins(name, "watermark."@)
    ||| name == "color.space"@
    ||| name == "gr.effect.info"@
    ||| name == "master.mode.preset.info"@
    ||| name == "private.emptyspace"@
}

/// Names of what portraits are edited with.
pub open spec fn portrait_names() -> Seq<Seq<char>> {
    seq![
        "crop.region"@,
        "front.depth"@,
        "front.depth.config"@,
        "front.hair.mask"@,
        "front.matter.info"@,
        "front.negevimg"@,
        "front.segment"@,
        "mesh.coord"@,
        "mesh.coord.config"@,
        "rear.depth"@,
        "rear.depth.config"@,
        "rear.spotlight"@,
        "src.image"@,
        "src.image.block"@,
    ]
}

proof fn lemma_begins(name: Seq<char>, with: Seq<char>)
    ensures
        text_starts(name, with) <==> name_begins(name, with),
{
    let b = encode_utf8(with);
    let n = encode_utf8(name);
    if b.len() <= n.len() {
        assert(n.subrange(0, b.len() as int) =~= n.take(b.len() as int));
    }
}

proof fn lemma_portrait(name: Seq<char>)
    ensures
        is_portrait_editing(name) <==> portrait_names().contains(name),
{
    let p = portrait_names();
    assert(p[0] == "crop.region"@ && p[1] == "front.depth"@ && p[2] == "front.depth.config"@ && p[3]
        == "front.hair.mask"@ && p[4] == "front.matter.info"@ && p[5] == "front.negevimg"@ && p[6]
        == "front.segment"@ && p[7] == "mesh.coord"@ && p[8] == "mesh.coord.config"@ && p[9] == "rear.depth"@
        && p[10] == "rear.depth.config"@ && p[11] == "rear.spotlight"@ && p[12] == "src.image"@ && p[13]
        == "src.image.block"@);
    if p.contains(name) {
        let i = choose|i: int| 0 <= i < p.len() && p[i] == name;
        assert(0 <= i < 14);
    }
}

/// Each policy keeps the entries that it is named after: none, the watermark, the watermark with what
/// editing and showing a portrait needs, all, or all but portrait editing, private Ultra HDR or private
/// HDR. Two of those that keep all make private names unreadable instead.
pub proof fn policies_keep_what_they_name(name: Seq<char>)
    ensures
        !keeps(name, OppoCameraTail::Off),
        keeps(name, OppoCameraTail::Watermark) <==> visible_watermark(name),
        keeps(name, OppoCameraTail::Compact) <==> visible_watermark(name) || portrait_names().contains(name)
            || name == "hdr.transform.data"@ || name == "src.local.hdr.linear.mask"@,
        keeps(name, OppoCameraTail::Preserve),
        keeps(name, OppoCameraTail::PreserveNoUhdr),
        keeps(name, OppoCameraTail::PreserveNoHdr),
        keeps(name, OppoCameraTail::PreserveWithoutPortrait) <==> !portrait_names().contains(name),
        keeps(name, OppoCameraTail::PreserveWithoutPortraitOrPrivateHdr) <==> !portrait_names().contains(name)
            && !private_hdr(name),
        keeps(name, OppoCameraTail::PreserveWithoutPrivateUhdr) <==> name != "local.uhdr.gainmap.data"@ && name
            != "local.uhdr.gainmap.info"@,
        keeps(name, OppoCameraTail::PreserveWithoutPrivateHdr) <==> !private_hdr(name),
        forall|policy: OppoCameraTail| #[trigger]
            neutralizes(name, policy) <==> (policy == OppoCameraTail::PreserveNoUhdr && (name
                == "local.uhdr.gainmap.data"@ || name == "local.uhdr.gainmap.info"@) || policy
                == OppoCameraTail::PreserveNoHdr && private_hdr(name)),
        is_watermark_entry(name) <==> name == "watermark"@ || name_begins(name, "watermark."@),
{
    lemma_begins(name, "hdr."@);
    lemma_begins(name, "local.hdr."@);
    lemma_begins(name, "src.local.hdr."@);
    lemma_begins(name, "watermark."@);
    lemma_portrait(name);
}

/// The names that recolour an image when it is shown.
pub proof fn recolouring_names_are_listed(name: Seq<char>)
    ensures
        ({
            let recolours = name == "filter.info"@ || name == "filtEr.info"@ || name == "basictone.info"@ || name
                == "basictone.vig.table"@ || name == "master.mode.preset.info"@;
            let local = name == "local.uhdr.gainmap.data"@ || name == "local.uhdr.gainmap.info"@;
            &&& display_filter_names().contains(name) <==> recolours
            &&& display_names().contains(name) <==> recolours || local
            &&& display_adjustment_names().contains(name) <==> recolours || local || name == "hdr.transform.data"@
        }),
{
    let a = display_filter_names();
    let b = display_names();
    let c = display_adjustment_names();
    assert(a.len() == 5 && b.len() == 7 && c.len() == 8);
    assert(a[0] == "filter.info"@ && a[1] == "filtEr.info"@ && a[2] == "basictone.info"@ && a[3]
        == "basictone.vig.table"@ && a[4] == "master.mode.preset.info"@);
    assert(b[0] == a[0] && b[1] == a[1] && b[2] == a[2] && b[3] == a[3] && b[4] == a[4]);
    assert(b[5] == "local.uhdr.gainmap.data"@ && b[6] == "local.uhdr.gainmap.info"@);
    assert(c[0] == a[0] && c[1] == a[1] && c[2] == a[2] && c[3] == a[3] && c[4] == a[4]);
    assert(c[5] == "hdr.transform.data"@ && c[6] == "local.uhdr.gainmap.data"@ && c[7]
        == "local.uhdr.gainmap.info"@);
    if a.contains(name) {
        let i = choose|i: int| 0 <= i < a.len() && a[i] == name;
    }
    if b.contains(name) {
        let i = choose|i: int| 0 <= i < b.len() && b[i] == name;
    }
    if c.contains(name) {
        let i = choose|i: int| 0 <= i < c.len() && c[i] == name;
    }
}

// ---------------------------------------------------------------------------
// Where tails stand
// ---------------------------------------------------------------------------

/// The short marker stands at `i`.
pub open spec fn qti_at(s: Seq<u8>, i: int) -> bool {
    0 <= i && i + 4 <= s.len() && s[i] == 0x51 && s[i + 1] == 0x54 && s[i + 2] == 0x49 && s[i + 3] == 0x20
}

/// The long marker stands at `i`.
pub open spec fn qti_debug_at(s: Seq<u8>, i: int) -> bool {
    &&& qti_at(s, i) && i + 9 <= s.len()
    &&& s[i + 4] == 0x44 && s[i + 5] == 0x65 && s[i + 6] == 0x62 && s[i + 7] == 0x75 && s[i + 8] == 0x67
}

/// The first long marker, or the first short one where there is no long one, stands at `p`.
pub open spec fn tail_marked(s: Seq<u8>, p: int) -> bool {
    ||| qti_debug_at(s, p) && forall|i: int| 0 <= i < p ==> !#[trigger] qti_debug_at(s, i)
    ||| (forall|i: int| 0 <= i ==> !#[trigger] qti_debug_at(s, i)) && qti_at(s, p) && forall|i: int|
        0 <= i < p ==> !#[trigger] qti_at(s, i)
}

proof fn lemma_qti(s: Seq<u8>, i: int)
    ensures
        occurs_at(s, QTI@, i) <==> qti_at(s, i),
        occurs_at(s, QTI_DEBUG@, i) <==> qti_debug_at(s, i),
{
    if 0 <= i && i + 4 <= s.len() {
        let t = s.subrange(i, i + 4);
        assert(t[0] == s[i] && t[1] == s[i + 1] && t[2] == s[i + 2] && t[3] == s[i + 3]);
        if qti_at(s, i) {
            assert(t =~= QTI@);
        }
    }
    if 0 <= i && i + 9 <= s.len() {
        let t = s.subrange(i, i + 9);
        assert(t[0] == s[i] && t[1] == s[i + 1] && t[2] == s[i + 2] && t[3] == s[i + 3] && t[4] == s[i + 4] && t[5]
            == s[i + 5] && t[6] == s[i + 6] && t[7] == s[i + 7] && t[8] == s[i + 8]);
        if qti_debug_at(s, i) {
            assert(t =~= QTI_DEBUG@);
        }
    }
}

proof fn lemma_marked(s: Seq<u8>, p: int)
    requires
        tail_marked(s, p),
    ensures
        qti_debug_at(s, p) ==> find_from(s, QTI_DEBUG@, 0) == Some(p),
        !qti_debug_at(s, p) ==> find_from(s, QTI_DEBUG@, 0) is None && find_from(s, QTI@, 0) == Some(p),
{
    lemma_find_from_some(s, QTI_DEBUG@, 0);
    lemma_find_from_some(s, QTI@, 0);
    lemma_qti(s, p);
    if find_from(s, QTI_DEBUG@, 0) is Some {
        lemma_qti(s, find_from(s, QTI_DEBUG@, 0)->0);
    }
    if find_from(s, QTI@, 0) is Some {
        lemma_qti(s, find_from(s, QTI@, 0)->0);
    }
}

/// The tail of a file starts with the size before its marker, and the extension behind as many bytes as
/// that size says, where that is a size that a box can have.
pub proof fn tails_start_before_their_marker(s: Seq<u8>, p: int)
    requires
        tail_marked(s, p),
        p >= 4,
    ensures
        tail_start(s) == Some(p - 4),
        raw_tail(s) == Some(s.skip(p - 4)),
        8 <= be32(s, p - 4) <= 100_000_000 && p - 4 + be32(s, p - 4) <= s.len() ==> extension_region(s) == p - 4
            + be32(s, p - 4) && extension_of(s) == s.skip(p - 4 + be32(s, p - 4)),
{
    lemma_marked(s, p);
    let q = p - 4 + be32(s, p - 4);
    if 8 <= be32(s, p - 4) <= 100_000_000 && q <= s.len() {
        assert(extension_start(s) == Some(q));
        assert(s.subrange(q, s.len() as int) =~= s.skip(q));
    }
}

/// A file without a marker has no tail.
pub proof fn without_markers_there_is_no_tail(s: Seq<u8>)
    requires
        forall|i: int| 0 <= i ==> !#[trigger] qti_at(s, i),
    ensures
        tail_start(s) is None,
        extension_start(s) is None,
{
    lemma_find_from_some(s, QTI_DEBUG@, 0);
    lemma_find_from_some(s, QTI@, 0);
    if find_from(s, QTI_DEBUG@, 0) is Some {
        let i = find_from(s, QTI_DEBUG@, 0)->0;
        lemma_qti(s, i);
        assert(!qti_at(s, i));
    }
    if find_from(s, QTI@, 0) is Some {
        let i = find_from(s, QTI@, 0)->0;
        lemma_qti(s, i);
        assert(!qti_at(s, i));
    }
}

/// A box of an image: its type is that of a file type, of metadata, of free space, of media data or of
/// the marked box.
pub open spec fn image_box(b: Seq<u8>) -> bool {
    let t = b.subrange(4, 8);
    whole_box(b) && (t == seq![0x66u8, 0x74, 0x79, 0x70] || t == seq![0x6du8, 0x65, 0x74, 0x61] || t
        == seq![0x66u8, 0x72, 0x65, 0x65] || t == seq![0x6du8, 0x64, 0x61, 0x74] || t == seq![
        0x51u8,
        0x54,
        0x49,
        0x20,
    ])
}

/// The first foreign box of a file stands behind its image boxes. Where only these stand, there is none.
pub proof fn foreign_boxes_follow_the_image(boxes: Seq<Seq<u8>>, foreign: Seq<u8>, rest: Seq<u8>)
    requires
        forall|i: int| 0 <= i < boxes.len() ==> image_box(#[trigger] boxes[i]),
    ensures
        whole_box(foreign) && !image_box(foreign) ==> first_foreign_box(in_a_row(boxes) + foreign + rest, 0)
            == in_a_row(boxes).len(),
        rest.len() < 8 ==> first_foreign_box(in_a_row(boxes) + rest, 0) == 0,
{
    let none = Seq::<u8>::empty();
    if whole_box(foreign) && !image_box(foreign) {
        lemma_foreign(none, boxes, foreign + rest);
        assert(none + in_a_row(boxes) + (foreign + rest) =~= in_a_row(boxes) + foreign + rest);
        let s = in_a_row(boxes) + foreign + rest;
        let p = in_a_row(boxes).len() as int;
        assert(s[p] == foreign[0] && s[p + 1] == foreign[1] && s[p + 2] == foreign[2] && s[p + 3] == foreign[3]);
        assert(be32(s, p) == be32(foreign, 0));
        assert(s.subrange(p + 4, p + 8) =~= foreign.subrange(4, 8));
        lemma_image_type(foreign.subrange(4, 8));
        assert(first_foreign_box(s, p) == p);
    }
    if rest.len() < 8 {
        lemma_foreign(none, boxes, rest);
        assert(none + in_a_row(boxes) + rest =~= in_a_row(boxes) + rest);
    }
}

proof fn lemma_image_type(t: Seq<u8>)
    ensures
        is_image_box(t) <==> t == seq![0x66u8, 0x74, 0x79, 0x70] || t == seq![0x6du8, 0x65, 0x74, 0x61] || t
            == seq![0x66u8, 0x72, 0x65, 0x65] || t == seq![0x6du8, 0x64, 0x61, 0x74] || t == seq![
            0x51u8,
            0x54,
            0x49,
            0x20,
        ],
{
    assert(FTYP@ =~= seq![0x66u8, 0x74, 0x79, 0x70]);
    assert(META@ =~= seq![0x6du8, 0x65, 0x74, 0x61]);
    assert(FREE@ =~= seq![0x66u8, 0x72, 0x65, 0x65]);
    assert(MDAT@ =~= seq![0x6du8, 0x64, 0x61, 0x74]);
    assert(QTI@ =~= seq![0x51u8, 0x54, 0x49, 0x20]);
}

proof fn lemma_foreign(before: Seq<u8>, boxes: Seq<Seq<u8>>, rest: Seq<u8>)
    requires
        forall|i: int| 0 <= i < boxes.len() ==> image_box(#[trigger] boxes[i]),
    ensures
        first_foreign_box(before + in_a_row(boxes) + rest, before.len() as int) == first_foreign_box(
            before + in_a_row(boxes) + rest,
            (before.len() + in_a_row(boxes).len()) as int,
        ),
    decreases boxes.len(),
{
    if boxes.len() > 0 {
        let b = boxes[0];
        let more = boxes.drop_first();
        let s = before + in_a_row(boxes) + rest;
        let pos = before.len() as int;
        assert(image_box(b));
        assert forall|i: int| 0 <= i < more.len() implies image_box(#[trigger] more[i]) by {
            assert(more[i] == boxes[i + 1]);
        }
        lemma_foreign(before + b, more, rest);
        assert(before + b + in_a_row(more) + rest =~= s);
        assert(s[pos] == b[0] && s[pos + 1] == b[1] && s[pos + 2] == b[2] && s[pos + 3] == b[3]);
        assert(be32(s, pos) == be32(b, 0));
        assert(s.subrange(pos + 4, pos + 8) =~= b.subrange(4, 8));
        lemma_image_type(b.subrange(4, 8));
    }
}

/// In a file without a usable marker that ends with a manifest and a footer, the extension begins 2168
/// bytes into the first foreign box; without them it is the whole file.
pub proof fn unmarked_extensions_stand_in_the_foreign_box(s: Seq<u8>, p: int)
    requires
        extension_start(s) is None,
        first_foreign_box(s, 0) == p,
    ensures
        has_footed_manifest(s) && p > 0 && p + 2168 < s.len() ==> extension_of(s) == s.skip(p + 2168),
        !has_footed_manifest(s) || p <= 0 || p + 2168 >= s.len() ==> extension_of(s) == s,
{
    if has_footed_manifest(s) && p > 0 && p + 2168 < s.len() {
        assert(s.subrange(p + 2168, s.len() as int) =~= s.skip(p + 2168));
    } else {
        assert(s.subrange(0, s.len() as int) =~= s);
    }
}

// ---------------------------------------------------------------------------
// Watermarks
// ---------------------------------------------------------------------------

/// The canvas of a watermark spans the bottom of the image. The watermark lies in its middle, in the
/// size that it has, as far from the sides and from top and bottom as it is configured.
pub proof fn watermarks_lie_in_the_middle_of_their_canvas(s: Seq<u8>, width: u32, height: u32, mark: Seq<u8>, config: Seq<
    u8,
>)
    requires
        tail_entry(s, "watermark"@) == Some(mark),
        tail_entry(s, "watermark.config"@) == Some(config),
        mark.len() >= 24,
        config.len() >= 20,
    ensures
        overlay_rect(s, width, height) matches Some(Ok(r)) ==> {
            &&& r.2 == be32(mark, 16) && r.3 == be32(mark, 20)
            &&& r.2 == le32(config, 4) && r.3 == le32(config, 8)
            &&& r.0 == le32(config, 12)
            &&& width < u32::MAX ==> r.0 + r.2 + r.0 == width
            &&& r.1 + r.3 + le32(config, 16) == height
            &&& canvas_rect(s, width, height) matches Some(Ok(c)) ==> c.0 == 0 && c.2 == width && c.1 + c.3 == height
                && r.1 - c.1 == height - (r.1 + r.3) && r.1 - c.1 == le32(config, 16)
        },
        ({
            let (w, h) = (be32(mark, 16), be32(mark, 20));
            let (x, y) = (le32(config, 12), le32(config, 16));
            w == le32(config, 4) && h == le32(config, 8) && x + w + x == width && y + h + y <= height
        }) ==> overlay_rect(s, width, height) matches Some(Ok(_)),
        ({
            let (w, h) = (be32(mark, 16), be32(mark, 20));
            let (x, y) = (le32(config, 12), le32(config, 16));
            &&& w == le32(config, 4) && h == le32(config, 8) && x + w + x == width && y + h + y <= height
            &&& mark[0] == 0x89 && mark[1] == 0x50 && mark[2] == 0x4e && mark[3] == 0x47
            &&& mark[4] == 0x0d && mark[5] == 0x0a && mark[6] == 0x1a && mark[7] == 0x0a
            &&& mark[12] == 0x49 && mark[13] == 0x48 && mark[14] == 0x44 && mark[15] == 0x52
        }) ==> canvas_rect(s, width, height) matches Some(Ok(_)),
        !(mark[1] == 0x50 && mark[2] == 0x4e && mark[3] == 0x47) ==> canvas_rect(s, width, height) matches Some(Err(_)),
{
    let t = mark.subrange(0, 8);
    assert(t[0] == mark[0] && t[1] == mark[1] && t[2] == mark[2] && t[3] == mark[3] && t[4] == mark[4] && t[5]
        == mark[5] && t[6] == mark[6] && t[7] == mark[7]);
    let u = mark.subrange(12, 16);
    assert(u[0] == mark[12] && u[1] == mark[13] && u[2] == mark[14] && u[3] == mark[15]);
    if mark[0] == 0x89 && mark[1] == 0x50 && mark[2] == 0x4e && mark[3] == 0x47 && mark[4] == 0x0d && mark[5]
        == 0x0a && mark[6] == 0x1a && mark[7] == 0x0a {
        assert(t =~= PNG_MAGIC@);
    }
    if mark[12] == 0x49 && mark[13] == 0x48 && mark[14] == 0x44 && mark[15] == 0x52 {
        assert(u =~= PNG_IHDR@);
    }
    assert(PNG_MAGIC@[1] == 0x50 && PNG_MAGIC@[2] == 0x4e && PNG_MAGIC@[3] == 0x47);
}

} // verus!
