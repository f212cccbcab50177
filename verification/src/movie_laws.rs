//! What is read back of Live Photo movies that were written.

use crate::bytes::{be32, enc24, enc32, enc64, occurs_at, overwritten, zeros};
use crate::fourcc::{
    CDSC, DATA, FREE, FTYP, HDLR, ILST, KEYS, MDAT, MDTA, META, MOOV, MVHD, TRAK, TREF,
};
use crate::isobmff::{as_is, box_at, box_bytes};
use crate::live_movie::{
    ATOM_1, BRAND_QT, CONTENT_IDENTIFIER_KEY, MDTA_HANDLER, MarkView, MarkerView, free_bytes,
    is_movie_id, live_movie, marker_edts, marker_for, marker_len, marker_mdia, marker_sample,
    marker_stbl, marker_tkhd, marker_track, moov_child, movie_meta, movie_meta_bytes, movie_tracks,
    rebuilt_moov, rewritten_box, source_boxes,
};
use crate::live_photo::{
    Search, content_index, content_key, data_text, id_among, is_pair, item_text, meta_kids, moov_id,
    movie_id, same_but_case, still_id,
};
use crate::output_laws::{lemma_built_typed, lemma_flat_1};
use crate::quicktime::{
    MovView, full_bytes, mov_box_at, mov_boxes, mov_boxes_from, mov_bytes, mov_typed,
};
use crate::reopened::{
    all_sized, has_none_of, header_at, is_box_of, is_first_of, is_sized_box, lemma_built_is_sized,
    lemma_copied_is_sized, lemma_same_integers, lemma_sized_box, place_of, sized_boxes_read_back,
};
use crate::round_trip::{
    boxes_read_back, header_of, integers_of_32_bits_read_back, integers_of_64_bits_read_back,
    lemma_flat_first, lemma_flat_same, lemma_parts,
};
use crate::seqs::{
    first_where, flat, lemma_first_where_at, lemma_flat_add, lemma_flat_push, lemma_flat_take,
};
use crate::text::{lossy_text, trim_text};
use vstd::prelude::*;
use vstd::utf8::*;

verus! {

// ---------------------------------------------------------------------------
// Boxes of a movie
// ---------------------------------------------------------------------------

/// The header of the box `c` of a movie where it stands at `p`.
pub open spec fn mov_header(c: Seq<u8>, p: int) -> MovView {
    MovView {
        offset: p,
        size: c.len() as int,
        kind: c.subrange(4, 8),
        header_size: if be32(c, 0) == 1 {
            16
        } else {
            8
        },
    }
}

/// The headers of boxes of a movie that follow each other from `p` on.
pub open spec fn mov_headers(boxes: Seq<Seq<u8>>, p: int) -> Seq<MovView> {
    Seq::new(boxes.len(), |i: int| mov_header(boxes[i], place_of(boxes, p, i)))
}

/// A box that says its own size is read wherever it stands.
proof fn lemma_mov_sized(s: Seq<u8>, p: int, end: int, c: Seq<u8>)
    requires
        occurs_at(s, c, p),
        is_sized_box(c),
        p + c.len() <= end <= s.len(),
        s.len() <= usize::MAX,
    ensures
        mov_box_at(s, p, end) == Some(Ok::<MovView, Seq<char>>(mov_header(c, p))),
{
    lemma_sized_box(s, p, end, c);
    lemma_same_integers(s, c, p);
}

#[verifier::rlimit(60)]
proof fn lemma_mov_run(s: Seq<u8>, p: int, boxes: Seq<Seq<u8>>, i: int, acc: Seq<MovView>)
    requires
        s.len() <= usize::MAX,
        all_sized(boxes),
        occurs_at(s, flat(boxes, as_is()), p),
        0 <= i <= boxes.len(),
    ensures
        mov_boxes_from(s, place_of(boxes, p, i), p + flat(boxes, as_is()).len(), acc) == Some(
            Ok::<Seq<MovView>, Seq<char>>(acc + mov_headers(boxes, p).skip(i)),
        ),
    decreases boxes.len() - i,
{
    let end = p + flat(boxes, as_is()).len();
    let all = mov_headers(boxes, p);
    if i == boxes.len() {
        assert(boxes.take(i) =~= boxes);
        assert(acc + all.skip(i) =~= acc);
    } else {
        sized_boxes_read_back(s, p, boxes);
        assert(occurs_at(s, boxes[i], place_of(boxes, p, i)));
        assert(is_sized_box(boxes[i]));
        lemma_place_step(boxes, p, i);
        let here = place_of(boxes, p, i);
        lemma_mov_sized(s, here, end, boxes[i]);
        lemma_mov_run(s, p, boxes, i + 1, acc.push(all[i]));
        assert(acc.push(all[i]) + all.skip(i + 1) =~= acc + all.skip(i));
    }
}

/// A box ends where the next one stands, and not behind the last.
proof fn lemma_place_step(boxes: Seq<Seq<u8>>, p: int, i: int)
    requires
        0 <= i < boxes.len(),
    ensures
        place_of(boxes, p, i + 1) == place_of(boxes, p, i) + boxes[i].len(),
        place_of(boxes, p, i + 1) <= p + flat(boxes, as_is()).len(),
{
    lemma_flat_take(boxes, as_is(), i);
    assert(boxes =~= boxes.take(i + 1) + boxes.skip(i + 1));
    lemma_flat_add(boxes.take(i + 1), boxes.skip(i + 1), as_is());
}

/// Boxes of a movie that say their own sizes and follow each other up to an end are read
/// there, all of them in order.
pub proof fn movie_boxes_read_back(s: Seq<u8>, p: int, boxes: Seq<Seq<u8>>)
    requires
        s.len() <= usize::MAX,
        all_sized(boxes),
        occurs_at(s, flat(boxes, as_is()), p),
    ensures
        mov_boxes(s, p, p + flat(boxes, as_is()).len()) == Some(
            Ok::<Seq<MovView>, Seq<char>>(mov_headers(boxes, p)),
        ),
        forall|i: int|
            0 <= i < boxes.len() ==> occurs_at(s, #[trigger] boxes[i], place_of(boxes, p, i)),
{
    sized_boxes_read_back(s, p, boxes);
    assert(boxes.take(0) =~= Seq::empty());
    lemma_mov_run(s, p, boxes, 0, Seq::empty());
    assert(Seq::<MovView>::empty() + mov_headers(boxes, p).skip(0) =~= mov_headers(boxes, p));
}

/// The first of `boxes` of a type is the first header of that type.
pub proof fn lemma_first_mov(boxes: Seq<Seq<u8>>, p: int, t: Seq<u8>, i: int)
    requires
        is_first_of(boxes, t, i),
    ensures
        first_where(mov_headers(boxes, p), mov_typed(t)) == Some(
            mov_header(boxes[i], place_of(boxes, p, i)),
        ),
{
    let h = mov_headers(boxes, p);
    assert forall|j: int| 0 <= j < i implies !mov_typed(t)(#[trigger] h[j]) by {
        assert(boxes[j].subrange(4, 8) != t);
    }
    lemma_first_where_at(h, mov_typed(t), i);
}

/// A small built box says its own size.
pub proof fn lemma_mov_built(kind: Seq<u8>, payload: Seq<u8>)
    requires
        kind.len() == 4,
        payload.len() + 8 <= u32::MAX,
    ensures
        is_box_of(mov_bytes(kind, payload), kind),
        mov_bytes(kind, payload) == box_bytes(kind, payload),
        mov_bytes(kind, payload).len() == 8 + payload.len(),
        forall|p: int|
            (#[trigger] mov_header(mov_bytes(kind, payload), p)) == (MovView {
                offset: p,
                size: 8 + payload.len() as int,
                kind,
                header_size: 8,
            }),
{
    lemma_built_is_sized(kind, payload);
    let c = box_bytes(kind, payload);
    assert(header_at(c, 0) == header_of(kind, payload.len() as int, 0));
    assert(c.subrange(4, 8) == kind);
    assert(be32(c, 0) != 1);
}

// ---------------------------------------------------------------------------
// The content identifier
// ---------------------------------------------------------------------------

/// The boxes of the metadata of a movie.
#[verifier::opaque]
pub open spec fn meta_boxes(id: Seq<u8>) -> Seq<Seq<u8>> {
    seq![
        mov_bytes(HDLR@, MDTA_HANDLER@),
        full_bytes(KEYS@, 0, 0, enc32(1) + mov_bytes(MDTA@, CONTENT_IDENTIFIER_KEY@)),
        mov_bytes(ILST@, mov_bytes(ATOM_1@, mov_bytes(DATA@, enc32(1) + enc32(0) + id))),
    ]
}

proof fn lemma_meta_boxes(id: Seq<u8>)
    requires
        id.len() <= 0xffff_ff70,
    ensures
        all_sized(meta_boxes(id)),
        flat(meta_boxes(id), as_is()).len() == 128 + id.len(),
        movie_meta_bytes(id) == mov_bytes(META@, flat(meta_boxes(id), as_is())),
        meta_boxes(id)[0].subrange(4, 8) == HDLR@,
        meta_boxes(id)[1].subrange(4, 8) == KEYS@,
        meta_boxes(id)[2].subrange(4, 8) == ILST@,
        meta_boxes(id).len() == 3,
        meta_boxes(id)[0].len() == 34,
        meta_boxes(id)[1].len() == 62,
        meta_boxes(id)[1] == full_bytes(
            KEYS@,
            0,
            0,
            enc32(1) + mov_bytes(MDTA@, CONTENT_IDENTIFIER_KEY@),
        ),
{
    reveal(meta_boxes);
    reveal(movie_meta_bytes);
    let b = meta_boxes(id);
    lemma_handler_box();
    lemma_keys_box();
    lemma_items_box(id);
    lemma_flat_3(b);
    assert forall|i: int| 0 <= i < b.len() implies is_sized_box(#[trigger] b[i]) by {}
}

proof fn lemma_handler_box()
    ensures
        is_box_of(mov_bytes(HDLR@, MDTA_HANDLER@), HDLR@),
        mov_bytes(HDLR@, MDTA_HANDLER@).len() == 34,
{
    lemma_mov_built(HDLR@, MDTA_HANDLER@);
}

proof fn lemma_keys_box()
    ensures
        ({
            let c = full_bytes(KEYS@, 0, 0, enc32(1) + mov_bytes(MDTA@, CONTENT_IDENTIFIER_KEY@));
            is_box_of(c, KEYS@) && c.len() == 62
        }),
{
    let key = mov_bytes(MDTA@, CONTENT_IDENTIFIER_KEY@);
    lemma_mov_built(MDTA@, CONTENT_IDENTIFIER_KEY@);
    lemma_mov_built(KEYS@, seq![0u8] + enc24(0) + (enc32(1) + key));
}

proof fn lemma_items_box(id: Seq<u8>)
    requires
        id.len() <= 0xffff_ff70,
    ensures
        ({
            let c = mov_bytes(
                ILST@,
                mov_bytes(ATOM_1@, mov_bytes(DATA@, enc32(1) + enc32(0) + id)),
            );
            is_box_of(c, ILST@) && c.len() == 32 + id.len()
        }),
{
    let data = mov_bytes(DATA@, enc32(1) + enc32(0) + id);
    lemma_mov_built(DATA@, enc32(1) + enc32(0) + id);
    lemma_mov_built(ATOM_1@, data);
    lemma_mov_built(ILST@, mov_bytes(ATOM_1@, data));
}

pub proof fn lemma_flat_3(a: Seq<Seq<u8>>)
    requires
        a.len() == 3,
    ensures
        flat(a, as_is()) == a[0] + a[1] + a[2],
{
    lemma_flat_take(a, as_is(), 0);
    lemma_flat_take(a, as_is(), 1);
    lemma_flat_take(a, as_is(), 2);
    assert(a.take(0) =~= Seq::empty());
    assert(a.take(3) =~= a);
    assert(flat(a, as_is()) =~= a[0] + a[1] + a[2]);
}

/// The keys of a movie's metadata name the content identifier first.
proof fn lemma_content_index(s: Seq<u8>, p: int)
    requires
        occurs_at(
            s,
            full_bytes(KEYS@, 0, 0, enc32(1) + mov_bytes(MDTA@, CONTENT_IDENTIFIER_KEY@)),
            p,
        ),
    ensures
        content_index(
            s,
            MovView { offset: p, size: 62, kind: KEYS@, header_size: 8 },
        ) == Some(1int),
{
    let key = mov_bytes(MDTA@, CONTENT_IDENTIFIER_KEY@);
    let head = seq![0u8] + enc24(0);
    let payload = head + (enc32(1) + key);
    lemma_mov_built(MDTA@, CONTENT_IDENTIFIER_KEY@);
    lemma_mov_built(KEYS@, payload);
    boxes_read_back(s, p, p + 62, KEYS@, payload);
    lemma_parts(s, head, enc32(1) + key, p + 8);
    lemma_parts(s, enc32(1), key, p + 12);
    integers_of_32_bits_read_back(s, p + 12, 1);
    let q = p + 16;
    boxes_read_back(s, q, q + 46, MDTA@, CONTENT_IDENTIFIER_KEY@);
    lemma_same_integers(s, key, q);
    assert(be32(s, q) == 46) by {
        let c = box_bytes(MDTA@, CONTENT_IDENTIFIER_KEY@);
        reveal(box_bytes);
        lemma_parts(s, enc32(46) + MDTA@, CONTENT_IDENTIFIER_KEY@, q);
        lemma_parts(s, enc32(46), MDTA@, q);
        integers_of_32_bits_read_back(s, q, 46);
    }
    assert(s.subrange(q + 4, q + 8) == MDTA@) by {
        reveal(box_bytes);
        lemma_parts(s, enc32(46) + MDTA@, CONTENT_IDENTIFIER_KEY@, q);
        lemma_parts(s, enc32(46), MDTA@, q);
    }
    assert(s.subrange(q + 8, q + 46) == CONTENT_IDENTIFIER_KEY@);
    reveal_with_fuel(content_key, 3);
}

/// The identifier that is read of the bytes of a movie's identifier.
pub open spec fn movie_identifier_of(id: Seq<u8>) -> Seq<char> {
    trim_text(lossy_text(id))
}

/// The item of the content identifier is read.
proof fn lemma_item_text(s: Seq<u8>, p: int, id: Seq<u8>)
    requires
        s.len() <= usize::MAX,
        id.len() <= 0xffff_ff70,
        occurs_at(s, mov_bytes(ATOM_1@, mov_bytes(DATA@, enc32(1) + enc32(0) + id)), p),
    ensures
        ({
            let items = seq![
                MovView { offset: p, size: 24 + id.len() as int, kind: ATOM_1@, header_size: 8 },
            ];
            item_text(s, items, 1, 0) == Search::Found(movie_identifier_of(id))
        }),
{
    let body = enc32(1) + enc32(0) + id;
    let data = mov_bytes(DATA@, body);
    lemma_mov_built(DATA@, body);
    lemma_mov_built(ATOM_1@, data);
    boxes_read_back(s, p, p + 24 + id.len(), ATOM_1@, data);
    let run = seq![data];
    lemma_flat_1(data);
    movie_boxes_read_back(s, p + 8, run);
    let kids = mov_headers(run, p + 8);
    assert(run.take(0) =~= Seq::empty());
    assert(kids[0] == mov_header(data, p + 8));
    assert(kids[0].kind == DATA@ && kids[0].size == 16 + id.len());
    boxes_read_back(s, p + 8, p + 24 + id.len(), DATA@, body);
    lemma_parts(s, enc32(1) + enc32(0), id, p + 16);
    lemma_parts(s, enc32(1), enc32(0), p + 16);
    integers_of_32_bits_read_back(s, p + 16, 1);
    assert(s.subrange(p + 24, p + 24 + id.len()) =~= id);
    assert(data_text(s, kids, 0) == Search::Found(movie_identifier_of(id)));
    assert(enc32(1) =~= ATOM_1@);
}

/// The metadata box of a movie carries the identifier that it was built of.
proof fn lemma_meta_id(s: Seq<u8>, p: int, id: Seq<u8>)
    requires
        s.len() <= usize::MAX,
        id.len() <= 0xffff_ff70,
        occurs_at(s, movie_meta_bytes(id), p),
    ensures
        ({
            let meta = MovView {
                offset: p,
                size: 136 + id.len() as int,
                kind: META@,
                header_size: 8,
            };
            meta_kids(s, meta) matches Some(Ok(kids)) && id_among(s, kids) == Some(
                Some(movie_identifier_of(id)),
            )
        }),
{
    lemma_meta_kids(s, p, id);
    lemma_kids_id(s, p + 8, id);
}

/// The boxes of a movie's metadata are read.
proof fn lemma_meta_kids(s: Seq<u8>, p: int, id: Seq<u8>)
    requires
        s.len() <= usize::MAX,
        id.len() <= 0xffff_ff70,
        occurs_at(s, movie_meta_bytes(id), p),
    ensures
        meta_kids(
            s,
            MovView { offset: p, size: 136 + id.len() as int, kind: META@, header_size: 8 },
        ) == Some(Ok::<Seq<MovView>, Seq<char>>(mov_headers(meta_boxes(id), p + 8))),
        occurs_at(s, flat(meta_boxes(id), as_is()), p + 8),
{
    let boxes = meta_boxes(id);
    let run = flat(boxes, as_is());
    lemma_meta_boxes(id);
    lemma_mov_built(META@, run);
    boxes_read_back(s, p, p + 8 + run.len(), META@, run);
    movie_boxes_read_back(s, p + 8, boxes);
}

/// The identifier is found among the boxes of a movie's metadata.
proof fn lemma_kids_id(s: Seq<u8>, q: int, id: Seq<u8>)
    requires
        s.len() <= usize::MAX,
        id.len() <= 0xffff_ff70,
        occurs_at(s, flat(meta_boxes(id), as_is()), q),
    ensures
        id_among(s, mov_headers(meta_boxes(id), q)) == Some(Some(movie_identifier_of(id))),
{
    let boxes = meta_boxes(id);
    lemma_meta_boxes(id);
    movie_boxes_read_back(s, q, boxes);
    let kids = mov_headers(boxes, q);
    lemma_three_places(boxes, q);
    assert(HDLR@[0] != KEYS@[0] && HDLR@[0] != ILST@[0] && KEYS@[0] != ILST@[0]);
    assert(is_first_of(boxes, KEYS@, 1));
    assert(is_first_of(boxes, ILST@, 2));
    lemma_first_mov(boxes, q, KEYS@, 1);
    lemma_first_mov(boxes, q, ILST@, 2);
    assert(occurs_at(s, boxes[1], q + 34));
    assert(occurs_at(s, boxes[2], q + 96));
    lemma_content_index(s, q + 34);
    lemma_keys_header(id, q + 34);
    lemma_ilst(s, q + 96, id);
}

proof fn lemma_three_places(boxes: Seq<Seq<u8>>, q: int)
    requires
        boxes.len() == 3,
    ensures
        place_of(boxes, q, 0) == q,
        place_of(boxes, q, 1) == q + boxes[0].len(),
        place_of(boxes, q, 2) == q + boxes[0].len() + boxes[1].len(),
{
    lemma_place_step(boxes, q, 0);
    lemma_place_step(boxes, q, 1);
    assert(boxes.take(0) =~= Seq::empty());
}

proof fn lemma_keys_header(id: Seq<u8>, p: int)
    ensures
        mov_header(meta_boxes(id)[1], p) == (MovView {
            offset: p,
            size: 62,
            kind: KEYS@,
            header_size: 8,
        }),
{
    reveal(meta_boxes);
    let key = mov_bytes(MDTA@, CONTENT_IDENTIFIER_KEY@);
    lemma_mov_built(MDTA@, CONTENT_IDENTIFIER_KEY@);
    lemma_mov_built(KEYS@, seq![0u8] + enc24(0) + (enc32(1) + key));
}

/// The items of a movie's metadata are read.
proof fn lemma_ilst(s: Seq<u8>, p: int, id: Seq<u8>)
    requires
        s.len() <= usize::MAX,
        id.len() <= 0xffff_ff70,
        occurs_at(s, meta_boxes(id)[2], p),
    ensures
        ({
            let ilst = mov_header(meta_boxes(id)[2], p);
            mov_boxes(s, ilst.payload(), ilst.end()) matches Some(Ok(items)) && item_text(
                s,
                items,
                1,
                0,
            ) == Search::Found(movie_identifier_of(id))
        }),
{
    reveal(meta_boxes);
    let body = enc32(1) + enc32(0) + id;
    let data = mov_bytes(DATA@, body);
    let atom = mov_bytes(ATOM_1@, data);
    lemma_mov_built(DATA@, body);
    lemma_mov_built(ATOM_1@, data);
    lemma_mov_built(ILST@, atom);
    boxes_read_back(s, p, p + 8 + atom.len(), ILST@, atom);
    let run = seq![atom];
    lemma_flat_1(atom);
    movie_boxes_read_back(s, p + 8, run);
    lemma_item_text(s, p + 8, id);
    assert(run.take(0) =~= Seq::empty());
    let items = mov_headers(run, p + 8);
    assert(items =~= seq![
        MovView { offset: p + 8, size: 24 + id.len() as int, kind: ATOM_1@, header_size: 8 },
    ]);
}

// ---------------------------------------------------------------------------
// Rewritten boxes
// ---------------------------------------------------------------------------

/// Whether `b` is a box of `s` that says its own size.
pub open spec fn mov_stands(s: Seq<u8>, b: MovView) -> bool {
    &&& 0 <= b.offset
    &&& b.end() <= s.len()
    &&& is_box_of(s.subrange(b.offset, b.end()), b.kind)
    &&& b.header_size == 8 || b.header_size == 16
    &&& be32(s.subrange(b.offset, b.end()), 0) == 1 ==> b.header_size == 16
    &&& b.header_size <= b.size
}

proof fn lemma_mov_stands(s: Seq<u8>, pos: int, end: int)
    requires
        0 <= pos,
        end <= s.len(),
        s.len() <= usize::MAX,
        mov_box_at(s, pos, end) is Some,
        mov_box_at(s, pos, end)->0 is Ok,
        be32(s, pos) != 0,
    ensures
        mov_stands(s, mov_box_at(s, pos, end)->0->Ok_0),
        mov_box_at(s, pos, end)->0->Ok_0.offset == pos,
        mov_box_at(s, pos, end)->0->Ok_0.end() <= end,
{
    let b = mov_box_at(s, pos, end)->0->Ok_0;
    let x = box_at(s, pos, end)->0;
    lemma_copied_is_sized(s, pos, end);
    let c = s.subrange(b.offset, b.end());
    lemma_same_integers(s, c, pos);
}

/// Whether `b` lies in `s`, whether or not it says its own size.
pub open spec fn mov_lies(s: Seq<u8>, b: MovView) -> bool {
    &&& 0 <= b.offset
    &&& b.end() <= s.len()
    &&& 8 <= b.header_size <= b.size
    &&& be32(s, b.offset) != 0 ==> mov_stands(s, b)
}

/// Whether boxes follow each other from `pos` to `end`.
pub open spec fn follow_each_other(boxes: Seq<MovView>, pos: int, end: int) -> bool
    decreases boxes.len(),
{
    if boxes.len() == 0 {
        pos >= end
    } else {
        boxes[0].offset == pos && follow_each_other(boxes.drop_first(), boxes[0].end(), end)
    }
}

/// Whether all boxes say their own sizes but for those of the type `but`.
pub open spec fn others_say_sizes(s: Seq<u8>, boxes: Seq<MovView>, but: Seq<u8>) -> bool {
    forall|i: int|
        0 <= i < boxes.len() && (#[trigger] boxes[i]).kind != but ==> be32(s, boxes[i].offset) != 0
}

proof fn lemma_boxes_follow(s: Seq<u8>, pos: int, end: int, acc: Seq<MovView>, all: Seq<MovView>)
    requires
        0 <= pos,
        end <= s.len(),
        s.len() <= usize::MAX,
        mov_boxes_from(s, pos, end, acc) == Some(Ok::<Seq<MovView>, Seq<char>>(all)),
    ensures
        acc.len() <= all.len(),
        all.take(acc.len() as int) == acc,
        follow_each_other(all.skip(acc.len() as int), pos, end),
        forall|i: int|
            acc.len() <= i < all.len() ==> mov_lies(s, #[trigger] all[i]) && pos <= all[i].offset,
    decreases end - pos,
{
    if pos < end {
        let b = mov_box_at(s, pos, end)->0->Ok_0;
        let n = acc.len() as int;
        lemma_kept_boxes(s, pos + b.size, end, acc.push(b), all);
        assert(all[n] == b) by {
            assert(all.take(n + 1)[n] == acc.push(b)[n]);
        }
        if be32(s, pos) != 0 {
            lemma_mov_stands(s, pos, end);
        }
        assert(mov_lies(s, b));
        lemma_boxes_follow(s, pos + b.size, end, acc.push(b), all);
        assert(all.take(n) =~= acc) by {
            assert(all.take(n) =~= all.take(n + 1).take(n));
            assert(acc.push(b).take(n) =~= acc);
        }
        assert(all.skip(n).drop_first() =~= all.skip(n + 1));
        assert(all.skip(n)[0] == b);
        assert forall|i: int| n <= i < all.len() implies mov_lies(s, #[trigger] all[i]) && pos
            <= all[i].offset by {
            if i > n {
                assert(mov_lies(s, all[i]));
            }
        }
    } else {
        assert(all.take(acc.len() as int) =~= acc);
        assert(all.skip(acc.len() as int).len() == 0);
    }
}

proof fn lemma_kept_boxes(s: Seq<u8>, pos: int, end: int, acc: Seq<MovView>, all: Seq<MovView>)
    requires
        mov_boxes_from(s, pos, end, acc) == Some(Ok::<Seq<MovView>, Seq<char>>(all)),
    ensures
        acc.len() <= all.len(),
        all.take(acc.len() as int) == acc,
    decreases end - pos,
{
    if pos < end {
        let b = mov_box_at(s, pos, end)->0->Ok_0;
        lemma_kept_boxes(s, pos + b.size, end, acc.push(b), all);
        let n = acc.len() as int;
        assert(all.take(n) =~= all.take(n + 1).take(n));
        assert(acc.push(b).take(n) =~= acc);
    } else {
        assert(all.take(acc.len() as int) =~= acc);
    }
}

/// A box keeps its type and its size when bytes of its payload are overwritten.
proof fn lemma_overwritten(c: Seq<u8>, at: int, b: Seq<u8>, t: Seq<u8>)
    requires
        is_box_of(c, t),
        8 <= at,
        be32(c, 0) == 1 ==> 16 <= at,
    ensures
        is_box_of(overwritten(c, at, b), t),
        overwritten(c, at, b).len() == c.len(),
        be32(overwritten(c, at, b), 0) == be32(c, 0),
{
    let r = overwritten(c, at, b);
    assert(r.subrange(4, 8) =~= c.subrange(4, 8));
    assert(r[0] == c[0] && r[1] == c[1] && r[2] == c[2] && r[3] == c[3]);
    if be32(c, 0) == 1 {
        assert(r[8] == c[8] && r[9] == c[9] && r[10] == c[10] && r[11] == c[11] && r[12] == c[12]
            && r[13] == c[13] && r[14] == c[14] && r[15] == c[15]);
    }
}

/// A built box of 32 bits is no longer than 32 bits can say.
pub proof fn lemma_small(kind: Seq<u8>, payload: Seq<u8>)
    requires
        kind.len() == 4,
        mov_bytes(kind, payload).len() <= u32::MAX,
    ensures
        payload.len() + 8 <= u32::MAX,
{
    reveal(box_bytes);
}

proof fn lemma_marker_track(m: MarkerView)
    requires
        marker_track(m).len() <= u32::MAX,
    ensures
        is_box_of(marker_track(m), TRAK@),
{
    reveal(marker_track);
    let sample = marker_sample(m.transform, m.dimensions);
    let marker = marker_len(m.movie_timescale);
    let payload = marker_tkhd(
        m.timestamp as int,
        m.track_id as int,
        m.empty_duration + marker,
    ) + mov_bytes(TREF@, mov_bytes(CDSC@, enc32(m.video_track_id as int))) + marker_edts(
        m.empty_duration as int,
        marker,
    ) + marker_mdia(
        m.timestamp as int,
        marker_stbl(
            m.transform is Some,
            m.dimensions is Some,
            sample.len() as int,
            m.chunk_offset as int,
        ),
    );
    assert(marker_track(m) == mov_bytes(TRAK@, payload));
    lemma_small(TRAK@, payload);
    lemma_mov_built(TRAK@, payload);
}

/// Whether the boxes of a movie box say their own sizes, as only a box that nothing follows
/// need not, and its header ends in four bytes for the next track's number. Metadata is
/// dropped, so that it may be of any size. Behind a track of size 0 the new metadata would
/// be read as part of the track, and in a header of 16 bytes that says its size in 64 bits
/// the number would overwrite the size.
pub open spec fn moov_well(moov: Seq<u8>) -> bool {
    &&& moov.len() <= usize::MAX
    &&& mov_boxes(moov, 8, moov.len() as int) matches Some(Ok(kids)) && {
        &&& others_say_sizes(moov, kids, META@)
        &&& forall|i: int|
            0 <= i < kids.len() && (#[trigger] kids[i]).kind == MVHD@ ==> kids[i].size
                >= kids[i].header_size + 4
    }
}

/// The boxes that come of the children of a movie box.
pub open spec fn kept_children(s: Seq<u8>, kids: Seq<MovView>, next: int) -> Seq<Seq<u8>>
    decreases kids.len(),
{
    if kids.len() == 0 {
        Seq::empty()
    } else if kids.last().kind == META@ {
        kept_children(s, kids.drop_last(), next)
    } else {
        kept_children(s, kids.drop_last(), next).push(moov_child(s, next)(kids.last()))
    }
}

proof fn lemma_kept_children(s: Seq<u8>, kids: Seq<MovView>, next: int)
    requires
        forall|i: int| 0 <= i < kids.len() ==> mov_lies(s, #[trigger] kids[i]),
        others_say_sizes(s, kids, META@),
        forall|i: int|
            0 <= i < kids.len() && (#[trigger] kids[i]).kind == MVHD@ ==> kids[i].size
                >= kids[i].header_size + 4,
    ensures
        flat(kids, moov_child(s, next)) == flat(kept_children(s, kids, next), as_is()),
        all_sized(kept_children(s, kids, next)),
        has_none_of(kept_children(s, kids, next), META@),
    decreases kids.len(),
{
    if kids.len() > 0 {
        let rest = kids.drop_last();
        let f = moov_child(s, next);
        let b = kids.last();
        let n = kids.len() - 1;
        assert(kids[n] == b);
        assert forall|i: int| 0 <= i < rest.len() implies mov_lies(s, #[trigger] rest[i]) by {
            assert(rest[i] == kids[i]);
        }
        assert forall|i: int| 0 <= i < rest.len() && (#[trigger] rest[i]).kind != META@ implies be32(
            s,
            rest[i].offset,
        ) != 0 by {
            assert(rest[i] == kids[i]);
        }
        assert forall|i: int| 0 <= i < rest.len() && (#[trigger] rest[i]).kind == MVHD@ implies rest[i].size
            >= rest[i].header_size + 4 by {
            assert(rest[i] == kids[i]);
        }
        lemma_kept_children(s, rest, next);
        let before = kept_children(s, rest, next);
        if b.kind == META@ {
            assert(flat(rest, f) + Seq::<u8>::empty() =~= flat(rest, f));
        } else {
            let raw = s.subrange(b.offset, b.end());
            let c = f(b);
            assert(mov_lies(s, kids[n]));
            assert(be32(s, kids[n].offset) != 0);
            assert(mov_stands(s, b));
            if b.kind == MVHD@ {
                lemma_overwritten(raw, raw.len() - 4, enc32(next), b.kind);
            }
            assert(is_box_of(c, b.kind));
            lemma_flat_push(before, as_is(), c);
            let all = before.push(c);
            assert forall|i: int| 0 <= i < all.len() implies is_sized_box(#[trigger] all[i]) && all[i].subrange(
                4,
                8,
            ) != META@ by {
                if i < before.len() {
                    assert(all[i] == before[i]);
                    assert(is_sized_box(before[i]));
                    assert(before[i].subrange(4, 8) != META@);
                }
            }
        }
    }
}

/// A movie box that was rebuilt carries the identifier of its new metadata.
proof fn lemma_moov_id(moov: Seq<u8>, track: Seq<u8>, id: Seq<u8>, new_track: u32, new: Seq<u8>)
    requires
        moov_well(moov),
        rebuilt_moov(moov, track, movie_meta_bytes(id), new_track) == Some(
            Ok::<Seq<u8>, Seq<char>>(new),
        ),
        new.len() <= u32::MAX,
        id.len() <= 0xffff_ff70,
        is_box_of(track, TRAK@),
    ensures
        moov_id(new) == Some(Some(movie_identifier_of(id))),
        is_box_of(new, MOOV@),
{
    let kids = mov_boxes(moov, 8, moov.len() as int)->0->Ok_0;
    let next = new_track + 1;
    let kept = kept_children(moov, kids, next);
    let meta = movie_meta_bytes(id);
    lemma_boxes_follow(moov, 8, moov.len() as int, Seq::empty(), kids);
    lemma_kept_children(moov, kids, next);
    let run = flat(kept, as_is()) + track + meta;
    assert(new == mov_bytes(MOOV@, run));
    lemma_small(MOOV@, run);
    lemma_mov_built(MOOV@, run);
    lemma_meta_box(id);
    assert(new.subrange(0, new.len() as int) =~= new);
    boxes_read_back(new, 0, new.len() as int, MOOV@, run);
    assert(TRAK@[0] != META@[0]);
    lemma_last_found(new, 8, kept, track, meta, TRAK@, META@);
    let p = 8 + flat(kept, as_is()).len() + track.len();
    lemma_meta_id(new, p as int, id);
    lemma_meta_header(id, p as int);
}

/// Where boxes of which none has a type are followed by one of another type and one of
/// that type, this is the first.
proof fn lemma_last_found(
    s: Seq<u8>,
    p: int,
    kept: Seq<Seq<u8>>,
    a: Seq<u8>,
    b: Seq<u8>,
    ta: Seq<u8>,
    t: Seq<u8>,
)
    requires
        s.len() <= usize::MAX,
        all_sized(kept),
        has_none_of(kept, t),
        is_box_of(a, ta),
        is_box_of(b, t),
        ta != t,
        occurs_at(s, flat(kept, as_is()) + a + b, p),
    ensures
        ({
            let x = p + flat(kept, as_is()).len() + a.len();
            &&& occurs_at(s, b, x)
            &&& mov_boxes(s, p, x + b.len()) matches Some(Ok(h)) && first_where(h, mov_typed(t))
                == Some(mov_header(b, x))
        }),
{
    let all = kept.push(a).push(b);
    lemma_flat_push(kept, as_is(), a);
    lemma_flat_push(kept.push(a), as_is(), b);
    lemma_pushed_sized(kept, a, b);
    movie_boxes_read_back(s, p, all);
    let k = kept.len() as int + 1;
    assert(all[k] == b);
    assert forall|j: int| 0 <= j < k implies (#[trigger] all[j]).subrange(4, 8) != t by {
        if j < kept.len() {
            assert(all[j] == kept[j]);
            assert(kept[j].subrange(4, 8) != t);
        } else {
            assert(all[j] == a);
        }
    }
    assert(is_first_of(all, t, k));
    lemma_first_mov(all, p, t, k);
    assert(all.take(k) =~= kept.push(a));
    lemma_parts(s, flat(kept, as_is()) + a, b, p);
}

proof fn lemma_pushed_sized(kept: Seq<Seq<u8>>, a: Seq<u8>, b: Seq<u8>)
    requires
        all_sized(kept),
        is_sized_box(a),
        is_sized_box(b),
    ensures
        all_sized(kept.push(a).push(b)),
{
    let all = kept.push(a).push(b);
    assert forall|i: int| 0 <= i < all.len() implies is_sized_box(#[trigger] all[i]) by {
        if i < kept.len() {
            assert(all[i] == kept[i]);
        }
    }
}

proof fn lemma_meta_box(id: Seq<u8>)
    requires
        id.len() <= 0xffff_ff70,
    ensures
        is_box_of(movie_meta_bytes(id), META@),
{
    lemma_meta_boxes(id);
    lemma_mov_built(META@, flat(meta_boxes(id), as_is()));
}

proof fn lemma_meta_header(id: Seq<u8>, p: int)
    requires
        id.len() <= 0xffff_ff70,
    ensures
        mov_header(movie_meta_bytes(id), p) == (MovView {
            offset: p,
            size: 136 + id.len() as int,
            kind: META@,
            header_size: 8,
        }),
{
    lemma_meta_boxes(id);
    lemma_mov_built(META@, flat(meta_boxes(id), as_is()));
}

// ---------------------------------------------------------------------------
// Whole movies
// ---------------------------------------------------------------------------

/// Whether boxes can be put behind those of a source movie: all but the movie box, which
/// gives way to free space, say their own sizes, and the movie box can be rebuilt. What is
/// put behind a last box of size 0 would be read as part of it.
pub open spec fn movie_well(s: Seq<u8>) -> bool {
    &&& s.len() <= usize::MAX
    &&& source_boxes(s) matches Some(Ok((top, b))) && others_say_sizes(s, top, MOOV@) && moov_well(
        s.subrange(b.offset, b.end()),
    )
}

/// The boxes of the source as they stand in the movie that was written.
pub open spec fn rewritten_boxes(s: Seq<u8>, top: Seq<MovView>) -> Seq<Seq<u8>> {
    Seq::new(top.len(), |i: int| rewritten_box(s)(top[i]))
}

proof fn lemma_free(size: int)
    requires
        8 <= size <= u64::MAX,
    ensures
        is_box_of(free_bytes(size), FREE@),
        free_bytes(size).len() == size,
{
    let c = free_bytes(size);
    if size <= u32::MAX {
        let payload = zeros((size - 8) as nat);
        lemma_built_typed(FREE@, payload);
        assert(c == box_bytes(FREE@, payload)) by {
            reveal(box_bytes);
        }
    } else {
        assert(c.subrange(0, 4) =~= enc32(1));
        assert(c.subrange(8, 16) =~= enc64(size));
        assert(c.subrange(4, 8) =~= FREE@);
        integers_of_32_bits_read_back(c, 0, 1);
        integers_of_64_bits_read_back(c, 8, size);
    }
    assert(c.len() == size);
}

/// Each rewritten box is as long as it was, and where the box said its own size, or was the
/// movie box, it is a box and no movie box.
proof fn lemma_rewritten(s: Seq<u8>, b: MovView)
    requires
        s.len() <= usize::MAX,
        mov_lies(s, b),
        b.kind == FTYP@ ==> b.size >= b.header_size + 8,
    ensures
        rewritten_box(s)(b).len() == b.size,
        b.kind == MOOV@ || be32(s, b.offset) != 0 ==> is_sized_box(rewritten_box(s)(b))
            && rewritten_box(s)(b).subrange(4, 8) != MOOV@,
        b.kind != MOOV@ && b.kind != FTYP@ ==> rewritten_box(s)(b) == s.subrange(
            b.offset,
            b.end(),
        ),
{
    let raw = s.subrange(b.offset, b.end());
    assert(FREE@[0] != MOOV@[0]);
    assert(FTYP@[0] != MOOV@[0]);
    if b.kind == MOOV@ {
        lemma_free(b.size);
    } else if b.kind == FTYP@ && be32(s, b.offset) != 0 {
        lemma_overwritten(raw, b.header_size, BRAND_QT@, b.kind);
    }
}

proof fn lemma_ftyp_room(top: Seq<MovView>, i: int)
    requires
        0 <= i < top.len(),
        top[i].kind == FTYP@,
        top.filter(mov_typed(FTYP@)).len() == 1,
        ({
            let f = top.filter(mov_typed(FTYP@));
            f[0].size >= f[0].header_size + 8
        }),
    ensures
        top[i].size >= top[i].header_size + 8,
{
    top.lemma_filter_contains(mov_typed(FTYP@), i);
    let f = top.filter(mov_typed(FTYP@));
    let j = choose|j: int| 0 <= j < f.len() && f[j] == top[i];
    assert(j == 0);
}

/// The boxes of the source stand in the movie where they stood.
proof fn lemma_places(s: Seq<u8>, boxes: Seq<Seq<u8>>, top: Seq<MovView>, pos: int, end: int, i: int)
    requires
        boxes.len() == top.len(),
        follow_each_other(top, pos, end),
        forall|k: int| 0 <= k < top.len() ==> (#[trigger] boxes[k]).len() == top[k].size,
        0 <= i < top.len(),
    ensures
        place_of(boxes, pos, i) == top[i].offset,
    decreases top.len(),
{
    if i == 0 {
        assert(boxes.take(0) =~= Seq::empty());
    } else {
        let b = boxes.drop_first();
        let t = top.drop_first();
        assert forall|k: int| 0 <= k < t.len() implies (#[trigger] b[k]).len() == t[k].size by {
            assert(b[k] == boxes[k + 1]);
        }
        lemma_places(s, b, t, top[0].end(), end, i - 1);
        let part = boxes.take(i);
        lemma_flat_first(part, as_is());
        assert(part.drop_first() =~= b.take(i - 1));
        assert(boxes[0].len() == top[0].size);
    }
}

proof fn lemma_whole_len(boxes: Seq<Seq<u8>>, top: Seq<MovView>, pos: int, end: int)
    requires
        boxes.len() == top.len(),
        follow_each_other(top, pos, end),
        forall|k: int| 0 <= k < top.len() ==> (#[trigger] boxes[k]).len() == top[k].size,
        forall|k: int| 0 <= k < top.len() ==> (#[trigger] top[k]).end() <= end,
        pos <= end,
    ensures
        pos + flat(boxes, as_is()).len() == end,
    decreases top.len(),
{
    if top.len() > 0 {
        let b = boxes.drop_first();
        let t = top.drop_first();
        assert forall|k: int| 0 <= k < t.len() implies (#[trigger] b[k]).len() == t[k].size by {
            assert(b[k] == boxes[k + 1]);
        }
        assert forall|k: int| 0 <= k < t.len() implies (#[trigger] t[k]).end() <= end by {
            assert(t[k] == top[k + 1]);
        }
        assert(top[0].end() <= end);
        lemma_whole_len(b, t, top[0].end(), end);
        lemma_flat_first(boxes, as_is());
        assert(boxes[0].len() == top[0].size);
    }
}

/// The boxes of a source movie as they stand in what was written of it.
pub proof fn lemma_rewritten_boxes(s: Seq<u8>, top: Seq<MovView>, b: MovView)
    requires
        s.len() <= usize::MAX,
        source_boxes(s) == Some(Ok::<(Seq<MovView>, MovView), Seq<char>>((top, b))),
    ensures
        flat(top, rewritten_box(s)) == flat(rewritten_boxes(s, top), as_is()),
        flat(rewritten_boxes(s, top), as_is()).len() == s.len(),
        others_say_sizes(s, top, MOOV@) ==> all_sized(rewritten_boxes(s, top)) && has_none_of(
            rewritten_boxes(s, top),
            MOOV@,
        ),
        forall|i: int|
            0 <= i < top.len() ==> place_of(rewritten_boxes(s, top), 0, i) == (
            #[trigger] top[i]).offset,
        forall|i: int|
            0 <= i < top.len() && (#[trigger] top[i]).kind != MOOV@ && top[i].kind != FTYP@
                ==> rewritten_boxes(s, top)[i] == s.subrange(top[i].offset, top[i].end()),
{
    let boxes = rewritten_boxes(s, top);
    let end = s.len() as int;
    lemma_boxes_follow(s, 0, end, Seq::empty(), top);
    assert(top.skip(0) =~= top);
    assert forall|i: int| 0 <= i < top.len() implies (#[trigger] boxes[i]).len() == top[i].size && (
    top[i].kind == MOOV@ || be32(s, top[i].offset) != 0 ==> is_sized_box(boxes[i])
        && boxes[i].subrange(4, 8) != MOOV@) && (top[i].kind != MOOV@ && top[i].kind != FTYP@
        ==> boxes[i] == s.subrange(top[i].offset, top[i].end())) by {
        assert(mov_lies(s, top[i]));
        if top[i].kind == FTYP@ {
            lemma_ftyp_room(top, i);
        }
        lemma_rewritten(s, top[i]);
    }
    lemma_flat_same(top, rewritten_box(s), boxes, as_is());
    assert forall|i: int| 0 <= i < top.len() implies (#[trigger] top[i]).end() <= end by {
        assert(mov_lies(s, top[i]));
    }
    lemma_whole_len(boxes, top, 0, end);
    assert forall|i: int| 0 <= i < top.len() implies place_of(boxes, 0, i) == (
    #[trigger] top[i]).offset by {
        lemma_places(s, boxes, top, 0, end, i);
    }
    if others_say_sizes(s, top, MOOV@) {
        assert forall|i: int| 0 <= i < boxes.len() implies is_sized_box(#[trigger] boxes[i])
            && boxes[i].subrange(4, 8) != MOOV@ by {
            assert(top[i].kind != MOOV@ ==> be32(s, top[i].offset) != 0);
        }
    }
}

/// The parts of a movie that was written.
pub proof fn lemma_live_parts(s: Seq<u8>, id: Seq<char>, m: MarkView, out: Seq<u8>) -> (r: (
    Seq<MovView>,
    MovView,
    MarkerView,
    Seq<u8>,
))
    requires
        s.len() <= usize::MAX,
        live_movie(s, id, m) == Some(Ok::<Seq<u8>, Seq<char>>(out)),
    ensures
        ({
            let (top, b, marker, new) = r;
            let moov = s.subrange(b.offset, b.end());
            let sample = marker_sample(m.transform, m.dimensions);
            &&& source_boxes(s) == Some(Ok::<(Seq<MovView>, MovView), Seq<char>>((top, b)))
            &&& is_movie_id(id)
            &&& rebuilt_moov(
                moov,
                marker_track(marker),
                movie_meta_bytes(encode_utf8(id)),
                marker.track_id,
            ) == Some(Ok::<Seq<u8>, Seq<char>>(new))
            &&& movie_tracks(moov) matches Some(Ok(tracks)) && marker == marker_for(
                s.len() as int,
                tracks,
                m,
            )
            &&& marker.chunk_offset == s.len() + 8
            &&& out == flat(top, rewritten_box(s)) + mov_bytes(MDAT@, sample) + new
        }),
{
    let (top, b) = source_boxes(s)->0->Ok_0;
    let moov = s.subrange(b.offset, b.end());
    let tracks = movie_tracks(moov)->0->Ok_0;
    let marker = marker_for(s.len() as int, tracks, m);
    let meta = movie_meta(id)->Ok_0;
    let new = rebuilt_moov(moov, marker_track(marker), meta, marker.track_id)->0->Ok_0;
    (top, b, marker, new)
}

/// A Live Photo movie carries the content identifier that it was written with.
pub proof fn live_movies_carry_the_identifier(
    s: Seq<u8>,
    id: Seq<char>,
    m: MarkView,
    out: Seq<u8>,
)
    requires
        movie_well(s),
        live_movie(s, id, m) == Some(Ok::<Seq<u8>, Seq<char>>(out)),
        out.len() - s.len() <= u32::MAX,
        out.len() <= usize::MAX,
    ensures
        movie_id(out) == Some(Some(movie_identifier_of(encode_utf8(id)))),
{
    let (top, b, marker, new) = lemma_live_parts(s, id, m, out);
    let moov = s.subrange(b.offset, b.end());
    let sample = mov_bytes(MDAT@, marker_sample(m.transform, m.dimensions));
    let bytes = encode_utf8(id);
    is_ascii_chars_encode_utf8(id);
    lemma_rewritten_boxes(s, top, b);
    lemma_rebuilt_track(moov, marker, bytes, marker.track_id, new);
    lemma_moov_id(moov, marker_track(marker), bytes, marker.track_id, new);
    lemma_small(MDAT@, marker_sample(m.transform, m.dimensions));
    lemma_mov_built(MDAT@, marker_sample(m.transform, m.dimensions));
    lemma_movie_found(rewritten_boxes(s, top), sample, new, out);
}

/// The marker track and the identifier of a movie box are no longer than the movie box.
proof fn lemma_rebuilt_track(
    moov: Seq<u8>,
    marker: MarkerView,
    id: Seq<u8>,
    new_track: u32,
    new: Seq<u8>,
)
    requires
        rebuilt_moov(moov, marker_track(marker), movie_meta_bytes(id), new_track) == Some(
            Ok::<Seq<u8>, Seq<char>>(new),
        ),
        new.len() <= u32::MAX,
    ensures
        is_box_of(marker_track(marker), TRAK@),
        id.len() <= 0xffff_ff70,
{
    let kids = mov_boxes(moov, 8, moov.len() as int)->0->Ok_0;
    let run = flat(kids, moov_child(moov, new_track + 1)) + marker_track(marker)
        + movie_meta_bytes(id);
    assert(new == mov_bytes(MOOV@, run));
    lemma_small(MOOV@, run);
    lemma_marker_track(marker);
    lemma_meta_len(id);
}

/// The metadata box of a movie has room for what tells that it holds an identifier.
proof fn lemma_meta_len(id: Seq<u8>)
    ensures
        movie_meta_bytes(id).len() >= id.len() + 128,
{
    let keys = full_bytes(KEYS@, 0, 0, enc32(1) + mov_bytes(MDTA@, CONTENT_IDENTIFIER_KEY@));
    let hdlr = mov_bytes(HDLR@, MDTA_HANDLER@);
    let ilst = mov_bytes(
        ILST@,
        mov_bytes(ATOM_1@, mov_bytes(DATA@, enc32(1) + enc32(0) + id)),
    );
    lemma_longer(HDLR@, MDTA_HANDLER@);
    lemma_keys_len(MDTA@, KEYS@, CONTENT_IDENTIFIER_KEY@);
    lemma_ilst_len(DATA@, ATOM_1@, ILST@, id);
    lemma_longer(META@, hdlr + keys + ilst);
    assert(movie_meta_bytes(id) == mov_bytes(META@, hdlr + keys + ilst)) by {
        reveal(movie_meta_bytes);
    }
}

proof fn lemma_keys_len(inner: Seq<u8>, outer: Seq<u8>, key: Seq<u8>)
    requires
        inner.len() == 4,
        outer.len() == 4,
    ensures
        full_bytes(outer, 0, 0, enc32(1) + mov_bytes(inner, key)).len() >= key.len() + 24,
{
    let entry = enc32(1) + mov_bytes(inner, key);
    lemma_longer(inner, key);
    lemma_longer(outer, seq![0u8] + enc24(0) + entry);
}

proof fn lemma_ilst_len(a: Seq<u8>, b: Seq<u8>, c: Seq<u8>, id: Seq<u8>)
    requires
        a.len() == 4,
        b.len() == 4,
        c.len() == 4,
    ensures
        mov_bytes(c, mov_bytes(b, mov_bytes(a, enc32(1) + enc32(0) + id))).len() >= id.len() + 32,
{
    let body = enc32(1) + enc32(0) + id;
    lemma_longer(a, body);
    lemma_longer(b, mov_bytes(a, body));
    lemma_longer(c, mov_bytes(b, mov_bytes(a, body)));
}

proof fn lemma_longer(kind: Seq<u8>, payload: Seq<u8>)
    requires
        kind.len() == 4,
    ensures
        mov_bytes(kind, payload).len() >= payload.len() + 8,
{
    reveal(box_bytes);
}

/// The movie box behind boxes that are none is found.
proof fn lemma_movie_found(boxes: Seq<Seq<u8>>, sample: Seq<u8>, new: Seq<u8>, out: Seq<u8>)
    requires
        all_sized(boxes),
        has_none_of(boxes, MOOV@),
        is_box_of(sample, MDAT@),
        is_box_of(new, MOOV@),
        out == flat(boxes, as_is()) + sample + new,
        out.len() <= usize::MAX,
    ensures
        movie_id(out) == moov_id(new),
{
    assert(out.subrange(0, out.len() as int) =~= out);
    assert(MDAT@[1] != MOOV@[1]);
    lemma_last_found(out, 0, boxes, sample, new, MDAT@, MOOV@);
}

/// Each of boxes that follow each other stands at its place.
proof fn lemma_part_of_flat(s: Seq<u8>, p: int, boxes: Seq<Seq<u8>>, i: int)
    requires
        occurs_at(s, flat(boxes, as_is()), p),
        0 <= i < boxes.len(),
    ensures
        occurs_at(s, boxes[i], place_of(boxes, p, i)),
{
    lemma_flat_take(boxes, as_is(), i);
    assert(boxes =~= boxes.take(i + 1) + boxes.skip(i + 1));
    lemma_flat_add(boxes.take(i + 1), boxes.skip(i + 1), as_is());
    let before = flat(boxes.take(i), as_is());
    lemma_parts(s, before + boxes[i], flat(boxes.skip(i + 1), as_is()), p);
    lemma_parts(s, before, boxes[i], p);
}

/// Writing a Live Photo movie leaves the media of the source where it was: every box but
/// the file type and the movie box keeps its bytes at its place, so that every sample is
/// found where the tracks say.
pub proof fn live_movies_keep_media(
    s: Seq<u8>,
    id: Seq<char>,
    m: MarkView,
    out: Seq<u8>,
    top: Seq<MovView>,
    b: MovView,
    i: int,
)
    requires
        live_movie(s, id, m) == Some(Ok::<Seq<u8>, Seq<char>>(out)),
        source_boxes(s) == Some(Ok::<(Seq<MovView>, MovView), Seq<char>>((top, b))),
        0 <= i < top.len(),
        top[i].kind != MOOV@,
        top[i].kind != FTYP@,
        s.len() <= usize::MAX,
    ensures
        occurs_at(out, s.subrange(top[i].offset, top[i].end()), top[i].offset),
{
    let (_, _, _, new) = lemma_live_parts(s, id, m, out);
    let sample = mov_bytes(MDAT@, marker_sample(m.transform, m.dimensions));
    let boxes = rewritten_boxes(s, top);
    let run = flat(boxes, as_is());
    lemma_rewritten_boxes(s, top, b);
    assert(out.subrange(0, out.len() as int) =~= out);
    lemma_parts(out, run + sample, new, 0);
    lemma_parts(out, run, sample, 0);
    lemma_part_of_flat(out, 0, boxes, i);
    assert(place_of(boxes, 0, i) == top[i].offset);
}

/// The sample of the marker track stands where the track says.
pub proof fn live_movies_hold_the_sample(s: Seq<u8>, id: Seq<char>, m: MarkView, out: Seq<u8>)
    requires
        live_movie(s, id, m) == Some(Ok::<Seq<u8>, Seq<char>>(out)),
        s.len() <= usize::MAX,
        out.len() - s.len() <= u32::MAX,
    ensures
        occurs_at(out, marker_sample(m.transform, m.dimensions), s.len() + 8int),
{
    let (top, b, marker, new) = lemma_live_parts(s, id, m, out);
    let data = marker_sample(m.transform, m.dimensions);
    let sample = mov_bytes(MDAT@, data);
    let run = flat(rewritten_boxes(s, top), as_is());
    lemma_rewritten_boxes(s, top, b);
    assert(out.subrange(0, out.len() as int) =~= out);
    lemma_parts(out, run + sample, new, 0);
    lemma_parts(out, run, sample, 0);
    lemma_small(MDAT@, data);
    lemma_mov_built(MDAT@, data);
    boxes_read_back(out, s.len() as int, out.len() as int, MDAT@, data);
}

/// A still and a movie that carry the same identifier are a pair.
pub proof fn equal_identifiers_are_pairs(still: Seq<u8>, mov: Seq<u8>, a: Seq<char>, b: Seq<char>)
    requires
        still_id(still) == Some(Some(a)),
        movie_id(mov) == Some(Some(b)),
        same_but_case(trim_text(a), trim_text(b)),
    ensures
        is_pair(still, mov) == Some(true),
{
}

} // verus!
