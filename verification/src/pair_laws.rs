//! A still and a movie that were written with the same identifier are a pair.

use crate::bytes::{find_from, lower, starts_with};
use crate::isobmff::{MetaView, source_meta};
use crate::isobmff_write::exif_payload;
use crate::live_movie::{MarkView, is_movie_id, live_movie};
use crate::live_photo::{
    EXIF_PREFIX, is_pair, movie_id, paired_still, same_but_case, spliced, still_id, tiff_start,
};
use crate::makernote::{
    APPLE_NOTE, TiffView, extended_note, identifier_value, note_of, stored_note, tiff_bytes,
    tiff_model, with_note,
};
use crate::movie_laws::{
    equal_identifiers_are_pairs, live_movies_carry_the_identifier, movie_identifier_of, movie_well,
};
use crate::payload_laws::exif_fits;
use crate::reopened::holds_metadata;
use crate::text::{
    ascii_upper, ascii_upper_char, is_white, lossy_text, trim_back, trim_front, trim_text, white,
};
use crate::tiff_laws::{
    gets_own_note, identifier_of, note_lies_behind, paired_stills_carry_the_identifier,
    repaired_stills_carry_the_identifier, takes_note,
};
use vstd::prelude::*;
use vstd::string::*;
use vstd::utf8::*;

verus! {

/// Whether an identifier can be read of a still and of a movie alike: as many ASCII
/// characters as a still holds, none of them zero, and not all of them white space. Of a
/// longer one the still says the first 36 characters and the movie all of them.
pub open spec fn is_shared_id(id: Seq<char>) -> bool {
    &&& is_movie_id(id)
    &&& id.len() == 36
    &&& trim_text(id).len() > 0
}

proof fn lemma_trimmed_front(s: Seq<char>)
    requires
        is_ascii_chars(s),
    ensures
        trim_front(ascii_upper(s), white()) == ascii_upper(trim_front(s, white())),
        is_ascii_chars(trim_front(s, white())),
    decreases s.len(),
{
    let u = ascii_upper(s);
    if s.len() > 0 {
        assert(is_white(u[0]) == is_white(s[0]));
        assert(u.drop_first() =~= ascii_upper(s.drop_first()));
        lemma_trimmed_front(s.drop_first());
    }
}

proof fn lemma_trimmed_back(s: Seq<char>)
    requires
        is_ascii_chars(s),
    ensures
        trim_back(ascii_upper(s), white()) == ascii_upper(trim_back(s, white())),
        is_ascii_chars(trim_back(s, white())),
    decreases s.len(),
{
    let u = ascii_upper(s);
    if s.len() > 0 {
        assert(u.last() == ascii_upper_char(s.last()));
        assert(is_white(u.last()) == is_white(s.last()));
        assert(u.drop_last() =~= ascii_upper(s.drop_last()));
        lemma_trimmed_back(s.drop_last());
    }
}

/// ASCII text without the white space around it is the same in either case.
proof fn lemma_trimmed_upper(s: Seq<char>)
    requires
        is_ascii_chars(s),
    ensures
        trim_text(ascii_upper(s)) == ascii_upper(trim_text(s)),
        is_ascii_chars(trim_text(s)),
{
    lemma_trimmed_front(s);
    lemma_trimmed_back(trim_front(s, white()));
}

/// ASCII text and its uppercase form differ in nothing but case.
proof fn lemma_upper_same(s: Seq<char>)
    requires
        is_ascii_chars(s),
    ensures
        is_ascii_chars(ascii_upper(s)),
        same_but_case(ascii_upper(s), s),
{
    let u = ascii_upper(s);
    assert(is_ascii_chars(u));
    is_ascii_chars_encode_utf8(s);
    is_ascii_chars_encode_utf8(u);
    let x = encode_utf8(u);
    let y = encode_utf8(s);
    assert forall|i: int| 0 <= i < x.len() implies lower(#[trigger] x[i]) == lower(y[i]) by {
        assert(u[i] == ascii_upper_char(s[i]));
    }
}

/// ASCII text is decoded as it was encoded.
proof fn lemma_ascii_text(s: Seq<char>)
    ensures
        lossy_text(encode_utf8(s)) == s,
{
    encode_utf8_valid_utf8(s);
    encode_utf8_decode_utf8(s);
}

/// A still and a movie are a pair where each carries what is written of one identifier.
pub proof fn one_identifier_makes_a_pair(still: Seq<u8>, mov: Seq<u8>, id: Seq<char>)
    requires
        is_shared_id(id),
        still_id(still) == Some(identifier_of(identifier_value(id))),
        movie_id(mov) == Some(Some(movie_identifier_of(encode_utf8(id)))),
    ensures
        is_pair(still, mov) == Some(true),
{
    let upper = ascii_upper(id);
    lemma_upper_same(id);
    is_ascii_chars_encode_utf8(upper);
    assert(identifier_value(id).take(36) =~= encode_utf8(upper));
    lemma_ascii_text(upper);
    lemma_ascii_text(id);
    lemma_trimmed_upper(id);
    let b = trim_text(id);
    lemma_trimmed_upper(b);
    lemma_upper_same(trim_text(b));
    equal_identifiers_are_pairs(still, mov, ascii_upper(b), b);
}

/// A still that carries what is written of an identifier is no pair with a movie that has no
/// identifier, or one that differs from it in more than the case of letters.
pub proof fn other_identifiers_make_no_pair(
    still: Seq<u8>,
    mov: Seq<u8>,
    id: Seq<char>,
    other: Option<Seq<char>>,
)
    requires
        is_shared_id(id),
        still_id(still) == Some(identifier_of(identifier_value(id))),
        movie_id(mov) == Some(other),
        other matches Some(b) ==> !same_but_case(trim_text(id), trim_text(b)),
    ensures
        is_pair(still, mov) == Some(false),
{
    let upper = ascii_upper(id);
    lemma_upper_same(id);
    is_ascii_chars_encode_utf8(upper);
    assert(identifier_value(id).take(36) =~= encode_utf8(upper));
    lemma_ascii_text(upper);
    lemma_trimmed_upper(id);
    let t = trim_text(id);
    lemma_trimmed_upper(t);
    lemma_trimmed_twice(id, white());
    lemma_upper_same(t);
    if let Some(b) = other {
        let x = encode_utf8(ascii_upper(t));
        let y = encode_utf8(t);
        let z = encode_utf8(trim_text(b));
        if same_but_case(ascii_upper(t), trim_text(b)) {
            assert forall|i: int| 0 <= i < y.len() implies lower(#[trigger] y[i]) == lower(z[i]) by {
                assert(lower(x[i]) == lower(y[i]));
                assert(lower(x[i]) == lower(z[i]));
            }
            assert(same_but_case(t, trim_text(b)));
        }
    }
}

/// Text without white space around it has none to lose.
proof fn lemma_trimmed_twice(s: Seq<char>, p: spec_fn(char) -> bool)
    ensures
        trim_back(trim_front(trim_back(trim_front(s, p), p), p), p) == trim_back(
            trim_front(s, p),
            p,
        ),
{
    let f = trim_front(s, p);
    let t = trim_back(f, p);
    lemma_front_settles(s, p);
    lemma_back_settles(f, p);
    if t.len() > 0 {
        assert(t[0] == f[0]);
    }
}

proof fn lemma_front_settles(s: Seq<char>, p: spec_fn(char) -> bool)
    ensures
        trim_front(s, p).len() > 0 ==> !p(trim_front(s, p)[0]),
    decreases s.len(),
{
    if s.len() > 0 && p(s[0]) {
        lemma_front_settles(s.drop_first(), p);
    }
}

proof fn lemma_back_settles(s: Seq<char>, p: spec_fn(char) -> bool)
    ensures
        trim_back(s, p).len() <= s.len(),
        trim_back(s, p).len() > 0 ==> !p(trim_back(s, p).last()) && trim_back(s, p)[0] == s[0],
    decreases s.len(),
{
    if s.len() > 0 && p(s.last()) {
        lemma_back_settles(s.drop_last(), p);
    }
}

/// A still that had no Apple note and a movie are a valid pair once both were written with
/// the same identifier.
pub proof fn paired_stills_and_movies_are_pairs(
    s: Seq<u8>,
    id: Seq<char>,
    meta: MetaView,
    m: TiffView,
    payload: Seq<u8>,
    p: int,
    still: Seq<u8>,
    source: Seq<u8>,
    mark: MarkView,
    mov: Seq<u8>,
)
    requires
        is_shared_id(id),
        holds_metadata(s),
        source_meta(s) == Some(Ok::<MetaView, Seq<char>>(meta)),
        exif_payload(s) == Some(Ok::<Option<Seq<u8>>, Seq<char>>(Some(payload))),
        tiff_start(payload) == Some(p),
        gets_own_note(payload.skip(p)),
        tiff_model(payload.skip(p)) == Ok::<TiffView, Seq<char>>(m),
        takes_note(m, note_of(identifier_value(id))),
        paired_still(s, id) == Some(Ok::<Seq<u8>, Seq<char>>(still)),
        exif_fits(
            s,
            meta,
            EXIF_PREFIX@ + tiff_bytes(with_note(m, note_of(identifier_value(id)))),
        ),
        still.len() <= u32::MAX,
        movie_well(source),
        live_movie(source, id, mark) == Some(Ok::<Seq<u8>, Seq<char>>(mov)),
        mov.len() - source.len() <= u32::MAX,
        mov.len() <= usize::MAX,
    ensures
        is_pair(still, mov) == Some(true),
{
    lemma_value_len(id);
    paired_stills_carry_the_identifier(s, id, meta, m, payload, p, still);
    live_movies_carry_the_identifier(source, id, mark, mov);
    one_identifier_makes_a_pair(still, mov, id);
}

proof fn lemma_value_len(id: Seq<char>)
    requires
        is_shared_id(id),
    ensures
        identifier_value(id).len() == 37,
        identifier_of(identifier_value(id)) is Some,
{
    let upper = ascii_upper(id);
    lemma_upper_same(id);
    is_ascii_chars_encode_utf8(upper);
    assert(identifier_value(id).take(36) =~= encode_utf8(upper));
    lemma_ascii_text(upper);
    lemma_trimmed_upper(id);
}

/// A still that had an Apple note and a movie are a valid pair once both were written with
/// the same identifier.
pub proof fn repaired_stills_and_movies_are_pairs(
    s: Seq<u8>,
    id: Seq<char>,
    meta: MetaView,
    payload: Seq<u8>,
    p: int,
    note: Seq<u8>,
    e: int,
    at: int,
    still: Seq<u8>,
    source: Seq<u8>,
    mark: MarkView,
    mov: Seq<u8>,
)
    requires
        is_shared_id(id),
        holds_metadata(s),
        source_meta(s) == Some(Ok::<MetaView, Seq<char>>(meta)),
        exif_payload(s) == Some(Ok::<Option<Seq<u8>>, Seq<char>>(Some(payload))),
        tiff_start(payload) == Some(p),
        stored_note(payload.skip(p)) == Some(Some(note)),
        starts_with(note, APPLE_NOTE@),
        note_lies_behind(payload.skip(p), note, e, at),
        find_from(payload.skip(p), note, 0) == Some(at),
        paired_still(s, id) == Some(Ok::<Seq<u8>, Seq<char>>(still)),
        exif_fits(
            s,
            meta,
            EXIF_PREFIX@ + spliced(
                payload.skip(p),
                at,
                note,
                extended_note(note, identifier_value(id)),
                e,
            ),
        ),
        still.len() <= u32::MAX,
        movie_well(source),
        live_movie(source, id, mark) == Some(Ok::<Seq<u8>, Seq<char>>(mov)),
        mov.len() - source.len() <= u32::MAX,
        mov.len() <= usize::MAX,
    ensures
        is_pair(still, mov) == Some(true),
{
    lemma_value_len(id);
    repaired_stills_carry_the_identifier(s, id, meta, payload, p, note, e, at, still);
    live_movies_carry_the_identifier(source, id, mark, mov);
    one_identifier_makes_a_pair(still, mov, id);
}

} // verus!
