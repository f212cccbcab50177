use crate::bytes::{be16, be32, enc16, enc32};
use crate::fourcc::{
    ALIS, ALTR, AUXC, CDSC, CLLI, CO64, COLR, CTTS, DATA, DINF, DREF, DTYP, EDTS, ELST, FREE, FTYP,
    GMHD, GMIN, GRID, GRPL, HDLR, HVCC, IDAT, IINF, ILOC, ILST, INFE, IPCO, IPMA, IPRP, IREF, IROT,
    ISPE, KEYD, KEYS, MDAT, MDHD, MDIA, MDTA, MEBX, META, MINF, MOOV, MVHD, PITM, STBL, STCO, STSC,
    STSD, STSZ, STTS, TKHD, TRAK, TREF,
};
use crate::live_photo::{hex_upper, uuid_bytes, uuid_text};
use crate::makernote::{apple_note, note_of};
use crate::round_trip::{integers_of_16_bits_read_back, integers_of_32_bits_read_back};
use crate::text::uppercase_text;
use vstd::prelude::*;
use vstd::string::*;
use vstd::utf8::*;

verus! {

/// Four bytes spell four letters.
pub open spec fn spells(b: Seq<u8>, p: char, q: char, r: char, s: char) -> bool {
    b.len() == 4 && b[0] as char == p && b[1] as char == q && b[2] as char == r && b[3] as char == s
}

/// The types of boxes are spelled as readers of the formats know them.
pub proof fn box_types_are_spelled()
    ensures
        spells(FTYP@, 'f', 't', 'y', 'p'),
        spells(META@, 'm', 'e', 't', 'a'),
        spells(MDAT@, 'm', 'd', 'a', 't'),
        spells(IDAT@, 'i', 'd', 'a', 't'),
        spells(PITM@, 'p', 'i', 't', 'm'),
        spells(IINF@, 'i', 'i', 'n', 'f'),
        spells(INFE@, 'i', 'n', 'f', 'e'),
        spells(ILOC@, 'i', 'l', 'o', 'c'),
        spells(IPRP@, 'i', 'p', 'r', 'p'),
        spells(IPCO@, 'i', 'p', 'c', 'o'),
        spells(IPMA@, 'i', 'p', 'm', 'a'),
        spells(IREF@, 'i', 'r', 'e', 'f'),
        spells(HDLR@, 'h', 'd', 'l', 'r'),
        spells(DINF@, 'd', 'i', 'n', 'f'),
        spells(GRPL@, 'g', 'r', 'p', 'l'),
        spells(ALTR@, 'a', 'l', 't', 'r'),
        spells(IROT@, 'i', 'r', 'o', 't'),
        spells(ISPE@, 'i', 's', 'p', 'e'),
        spells(CLLI@, 'c', 'l', 'l', 'i'),
        spells(GRID@, 'g', 'r', 'i', 'd'),
        spells(COLR@, 'c', 'o', 'l', 'r'),
        spells(HVCC@, 'h', 'v', 'c', 'C'),
        spells(AUXC@, 'a', 'u', 'x', 'C'),
        spells(MOOV@, 'm', 'o', 'o', 'v'),
        spells(MVHD@, 'm', 'v', 'h', 'd'),
        spells(TRAK@, 't', 'r', 'a', 'k'),
        spells(TKHD@, 't', 'k', 'h', 'd'),
        spells(MDIA@, 'm', 'd', 'i', 'a'),
        spells(MDHD@, 'm', 'd', 'h', 'd'),
        spells(MINF@, 'm', 'i', 'n', 'f'),
        spells(STBL@, 's', 't', 'b', 'l'),
        spells(STTS@, 's', 't', 't', 's'),
        spells(CTTS@, 'c', 't', 't', 's'),
        spells(STSD@, 's', 't', 's', 'd'),
        spells(STSC@, 's', 't', 's', 'c'),
        spells(STSZ@, 's', 't', 's', 'z'),
        spells(STCO@, 's', 't', 'c', 'o'),
        spells(CO64@, 'c', 'o', '6', '4'),
        spells(KEYS@, 'k', 'e', 'y', 's'),
        spells(ILST@, 'i', 'l', 's', 't'),
        spells(DATA@, 'd', 'a', 't', 'a'),
        spells(FREE@, 'f', 'r', 'e', 'e'),
        spells(EDTS@, 'e', 'd', 't', 's'),
        spells(ELST@, 'e', 'l', 's', 't'),
        spells(GMHD@, 'g', 'm', 'h', 'd'),
        spells(GMIN@, 'g', 'm', 'i', 'n'),
        spells(DREF@, 'd', 'r', 'e', 'f'),
        spells(ALIS@, 'a', 'l', 'i', 's'),
        spells(TREF@, 't', 'r', 'e', 'f'),
        spells(CDSC@, 'c', 'd', 's', 'c'),
        spells(MEBX@, 'm', 'e', 'b', 'x'),
        spells(KEYD@, 'k', 'e', 'y', 'd'),
        spells(DTYP@, 'd', 't', 'y', 'p'),
        spells(MDTA@, 'm', 'd', 't', 'a'),
{
}

// ---------------------------------------------------------------------------
// Notes
// ---------------------------------------------------------------------------

/// A note of one entry begins with its name and its byte order. Its only entry has the tag 17, is a
/// text of as many bytes as it has, and stands behind the entry and the end of the directory.
pub proof fn notes_have_their_bytes(value: Seq<u8>, i: int)
    requires
        value.len() <= u32::MAX,
        0 <= i < value.len(),
    ensures
        ({
            let n = note_of(value);
            &&& n.len() == 32 + value.len()
            &&& n.take(12) == seq![0x41u8, 0x70, 0x70, 0x6c, 0x65, 0x20, 0x69, 0x4f, 0x53, 0, 0, 1]
            &&& n[12] == 0x4d && n[13] == 0x4d
            &&& be16(n, 14) == 1
            &&& be16(n, 16) == 17
            &&& be16(n, 18) == 2
            &&& be32(n, 20) == value.len()
            &&& be32(n, 24) == 32
            &&& be32(n, 28) == 0
            &&& n[32 + i] == value[i]
        }),
{
    let n = note_of(value);
    assert(n.subrange(14, 16) =~= enc16(1));
    integers_of_16_bits_read_back(n, 14, 1);
    assert(n.subrange(16, 18) =~= enc16(17));
    integers_of_16_bits_read_back(n, 16, 17);
    assert(n.subrange(18, 20) =~= enc16(2));
    integers_of_16_bits_read_back(n, 18, 2);
    assert(n.subrange(20, 24) =~= enc32(value.len() as int));
    integers_of_32_bits_read_back(n, 20, value.len() as int);
    assert(n.subrange(24, 28) =~= enc32(32));
    integers_of_32_bits_read_back(n, 24, 32);
    assert(n.subrange(28, 32) =~= enc32(0));
    integers_of_32_bits_read_back(n, 28, 0);
    assert(n.take(12) =~= seq![0x41u8, 0x70, 0x70, 0x6c, 0x65, 0x20, 0x69, 0x4f, 0x53, 0, 0, 1]);
}

/// An identifier is refused just where its upper-case form is empty, is not all ASCII, or holds a zero.
pub proof fn notes_are_made_of_ascii_identifiers(id: Seq<char>)
    ensures
        apple_note(id) is Ok <==> uppercase_text(id).len() > 0 && is_ascii_chars(uppercase_text(id)) && !encode_utf8(
            uppercase_text(id),
        ).contains(0u8),
        apple_note(id) matches Ok(n) ==> n == note_of(encode_utf8(uppercase_text(id)) + seq![0u8]),
{
    assert(encode_utf8(uppercase_text(id)).push(0u8) =~= encode_utf8(uppercase_text(id)) + seq![0u8]);
}

// ---------------------------------------------------------------------------
// Identifiers
// ---------------------------------------------------------------------------

/// The value of a hexadecimal digit in upper case.
pub open spec fn hex_value(c: char) -> int {
    if '0' <= c && c <= '9' {
        c as int - 0x30
    } else {
        c as int - 0x41 + 10
    }
}

/// Where the digits of byte `k` of an identifier stand: behind two for each byte before and the hyphens
/// behind bytes 3, 5, 7 and 9.
pub open spec fn digits_place(k: int) -> int {
    2 * k + (if k >= 4 {
        1int
    } else {
        0
    }) + (if k >= 6 {
        1int
    } else {
        0
    }) + (if k >= 8 {
        1int
    } else {
        0
    }) + (if k >= 10 {
        1int
    } else {
        0
    })
}

/// An identifier spells its bytes in hexadecimal, eight, four, four, four and twelve digits, with hyphens
/// between.
pub proof fn identifiers_spell_their_bytes(b: Seq<u8>, k: int)
    requires
        b.len() == 16,
        0 <= k < 16,
    ensures
        ({
            let t = uuid_text(b, 16);
            &&& t.len() == 36
            &&& t[8] == '-' && t[13] == '-' && t[18] == '-' && t[23] == '-'
            &&& 16 * hex_value(t[digits_place(k)]) + hex_value(t[digits_place(k) + 1]) == b[k]
        }),
{
    lemma_spelled(b, 16, k);
}

proof fn lemma_spelled(b: Seq<u8>, n: nat, k: int)
    requires
        b.len() == 16,
        n <= 16,
        0 <= k,
    ensures
        ({
            let t = uuid_text(b, n);
            &&& n > 0 ==> t.len() == digits_place(n - 1) + 2
            &&& n == 0 ==> t.len() == 0
            &&& n > 4 ==> t[8] == '-'
            &&& n > 6 ==> t[13] == '-'
            &&& n > 8 ==> t[18] == '-'
            &&& n > 10 ==> t[23] == '-'
            &&& k < n ==> 16 * hex_value(t[digits_place(k)]) + hex_value(t[digits_place(k) + 1]) == b[k]
        }),
    decreases n,
{
    if n > 0 {
        lemma_spelled(b, (n - 1) as nat, k);
        lemma_hex_digit(b[n - 1] as int / 16);
        lemma_hex_digit(b[n - 1] as int % 16);
    }
}

proof fn lemma_hex_digit(d: int)
    requires
        0 <= d < 16,
    ensures
        hex_value(hex_upper(d)) == d,
{
}

/// The bytes of an identifier mix those of the time and of the process with their places, which two mixes
/// would undo; but the version of a random identifier and its variant stand in bytes 6 and 8.
pub proof fn identifiers_mix_time_and_process(time: Seq<u8>, process: Seq<u8>, i: int)
    requires
        time.len() == 16,
        process.len() == 4,
        0 <= i < 16,
    ensures
        ({
            let b = uuid_bytes(time, process)[i];
            let mixed = time[i] ^ process[i % 4] ^ ((109 * i) % 256) as u8;
            &&& i != 6 && i != 8 ==> b == mixed
            &&& i == 6 ==> b / 16 == 4 && b % 16 == mixed % 16
            &&& i == 8 ==> b / 64 == 2 && b % 64 == mixed % 64
        }),
{
    let mixed: u8 = time[i] ^ process[i % 4] ^ ((109 * i) % 256) as u8;
    assert(((mixed & 0x0f) | 0x40) / 16 == 4 && ((mixed & 0x0f) | 0x40) % 16 == mixed % 16 && ((mixed & 0x3f)
        | 0x80) / 64 == 2 && ((mixed & 0x3f) | 0x80) % 64 == mixed % 64) by (bit_vector);
    assert(i * 0x6d == 109 * i);
}

} // verus!
