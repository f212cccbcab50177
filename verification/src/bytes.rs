//! Byte sequences: fixed-width integers, copying, comparing and searching.

use vstd::prelude::*;

verus! {

/// The value of the big-endian 16-bit integer at `p`.
pub open spec fn be16(s: Seq<u8>, p: int) -> int {
    s[p] as int * 0x100 + s[p + 1] as int
}

/// The value of the big-endian 32-bit integer at `p`.
pub open spec fn be32(s: Seq<u8>, p: int) -> int {
    s[p] as int * 0x100_0000 + s[p + 1] as int * 0x1_0000 + s[p + 2] as int * 0x100 + s[p + 3] as int
}

/// The value of the big-endian 64-bit integer at `p`.
pub open spec fn be64(s: Seq<u8>, p: int) -> int {
    be32(s, p) * 0x1_0000_0000 + be32(s, p + 4)
}

/// The value of the little-endian 16-bit integer at `p`.
pub open spec fn le16(s: Seq<u8>, p: int) -> int {
    s[p + 1] as int * 0x100 + s[p] as int
}

/// The value of the little-endian 32-bit integer at `p`.
pub open spec fn le32(s: Seq<u8>, p: int) -> int {
    s[p + 3] as int * 0x100_0000 + s[p + 2] as int * 0x1_0000 + s[p + 1] as int * 0x100 + s[p] as int
}

/// A 16-bit integer at `p` in the byte order of the surrounding structure.
pub open spec fn int16(s: Seq<u8>, p: int, little: bool) -> int {
    if little {
        le16(s, p)
    } else {
        be16(s, p)
    }
}

/// A 32-bit integer at `p` in the byte order of the surrounding structure.
pub open spec fn int32(s: Seq<u8>, p: int, little: bool) -> int {
    if little {
        le32(s, p)
    } else {
        be32(s, p)
    }
}

/// The low 16 bits of `v`, most significant byte first.
pub open spec fn enc16(v: int) -> Seq<u8> {
    seq![((v / 0x100) % 0x100) as u8, (v % 0x100) as u8]
}

/// The low 32 bits of `v`, most significant byte first.
pub open spec fn enc32(v: int) -> Seq<u8> {
    seq![
        ((v / 0x100_0000) % 0x100) as u8,
        ((v / 0x1_0000) % 0x100) as u8,
        ((v / 0x100) % 0x100) as u8,
        (v % 0x100) as u8,
    ]
}

/// The low 64 bits of `v`, most significant byte first.
pub open spec fn enc64(v: int) -> Seq<u8> {
    enc32(v / 0x1_0000_0000) + enc32(v % 0x1_0000_0000)
}

/// The low 16 bits of `v`, least significant byte first.
pub open spec fn enc16_le(v: int) -> Seq<u8> {
    seq![(v % 0x100) as u8, ((v / 0x100) % 0x100) as u8]
}

/// The low 32 bits of `v`, least significant byte first.
pub open spec fn enc32_le(v: int) -> Seq<u8> {
    seq![
        (v % 0x100) as u8,
        ((v / 0x100) % 0x100) as u8,
        ((v / 0x1_0000) % 0x100) as u8,
        ((v / 0x100_0000) % 0x100) as u8,
    ]
}

/// The low 16 bits of `v` in the given byte order.
pub open spec fn put16(v: int, little: bool) -> Seq<u8> {
    if little {
        enc16_le(v)
    } else {
        enc16(v)
    }
}

/// The low 32 bits of `v` in the given byte order.
pub open spec fn put32(v: int, little: bool) -> Seq<u8> {
    if little {
        enc32_le(v)
    } else {
        enc32(v)
    }
}

/// The low 24 bits of `v`, most significant byte first.
pub open spec fn enc24(v: int) -> Seq<u8> {
    seq![((v / 0x1_0000) % 0x100) as u8, ((v / 0x100) % 0x100) as u8, (v % 0x100) as u8]
}

/// `n` zero bytes.
pub open spec fn zeros(n: nat) -> Seq<u8> {
    Seq::new(n, |i: int| 0u8)
}

/// How many zero bytes bring `len` to a multiple of four.
pub open spec fn pad4(len: int) -> int {
    (4 - len % 4) % 4
}

/// The view of optional bytes.
pub open spec fn opt_bytes(b: Option<Vec<u8>>) -> Option<Seq<u8>> {
    match b {
        Some(v) => Some(v@),
        None => None,
    }
}

/// `s` with the bytes from `at` on overwritten by `b`.
pub open spec fn overwritten(s: Seq<u8>, at: int, b: Seq<u8>) -> Seq<u8> {
    Seq::new(
        s.len(),
        |i: int|
            if at <= i < at + b.len() {
                b[i - at]
            } else {
                s[i]
            },
    )
}

/// Whether `needle` stands in `s` at `i`.
pub open spec fn occurs_at(s: Seq<u8>, needle: Seq<u8>, i: int) -> bool {
    &&& 0 <= i
    &&& i + needle.len() <= s.len()
    &&& s.subrange(i, i + needle.len()) == needle
}

/// The first position from `from` on at which `needle` stands in `s`.
pub open spec fn find_from(s: Seq<u8>, needle: Seq<u8>, from: int) -> Option<int>
    decreases s.len() + 1 - from,
{
    if from + needle.len() > s.len() {
        None
    } else if occurs_at(s, needle, from) {
        Some(from)
    } else {
        find_from(s, needle, from + 1)
    }
}

/// Whether `needle` stands anywhere in `s`.
pub open spec fn contains_bytes(s: Seq<u8>, needle: Seq<u8>) -> bool {
    exists|i: int| #[trigger] occurs_at(s, needle, i)
}

/// Whether `s` begins with `prefix`.
pub open spec fn starts_with(s: Seq<u8>, prefix: Seq<u8>) -> bool {
    occurs_at(s, prefix, 0)
}

/// A byte of `v` does not depend on what stands above it.
proof fn lemma_byte_of_sum(low: int, high: int)
    ensures
        (low + high * 0x1_0000) % 0x100 == low % 0x100,
        ((low + high * 0x1_0000) / 0x100) % 0x100 == (low / 0x100) % 0x100,
{
    let v = low + high * 0x1_0000;
    assert(v / 0x100 == low / 0x100 + high * 0x100);
    assert(v % 0x100 == low % 0x100);
    assert((low / 0x100 + high * 0x100) % 0x100 == (low / 0x100) % 0x100);
}

proof fn lemma_byte_of_wide_sum(low: int, high: int)
    ensures
        (low + high * 0x1_0000_0000) % 0x100 == low % 0x100,
        ((low + high * 0x1_0000_0000) / 0x100) % 0x100 == (low / 0x100) % 0x100,
        ((low + high * 0x1_0000_0000) / 0x1_0000) % 0x100 == (low / 0x1_0000) % 0x100,
        ((low + high * 0x1_0000_0000) / 0x100_0000) % 0x100 == (low / 0x100_0000) % 0x100,
{
    let v = low + high * 0x1_0000_0000;
    assert(v % 0x100 == low % 0x100);
    assert(v / 0x100 == low / 0x100 + high * 0x100_0000);
    assert((low / 0x100 + high * 0x100_0000) % 0x100 == (low / 0x100) % 0x100);
    assert(v / 0x1_0000 == low / 0x1_0000 + high * 0x1_0000);
    assert((low / 0x1_0000 + high * 0x1_0000) % 0x100 == (low / 0x1_0000) % 0x100);
    assert(v / 0x100_0000 == low / 0x100_0000 + high * 0x100);
    assert((low / 0x100_0000 + high * 0x100) % 0x100 == (low / 0x100_0000) % 0x100);
}

/// Only the low 16 bits of a value are written.
pub proof fn lemma_enc16_low_bits(v: int)
    ensures
        enc16(v % 0x1_0000) == enc16(v),
{
    lemma_byte_of_sum(v % 0x1_0000, v / 0x1_0000);
    assert(v % 0x1_0000 + (v / 0x1_0000) * 0x1_0000 == v);
    assert(enc16(v % 0x1_0000) =~= enc16(v));
}

/// Only the low 32 bits of a value are written.
pub proof fn lemma_enc32_low_bits(v: int)
    ensures
        enc32(v % 0x1_0000_0000) == enc32(v),
        enc32(v + 0x1_0000_0000) == enc32(v),
{
    lemma_byte_of_wide_sum(v % 0x1_0000_0000, v / 0x1_0000_0000);
    assert(v % 0x1_0000_0000 + (v / 0x1_0000_0000) * 0x1_0000_0000 == v);
    assert(enc32(v % 0x1_0000_0000) =~= enc32(v));
    lemma_byte_of_wide_sum(v, 1);
    assert(enc32(v + 0x1_0000_0000) =~= enc32(v));
}

/// Append `s` to `out`.
pub fn append(out: &mut Vec<u8>, s: &[u8])
    ensures
        final(out)@ == old(out)@ + s@,
{
    out.extend_from_slice(s);
    assert(out@ =~= old(out)@ + s@);
}

/// Append `n` zero bytes to `out`.
pub fn append_zeros(out: &mut Vec<u8>, n: usize)
    ensures
        final(out)@ == old(out)@ + zeros(n as nat),
{
    let mut i: usize = 0;
    while i < n
        invariant
            i <= n,
            out@ == old(out)@ + zeros(i as nat),
        decreases n - i,
    {
        out.push(0u8);
        i = i + 1;
        assert(out@ =~= old(out)@ + zeros(i as nat));
    }
}

/// A copy of `data[start..end]`.
pub fn copy_range(data: &[u8], start: usize, end: usize) -> (r: Vec<u8>)
    requires
        start <= end <= data@.len(),
    ensures
        r@ == data@.subrange(start as int, end as int),
{
    let mut out: Vec<u8> = Vec::new();
    append(&mut out, vstd::slice::slice_subrange(data, start, end));
    assert(out@ =~= data@.subrange(start as int, end as int));
    out
}

/// Append the low 16 bits, most significant byte first.
pub fn push16(out: &mut Vec<u8>, v: u16)
    ensures
        final(out)@ == old(out)@ + enc16(v as int),
{
    out.push((v / 0x100) as u8);
    out.push((v % 0x100) as u8);
    assert(out@ =~= old(out)@ + enc16(v as int));
}

/// Append a 32-bit integer, most significant byte first.
pub fn push32(out: &mut Vec<u8>, v: u32)
    ensures
        final(out)@ == old(out)@ + enc32(v as int),
{
    out.push((v / 0x100_0000) as u8);
    out.push(((v / 0x1_0000) % 0x100) as u8);
    out.push(((v / 0x100) % 0x100) as u8);
    out.push((v % 0x100) as u8);
    assert(out@ =~= old(out)@ + enc32(v as int));
}

/// Append the low 16 bits of a wider integer.
pub fn push16_of(out: &mut Vec<u8>, v: u64)
    ensures
        final(out)@ == old(out)@ + enc16(v as int),
{
    proof {
        lemma_enc16_low_bits(v as int);
    }
    push16(out, (v % 0x1_0000) as u16);
}

/// Append the low 32 bits of a wider integer.
pub fn push32_of(out: &mut Vec<u8>, v: u64)
    ensures
        final(out)@ == old(out)@ + enc32(v as int),
{
    proof {
        lemma_enc32_low_bits(v as int);
    }
    push32(out, (v % 0x1_0000_0000) as u32);
}

/// Reducing a part of a sum first does not change the remainder.
pub proof fn lemma_mod_part(a: int, b: int)
    ensures
        (a % 0x1_0000_0000 + b) % 0x1_0000_0000 == (a + b) % 0x1_0000_0000,
{
}

/// Append the low 32 bits of `len + extra`, most significant byte first.
pub fn push32_sum(out: &mut Vec<u8>, len: usize, extra: u32)
    ensures
        final(out)@ == old(out)@ + enc32(len + extra),
{
    proof {
        lemma_mod_part(len as int, extra as int);
        lemma_enc32_low_bits(len + extra);
    }
    let size: u64 = len as u64 % 0x1_0000_0000 + extra as u64;
    push32(out, (size % 0x1_0000_0000) as u32);
}

/// Append the low 32 bits of `a + b + extra`, most significant byte first.
pub fn push32_sum3(out: &mut Vec<u8>, a: usize, b: usize, extra: u32)
    ensures
        final(out)@ == old(out)@ + enc32(a + b + extra),
{
    proof {
        lemma_mod_part(a as int, (b as int) % 0x1_0000_0000 + extra);
        lemma_mod_part(b as int, a + extra as int);
        lemma_enc32_low_bits(a + b + extra);
    }
    let size: u64 = a as u64 % 0x1_0000_0000 + b as u64 % 0x1_0000_0000 + extra as u64;
    push32(out, (size % 0x1_0000_0000) as u32);
}

/// Append the low 24 bits of an integer.
pub fn push24(out: &mut Vec<u8>, v: u32)
    ensures
        final(out)@ == old(out)@ + enc24(v as int),
{
    out.push(((v / 0x1_0000) % 0x100) as u8);
    out.push(((v / 0x100) % 0x100) as u8);
    out.push((v % 0x100) as u8);
    assert(out@ =~= old(out)@ + enc24(v as int));
}

/// Append a 64-bit integer, most significant byte first.
pub fn push64(out: &mut Vec<u8>, v: u64)
    ensures
        final(out)@ == old(out)@ + enc64(v as int),
{
    push32(out, (v / 0x1_0000_0000) as u32);
    push32(out, (v % 0x1_0000_0000) as u32);
    assert(out@ =~= old(out)@ + enc64(v as int));
}

/// Only the low 64 bits of a value are written.
pub proof fn lemma_enc64_low_bits(v: int)
    ensures
        enc64(v + 0x1_0000_0000_0000_0000) == enc64(v),
{
    let w = v + 0x1_0000_0000_0000_0000;
    assert(w / 0x1_0000_0000 == v / 0x1_0000_0000 + 0x1_0000_0000);
    assert(w % 0x1_0000_0000 == v % 0x1_0000_0000);
    lemma_enc32_low_bits(v / 0x1_0000_0000);
}

/// Append the low 64 bits of `len + extra`, most significant byte first.
pub fn push64_sum(out: &mut Vec<u8>, len: usize, extra: u32)
    ensures
        final(out)@ == old(out)@ + enc64(len + extra),
{
    let room: u64 = u64::MAX - extra as u64;
    if len as u64 <= room {
        push64(out, len as u64 + extra as u64);
    } else {
        let v: u64 = len as u64 - room - 1;
        proof {
            lemma_enc64_low_bits(v as int);
        }
        push64(out, v);
    }
}

/// Append a 16-bit integer in the given byte order.
pub fn push16_ordered(out: &mut Vec<u8>, v: u16, little: bool)
    ensures
        final(out)@ == old(out)@ + put16(v as int, little),
{
    if little {
        out.push((v % 0x100) as u8);
        out.push((v / 0x100) as u8);
        assert(out@ =~= old(out)@ + enc16_le(v as int));
    } else {
        push16(out, v);
    }
}

/// Append a 32-bit integer in the given byte order.
pub fn push32_ordered(out: &mut Vec<u8>, v: u32, little: bool)
    ensures
        final(out)@ == old(out)@ + put32(v as int, little),
{
    if little {
        out.push((v % 0x100) as u8);
        out.push(((v / 0x100) % 0x100) as u8);
        out.push(((v / 0x1_0000) % 0x100) as u8);
        out.push((v / 0x100_0000) as u8);
        assert(out@ =~= old(out)@ + enc32_le(v as int));
    } else {
        push32(out, v);
    }
}

/// Append the low 32 bits of a wider integer in the given byte order.
pub fn push32_low(out: &mut Vec<u8>, v: u64, little: bool)
    ensures
        final(out)@ == old(out)@ + put32(v as int, little),
{
    proof {
        lemma_put32_low_bits(v as int, little);
    }
    push32_ordered(out, (v % 0x1_0000_0000) as u32, little);
}

/// Only the low 32 bits of a value are written.
pub proof fn lemma_put32_low_bits(v: int, little: bool)
    ensures
        put32(v % 0x1_0000_0000, little) == put32(v, little),
{
    lemma_enc32_low_bits(v);
    let a = enc32(v % 0x1_0000_0000);
    let b = enc32(v);
    assert(a[0] == b[0] && a[1] == b[1] && a[2] == b[2] && a[3] == b[3]);
    assert(enc32_le(v % 0x1_0000_0000) =~= enc32_le(v));
}

/// Append the low 16 bits of a wider integer in the given byte order.
pub fn push16_of_ordered(out: &mut Vec<u8>, v: u64, little: bool)
    ensures
        final(out)@ == old(out)@ + put16(v as int, little),
{
    proof {
        lemma_enc16_low_bits(v as int);
        let a = enc16(v as int % 0x1_0000);
        let b = enc16(v as int);
        assert(a[0] == b[0] && a[1] == b[1]);
        assert(enc16_le(v as int % 0x1_0000) =~= enc16_le(v as int));
    }
    push16_ordered(out, (v % 0x1_0000) as u16, little);
}

/// Read a 16-bit integer in the given byte order.
pub fn read16(data: &[u8], p: usize, little: bool) -> (r: u16)
    requires
        p + 2 <= data.len(),
    ensures
        r == int16(data@, p as int, little),
{
    if little {
        data[p + 1] as u16 * 0x100 + data[p] as u16
    } else {
        data[p] as u16 * 0x100 + data[p + 1] as u16
    }
}

/// Read a 32-bit integer in the given byte order.
pub fn read32(data: &[u8], p: usize, little: bool) -> (r: u32)
    requires
        p + 4 <= data.len(),
    ensures
        r == int32(data@, p as int, little),
{
    if little {
        data[p + 3] as u32 * 0x100_0000 + data[p + 2] as u32 * 0x1_0000 + data[p + 1] as u32 * 0x100
            + data[p] as u32
    } else {
        data[p] as u32 * 0x100_0000 + data[p + 1] as u32 * 0x1_0000 + data[p + 2] as u32 * 0x100
            + data[p + 3] as u32
    }
}

/// Whether two byte strings are equal.
pub fn bytes_eq(a: &[u8], b: &[u8]) -> (r: bool)
    ensures
        r == (a@ == b@),
{
    if a.len() != b.len() {
        return false;
    }
    let mut i: usize = 0;
    while i < a.len()
        invariant
            i <= a@.len(),
            a@.len() == b@.len(),
            forall|j: int| 0 <= j < i ==> a@[j] == b@[j],
        decreases a@.len() - i,
    {
        if a[i] != b[i] {
            assert(a@[i as int] != b@[i as int]);
            return false;
        }
        i = i + 1;
    }
    assert(a@ =~= b@);
    true
}

/// Whether `needle` stands in `data` at `at`.
pub fn matches_at(data: &[u8], needle: &[u8], at: usize) -> (r: bool)
    ensures
        r == occurs_at(data@, needle@, at as int),
{
    if at > data.len() || needle.len() > data.len() - at {
        return false;
    }
    bytes_eq(vstd::slice::slice_subrange(data, at, at + needle.len()), needle)
}

/// The first position from `from` on at which `needle` stands in `data`.
pub fn find_bytes(data: &[u8], needle: &[u8], from: usize) -> (r: Option<usize>)
    ensures
        match r {
            Some(i) => find_from(data@, needle@, from as int) == Some(i as int),
            None => find_from(data@, needle@, from as int) is None,
        },
        r matches Some(i) ==> from <= i && occurs_at(data@, needle@, i as int),
{
    let mut at: usize = from;
    while at <= data.len() && needle.len() <= data.len() - at
        invariant
            from <= at,
            from == at || at <= data@.len(),
            find_from(data@, needle@, from as int) == find_from(data@, needle@, at as int),
        decreases data@.len() + 1 - at,
    {
        if matches_at(data, needle, at) {
            return Some(at);
        }
        if at == data.len() {
            assert(find_from(data@, needle@, at + 1) is None);
            return None;
        }
        at = at + 1;
    }
    None
}

/// A found position is where the needle stands, and one that stands is found.
pub proof fn lemma_find_from_some(s: Seq<u8>, needle: Seq<u8>, from: int)
    requires
        0 <= from,
    ensures
        find_from(s, needle, from) matches Some(i) ==> from <= i && occurs_at(s, needle, i)
            && forall|j: int| from <= j < i ==> !#[trigger] occurs_at(s, needle, j),
        find_from(s, needle, from) is None ==> forall|j: int|
            from <= j ==> !#[trigger] occurs_at(s, needle, j),
    decreases s.len() + 1 - from,
{
    if from + needle.len() <= s.len() && !occurs_at(s, needle, from) {
        lemma_find_from_some(s, needle, from + 1);
    }
}

/// Whether `needle` stands anywhere in `data`.
pub fn has_bytes(data: &[u8], needle: &[u8]) -> (r: bool)
    ensures
        r == contains_bytes(data@, needle@),
{
    proof {
        lemma_find_from_some(data@, needle@, 0);
    }
    match find_bytes(data, needle, 0) {
        Some(i) => {
            assert(occurs_at(data@, needle@, i as int));
            true
        },
        None => {
            assert forall|i: int| !#[trigger] occurs_at(data@, needle@, i) by {
                if i >= 0 {
                }
            }
            false
        },
    }
}

/// The last position up to `at` at which `needle` stands in `s`.
pub open spec fn rfind_from(s: Seq<u8>, needle: Seq<u8>, at: int) -> Option<int>
    decreases at + 1,
{
    if at < 0 {
        None
    } else if occurs_at(s, needle, at) {
        Some(at)
    } else {
        rfind_from(s, needle, at - 1)
    }
}

/// The last position at which `needle` stands in `s`.
pub open spec fn rfind(s: Seq<u8>, needle: Seq<u8>) -> Option<int> {
    rfind_from(s, needle, s.len() - needle.len())
}

/// The last position at which `needle` stands in `data`.
pub fn rfind_bytes(data: &[u8], needle: &[u8]) -> (r: Option<usize>)
    ensures
        match r {
            Some(i) => rfind(data@, needle@) == Some(i as int) && occurs_at(data@, needle@, i as int),
            None => rfind(data@, needle@) is None,
        },
{
    if needle.len() > data.len() {
        return None;
    }
    let mut at: usize = data.len() - needle.len();
    loop
        invariant
            at + needle@.len() <= data@.len(),
            rfind(data@, needle@) == rfind_from(data@, needle@, at as int),
        decreases at,
    {
        if matches_at(data, needle, at) {
            return Some(at);
        }
        if at == 0 {
            assert(rfind_from(data@, needle@, -1) is None);
            return None;
        }
        at = at - 1;
    }
}

/// The first position from `p` on of a byte that `stop` accepts, or where the
/// bytes end.
pub open spec fn until(s: Seq<u8>, p: int, stop: spec_fn(u8) -> bool) -> int
    decreases s.len() - p,
{
    if p < s.len() && !stop(s[p]) {
        until(s, p + 1, stop)
    } else {
        p
    }
}

/// Being a given byte.
pub open spec fn is_byte(b: u8) -> spec_fn(u8) -> bool {
    |x: u8| x == b
}

/// The first position from `from` on of a given byte, or where the bytes end.
pub fn find_byte(data: &[u8], from: usize, b: u8) -> (r: usize)
    requires
        from <= data.len(),
    ensures
        r == until(data@, from as int, is_byte(b)),
        from <= r <= data@.len(),
        r < data@.len() ==> data@[r as int] == b,
        forall|i: int| from <= i < r ==> data@[i] != b,
{
    let mut p: usize = from;
    while p < data.len() && data[p] != b
        invariant
            from <= p <= data@.len(),
            until(data@, from as int, is_byte(b)) == until(data@, p as int, is_byte(b)),
            forall|i: int| from <= i < p ==> data@[i] != b,
        decreases data@.len() - p,
    {
        p = p + 1;
    }
    p
}

/// Whether a byte is ASCII whitespace.
pub open spec fn is_space(b: u8) -> bool {
    b == 0x20 || b == 0x09 || b == 0x0a || b == 0x0c || b == 0x0d
}

/// Whether a byte is ASCII whitespace.
pub fn space(b: u8) -> (r: bool)
    ensures
        r == is_space(b),
{
    b == 0x20 || b == 0x09 || b == 0x0a || b == 0x0c || b == 0x0d
}

/// Not being ASCII whitespace.
pub open spec fn not_space() -> spec_fn(u8) -> bool {
    |x: u8| !is_space(x)
}

/// The first position from `from` on of a byte that is not ASCII whitespace, or
/// where the bytes end.
pub fn skip_space(data: &[u8], from: usize) -> (r: usize)
    requires
        from <= data.len(),
    ensures
        r == until(data@, from as int, not_space()),
        from <= r <= data@.len(),
{
    let mut p: usize = from;
    while p < data.len() && space(data[p])
        invariant
            from <= p <= data@.len(),
            until(data@, from as int, not_space()) == until(data@, p as int, not_space()),
        decreases data@.len() - p,
    {
        p = p + 1;
    }
    p
}

/// Overwrite the bytes from `p` on by `b`.
pub fn overwrite(data: &mut [u8], p: usize, b: &[u8])
    requires
        p + b@.len() <= old(data)@.len(),
    ensures
        final(data)@ == overwritten(old(data)@, p as int, b@),
{
    let mut i: usize = 0;
    let len: usize = data.len();
    assert(data@ =~= overwritten(old(data)@, p as int, b@.take(0)));
    while i < b.len()
        invariant
            i <= b@.len(),
            data@.len() == len,
            old(data)@.len() == len,
            p + b@.len() <= len,
            data@ == overwritten(old(data)@, p as int, b@.take(i as int)),
        decreases b@.len() - i,
    {
        data[p + i] = b[i];
        i = i + 1;
        assert(data@ =~= overwritten(old(data)@, p as int, b@.take(i as int)));
    }
    assert(b@.take(i as int) =~= b@);
}

/// A byte in ASCII lower case.
pub open spec fn lower(b: u8) -> int {
    if 0x41 <= b <= 0x5a {
        b + 0x20
    } else {
        b as int
    }
}

/// A byte in ASCII lower case.
pub fn lower_byte(b: u8) -> (r: u8)
    ensures
        r == lower(b),
{
    if 0x41 <= b && b <= 0x5a {
        b + 0x20
    } else {
        b
    }
}

/// Whether `needle` stands in `s` at `i`, whatever the case of ASCII letters.
pub open spec fn occurs_in_any_case(s: Seq<u8>, needle: Seq<u8>, i: int) -> bool {
    &&& 0 <= i
    &&& i + needle.len() <= s.len()
    &&& forall|k: int| 0 <= k < needle.len() ==> lower(#[trigger] needle[k]) == lower(s[i + k])
}

/// The first position from `from` on at which `needle` stands in `s`, whatever the case
/// of ASCII letters.
pub open spec fn find_in_any_case(s: Seq<u8>, needle: Seq<u8>, from: int) -> Option<int>
    decreases s.len() + 1 - from,
{
    if from + needle.len() > s.len() {
        None
    } else if occurs_in_any_case(s, needle, from) {
        Some(from)
    } else {
        find_in_any_case(s, needle, from + 1)
    }
}

/// Whether `needle` stands in `data` at `at`, whatever the case of ASCII letters.
pub fn matches_in_any_case(data: &[u8], needle: &[u8], at: usize) -> (r: bool)
    ensures
        r == occurs_in_any_case(data@, needle@, at as int),
{
    if at > data.len() || needle.len() > data.len() - at {
        return false;
    }
    let mut k: usize = 0;
    while k < needle.len()
        invariant
            k <= needle@.len(),
            at + needle@.len() <= data.len(),
            forall|j: int| 0 <= j < k ==> lower(#[trigger] needle@[j]) == lower(data@[at + j]),
        decreases needle@.len() - k,
    {
        if lower_byte(needle[k]) != lower_byte(data[at + k]) {
            assert(lower(needle@[k as int]) != lower(data@[at + k]));
            return false;
        }
        k = k + 1;
    }
    true
}

/// The first position at which `needle` stands in `data`, whatever the case of ASCII
/// letters.
pub fn find_bytes_in_any_case(data: &[u8], needle: &[u8]) -> (r: Option<usize>)
    ensures
        match r {
            Some(i) => find_in_any_case(data@, needle@, 0) == Some(i as int) && i + needle@.len()
                <= data@.len(),
            None => find_in_any_case(data@, needle@, 0) is None,
        },
{
    let mut at: usize = 0;
    while at <= data.len() && needle.len() <= data.len() - at
        invariant
            at <= data@.len(),
            find_in_any_case(data@, needle@, 0) == find_in_any_case(data@, needle@, at as int),
        decreases data@.len() + 1 - at,
    {
        if matches_in_any_case(data, needle, at) {
            return Some(at);
        }
        if at == data.len() {
            assert(find_in_any_case(data@, needle@, at + 1) is None);
            return None;
        }
        at = at + 1;
    }
    None
}

} // verus!
