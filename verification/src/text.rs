//! Text: comparing, joining and decoding strings.

use vstd::prelude::*;
use vstd::string::*;
use vstd::utf8::*;

verus! {

/// The text that four-character codes and other names in a file stand for:
/// the UTF-8 text, or four question marks where the bytes are not UTF-8.
pub open spec fn name_text(bytes: Seq<u8>) -> Seq<char> {
    if valid_utf8(bytes) {
        decode_utf8(bytes)
    } else {
        "????"@
    }
}

/// Decodes UTF-8 by `std::str::from_utf8`, which accepts exactly the valid
/// encodings and gives the characters that they encode.
#[verifier::external_body]
pub(crate) fn utf8_text(bytes: &[u8]) -> (r: Option<String>)
    ensures
        r is Some <==> valid_utf8(bytes@),
        r matches Some(s) ==> s@ == decode_utf8(bytes@),
{
    match std::str::from_utf8(bytes) {
        Ok(s) => Some(s.to_string()),
        Err(_) => None,
    }
}

/// The text that the bytes of a name stand for.
pub fn name_from_bytes(bytes: &[u8]) -> (r: String)
    ensures
        r@ == name_text(bytes@),
{
    match utf8_text(bytes) {
        Some(s) => s,
        None => "????".to_string(),
    }
}

/// Whether two strings hold the same characters.
pub fn same_text(a: &str, b: &str) -> (r: bool)
    ensures
        r == (a@ == b@),
{
    let r: bool = crate::bytes::bytes_eq(a.as_bytes(), b.as_bytes());
    proof {
        encode_utf8_decode_utf8(a@);
        encode_utf8_decode_utf8(b@);
    }
    r
}

/// One decimal digit.
pub open spec fn digit_text(d: int) -> Seq<char> {
    if d == 0 {
        "0"@
    } else if d == 1 {
        "1"@
    } else if d == 2 {
        "2"@
    } else if d == 3 {
        "3"@
    } else if d == 4 {
        "4"@
    } else if d == 5 {
        "5"@
    } else if d == 6 {
        "6"@
    } else if d == 7 {
        "7"@
    } else if d == 8 {
        "8"@
    } else {
        "9"@
    }
}

/// A natural number in decimal, without leading zeros.
pub open spec fn decimal_text(n: int) -> Seq<char>
    decreases n,
{
    if n < 10 {
        digit_text(n)
    } else {
        decimal_text(n / 10) + digit_text(n % 10)
    }
}

fn digit(d: u64) -> (r: String)
    requires
        d < 10,
    ensures
        r@ == digit_text(d as int),
{
    if d == 0 {
        "0".to_string()
    } else if d == 1 {
        "1".to_string()
    } else if d == 2 {
        "2".to_string()
    } else if d == 3 {
        "3".to_string()
    } else if d == 4 {
        "4".to_string()
    } else if d == 5 {
        "5".to_string()
    } else if d == 6 {
        "6".to_string()
    } else if d == 7 {
        "7".to_string()
    } else if d == 8 {
        "8".to_string()
    } else {
        "9".to_string()
    }
}

/// The decimal form of `n`.
pub fn decimal(n: u64) -> (r: String)
    ensures
        r@ == decimal_text(n as int),
    decreases n,
{
    if n < 10 {
        digit(n)
    } else {
        decimal(n / 10).concat(digit(n % 10).as_str())
    }
}

/// `a` followed by `b`.
pub fn join(a: &str, b: &str) -> (r: String)
    ensures
        r@ == a@ + b@,
{
    a.to_string().concat(b)
}

/// A natural number in decimal ASCII, without leading zeros.
pub open spec fn decimal_ascii(n: int) -> Seq<u8>
    decreases n,
{
    if n < 10 {
        seq![(0x30 + n) as u8]
    } else {
        decimal_ascii(n / 10).push((0x30 + n % 10) as u8)
    }
}

/// A natural number in decimal ASCII, with leading zeros up to `width` digits.
pub open spec fn padded_ascii(n: int, width: int) -> Seq<u8> {
    let digits = decimal_ascii(n);
    if digits.len() >= width {
        digits
    } else {
        Seq::new((width - digits.len()) as nat, |i: int| 0x30u8) + digits
    }
}

/// The decimal ASCII form of `n`.
pub fn decimal_bytes(n: u64) -> (r: Vec<u8>)
    ensures
        r@ == decimal_ascii(n as int),
        1 <= r@.len() <= 20,
    decreases n,
{
    proof {
        lemma_decimal_len(n as int, 20);
    }
    if n < 10 {
        let v: Vec<u8> = vec![(0x30 + n) as u8];
        assert(v@ =~= decimal_ascii(n as int));
        v
    } else {
        let mut v: Vec<u8> = decimal_bytes(n / 10);
        v.push((0x30 + n % 10) as u8);
        v
    }
}

/// The value of `k` decimal digits.
pub open spec fn pow10(k: nat) -> int
    decreases k,
{
    if k == 0 {
        1
    } else {
        10 * pow10((k - 1) as nat)
    }
}

proof fn lemma_decimal_len(n: int, k: nat)
    requires
        0 <= n <= u64::MAX,
        k == 20,
    ensures
        1 <= decimal_ascii(n).len() <= k,
{
    reveal_with_fuel(pow10, 21);
    lemma_decimal_len_pow(n, k);
}

proof fn lemma_decimal_len_pow(n: int, k: nat)
    requires
        0 <= n < pow10(k),
        k >= 1,
    ensures
        1 <= decimal_ascii(n).len() <= k,
    decreases k,
{
    if n >= 10 {
        if k == 1 {
            reveal_with_fuel(pow10, 2);
        } else {
            assert(n / 10 < pow10((k - 1) as nat));
            lemma_decimal_len_pow(n / 10, (k - 1) as nat);
        }
    }
}

/// The decimal ASCII form of `n`, with leading zeros up to `width` digits.
pub fn padded_decimal(n: u64, width: usize) -> (r: Vec<u8>)
    ensures
        r@ == padded_ascii(n as int, width as int),
        r@.len() == width || r@.len() <= 20,
{
    let digits: Vec<u8> = decimal_bytes(n);
    if digits.len() >= width {
        return digits;
    }
    let mut out: Vec<u8> = Vec::new();
    let fill: usize = width - digits.len();
    let mut i: usize = 0;
    while i < fill
        invariant
            i <= fill,
            out@ == Seq::new(i as nat, |j: int| 0x30u8),
        decreases fill - i,
    {
        out.push(0x30u8);
        i = i + 1;
        assert(out@ =~= Seq::new(i as nat, |j: int| 0x30u8));
    }
    crate::bytes::append(&mut out, digits.as_slice());
    out
}

/// The uppercase form of a text, by the Unicode mapping.
pub uninterp spec fn unicode_upper(s: Seq<char>) -> Seq<char>;

/// The uppercase form of an ASCII character.
pub open spec fn ascii_upper_char(c: char) -> char {
    if 'a' <= c && c <= 'z' {
        (c as u8 - 32) as u8 as char
    } else {
        c
    }
}

/// The uppercase form of an ASCII text.
pub open spec fn ascii_upper(s: Seq<char>) -> Seq<char> {
    Seq::new(s.len(), |i: int| ascii_upper_char(s[i]))
}

/// Converts text to upper case by `str::to_uppercase`, whose result depends on the
/// text alone; of ASCII text it changes the letters `a` to `z` and nothing else.
#[verifier::external_body]
fn to_unicode_upper(s: &str) -> (r: String)
    ensures
        r@ == unicode_upper(s@),
        is_ascii_chars(s@) ==> r@ == ascii_upper(s@),
{
    s.to_uppercase()
}

/// The uppercase form of a text: of ASCII text its letters in upper case.
pub open spec fn uppercase_text(s: Seq<char>) -> Seq<char> {
    if is_ascii_chars(s) {
        ascii_upper(s)
    } else {
        unicode_upper(s)
    }
}

/// Converts text to upper case.
pub fn to_upper(s: &str) -> (r: String)
    ensures
        r@ == uppercase_text(s@),
{
    to_unicode_upper(s)
}

/// The text that bytes stand for once invalid UTF-8 in them is replaced.
pub uninterp spec fn replaced_text(bytes: Seq<u8>) -> Seq<char>;

/// Decodes bytes by `String::from_utf8_lossy`, whose result depends on the bytes
/// alone; valid UTF-8 gives the characters that it encodes.
#[verifier::external_body]
fn replace_invalid(bytes: &[u8]) -> (r: String)
    ensures
        r@ == replaced_text(bytes@),
        valid_utf8(bytes@) ==> r@ == decode_utf8(bytes@),
{
    String::from_utf8_lossy(bytes).to_string()
}

/// The text that bytes stand for: the characters that they encode, or what is left once
/// invalid UTF-8 is replaced.
pub open spec fn lossy_text(bytes: Seq<u8>) -> Seq<char> {
    if valid_utf8(bytes) {
        decode_utf8(bytes)
    } else {
        replaced_text(bytes)
    }
}

/// Decodes bytes, with invalid UTF-8 replaced.
pub fn decode_lossy(bytes: &[u8]) -> (r: String)
    ensures
        r@ == lossy_text(bytes@),
{
    replace_invalid(bytes)
}

/// Whether a character has the Unicode property `White_Space`.
pub open spec fn is_white(c: char) -> bool {
    let n = c as u32;
    ||| 0x09 <= n <= 0x0d
    ||| n == 0x20
    ||| n == 0x85
    ||| n == 0xa0
    ||| n == 0x1680
    ||| 0x2000 <= n <= 0x200a
    ||| n == 0x2028
    ||| n == 0x2029
    ||| n == 0x202f
    ||| n == 0x205f
    ||| n == 0x3000
}

/// A text without the characters at its beginning that `p` accepts.
pub open spec fn trim_front(s: Seq<char>, p: spec_fn(char) -> bool) -> Seq<char>
    decreases s.len(),
{
    if s.len() > 0 && p(s[0]) {
        trim_front(s.drop_first(), p)
    } else {
        s
    }
}

/// A text without the characters at its end that `p` accepts.
pub open spec fn trim_back(s: Seq<char>, p: spec_fn(char) -> bool) -> Seq<char>
    decreases s.len(),
{
    if s.len() > 0 && p(s.last()) {
        trim_back(s.drop_last(), p)
    } else {
        s
    }
}

/// A text without the white space around it.
pub open spec fn trim_text(s: Seq<char>) -> Seq<char> {
    trim_back(trim_front(s, white()), white())
}

/// Being white space.
pub open spec fn white() -> spec_fn(char) -> bool {
    |c: char| is_white(c)
}

/// Whether a character has the Unicode property `White_Space`.
fn white_char(c: char) -> (r: bool)
    ensures
        r == is_white(c),
{
    let n: u32 = c as u32;
    (0x09 <= n && n <= 0x0d) || n == 0x20 || n == 0x85 || n == 0xa0 || n == 0x1680 || (0x2000 <= n
        && n <= 0x200a) || n == 0x2028 || n == 0x2029 || n == 0x202f || n == 0x205f || n == 0x3000
}

/// What is left of a text between the first and the last character that `p` does not accept.
proof fn lemma_trimmed(s: Seq<char>, p: spec_fn(char) -> bool, a: int, b: int)
    requires
        0 <= a <= b <= s.len(),
        a == b ==> forall|i: int| 0 <= i < s.len() ==> p(#[trigger] s[i]),
        a < b ==> !p(s[a]) && !p(s[b - 1]),
        a < b ==> forall|i: int| 0 <= i < a ==> p(#[trigger] s[i]),
        forall|i: int| b <= i < s.len() ==> p(#[trigger] s[i]),
    ensures
        trim_back(trim_front(s, p), p) == s.subrange(a, b),
    decreases s.len(),
{
    if s.len() > 0 && p(s[0]) {
        let rest = s.drop_first();
        if a < b {
            assert forall|i: int| 0 <= i < a - 1 implies p(#[trigger] rest[i]) by {
                assert(rest[i] == s[i + 1]);
            }
            assert forall|i: int| b - 1 <= i < rest.len() implies p(#[trigger] rest[i]) by {
                assert(rest[i] == s[i + 1]);
            }
            lemma_trimmed(rest, p, a - 1, b - 1);
            assert(rest.subrange(a - 1, b - 1) =~= s.subrange(a, b));
        } else {
            assert forall|i: int| 0 <= i < rest.len() implies p(#[trigger] rest[i]) by {
                assert(rest[i] == s[i + 1]);
            }
            lemma_trimmed(rest, p, 0, 0);
            assert(rest.subrange(0, 0) =~= s.subrange(a, b));
        }
    } else if s.len() > 0 {
        lemma_trimmed_back(s, p, b);
        assert(s.take(b) =~= s.subrange(a, b));
    } else {
        assert(s.subrange(a, b) =~= s);
    }
}

proof fn lemma_trimmed_back(s: Seq<char>, p: spec_fn(char) -> bool, b: int)
    requires
        0 < b <= s.len(),
        !p(s[b - 1]),
        forall|i: int| b <= i < s.len() ==> p(#[trigger] s[i]),
    ensures
        trim_back(s, p) == s.take(b),
    decreases s.len(),
{
    if b < s.len() {
        let rest = s.drop_last();
        assert(p(s.last()));
        assert forall|i: int| b <= i < rest.len() implies p(#[trigger] rest[i]) by {
            assert(rest[i] == s[i]);
        }
        lemma_trimmed_back(rest, p, b);
        assert(rest.take(b) =~= s.take(b));
    } else {
        assert(s.take(b) =~= s);
    }
}

/// A text without the white space around it, which goes by the Unicode property
/// `White_Space`.
pub fn trimmed(s: &str) -> (r: String)
    ensures
        r@ == trim_text(s@),
{
    let total: usize = s.unicode_len();
    let mut n: usize = 0;
    let mut a: usize = 0;
    let mut b: usize = 0;
    for c in it: s.chars()
        invariant
            it.seq() == s@,
            n == it.index(),
            total == s@.len(),
            a <= b <= n <= total,
            a == b ==> forall|i: int| 0 <= i < n ==> is_white(#[trigger] s@[i]),
            a < b ==> !is_white(s@[a as int]) && !is_white(s@[b - 1]),
            a < b ==> forall|i: int| 0 <= i < a ==> is_white(#[trigger] s@[i]),
            forall|i: int| b <= i < n ==> is_white(#[trigger] s@[i]),
    {
        assert(c == s@[n as int]);
        if !white_char(c) {
            if a == b {
                a = n;
            }
            b = n + 1;
        }
        n = n + 1;
    }
    proof {
        lemma_trimmed(s@, white(), a as int, b as int);
    }
    s.substring_char(a, b).to_string()
}

/// A text without the zero characters around it.
pub open spec fn trim_zeros(s: Seq<char>) -> Seq<char> {
    trim_back(trim_front(s, zero()), zero())
}

/// Being the zero character.
pub open spec fn zero() -> spec_fn(char) -> bool {
    |c: char| c as u32 == 0
}

/// A text without the zero characters around it.
pub fn without_zeros(s: &str) -> (r: String)
    ensures
        r@ == trim_zeros(s@),
{
    let total: usize = s.unicode_len();
    let mut n: usize = 0;
    let mut a: usize = 0;
    let mut b: usize = 0;
    for c in it: s.chars()
        invariant
            it.seq() == s@,
            n == it.index(),
            total == s@.len(),
            a <= b <= n <= total,
            a == b ==> forall|i: int| 0 <= i < n ==> zero()(#[trigger] s@[i]),
            a < b ==> !zero()(s@[a as int]) && !zero()(s@[b - 1]),
            a < b ==> forall|i: int| 0 <= i < a ==> zero()(#[trigger] s@[i]),
            forall|i: int| b <= i < n ==> zero()(#[trigger] s@[i]),
    {
        assert(c == s@[n as int]);
        if c as u32 != 0 {
            if a == b {
                a = n;
            }
            b = n + 1;
        }
        n = n + 1;
    }
    proof {
        lemma_trimmed(s@, zero(), a as int, b as int);
    }
    s.substring_char(a, b).to_string()
}

/// The characters of ASCII bytes.
pub open spec fn ascii_text(b: Seq<u8>) -> Seq<char> {
    Seq::new(b.len(), |i: int| b[i] as char)
}

/// The text of ASCII bytes.
pub fn ascii_string(bytes: &[u8]) -> (r: String)
    requires
        forall|i: int| 0 <= i < bytes@.len() ==> #[trigger] bytes@[i] < 0x80,
    ensures
        r@ == ascii_text(bytes@),
{
    proof {
        let chars = ascii_text(bytes@);
        assert(is_ascii_chars(chars));
        is_ascii_chars_encode_utf8(chars);
        assert(encode_utf8(chars) =~= bytes@);
        encode_utf8_decode_utf8(chars);
        encode_utf8_valid_utf8(chars);
    }
    utf8_text(bytes).unwrap()
}

/// Text, where there is some.
pub open spec fn opt_string(t: Option<String>) -> Option<Seq<char>> {
    match t {
        Some(s) => Some(s@),
        None => None,
    }
}

/// A text with every `c` replaced by `with`.
pub open spec fn with_replaced(s: Seq<char>, c: char, with: Seq<char>) -> Seq<char>
    decreases s.len(),
{
    if s.len() == 0 {
        Seq::empty()
    } else {
        with_replaced(s.drop_last(), c, with) + if s.last() == c {
            with
        } else {
            seq![s.last()]
        }
    }
}

/// Text without a character stays where the character is replaced.
proof fn lemma_replaced_run(s: Seq<char>, c: char, with: Seq<char>, start: int, end: int)
    requires
        0 <= start <= end <= s.len(),
        forall|i: int| start <= i < end ==> #[trigger] s[i] != c,
    ensures
        with_replaced(s.take(end), c, with) == with_replaced(s.take(start), c, with) + s.subrange(
            start,
            end,
        ),
    decreases end - start,
{
    if start < end {
        lemma_replaced_run(s, c, with, start, end - 1);
        assert(s.take(end).drop_last() =~= s.take(end - 1));
        assert(s.subrange(start, end) =~= s.subrange(start, end - 1) + seq![s[end - 1]]);
        assert(with_replaced(s.take(start), c, with) + s.subrange(start, end) =~= with_replaced(
            s.take(start),
            c,
            with,
        ) + s.subrange(start, end - 1) + seq![s[end - 1]]);
    } else {
        assert(with_replaced(s.take(start), c, with) + s.subrange(start, end) =~= with_replaced(
            s.take(start),
            c,
            with,
        ));
    }
}

/// A text with every `c` replaced by `with`.
pub fn replace_char(s: &str, c: char, with: &str) -> (r: String)
    ensures
        r@ == with_replaced(s@, c, with@),
{
    let total: usize = s.unicode_len();
    let mut out: String = String::new();
    let mut start: usize = 0;
    let mut n: usize = 0;
    assert(s@.take(0) =~= Seq::empty());
    assert(out@ =~= with_replaced(s@.take(0), c, with@));
    for x in it: s.chars()
        invariant
            it.seq() == s@,
            n == it.index(),
            total == s@.len(),
            start <= n <= total,
            out@ == with_replaced(s@.take(start as int), c, with@),
            forall|i: int| start <= i < n ==> #[trigger] s@[i] != c,
    {
        assert(x == s@[n as int]);
        if x == c {
            out.append(s.substring_char(start, n));
            out.append(with);
            proof {
                lemma_replaced_run(s@, c, with@, start as int, n as int);
                assert(s@.take(n + 1).drop_last() =~= s@.take(n as int));
            }
            start = n + 1;
        }
        n = n + 1;
    }
    out.append(s.substring_char(start, total));
    proof {
        lemma_replaced_run(s@, c, with@, start as int, total as int);
        assert(s@.take(total as int) =~= s@);
    }
    out
}

} // verus!
