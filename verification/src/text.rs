//! Turning bytes into text: UTF-8 validation, ASCII output and decimal numbers.
use vstd::prelude::*;
use vstd::utf8::*;
use vstd::string::{StringExecFns, StrSliceExecFns};

verus! {

/// `String::from_utf8`: the bytes as a `String` exactly when they are valid
/// UTF-8 (its documentation: "Returns `Err` if the slice is not UTF-8"), in
/// which case the text is their decoding.
#[verifier::external_body]
pub(crate) fn string_from_utf8(bytes: Vec<u8>) -> (r: Option<String>)
    ensures
        match r {
            Some(s) => valid_utf8(bytes@) && s@ == decode_utf8(bytes@),
            None => !valid_utf8(bytes@),
        },
{
    String::from_utf8(bytes).ok()
}

/// The characters that ASCII bytes stand for.
pub open spec fn ascii_chars(bytes: Seq<u8>) -> Seq<char> {
    Seq::new(bytes.len(), |i: int| bytes[i] as char)
}

pub open spec fn is_ascii_bytes(bytes: Seq<u8>) -> bool {
    forall|i: int| 0 <= i < bytes.len() ==> #[trigger] bytes[i] < 128
}

pub proof fn lemma_ascii_utf8(bytes: Seq<u8>)
    requires
        is_ascii_bytes(bytes),
    ensures
        valid_utf8(bytes),
        decode_utf8(bytes) == ascii_chars(bytes),
{
    let chars = ascii_chars(bytes);
    assert(is_ascii_chars(chars));
    is_ascii_chars_encode_utf8(chars);
    assert(encode_utf8(chars) =~= bytes);
    encode_utf8_valid_utf8(chars);
    encode_utf8_decode_utf8(chars);
}

/// A `String` holding exactly the given ASCII bytes.
pub fn ascii_to_string(bytes: Vec<u8>) -> (s: String)
    requires
        is_ascii_bytes(bytes@),
    ensures
        s@ == ascii_chars(bytes@),
{
    proof {
        lemma_ascii_utf8(bytes@);
    }
    match string_from_utf8(bytes) {
        Some(s) => s,
        None => {
            assert(false);
            String::new()
        },
    }
}

/// The decimal digits of `n`, most significant first, without leading zeros.
pub open spec fn decimal_digits(n: nat) -> Seq<u8>
    decreases n,
{
    if n < 10 {
        seq![(48 + n) as u8]
    } else {
        decimal_digits(n / 10) + seq![(48 + n % 10) as u8]
    }
}

pub proof fn lemma_decimal_digits_ascii(n: nat)
    ensures
        is_ascii_bytes(decimal_digits(n)),
        decimal_digits(n).len() >= 1,
    decreases n,
{
    if n >= 10 {
        lemma_decimal_digits_ascii(n / 10);
    }
}

/// Appends the decimal digits of `n` to `out`.
pub fn push_decimal(out: &mut Vec<u8>, n: u64)
    ensures
        final(out)@ == old(out)@ + decimal_digits(n as nat),
    decreases n,
{
    if n >= 10 {
        push_decimal(out, n / 10);
    }
    out.push(48u8 + (n % 10) as u8);
    proof {
        if n >= 10 {
            assert(final(out)@ =~= old(out)@ + decimal_digits(n as nat));
        } else {
            assert(final(out)@ =~= old(out)@ + decimal_digits(n as nat));
        }
    }
}

/// Appends the bytes of `src` to `out`.
pub fn push_all(out: &mut Vec<u8>, src: &[u8])
    ensures
        final(out)@ == old(out)@ + src@,
{
    let mut i: usize = 0;
    while i < src.len()
        invariant
            i <= src.len(),
            out@ == old(out)@ + src@.take(i as int),
        decreases src.len() - i,
    {
        out.push(src[i]);
        i = i + 1;
        assert(out@ =~= old(out)@ + src@.take(i as int));
    }
    assert(src@.take(i as int) =~= src@);
}

/// Whether two byte strings are equal.
pub fn bytes_equal(a: &[u8], b: &[u8]) -> (r: bool)
    ensures
        r == (a@ == b@),
{
    if a.len() != b.len() {
        return false;
    }
    let mut i: usize = 0;
    while i < a.len()
        invariant
            i <= a.len(),
            a@.len() == b@.len(),
            forall|j: int| 0 <= j < i ==> a@[j] == b@[j],
        decreases a.len() - i,
    {
        if a[i] != b[i] {
            return false;
        }
        i = i + 1;
    }
    assert(a@ =~= b@);
    true
}


/// The ASCII code of the lowercase hexadecimal digit for `n` (0 to 15).
pub open spec fn hex_digit_byte(n: int) -> u8 {
    if n < 10 { (48 + n) as u8 } else { (87 + n) as u8 }
}

pub open spec fn hex_digit(n: int) -> char {
    hex_digit_byte(n) as char
}

/// The nibble that comes `i`-th when `bytes` are written high nibble first.
pub open spec fn nibble_at(bytes: Seq<u8>, i: int) -> int {
    if i % 2 == 0 { (bytes[i / 2] / 16) as int } else { (bytes[i / 2] % 16) as int }
}

/// `bytes` in lowercase hexadecimal, two digits per byte, high nibble first.
pub open spec fn hex_chars(bytes: Seq<u8>) -> Seq<char> {
    Seq::new(2 * bytes.len(), |i: int| hex_digit(nibble_at(bytes, i)))
}

pub fn nibble_to_hex(nibble: u8) -> (c: char)
    requires
        nibble < 16,
    ensures
        c == hex_digit(nibble as int),
{
    if nibble <= 9 {
        (48u8 + nibble) as char
    } else {
        (97u8 + (nibble - 10)) as char
    }
}

fn nibble_to_hex_byte(nibble: u8) -> (b: u8)
    requires
        nibble < 16,
    ensures
        b == hex_digit_byte(nibble as int),
        b < 128,
{
    if nibble <= 9 {
        48u8 + nibble
    } else {
        97u8 + (nibble - 10)
    }
}

/// `bytes` written in lowercase hexadecimal.
pub fn hex_bytes(bytes: &[u8]) -> (s: String)
    ensures
        s@ == hex_chars(bytes@),
{
    let mut out: Vec<u8> = Vec::new();
    let mut i: usize = 0;
    while i < bytes.len()
        invariant
            i <= bytes.len(),
            out@.len() == 2 * i,
            forall|j: int| 0 <= j < 2 * i ==> #[trigger] out@[j] == hex_digit_byte(nibble_at(bytes@, j)),
        decreases bytes.len() - i,
    {
        let b = bytes[i];
        let hi = b >> 4u8;
        let lo = b & 0x0fu8;
        assert(hi == b / 16 && lo == b % 16) by (bit_vector)
            requires hi == b >> 4u8, lo == b & 0x0fu8;
        out.push(nibble_to_hex_byte(hi));
        out.push(nibble_to_hex_byte(lo));
        proof {
            assert(nibble_at(bytes@, 2 * i as int) == hi);
            assert(nibble_at(bytes@, 2 * i + 1) == lo);
        }
        i = i + 1;
    }
    proof {
        assert forall|j: int| 0 <= j < out@.len() implies #[trigger] out@[j] < 128 by {
            let n = nibble_at(bytes@, j);
            assert(0 <= n < 16);
        }
        assert(ascii_chars(out@) =~= hex_chars(bytes@));
    }
    ascii_to_string(out)
}


/// The characters of the decimal digits of `n`.
pub open spec fn decimal_chars(n: nat) -> Seq<char> {
    ascii_chars(decimal_digits(n))
}

/// `n` in decimal.
pub fn decimal_string(n: u64) -> (s: String)
    ensures
        s@ == decimal_chars(n as nat),
{
    let mut out: Vec<u8> = Vec::new();
    push_decimal(&mut out, n);
    proof {
        lemma_decimal_digits_ascii(n as nat);
        assert(out@ =~= decimal_digits(n as nat));
    }
    ascii_to_string(out)
}

/// `text` followed by `n` in decimal.
pub fn with_decimal(text: &str, n: u64) -> (s: String)
    ensures
        s@ == text@ + decimal_chars(n as nat),
{
    let mut s = String::from_str(text);
    let d = decimal_string(n);
    s.append(d.as_str());
    s
}

/// An ASCII byte appears in the UTF-8 encoding of some text exactly when its
/// character appears in the text: every byte of a longer encoding is at least `0x80`.
pub proof fn lemma_ascii_byte_in_encoding(chars: Seq<char>, a: u8)
    requires
        a < 128,
    ensures
        encode_utf8(chars).contains(a) <==> chars.contains(a as char),
    decreases chars.len(),
{
    if chars.len() == 0 {
        assert(!encode_utf8(chars).contains(a));
    } else {
        let c = chars[0];
        let v = c as u32;
        let rest = chars.drop_first();
        lemma_ascii_byte_in_encoding(rest, a);
        char_is_scalar(c);
        let e = encode_scalar(v);
        let whole = encode_utf8(chars);
        assert(whole == e + encode_utf8(rest));
        if has_width_1_encoding(v) {
            assert((v & 0x7F) as u8 == v) by (bit_vector)
                requires v <= 0x7F;
        } else {
            assert(0xC0 | ((v >> 6) & 0x1F) as u8 >= 0x80) by (bit_vector);
            assert(0xE0 | ((v >> 12) & 0x0F) as u8 >= 0x80) by (bit_vector);
            assert(0xF0 | ((v >> 18) & 0x7) as u8 >= 0x80) by (bit_vector);
            assert(0x80 | (v & 0x3F) as u8 >= 0x80) by (bit_vector);
            assert(0x80 | ((v >> 6) & 0x3F) as u8 >= 0x80) by (bit_vector);
            assert(0x80 | ((v >> 12) & 0x3F) as u8 >= 0x80) by (bit_vector);
            assert(forall|i: int| 0 <= i < e.len() ==> e[i] >= 0x80);
            assert((a as char) as u32 == a);
            assert(c != a as char);
        }
        if chars.contains(a as char) {
            let j = choose|j: int| 0 <= j < chars.len() && chars[j] == a as char;
            if j > 0 {
                assert(rest[j - 1] == a as char);
                let k = choose|k: int| 0 <= k < encode_utf8(rest).len() && encode_utf8(rest)[k] == a;
                assert(whole[e.len() + k] == a);
            } else {
                assert(has_width_1_encoding(v));
                assert(whole[0] == a);
            }
        }
        if whole.contains(a) {
            let j = choose|j: int| 0 <= j < whole.len() && whole[j] == a;
            if j >= e.len() {
                assert(encode_utf8(rest)[j - e.len()] == a);
                let k = choose|k: int| 0 <= k < rest.len() && rest[k] == a as char;
                assert(chars[k + 1] == a as char);
            } else {
                assert(has_width_1_encoding(v));
                assert(whole[0] == (v & 0x7F) as u8);
                assert(v == a as u32);
                char_u32_cast(c, v);
                assert(chars[0] == a as char);
            }
        }
    }
}

/// Whether `bytes` holds `b`.
pub fn contains_byte(bytes: &[u8], b: u8) -> (r: bool)
    ensures
        r == bytes@.contains(b),
{
    let mut i: usize = 0;
    while i < bytes.len()
        invariant
            i <= bytes.len(),
            forall|j: int| 0 <= j < i ==> bytes@[j] != b,
        decreases bytes.len() - i,
    {
        if bytes[i] == b {
            return true;
        }
        i = i + 1;
    }
    false
}

/// Whether the text holds the ASCII character `c`.
pub fn str_contains_ascii(s: &str, c: u8) -> (r: bool)
    requires
        c < 128,
    ensures
        r == s@.contains(c as char),
{
    let bytes = s.as_bytes();
    proof {
        lemma_ascii_byte_in_encoding(s@, c);
    }
    contains_byte(bytes, c)
}


/// `String::from_utf8_lossy`: the text of the bytes with each invalid
/// sequence replaced; its documentation states that valid UTF-8 comes back
/// unchanged. What it gives for invalid input is named, not stated.
#[verifier::external_body]
pub(crate) fn string_from_utf8_lossy(bytes: &[u8]) -> (s: String)
    ensures
        s@ == utf8_lossy(bytes@),
        valid_utf8(bytes@) ==> s@ == decode_utf8(bytes@),
{
    String::from_utf8_lossy(bytes).into_owned()
}

pub uninterp spec fn utf8_lossy(bytes: Seq<u8>) -> Seq<char>;

/// A one-character string holding the character whose code is `b`.
pub fn byte_char_string(b: u8) -> (s: String)
    ensures
        s@ == seq![b as char],
{
    let v = b as u32;
    let bytes: Vec<u8> = if b < 128 {
        vec![b]
    } else {
        vec![0xC0u8 | ((v >> 6u32) & 0x1Fu32) as u8, 0x80u8 | (v & 0x3Fu32) as u8]
    };
    proof {
        let c = b as char;
        let chars = seq![c];
        assert(c as u32 == v);
        assert(chars.drop_first() =~= Seq::<char>::empty());
        assert(encode_utf8(Seq::<char>::empty()) == Seq::<u8>::empty());
        assert(encode_utf8(chars) == encode_scalar(chars[0] as u32) + encode_utf8(chars.drop_first()));
        assert(encode_utf8(chars) =~= encode_scalar(v));
        if b < 128 {
            assert((v & 0x7F) as u8 == b) by (bit_vector)
                requires v == b as u32, b < 128;
        }
        assert(bytes@ =~= encode_utf8(chars));
        encode_utf8_valid_utf8(chars);
        encode_utf8_decode_utf8(chars);
    }
    match string_from_utf8(bytes) {
        Some(s) => s,
        None => {
            assert(false);
            String::new()
        },
    }
}

/// `'c'` for the character whose code is `b`.
pub open spec fn quoted_char(b: u8) -> Seq<char> {
    seq!['\'', b as char, '\'']
}

pub fn append_quoted_char(s: &mut String, b: u8)
    ensures
        final(s)@ == old(s)@ + quoted_char(b),
{
    s.append("'");
    let c = byte_char_string(b);
    s.append(c.as_str());
    s.append("'");
    proof {
        reveal_strlit("'");
        assert(final(s)@ =~= old(s)@ + quoted_char(b));
    }
}

/// Whether the character has the Unicode `White_Space` property, which is
/// what `char::is_whitespace` tests: tab, line feed, vertical tab, form feed,
/// carriage return, space, U+0085, U+00A0, U+1680, U+2000 to U+200A, U+2028,
/// U+2029, U+202F, U+205F and U+3000.
pub open spec fn white_space(c: char) -> bool {
    let u = c as u32;
    ||| 0x09 <= u <= 0x0d
    ||| u == 0x20
    ||| u == 0x85
    ||| u == 0xa0
    ||| u == 0x1680
    ||| 0x2000 <= u <= 0x200a
    ||| u == 0x2028
    ||| u == 0x2029
    ||| u == 0x202f
    ||| u == 0x205f
    ||| u == 0x3000
}

/// Whether `c` is white space.
pub fn is_white_space(c: char) -> (r: bool)
    ensures
        r == white_space(c),
{
    let u = c as u32;
    (0x09 <= u && u <= 0x0d) || u == 0x20 || u == 0x85 || u == 0xa0 || u == 0x1680 || (0x2000 <= u && u <= 0x200a)
        || u == 0x2028 || u == 0x2029 || u == 0x202f || u == 0x205f || u == 0x3000
}

/// The text without its leading white space.
pub open spec fn trim_start_chars(s: Seq<char>) -> Seq<char>
    decreases s.len(),
{
    if s.len() > 0 && white_space(s[0]) { trim_start_chars(s.drop_first()) } else { s }
}

/// The text without its trailing white space.
pub open spec fn trim_end_chars(s: Seq<char>) -> Seq<char>
    decreases s.len(),
{
    if s.len() > 0 && white_space(s.last()) { trim_end_chars(s.drop_last()) } else { s }
}

/// The text without leading and trailing white space, as `str::trim` gives it.
pub open spec fn trim_chars(s: Seq<char>) -> Seq<char> {
    trim_end_chars(trim_start_chars(s))
}

/// `s` without leading and trailing white space.
pub fn trim(s: &str) -> (r: String)
    ensures
        r@ == trim_chars(s@),
{
    let v = crate::statement::collect_chars(s);
    let ghost c = v@;
    let mut i: usize = 0;
    assert(c.skip(0) =~= c);
    while i < v.len() && is_white_space(v[i])
        invariant
            i <= c.len(),
            v@ == c,
            trim_start_chars(c) == trim_start_chars(c.skip(i as int)),
        decreases c.len() - i,
    {
        assert(c.skip(i as int).drop_first() =~= c.skip(i + 1));
        i = i + 1;
    }
    let ghost t = c.skip(i as int);
    assert(trim_start_chars(t) == t);
    let mut j: usize = v.len();
    assert(t.take(t.len() as int) =~= t);
    while j > i && is_white_space(v[j - 1])
        invariant
            i <= j <= c.len(),
            v@ == c,
            t == c.skip(i as int),
            trim_end_chars(t) == trim_end_chars(c.subrange(i as int, j as int)),
        decreases j,
    {
        assert(c.subrange(i as int, j as int).drop_last() =~= c.subrange(i as int, j - 1));
        j = j - 1;
    }
    assert(c.subrange(i as int, j as int) =~= c.subrange(i as int, j as int));
    assert(s@ == c);
    String::from_str(s.substring_char(i, j))
}

/// The text padded on the right with spaces to `width` characters, as `{:<width}` formats it.
pub open spec fn pad_right_chars(s: Seq<char>, width: nat) -> Seq<char> {
    if s.len() >= width { s } else { s + Seq::new((width - s.len()) as nat, |i: int| ' ') }
}

/// `text` padded on the right with spaces to `width` characters.
pub fn pad_right(text: &str, width: usize) -> (r: String)
    ensures
        r@ == pad_right_chars(text@, width as nat),
{
    let mut r = String::from_str(text);
    let n = text.unicode_len();
    if n < width {
        let mut k: usize = n;
        while k < width
            invariant
                n <= k <= width,
                n == text@.len(),
                r@ == text@ + Seq::new((k - n) as nat, |i: int| ' '),
            decreases width - k,
        {
            r.append(" ");
            proof {
                reveal_strlit(" ");
            }
            assert(r@ =~= text@ + Seq::new((k + 1 - n) as nat, |i: int| ' '));
            k = k + 1;
        }
    } else {
        assert(r@ =~= pad_right_chars(text@, width as nat));
    }
    r
}

/// `unit` written `count` times.
pub open spec fn repeat_chars(unit: Seq<char>, count: nat) -> Seq<char>
    decreases count,
{
    if count == 0 { Seq::empty() } else { repeat_chars(unit, (count - 1) as nat) + unit }
}

/// `unit` written `count` times, as `str::repeat` gives it.
pub fn repeat_text(unit: &str, count: usize) -> (r: String)
    ensures
        r@ == repeat_chars(unit@, count as nat),
{
    let mut r = String::new();
    let mut k: usize = 0;
    while k < count
        invariant
            k <= count,
            r@ == repeat_chars(unit@, k as nat),
        decreases count - k,
    {
        r.append(unit);
        k = k + 1;
    }
    r
}

} // verus!
