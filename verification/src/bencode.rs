//! Bencode decoding over borrowed input.
//!
//! Every decoded value keeps the exact bytes it was decoded from (`raw`), so a
//! caller can hash the original encoding of a sub-value (such as a torrent's
//! `info` dictionary) without re-encoding it.
use vstd::prelude::*;
use vstd::string::StringExecFns;
use crate::text::{decimal_chars, quoted_char, with_decimal, append_quoted_char};

verus! {

/// A decoded bencode value in the abstract: the bytes it was decoded from and its shape.
pub struct SpecValue {
    pub raw: Seq<u8>,
    pub kind: SpecKind,
}

pub enum SpecKind {
    Integer(int),
    Bytes(Seq<u8>),
    List(Seq<SpecValue>),
    Dict(Seq<(Seq<u8>, SpecValue)>),
}

/// Why a byte string is not a single well-formed bencode value.
#[derive(Debug, Clone, Copy, PartialEq, Eq, Structural)]
pub enum BencodeError {
    UnexpectedEnd,
    InvalidToken { byte: u8, pos: usize },
    UnterminatedInteger,
    InvalidInteger,
    UnterminatedLength,
    ExpectedColon,
    InvalidLength,
    LengthExceedsInput,
    UnexpectedByte { expected: u8, found: u8, pos: usize },
    TrailingData { pos: usize },
}

#[derive(Debug)]
pub enum Bencode<'a> {
    Integer(i64),
    Bytes(&'a [u8]),
    List(Vec<Value<'a>>),
    Dict(Vec<(&'a [u8], Value<'a>)>),
}

#[derive(Debug)]
pub struct Value<'a> {
    pub raw: &'a [u8],
    pub kind: Bencode<'a>,
}

pub struct BencodeParser<'a> {
    pub input: &'a [u8],
    pub pos: usize,
}

// ---------------------------------------------------------------------------
// Abstract view of decoded values
// ---------------------------------------------------------------------------

pub open spec fn values_view<'a>(s: Seq<Value<'a>>) -> Seq<SpecValue>
    decreases s,
{
    if s.len() == 0 {
        Seq::empty()
    } else {
        seq![value_view(s[0])] + values_view(s.drop_first())
    }
}

pub open spec fn entries_view<'a>(s: Seq<(&'a [u8], Value<'a>)>) -> Seq<(Seq<u8>, SpecValue)>
    decreases s,
{
    if s.len() == 0 {
        Seq::empty()
    } else {
        seq![(s[0].0@, value_view(s[0].1))] + entries_view(s.drop_first())
    }
}

pub open spec fn value_view<'a>(v: Value<'a>) -> SpecValue
    decreases v,
{
    SpecValue {
        raw: v.raw@,
        kind: match v.kind {
            Bencode::Integer(i) => SpecKind::Integer(i as int),
            Bencode::Bytes(b) => SpecKind::Bytes(b@),
            Bencode::List(vs) => SpecKind::List(values_view(vs@)),
            Bencode::Dict(es) => SpecKind::Dict(entries_view(es@)),
        },
    }
}

pub proof fn lemma_values_view_len<'a>(s: Seq<Value<'a>>)
    ensures
        values_view(s).len() == s.len(),
        forall|i: int| 0 <= i < s.len() ==> #[trigger] values_view(s)[i] == value_view(s[i]),
    decreases s.len(),
{
    if s.len() > 0 {
        lemma_values_view_len(s.drop_first());
    }
}

pub proof fn lemma_values_view_push<'a>(s: Seq<Value<'a>>, v: Value<'a>)
    ensures
        values_view(s.push(v)) == values_view(s) + seq![value_view(v)],
    decreases s.len(),
{
    lemma_values_view_len(s);
    lemma_values_view_len(s.push(v));
    assert(values_view(s.push(v)) =~= values_view(s) + seq![value_view(v)]);
}

pub proof fn lemma_entries_view_len<'a>(s: Seq<(&'a [u8], Value<'a>)>)
    ensures
        entries_view(s).len() == s.len(),
        forall|i: int|
            0 <= i < s.len() ==> #[trigger] entries_view(s)[i] == (s[i].0@, value_view(s[i].1)),
    decreases s.len(),
{
    if s.len() > 0 {
        lemma_entries_view_len(s.drop_first());
    }
}

pub proof fn lemma_entries_view_push<'a>(s: Seq<(&'a [u8], Value<'a>)>, e: (&'a [u8], Value<'a>))
    ensures
        entries_view(s.push(e)) == entries_view(s) + seq![(e.0@, value_view(e.1))],
{
    lemma_entries_view_len(s);
    lemma_entries_view_len(s.push(e));
    assert(entries_view(s.push(e)) =~= entries_view(s) + seq![(e.0@, value_view(e.1))]);
}

// ---------------------------------------------------------------------------
// Decimal numbers
// ---------------------------------------------------------------------------

pub open spec fn is_digit(b: u8) -> bool {
    48 <= b <= 57
}

pub open spec fn all_digits(s: Seq<u8>) -> bool {
    forall|i: int| 0 <= i < s.len() ==> is_digit(#[trigger] s[i])
}

/// The number that a string of ASCII digits spells in base ten.
pub open spec fn decimal_value(s: Seq<u8>) -> nat
    decreases s.len(),
{
    if s.len() == 0 {
        0
    } else {
        decimal_value(s.drop_last()) * 10 + (s.last() - 48) as nat
    }
}

/// What `str::parse::<i64>` gives for these bytes: an optional sign, then at
/// least one digit and nothing else, with the value in range.
pub open spec fn spec_parse_i64(s: Seq<u8>) -> Option<int> {
    let signed = s.len() > 0 && (s[0] == 43u8 || s[0] == 45u8);
    let negative = s.len() > 0 && s[0] == 45u8;
    let digits = if signed { s.drop_first() } else { s };
    if digits.len() == 0 || !all_digits(digits) {
        None
    } else {
        let v: int = if negative { -decimal_value(digits) } else { decimal_value(digits) as int };
        if i64::MIN <= v <= i64::MAX { Some(v) } else { None }
    }
}

/// What `str::parse::<usize>` gives for a string of digits.
pub open spec fn spec_parse_usize_digits(s: Seq<u8>) -> Option<nat> {
    if s.len() == 0 || !all_digits(s) || decimal_value(s) > usize::MAX {
        None
    } else {
        Some(decimal_value(s))
    }
}

proof fn lemma_decimal_take_step(s: Seq<u8>, i: int)
    requires
        0 <= i < s.len(),
    ensures
        decimal_value(s.take(i + 1)) == decimal_value(s.take(i)) * 10 + (s[i] - 48) as nat,
{
    assert(s.take(i + 1).drop_last() =~= s.take(i));
}

/// Reads a run of ASCII digits as an unsigned number, noting whether it went past `limit`.
fn read_decimal(digits: &[u8], limit: u128) -> (r: Option<u128>)
    requires
        limit < 0x1_0000_0000_0000_0000u128,
    ensures
        match r {
            Some(v) => all_digits(digits@) && v == decimal_value(digits@) && v <= limit,
            None => !all_digits(digits@) || decimal_value(digits@) > limit,
        },
{
    let mut acc: u128 = 0;
    let mut over = false;
    let mut i: usize = 0;
    while i < digits.len()
        invariant
            i <= digits.len(),
            limit < 0x1_0000_0000_0000_0000u128,
            all_digits(digits@.take(i as int)),
            !over ==> acc == decimal_value(digits@.take(i as int)) && acc <= limit,
            over ==> decimal_value(digits@.take(i as int)) > limit,
        decreases digits.len() - i,
    {
        let b = digits[i];
        if b < 48 || b > 57 {
            assert(!is_digit(digits@[i as int]));
            return None;
        }
        proof {
            lemma_decimal_take_step(digits@, i as int);
        }
        if !over {
            let next = acc * 10 + (b - 48) as u128;
            if next > limit {
                over = true;
            } else {
                acc = next;
            }
        }
        i = i + 1;
        assert(all_digits(digits@.take(i as int))) by {
            assert forall|j: int| 0 <= j < i implies is_digit(#[trigger] digits@.take(i as int)[j]) by {
                if j < i - 1 {
                    assert(digits@.take(i as int)[j] == digits@.take(i - 1)[j]);
                }
            }
        }
    }
    assert(digits@.take(i as int) =~= digits@);
    if over {
        None
    } else {
        Some(acc)
    }
}

/// Parses a signed decimal integer the way `str::parse::<i64>` does.
pub fn parse_i64_digits(s: &[u8]) -> (r: Option<i64>)
    ensures
        match (r, spec_parse_i64(s@)) {
            (Some(v), Some(w)) => v as int == w,
            (None, None) => true,
            _ => false,
        },
{
    let signed = s.len() > 0 && (s[0] == 43u8 || s[0] == 45u8);
    let negative = s.len() > 0 && s[0] == 45u8;
    let digits: &[u8] = if signed { &s[1..s.len()] } else { s };
    assert(signed ==> digits@ =~= s@.drop_first());
    if digits.len() == 0 {
        return None;
    }
    let limit: u128 = if negative { 0x8000_0000_0000_0000u128 } else { 0x7fff_ffff_ffff_ffffu128 };
    match read_decimal(digits, limit) {
        None => None,
        Some(v) => {
            if negative {
                if v == 0x8000_0000_0000_0000u128 {
                    Some(i64::MIN)
                } else {
                    let m = v as i64;
                    Some(-m)
                }
            } else {
                Some(v as i64)
            }
        },
    }
}

// ---------------------------------------------------------------------------
// The grammar, as spec functions over the input bytes and a position
// ---------------------------------------------------------------------------

pub open spec fn spec_peek(input: Seq<u8>, pos: int) -> Result<u8, BencodeError> {
    if 0 <= pos < input.len() {
        Ok(input[pos])
    } else {
        Err(BencodeError::UnexpectedEnd)
    }
}

/// Consumes `expected` at `pos`, giving the next position.
pub open spec fn spec_expect(input: Seq<u8>, pos: int, expected: u8) -> Result<int, BencodeError> {
    if !(0 <= pos < input.len()) {
        Err(BencodeError::UnexpectedEnd)
    } else if input[pos] != expected {
        Err(BencodeError::UnexpectedByte { expected, found: input[pos], pos: pos as usize })
    } else {
        Ok(pos + 1)
    }
}

/// Position of the `e` that closes an integer whose digits start at or before `p`.
pub open spec fn spec_integer_end(input: Seq<u8>, p: int) -> Result<int, BencodeError>
    decreases input.len() - p,
{
    if !(0 <= p < input.len()) {
        Err(BencodeError::UnexpectedEnd)
    } else if input[p] == 101u8 {
        Ok(p)
    } else if p + 1 >= input.len() {
        Err(BencodeError::UnterminatedInteger)
    } else {
        spec_integer_end(input, p + 1)
    }
}

/// `i<digits>e` at `pos`: the value and the position after the `e`.
pub open spec fn spec_parse_integer(input: Seq<u8>, pos: int) -> Result<(int, int), BencodeError> {
    match spec_expect(input, pos, 105u8) {
        Err(e) => Err(e),
        Ok(start) => match spec_integer_end(input, start) {
            Err(e) => Err(e),
            Ok(q) => match spec_parse_i64(input.subrange(start, q)) {
                None => Err(BencodeError::InvalidInteger),
                Some(v) => Ok((v, q + 1)),
            },
        },
    }
}

/// End of the run of digits that starts at `p` (the length prefix of a byte string).
pub open spec fn spec_digits_end(input: Seq<u8>, p: int) -> Result<int, BencodeError>
    decreases input.len() - p,
{
    if !(0 <= p < input.len()) {
        Err(BencodeError::UnexpectedEnd)
    } else if !is_digit(input[p]) {
        Ok(p)
    } else if p + 1 >= input.len() {
        Err(BencodeError::UnterminatedLength)
    } else {
        spec_digits_end(input, p + 1)
    }
}

/// `<length>:<bytes>` at `pos`: the bytes and the position after them.
pub open spec fn spec_parse_bytes(input: Seq<u8>, pos: int) -> Result<(Seq<u8>, int), BencodeError> {
    match spec_digits_end(input, pos) {
        Err(e) => Err(e),
        Ok(p) => if input[p] != 58u8 {
            Err(BencodeError::ExpectedColon)
        } else {
            match spec_parse_usize_digits(input.subrange(pos, p)) {
                None => Err(BencodeError::InvalidLength),
                Some(n) => if p + 1 + n > input.len() {
                    Err(BencodeError::LengthExceedsInput)
                } else {
                    Ok((input.subrange(p + 1, p + 1 + n), p + 1 + n))
                },
            }
        },
    }
}

/// One value at `pos`, with the position after it.
pub open spec fn spec_parse_value(input: Seq<u8>, pos: int) -> Result<(SpecValue, int), BencodeError>
    decreases input.len() - pos, 1int,
{
    if !(0 <= pos < input.len()) {
        Err(BencodeError::UnexpectedEnd)
    } else {
        let b = input[pos];
        let kind: Result<(SpecKind, int), BencodeError> = if b == 105u8 {
            match spec_parse_integer(input, pos) {
                Ok((v, end)) => Ok((SpecKind::Integer(v), end)),
                Err(e) => Err(e),
            }
        } else if b == 108u8 {
            match spec_parse_list(input, pos) {
                Ok((vs, end)) => Ok((SpecKind::List(vs), end)),
                Err(e) => Err(e),
            }
        } else if b == 100u8 {
            match spec_parse_dict(input, pos) {
                Ok((es, end)) => Ok((SpecKind::Dict(es), end)),
                Err(e) => Err(e),
            }
        } else if is_digit(b) {
            match spec_parse_bytes(input, pos) {
                Ok((bs, end)) => Ok((SpecKind::Bytes(bs), end)),
                Err(e) => Err(e),
            }
        } else {
            Err(BencodeError::InvalidToken { byte: b, pos: pos as usize })
        };
        match kind {
            Err(e) => Err(e),
            Ok((k, end)) => if pos < end <= input.len() {
                Ok((SpecValue { raw: input.subrange(pos, end), kind: k }, end))
            } else {
                Err(BencodeError::UnexpectedEnd)
            },
        }
    }
}

/// `l<values>e` at `pos`.
pub open spec fn spec_parse_list(input: Seq<u8>, pos: int) -> Result<(Seq<SpecValue>, int), BencodeError>
    decreases input.len() - pos, 0int,
{
    match spec_expect(input, pos, 108u8) {
        Err(e) => Err(e),
        Ok(p) => spec_list_items(input, p),
    }
}

/// The values of a list from `p` up to and including its closing `e`.
pub open spec fn spec_list_items(input: Seq<u8>, p: int) -> Result<(Seq<SpecValue>, int), BencodeError>
    decreases input.len() - p, 2int,
{
    if !(0 <= p < input.len()) {
        Err(BencodeError::UnexpectedEnd)
    } else if input[p] == 101u8 {
        Ok((Seq::empty(), p + 1))
    } else {
        match spec_parse_value(input, p) {
            Err(e) => Err(e),
            Ok((v, end)) => if p < end <= input.len() {
                match spec_list_items(input, end) {
                    Err(e) => Err(e),
                    Ok((vs, e2)) => Ok((seq![v] + vs, e2)),
                }
            } else {
                Err(BencodeError::UnexpectedEnd)
            },
        }
    }
}

/// `d<key value ...>e` at `pos`.
pub open spec fn spec_parse_dict(input: Seq<u8>, pos: int) -> Result<(Seq<(Seq<u8>, SpecValue)>, int), BencodeError>
    decreases input.len() - pos, 0int,
{
    match spec_expect(input, pos, 100u8) {
        Err(e) => Err(e),
        Ok(p) => spec_dict_entries(input, p),
    }
}

/// The entries of a dictionary from `p` up to and including its closing `e`.
pub open spec fn spec_dict_entries(input: Seq<u8>, p: int) -> Result<(Seq<(Seq<u8>, SpecValue)>, int), BencodeError>
    decreases input.len() - p, 2int,
{
    if !(0 <= p < input.len()) {
        Err(BencodeError::UnexpectedEnd)
    } else if input[p] == 101u8 {
        Ok((Seq::empty(), p + 1))
    } else {
        match spec_parse_bytes(input, p) {
            Err(e) => Err(e),
            Ok((key, kend)) => if p < kend <= input.len() {
                match spec_parse_value(input, kend) {
                    Err(e) => Err(e),
                    Ok((v, vend)) => if kend < vend <= input.len() {
                        match spec_dict_entries(input, vend) {
                            Err(e) => Err(e),
                            Ok((es, e2)) => Ok((seq![(key, v)] + es, e2)),
                        }
                    } else {
                        Err(BencodeError::UnexpectedEnd)
                    },
                }
            } else {
                Err(BencodeError::UnexpectedEnd)
            },
        }
    }
}

/// The whole input as exactly one value.
pub open spec fn spec_parse(input: Seq<u8>) -> Result<SpecValue, BencodeError> {
    match spec_parse_value(input, 0) {
        Err(e) => Err(e),
        Ok((v, end)) => if end != input.len() {
            Err(BencodeError::TrailingData { pos: end as usize })
        } else {
            Ok(v)
        },
    }
}


/// Prepends already-decoded items to the outcome of decoding the rest.
pub open spec fn prepend_items<T>(prefix: Seq<T>, rest: Result<(Seq<T>, int), BencodeError>) -> Result<(Seq<T>, int), BencodeError> {
    match rest {
        Ok((items, end)) => Ok((prefix + items, end)),
        Err(e) => Err(e),
    }
}

// ---------------------------------------------------------------------------
// A parsed value's recorded span parses to the same value on its own
// ---------------------------------------------------------------------------

proof fn lemma_integer_end_after(input: Seq<u8>, p: int)
    requires
        spec_integer_end(input, p) is Ok,
    ensures
        p <= spec_integer_end(input, p)->Ok_0 < input.len(),
    decreases input.len() - p,
{
    if input[p] != 101u8 {
        lemma_integer_end_after(input, p + 1);
    }
}

proof fn lemma_digits_end_after(input: Seq<u8>, p: int)
    requires
        spec_digits_end(input, p) is Ok,
    ensures
        p <= spec_digits_end(input, p)->Ok_0 < input.len(),
    decreases input.len() - p,
{
    if is_digit(input[p]) {
        lemma_digits_end_after(input, p + 1);
    }
}

proof fn lemma_integer_end_local(input: Seq<u8>, a: int, b: int, p: int)
    requires
        0 <= a <= p,
        b <= input.len(),
        spec_integer_end(input, p) matches Ok(q) && q < b,
    ensures
        spec_integer_end(input.subrange(a, b), p - a) == Ok::<int, BencodeError>(spec_integer_end(input, p)->Ok_0 - a),
    decreases input.len() - p,
{
    lemma_integer_end_after(input, p);
    let w = input.subrange(a, b);
    assert(w[p - a] == input[p]);
    if input[p] != 101u8 {
        lemma_integer_end_local(input, a, b, p + 1);
    }
}

proof fn lemma_digits_end_local(input: Seq<u8>, a: int, b: int, p: int)
    requires
        0 <= a <= p,
        b <= input.len(),
        spec_digits_end(input, p) matches Ok(q) && q < b,
    ensures
        spec_digits_end(input.subrange(a, b), p - a) == Ok::<int, BencodeError>(spec_digits_end(input, p)->Ok_0 - a),
    decreases input.len() - p,
{
    lemma_digits_end_after(input, p);
    let w = input.subrange(a, b);
    assert(w[p - a] == input[p]);
    if is_digit(input[p]) {
        lemma_digits_end_local(input, a, b, p + 1);
    }
}

proof fn lemma_parse_integer_local(input: Seq<u8>, a: int, b: int, p: int)
    requires
        0 <= a <= p,
        b <= input.len(),
        spec_parse_integer(input, p) matches Ok((v, e)) && e <= b,
    ensures
        spec_parse_integer(input.subrange(a, b), p - a) == Ok::<(int, int), BencodeError>((spec_parse_integer(input, p)->Ok_0.0, spec_parse_integer(input, p)->Ok_0.1 - a)),
{
    lemma_integer_end_after(input, p + 1);
    let w = input.subrange(a, b);
    let q = spec_integer_end(input, p + 1)->Ok_0;
    assert(w[p - a] == input[p]);
    lemma_integer_end_local(input, a, b, p + 1);
    assert(w.subrange(p + 1 - a, q - a) =~= input.subrange(p + 1, q));
}

proof fn lemma_parse_bytes_local(input: Seq<u8>, a: int, b: int, p: int)
    requires
        0 <= a <= p,
        b <= input.len(),
        spec_parse_bytes(input, p) matches Ok((v, e)) && e <= b,
    ensures
        spec_parse_bytes(input.subrange(a, b), p - a) == Ok::<(Seq<u8>, int), BencodeError>((spec_parse_bytes(input, p)->Ok_0.0, spec_parse_bytes(input, p)->Ok_0.1 - a)),
{
    lemma_digits_end_after(input, p);
    let w = input.subrange(a, b);
    let q = spec_digits_end(input, p)->Ok_0;
    lemma_digits_end_local(input, a, b, p);
    assert(w[q - a] == input[q]);
    assert(w.subrange(p - a, q - a) =~= input.subrange(p, q));
    let n = spec_parse_usize_digits(input.subrange(p, q))->Some_0;
    assert(w.subrange(q + 1 - a, q + 1 + n - a) =~= input.subrange(q + 1, q + 1 + n));
}

proof fn lemma_list_items_after(input: Seq<u8>, p: int)
    requires
        spec_list_items(input, p) is Ok,
    ensures
        p < spec_list_items(input, p)->Ok_0.1,
    decreases input.len() - p,
{
    if input[p] != 101u8 {
        let end = spec_parse_value(input, p)->Ok_0.1;
        lemma_list_items_after(input, end);
    }
}

proof fn lemma_dict_entries_after(input: Seq<u8>, p: int)
    requires
        spec_dict_entries(input, p) is Ok,
    ensures
        p < spec_dict_entries(input, p)->Ok_0.1,
    decreases input.len() - p,
{
    if input[p] != 101u8 {
        let kend = spec_parse_bytes(input, p)->Ok_0.1;
        let vend = spec_parse_value(input, kend)->Ok_0.1;
        lemma_dict_entries_after(input, vend);
    }
}

/// A value parsed at `p` parses the same inside any window of the input that
/// holds it.
proof fn lemma_value_local(input: Seq<u8>, a: int, b: int, p: int)
    requires
        0 <= a <= p,
        b <= input.len(),
        spec_parse_value(input, p) matches Ok((v, e)) && e <= b,
    ensures
        spec_parse_value(input.subrange(a, b), p - a) == Ok::<(SpecValue, int), BencodeError>((spec_parse_value(input, p)->Ok_0.0, spec_parse_value(input, p)->Ok_0.1 - a)),
    decreases input.len() - p, 1int,
{
    let w = input.subrange(a, b);
    let e = spec_parse_value(input, p)->Ok_0.1;
    assert(w[p - a] == input[p]);
    let c = input[p];
    if c == 105u8 {
        lemma_parse_integer_local(input, a, b, p);
    } else if c == 108u8 {
        lemma_list_local(input, a, b, p);
    } else if c == 100u8 {
        lemma_dict_local(input, a, b, p);
    } else {
        lemma_parse_bytes_local(input, a, b, p);
    }
    assert(w.subrange(p - a, e - a) =~= input.subrange(p, e));
}

proof fn lemma_list_local(input: Seq<u8>, a: int, b: int, p: int)
    requires
        0 <= a <= p,
        b <= input.len(),
        spec_parse_list(input, p) matches Ok((vs, e)) && e <= b,
    ensures
        spec_parse_list(input.subrange(a, b), p - a) == Ok::<(Seq<SpecValue>, int), BencodeError>((spec_parse_list(input, p)->Ok_0.0, spec_parse_list(input, p)->Ok_0.1 - a)),
    decreases input.len() - p, 0int,
{
    let w = input.subrange(a, b);
    lemma_list_items_after(input, p + 1);
    assert(w[p - a] == input[p]);
    lemma_items_local(input, a, b, p + 1);
}

proof fn lemma_items_local(input: Seq<u8>, a: int, b: int, p: int)
    requires
        0 <= a <= p,
        b <= input.len(),
        spec_list_items(input, p) matches Ok((vs, e)) && e <= b,
    ensures
        spec_list_items(input.subrange(a, b), p - a) == Ok::<(Seq<SpecValue>, int), BencodeError>((spec_list_items(input, p)->Ok_0.0, spec_list_items(input, p)->Ok_0.1 - a)),
    decreases input.len() - p, 2int,
{
    let w = input.subrange(a, b);
    lemma_list_items_after(input, p);
    assert(w[p - a] == input[p]);
    if input[p] != 101u8 {
        let end = spec_parse_value(input, p)->Ok_0.1;
        lemma_list_items_after(input, end);
        lemma_value_local(input, a, b, p);
        lemma_items_local(input, a, b, end);
    }
}

proof fn lemma_dict_local(input: Seq<u8>, a: int, b: int, p: int)
    requires
        0 <= a <= p,
        b <= input.len(),
        spec_parse_dict(input, p) matches Ok((es, e)) && e <= b,
    ensures
        spec_parse_dict(input.subrange(a, b), p - a) == Ok::<(Seq<(Seq<u8>, SpecValue)>, int), BencodeError>((spec_parse_dict(input, p)->Ok_0.0, spec_parse_dict(input, p)->Ok_0.1 - a)),
    decreases input.len() - p, 0int,
{
    let w = input.subrange(a, b);
    lemma_dict_entries_after(input, p + 1);
    assert(w[p - a] == input[p]);
    lemma_entries_local(input, a, b, p + 1);
}

proof fn lemma_entries_local(input: Seq<u8>, a: int, b: int, p: int)
    requires
        0 <= a <= p,
        b <= input.len(),
        spec_dict_entries(input, p) matches Ok((es, e)) && e <= b,
    ensures
        spec_dict_entries(input.subrange(a, b), p - a) == Ok::<(Seq<(Seq<u8>, SpecValue)>, int), BencodeError>((spec_dict_entries(input, p)->Ok_0.0, spec_dict_entries(input, p)->Ok_0.1 - a)),
    decreases input.len() - p, 2int,
{
    let w = input.subrange(a, b);
    lemma_dict_entries_after(input, p);
    assert(w[p - a] == input[p]);
    if input[p] != 101u8 {
        let kend = spec_parse_bytes(input, p)->Ok_0.1;
        let vend = spec_parse_value(input, kend)->Ok_0.1;
        lemma_dict_entries_after(input, vend);
        lemma_parse_bytes_local(input, a, b, p);
        lemma_value_local(input, a, b, kend);
        lemma_entries_local(input, a, b, vend);
    }
}

/// A value parsed at `p0` records as its raw bytes exactly the span it was
/// read from, and those bytes on their own parse back to the same value. A
/// value cannot start at the end of the input, nor at a byte other than `i`,
/// `l`, `d` or a digit.
pub proof fn law_raw_span_reparses(input: Seq<u8>, p0: int)
    requires
        0 <= p0 <= input.len(),
    ensures
        spec_parse_value(input, p0) matches Ok((v, e)) ==> p0 < e <= input.len() && v.raw == input.subrange(p0, e)
            && spec_parse(v.raw) == Ok::<SpecValue, BencodeError>(v),
        p0 == input.len() ==> spec_parse_value(input, p0) is Err,
        p0 < input.len() && !(input[p0] == 105u8 || input[p0] == 108u8 || input[p0] == 100u8 || is_digit(input[p0]))
            ==> spec_parse_value(input, p0) is Err,
{
    if spec_parse_value(input, p0) is Ok {
        let e = spec_parse_value(input, p0)->Ok_0.1;
        lemma_value_local(input, p0, e, p0);
    }
}

impl<'a> BencodeParser<'a> {
    pub fn new(input: &'a [u8]) -> (p: Self)
        ensures
            p.input == input,
            p.pos == 0,
    {
        BencodeParser { input, pos: 0 }
    }

    pub fn peek_byte(&self) -> (r: Result<u8, BencodeError>)
        ensures
            r == spec_peek(self.input@, self.pos as int),
    {
        if self.pos < self.input.len() {
            Ok(self.input[self.pos])
        } else {
            Err(BencodeError::UnexpectedEnd)
        }
    }

    pub fn expect_byte(&mut self, expected: u8) -> (r: Result<(), BencodeError>)
        ensures
            final(self).input == old(self).input,
            match spec_expect(old(self).input@, old(self).pos as int, expected) {
                Ok(next) => r is Ok && final(self).pos == next,
                Err(e) => r == Err::<(), BencodeError>(e) && final(self).pos == old(self).pos,
            },
    {
        if self.pos >= self.input.len() {
            return Err(BencodeError::UnexpectedEnd);
        }
        let actual = self.input[self.pos];
        if actual != expected {
            return Err(BencodeError::UnexpectedByte { expected, found: actual, pos: self.pos });
        }
        self.pos = self.pos + 1;
        Ok(())
    }

    pub fn parse_integer(&mut self) -> (r: Result<i64, BencodeError>)
        ensures
            final(self).input == old(self).input,
            match (r, spec_parse_integer(old(self).input@, old(self).pos as int)) {
                (Ok(v), Ok((w, end))) => v as int == w && final(self).pos == end
                    && old(self).pos < end <= old(self).input@.len(),
                (Err(e1), Err(e2)) => e1 == e2,
                _ => false,
            },
    {
        let ghost input = self.input@;
        match self.expect_byte(105u8) {
            Err(e) => return Err(e),
            Ok(()) => {},
        }
        let start = self.pos;
        if self.pos >= self.input.len() {
            return Err(BencodeError::UnexpectedEnd);
        }
        loop
            invariant
                self.input@ == input,
                self.input == old(self).input,
                start <= self.pos < input.len(),
                start == old(self).pos + 1,
                old(self).input@ == input,
                spec_expect(input, old(self).pos as int, 105u8) == Ok::<int, BencodeError>(start as int),
                spec_integer_end(input, start as int) == spec_integer_end(input, self.pos as int),
            ensures
                start <= self.pos < input.len(),
                input[self.pos as int] == 101u8,
            decreases input.len() - self.pos,
        {
            let b = self.input[self.pos];
            if b == 101u8 {
                break;
            }
            if self.pos + 1 >= self.input.len() {
                return Err(BencodeError::UnterminatedInteger);
            }
            self.pos = self.pos + 1;
        }
        let q = self.pos;
        let input_ref: &'a [u8] = self.input;
        let digits: &[u8] = &input_ref[start..q];
        self.pos = q + 1;
        match parse_i64_digits(digits) {
            None => Err(BencodeError::InvalidInteger),
            Some(v) => Ok(v),
        }
    }

    pub fn parse_bytes(&mut self) -> (r: Result<&'a [u8], BencodeError>)
        ensures
            final(self).input == old(self).input,
            match (r, spec_parse_bytes(old(self).input@, old(self).pos as int)) {
                (Ok(v), Ok((w, end))) => v@ == w && final(self).pos == end
                    && old(self).pos < end <= old(self).input@.len(),
                (Err(e1), Err(e2)) => e1 == e2,
                _ => false,
            },
    {
        let ghost input = self.input@;
        let len_start = self.pos;
        if self.pos >= self.input.len() {
            return Err(BencodeError::UnexpectedEnd);
        }
        loop
            invariant
                self.input@ == input,
                self.input == old(self).input,
                len_start <= self.pos < input.len(),
                len_start == old(self).pos,
                old(self).input@ == input,
                spec_digits_end(input, len_start as int) == spec_digits_end(input, self.pos as int),
            ensures
                len_start <= self.pos < input.len(),
                !is_digit(input[self.pos as int]),
            decreases input.len() - self.pos,
        {
            let b = self.input[self.pos];
            if b < 48u8 || b > 57u8 {
                break;
            }
            if self.pos + 1 >= self.input.len() {
                return Err(BencodeError::UnterminatedLength);
            }
            self.pos = self.pos + 1;
        }
        if self.input[self.pos] != 58u8 {
            return Err(BencodeError::ExpectedColon);
        }
        let input_ref: &'a [u8] = self.input;
        let digits: &[u8] = &input_ref[len_start..self.pos];
        let len = match read_decimal(digits, usize::MAX as u128) {
            None => {
                return Err(BencodeError::InvalidLength);
            },
            Some(n) => n as usize,
        };
        if digits.len() == 0 {
            return Err(BencodeError::InvalidLength);
        }
        let start = self.pos + 1;
        if len > self.input.len() - start {
            return Err(BencodeError::LengthExceedsInput);
        }
        let end = start + len;
        self.pos = end;
        Ok(&input_ref[start..end])
    }

    pub fn parse_value(&mut self) -> (r: Result<Value<'a>, BencodeError>)
        ensures
            final(self).input == old(self).input,
            match (r, spec_parse_value(old(self).input@, old(self).pos as int)) {
                (Ok(v), Ok((w, end))) => value_view(v) == w && final(self).pos == end
                    && old(self).pos < end <= old(self).input@.len(),
                (Err(e1), Err(e2)) => e1 == e2,
                _ => false,
            },
        decreases old(self).input@.len() - old(self).pos, 1int,
    {
        let ghost input = self.input@;
        let start = self.pos;
        if self.pos >= self.input.len() {
            return Err(BencodeError::UnexpectedEnd);
        }
        let byte = self.input[self.pos];
        let kind = if byte == 105u8 {
            match self.parse_integer() {
                Ok(v) => Bencode::Integer(v),
                Err(e) => return Err(e),
            }
        } else if byte == 108u8 {
            match self.parse_list() {
                Ok(vs) => Bencode::List(vs),
                Err(e) => return Err(e),
            }
        } else if byte == 100u8 {
            match self.parse_dict() {
                Ok(es) => Bencode::Dict(es),
                Err(e) => return Err(e),
            }
        } else if 48u8 <= byte && byte <= 57u8 {
            match self.parse_bytes() {
                Ok(bs) => Bencode::Bytes(bs),
                Err(e) => return Err(e),
            }
        } else {
            return Err(BencodeError::InvalidToken { byte, pos: self.pos });
        };
        let end = self.pos;
        let input_ref: &'a [u8] = self.input;
        Ok(Value { raw: &input_ref[start..end], kind })
    }

    pub fn parse_list(&mut self) -> (r: Result<Vec<Value<'a>>, BencodeError>)
        ensures
            final(self).input == old(self).input,
            match (r, spec_parse_list(old(self).input@, old(self).pos as int)) {
                (Ok(v), Ok((w, end))) => values_view(v@) == w && final(self).pos == end
                    && old(self).pos < end <= old(self).input@.len(),
                (Err(e1), Err(e2)) => e1 == e2,
                _ => false,
            },
        decreases old(self).input@.len() - old(self).pos, 0int,
    {
        let ghost input = self.input@;
        let ghost first = self.pos + 1;
        match self.expect_byte(108u8) {
            Err(e) => return Err(e),
            Ok(()) => {},
        }
        let mut values: Vec<Value<'a>> = Vec::new();
        loop
            invariant
                self.input@ == input,
                self.input == old(self).input,
                first <= self.pos <= input.len(),
                first == old(self).pos + 1,
                old(self).input@ == input,
                spec_parse_list(input, old(self).pos as int) == spec_list_items(input, first),
                spec_list_items(input, first) == prepend_items(values_view(values@), spec_list_items(input, self.pos as int)),
            ensures
                self.input == old(self).input,
                self.pos < input.len(),
                input[self.pos as int] == 101u8,
                first <= self.pos,
                old(self).input@ == input,
                spec_parse_list(input, old(self).pos as int) == prepend_items(values_view(values@), spec_list_items(input, self.pos as int)),
            decreases input.len() - self.pos,
        {
            let b = match self.peek_byte() {
                Ok(b) => b,
                Err(e) => return Err(e),
            };
            if b == 101u8 {
                break;
            }
            let ghost before = self.pos as int;
            let v = match self.parse_value() {
                Ok(v) => v,
                Err(e) => return Err(e),
            };
            proof {
                let ghost sv = value_view(v);
                lemma_values_view_push(values@, v);
                match spec_list_items(input, self.pos as int) {
                    Ok((vs, e2)) => {
                        assert(values_view(values@) + (seq![sv] + vs) =~= (values_view(values@) + seq![sv]) + vs);
                    },
                    Err(_) => {},
                }
            }
            values.push(v);
        }
        assert(values_view(values@) + Seq::<SpecValue>::empty() =~= values_view(values@));
        match self.expect_byte(101u8) {
            Err(e) => return Err(e),
            Ok(()) => {},
        }
        Ok(values)
    }

    pub fn parse_dict(&mut self) -> (r: Result<Vec<(&'a [u8], Value<'a>)>, BencodeError>)
        ensures
            final(self).input == old(self).input,
            match (r, spec_parse_dict(old(self).input@, old(self).pos as int)) {
                (Ok(v), Ok((w, end))) => entries_view(v@) == w && final(self).pos == end
                    && old(self).pos < end <= old(self).input@.len(),
                (Err(e1), Err(e2)) => e1 == e2,
                _ => false,
            },
        decreases old(self).input@.len() - old(self).pos, 0int,
    {
        let ghost input = self.input@;
        let ghost first = self.pos + 1;
        match self.expect_byte(100u8) {
            Err(e) => return Err(e),
            Ok(()) => {},
        }
        let mut items: Vec<(&'a [u8], Value<'a>)> = Vec::new();
        loop
            invariant
                self.input@ == input,
                self.input == old(self).input,
                first <= self.pos <= input.len(),
                first == old(self).pos + 1,
                old(self).input@ == input,
                spec_parse_dict(input, old(self).pos as int) == spec_dict_entries(input, first),
                spec_dict_entries(input, first) == prepend_items(entries_view(items@), spec_dict_entries(input, self.pos as int)),
            ensures
                self.input == old(self).input,
                self.pos < input.len(),
                input[self.pos as int] == 101u8,
                first <= self.pos,
                old(self).input@ == input,
                spec_parse_dict(input, old(self).pos as int) == prepend_items(entries_view(items@), spec_dict_entries(input, self.pos as int)),
            decreases input.len() - self.pos,
        {
            let b = match self.peek_byte() {
                Ok(b) => b,
                Err(e) => return Err(e),
            };
            if b == 101u8 {
                break;
            }
            let key = match self.parse_bytes() {
                Ok(k) => k,
                Err(e) => return Err(e),
            };
            let value = match self.parse_value() {
                Ok(v) => v,
                Err(e) => return Err(e),
            };
            proof {
                let ghost entry = (key@, value_view(value));
                lemma_entries_view_push(items@, (key, value));
                match spec_dict_entries(input, self.pos as int) {
                    Ok((es, e2)) => {
                        assert(entries_view(items@) + (seq![entry] + es) =~= (entries_view(items@) + seq![entry]) + es);
                    },
                    Err(_) => {},
                }
            }
            items.push((key, value));
        }
        assert(entries_view(items@) + Seq::<(Seq<u8>, SpecValue)>::empty() =~= entries_view(items@));
        match self.expect_byte(101u8) {
            Err(e) => return Err(e),
            Ok(()) => {},
        }
        Ok(items)
    }

    /// Decodes the whole input as exactly one value.
    pub fn parse(self) -> (r: Result<Value<'a>, BencodeError>)
        requires
            self.pos == 0,
        ensures
            match (r, spec_parse(self.input@)) {
                (Ok(v), Ok(w)) => value_view(v) == w,
                (Err(e1), Err(e2)) => e1 == e2,
                _ => false,
            },
    {
        let mut parser = self;
        let value = match parser.parse_value() {
            Ok(v) => v,
            Err(e) => return Err(e),
        };
        if parser.pos != parser.input.len() {
            return Err(BencodeError::TrailingData { pos: parser.pos });
        }
        Ok(value)
    }
}


// ---------------------------------------------------------------------------
// Reading decoded values
// ---------------------------------------------------------------------------

pub open spec fn spec_as_dict(v: SpecValue) -> Option<Seq<(Seq<u8>, SpecValue)>> {
    match v.kind {
        SpecKind::Dict(es) => Some(es),
        _ => None,
    }
}

pub open spec fn spec_as_bytes(v: SpecValue) -> Option<Seq<u8>> {
    match v.kind {
        SpecKind::Bytes(b) => Some(b),
        _ => None,
    }
}

pub open spec fn spec_as_integer(v: SpecValue) -> Option<int> {
    match v.kind {
        SpecKind::Integer(i) => Some(i),
        _ => None,
    }
}

pub open spec fn spec_as_list(v: SpecValue) -> Option<Seq<SpecValue>> {
    match v.kind {
        SpecKind::List(vs) => Some(vs),
        _ => None,
    }
}

/// The value of the first entry whose key is `key`.
pub open spec fn spec_find(dict: Seq<(Seq<u8>, SpecValue)>, key: Seq<u8>) -> Option<SpecValue>
    decreases dict.len(),
{
    if dict.len() == 0 {
        None
    } else if dict[0].0 == key {
        Some(dict[0].1)
    } else {
        spec_find(dict.drop_first(), key)
    }
}

pub open spec fn spec_find_bytes(dict: Seq<(Seq<u8>, SpecValue)>, key: Seq<u8>) -> Option<Seq<u8>> {
    match spec_find(dict, key) {
        Some(v) => spec_as_bytes(v),
        None => None,
    }
}

pub open spec fn spec_find_integer(dict: Seq<(Seq<u8>, SpecValue)>, key: Seq<u8>) -> Option<int> {
    match spec_find(dict, key) {
        Some(v) => spec_as_integer(v),
        None => None,
    }
}

pub open spec fn spec_find_list(dict: Seq<(Seq<u8>, SpecValue)>, key: Seq<u8>) -> Option<Seq<SpecValue>> {
    match spec_find(dict, key) {
        Some(v) => spec_as_list(v),
        None => None,
    }
}

impl<'a> Value<'a> {
    pub fn as_dict(&self) -> (r: Option<&Vec<(&'a [u8], Value<'a>)>>)
        ensures
            match r {
                Some(d) => spec_as_dict(value_view(*self)) == Some(entries_view(d@)),
                None => spec_as_dict(value_view(*self)) is None,
            },
    {
        match &self.kind {
            Bencode::Dict(entries) => Some(entries),
            _ => None,
        }
    }

    pub fn as_bytes(&self) -> (r: Option<&'a [u8]>)
        ensures
            match r {
                Some(b) => spec_as_bytes(value_view(*self)) == Some(b@),
                None => spec_as_bytes(value_view(*self)) is None,
            },
    {
        match &self.kind {
            Bencode::Bytes(bytes) => Some(*bytes),
            _ => None,
        }
    }

    pub fn as_integer(&self) -> (r: Option<i64>)
        ensures
            match r {
                Some(i) => spec_as_integer(value_view(*self)) == Some(i as int),
                None => spec_as_integer(value_view(*self)) is None,
            },
    {
        match &self.kind {
            Bencode::Integer(value) => Some(*value),
            _ => None,
        }
    }

    pub fn as_list(&self) -> (r: Option<&Vec<Value<'a>>>)
        ensures
            match r {
                Some(vs) => spec_as_list(value_view(*self)) == Some(values_view(vs@)),
                None => spec_as_list(value_view(*self)) is None,
            },
    {
        match &self.kind {
            Bencode::List(values) => Some(values),
            _ => None,
        }
    }
}

proof fn lemma_find_skip(dict: Seq<(Seq<u8>, SpecValue)>, key: Seq<u8>, i: int)
    requires
        0 <= i < dict.len(),
        dict[i].0 != key,
    ensures
        spec_find(dict.skip(i), key) == spec_find(dict.skip(i + 1), key),
{
    assert(dict.skip(i).drop_first() =~= dict.skip(i + 1));
}

/// The value stored under `key`: the first entry with that key, as the dictionary was read.
pub fn find_value<'a>(dict: &'a [(&'a [u8], Value<'a>)], key: &[u8]) -> (r: Option<&'a Value<'a>>)
    ensures
        match r {
            Some(v) => spec_find(entries_view(dict@), key@) == Some(value_view(*v)),
            None => spec_find(entries_view(dict@), key@) is None,
        },
{
    let ghost d = entries_view(dict@);
    proof {
        lemma_entries_view_len(dict@);
        assert(d.skip(0) =~= d);
    }
    let mut i: usize = 0;
    while i < dict.len()
        invariant
            i <= dict@.len(),
            d == entries_view(dict@),
            d.len() == dict@.len(),
            forall|j: int| 0 <= j < dict@.len() ==> #[trigger] d[j] == (dict@[j].0@, value_view(dict@[j].1)),
            spec_find(d, key@) == spec_find(d.skip(i as int), key@),
        decreases dict.len() - i,
    {
        let entry = &dict[i];
        if crate::text::bytes_equal(entry.0, key) {
            assert(d.skip(i as int)[0] == d[i as int]);
            return Some(&entry.1);
        }
        proof {
            lemma_find_skip(d, key@, i as int);
        }
        i = i + 1;
    }
    None
}

pub fn find_bytes<'a>(dict: &'a [(&'a [u8], Value<'a>)], key: &[u8]) -> (r: Option<&'a [u8]>)
    ensures
        match r {
            Some(b) => spec_find_bytes(entries_view(dict@), key@) == Some(b@),
            None => spec_find_bytes(entries_view(dict@), key@) is None,
        },
{
    match find_value(dict, key) {
        Some(v) => v.as_bytes(),
        None => None,
    }
}

pub fn find_integer<'a>(dict: &'a [(&'a [u8], Value<'a>)], key: &[u8]) -> (r: Option<i64>)
    ensures
        match r {
            Some(i) => spec_find_integer(entries_view(dict@), key@) == Some(i as int),
            None => spec_find_integer(entries_view(dict@), key@) is None,
        },
{
    match find_value(dict, key) {
        Some(v) => v.as_integer(),
        None => None,
    }
}

pub fn find_list<'a>(dict: &'a [(&'a [u8], Value<'a>)], key: &[u8]) -> (r: Option<&'a Vec<Value<'a>>>)
    ensures
        match r {
            Some(vs) => spec_find_list(entries_view(dict@), key@) == Some(values_view(vs@)),
            None => spec_find_list(entries_view(dict@), key@) is None,
        },
{
    match find_value(dict, key) {
        Some(v) => v.as_list(),
        None => None,
    }
}


/// The text an error is reported with.
pub open spec fn bencode_error_message(e: BencodeError) -> Seq<char> {
    match e {
        BencodeError::UnexpectedEnd => "unexpected end of input"@,
        BencodeError::InvalidToken { byte, pos } => "invalid bencode token "@ + quoted_char(byte) + " at byte "@
            + decimal_chars(pos as nat),
        BencodeError::UnterminatedInteger => "unterminated integer"@,
        BencodeError::InvalidInteger => "invalid integer value"@,
        BencodeError::UnterminatedLength => "unterminated byte string length"@,
        BencodeError::ExpectedColon => "expected ':' after byte string length"@,
        BencodeError::InvalidLength => "invalid byte string length"@,
        BencodeError::LengthExceedsInput => "byte string length exceeds input"@,
        BencodeError::UnexpectedByte { expected, found, pos } => "expected "@ + quoted_char(expected) + " at byte "@
            + decimal_chars(pos as nat) + ", found "@ + quoted_char(found),
        BencodeError::TrailingData { pos } => "unexpected trailing data at byte "@ + decimal_chars(pos as nat),
    }
}

impl BencodeError {
    pub fn message(&self) -> (s: String)
        ensures
            s@ == bencode_error_message(*self),
    {
        match self {
            BencodeError::UnexpectedEnd => String::from_str("unexpected end of input"),
            BencodeError::InvalidToken { byte, pos } => {
                let mut s = String::from_str("invalid bencode token ");
                append_quoted_char(&mut s, *byte);
                let t = with_decimal(" at byte ", *pos as u64);
                s.append(t.as_str());
                s
            },
            BencodeError::UnterminatedInteger => String::from_str("unterminated integer"),
            BencodeError::InvalidInteger => String::from_str("invalid integer value"),
            BencodeError::UnterminatedLength => String::from_str("unterminated byte string length"),
            BencodeError::ExpectedColon => String::from_str("expected ':' after byte string length"),
            BencodeError::InvalidLength => String::from_str("invalid byte string length"),
            BencodeError::LengthExceedsInput => String::from_str("byte string length exceeds input"),
            BencodeError::UnexpectedByte { expected, found, pos } => {
                let mut s = String::from_str("expected ");
                append_quoted_char(&mut s, *expected);
                let t = with_decimal(" at byte ", *pos as u64);
                s.append(t.as_str());
                s.append(", found ");
                append_quoted_char(&mut s, *found);
                s
            },
            BencodeError::TrailingData { pos } => with_decimal("unexpected trailing data at byte ", *pos as u64),
        }
    }
}

} // verus!
