//! Plain-text acknowledgements `ACK:<seq>`, which confirm a reliable packet.

use vstd::prelude::*;
use crate::text::{decimal, digit_char, push_decimal, string_from_chars};
use vstd::utf8::{decode_utf8, encode_utf8, is_ascii_chars, valid_utf8};

verus! {

/// What an incoming datagram is as an acknowledgement.
#[derive(Debug, Clone, Copy, PartialEq, Eq, Structural)]
pub enum AckParse {
    /// Not UTF-8 text starting with `ACK:`: the datagram is a packet.
    NotAck,
    /// UTF-8 text starting with `ACK:`, with the sequence number that follows
    /// it when that is a decimal `u32`, surrounded by whitespace or not.
    Ack(Option<u32>),
}

/// Unicode White_Space, as `char::is_whitespace` and `str::trim` use it.
pub open spec fn is_whitespace(c: char) -> bool {
    ||| '\u{9}' <= c <= '\u{d}'
    ||| c == ' '
    ||| c == '\u{85}'
    ||| c == '\u{a0}'
    ||| c == '\u{1680}'
    ||| '\u{2000}' <= c <= '\u{200a}'
    ||| c == '\u{2028}'
    ||| c == '\u{2029}'
    ||| c == '\u{202f}'
    ||| c == '\u{205f}'
    ||| c == '\u{3000}'
}

/// `s` without its leading whitespace.
pub open spec fn trim_start_ws(s: Seq<char>) -> Seq<char>
    decreases s.len(),
{
    if s.len() > 0 && is_whitespace(s[0]) {
        trim_start_ws(s.drop_first())
    } else {
        s
    }
}

/// `s` without its trailing whitespace.
pub open spec fn trim_end_ws(s: Seq<char>) -> Seq<char>
    decreases s.len(),
{
    if s.len() > 0 && is_whitespace(s.last()) {
        trim_end_ws(s.drop_last())
    } else {
        s
    }
}

/// `s` without leading and trailing whitespace, as `str::trim` gives it.
pub open spec fn trim_ws(s: Seq<char>) -> Seq<char> {
    trim_end_ws(trim_start_ws(s))
}

/// Whether `c` is an ASCII decimal digit.
pub open spec fn is_digit(c: char) -> bool {
    '0' <= c <= '9'
}

/// The value of a string of decimal digits.
pub open spec fn digits_value(s: Seq<char>) -> nat
    decreases s.len(),
{
    if s.len() == 0 {
        0
    } else {
        digits_value(s.drop_last()) * 10 + ((s.last() as int - '0' as int) as nat)
    }
}

/// `s` without a leading `+`, if it has one.
pub open spec fn strip_plus(s: Seq<char>) -> Seq<char> {
    if s.len() > 0 && s[0] == '+' {
        s.drop_first()
    } else {
        s
    }
}

/// Whether every character of `s` is an ASCII digit.
pub open spec fn all_digits(s: Seq<char>) -> bool {
    forall|i: int| 0 <= i < s.len() ==> is_digit(#[trigger] s[i])
}

/// A `u32` in decimal, as `str::parse::<u32>` reads it: an optional `+`, then
/// one or more ASCII digits, of a value that fits.
pub open spec fn parse_u32_text(s: Seq<char>) -> Option<u32> {
    let digits = strip_plus(s);
    if digits.len() > 0 && all_digits(digits) && digits_value(digits) <= u32::MAX {
        Some(digits_value(digits) as u32)
    } else {
        None
    }
}

/// Whether bytes begin with `ACK:`.
pub open spec fn starts_with_ack(raw: Seq<u8>) -> bool {
    raw.len() >= 4 && raw[0] == 65 && raw[1] == 67 && raw[2] == 75 && raw[3] == 58
}

/// What a datagram is as an acknowledgement.
pub open spec fn ack_of(raw: Seq<u8>) -> AckParse {
    if valid_utf8(raw) && starts_with_ack(raw) {
        AckParse::Ack(parse_u32_text(trim_ws(decode_utf8(raw.skip(4)))))
    } else {
        AckParse::NotAck
    }
}

/// Reads `bytes` as UTF-8 text (`std::str::from_utf8`). The contract claims
/// success exactly on valid UTF-8, with the text that the bytes encode.
#[verifier::external_body]
fn utf8_text(bytes: &[u8]) -> (r: Option<&str>)
    ensures
        r is Some <==> valid_utf8(bytes@),
        r matches Some(s) ==> s@ == decode_utf8(bytes@),
{
    std::str::from_utf8(bytes).ok()
}

/// A valid UTF-8 sequence that starts with an ASCII byte decodes to that
/// character followed by the decoding of the rest.
proof fn lemma_decode_ascii_head(b: Seq<u8>)
    requires
        valid_utf8(b),
        b.len() > 0,
        b[0] <= 0x7f,
    ensures
        valid_utf8(b.drop_first()),
        decode_utf8(b) == seq![b[0] as u32 as char] + decode_utf8(b.drop_first()),
{
    let b0 = b[0];
    assert((b0 & 0x7f) as u32 == b0 as u32) by (bit_vector)
        requires
            b0 <= 0x7f,
    ;
    assert(vstd::utf8::decode_first_scalar(b) == b0 as u32);
    assert(vstd::utf8::pop_first_scalar(b) =~= b.drop_first());
}

fn chars_of(s: &str) -> (v: Vec<char>)
    ensures
        v@ == s@,
{
    let mut v: Vec<char> = Vec::new();
    for c in it: s.chars()
        invariant
            v@ == it.seq().take(it.index() as int),
    {
        v.push(c);
    }
    v
}

fn char_is_whitespace(c: char) -> (r: bool)
    ensures
        r == is_whitespace(c),
{
    ('\u{9}' <= c && c <= '\u{d}') || c == ' ' || c == '\u{85}' || c == '\u{a0}' || c == '\u{1680}'
        || ('\u{2000}' <= c && c <= '\u{200a}') || c == '\u{2028}' || c == '\u{2029}' || c
        == '\u{202f}' || c == '\u{205f}' || c == '\u{3000}'
}

/// The bounds `[start, end)` of `s` without leading and trailing whitespace.
fn trim_bounds(s: &Vec<char>) -> (r: (usize, usize))
    ensures
        r.0 <= r.1 <= s@.len(),
        s@.subrange(r.0 as int, r.1 as int) == trim_ws(s@),
{
    let len = s.len();
    let mut i: usize = 0;
    assert(s@.subrange(0, len as int) =~= s@);
    while i < len && char_is_whitespace(s[i])
        invariant
            i <= len == s@.len(),
            trim_start_ws(s@) == trim_start_ws(s@.subrange(i as int, len as int)),
        decreases len - i,
    {
        assert(s@.subrange(i as int, len as int).drop_first() =~= s@.subrange(i + 1, len as int));
        i = i + 1;
    }
    assert(trim_start_ws(s@) == s@.subrange(i as int, len as int));
    let mut j: usize = len;
    while j > i && char_is_whitespace(s[j - 1])
        invariant
            i <= j <= len == s@.len(),
            trim_ws(s@) == trim_end_ws(s@.subrange(i as int, j as int)),
        decreases j,
    {
        assert(s@.subrange(i as int, j as int).drop_last() =~= s@.subrange(i as int, j - 1));
        j = j - 1;
    }
    (i, j)
}

/// The value of a digit string only grows as digits are appended.
proof fn lemma_digits_value_prefix(s: Seq<char>, k: int)
    requires
        0 <= k <= s.len(),
        forall|i: int| 0 <= i < s.len() ==> is_digit(#[trigger] s[i]),
    ensures
        digits_value(s.subrange(0, k)) <= digits_value(s),
    decreases s.len() - k,
{
    if k < s.len() {
        lemma_digits_value_prefix(s, k + 1);
        assert(s.subrange(0, k + 1).drop_last() =~= s.subrange(0, k));
    } else {
        assert(s.subrange(0, k) =~= s);
    }
}

/// Reads `s[start..end]` as `str::parse::<u32>` does.
fn parse_u32_chars(s: &Vec<char>, start: usize, end: usize) -> (r: Option<u32>)
    requires
        start <= end <= s@.len(),
    ensures
        r == parse_u32_text(s@.subrange(start as int, end as int)),
{
    let ghost t = s@.subrange(start as int, end as int);
    let mut k = start;
    if k < end && s[k] == '+' {
        k = k + 1;
    }
    let ghost digits = s@.subrange(k as int, end as int);
    assert(digits =~= strip_plus(t));
    if k == end {
        assert(digits.len() == 0);
        return None;
    }
    let mut all_digits = true;
    let mut i = k;
    while i < end
        invariant
            k <= i <= end <= s@.len(),
            digits == s@.subrange(k as int, end as int),
            all_digits == (forall|m: int| k <= m < i ==> is_digit(#[trigger] s@[m])),
        decreases end - i,
    {
        if !('0' <= s[i] && s[i] <= '9') {
            all_digits = false;
        }
        i = i + 1;
    }
    if !all_digits {
        assert(!(forall|m: int| 0 <= m < digits.len() ==> is_digit(#[trigger] digits[m]))) by {
            let m = choose|m: int| k <= m < end && !is_digit(#[trigger] s@[m]);
            assert(digits[m - k] == s@[m]);
        }
        return None;
    }
    assert(forall|m: int| 0 <= m < digits.len() ==> is_digit(#[trigger] digits[m])) by {
        assert forall|m: int| 0 <= m < digits.len() implies is_digit(#[trigger] digits[m]) by {
            assert(digits[m] == s@[k + m]);
        }
    }
    let mut v: u32 = 0;
    let mut i = k;
    while i < end
        invariant
            k <= i <= end <= s@.len(),
            digits == s@.subrange(k as int, end as int),
            forall|m: int| 0 <= m < digits.len() ==> is_digit(#[trigger] digits[m]),
            v == digits_value(digits.subrange(0, i - k)),
            digits == strip_plus(t),
            t == s@.subrange(start as int, end as int),
        decreases end - i,
    {
        assert(digits[i - k] == s@[i as int]);
        assert(is_digit(digits[i - k]));
        let d = (s[i] as u32) - ('0' as u32);
        assert(digits.subrange(0, i - k + 1).drop_last() =~= digits.subrange(0, i - k));
        if v > (u32::MAX - d) / 10 {
            proof {
                lemma_digits_value_prefix(digits, i - k + 1);
                assert(digits_value(digits.subrange(0, i - k + 1)) == v * 10 + d);
                assert(v * 10 + d > u32::MAX) by (nonlinear_arith)
                    requires
                        v > (u32::MAX - d) / 10,
                        d < 10,
                ;
            }
            return None;
        }
        v = v * 10 + d;
        i = i + 1;
    }
    assert(digits.subrange(0, end - k) =~= digits);
    Some(v)
}

/// Reads a datagram as an acknowledgement: UTF-8 text that starts with `ACK:`
/// is one, whether or not a sequence number follows.
pub fn parse_ack(raw: &[u8]) -> (r: AckParse)
    ensures
        r == ack_of(raw@),
{
    let text = match utf8_text(raw) {
        None => return AckParse::NotAck,
        Some(text) => text,
    };
    if raw.len() < 4 || raw[0] != 65u8 || raw[1] != 67u8 || raw[2] != 75u8 || raw[3] != 58u8 {
        return AckParse::NotAck;
    }
    let chars = chars_of(text);
    proof {
        let b = raw@;
        lemma_decode_ascii_head(b);
        lemma_decode_ascii_head(b.drop_first());
        lemma_decode_ascii_head(b.drop_first().drop_first());
        lemma_decode_ascii_head(b.drop_first().drop_first().drop_first());
        assert(b.drop_first().drop_first().drop_first().drop_first() =~= b.skip(4));
        assert(chars@.skip(4) =~= decode_utf8(b.skip(4)));
    }
    let tail = vstd::slice::slice_to_vec(vstd::slice::slice_subrange(chars.as_slice(), 4, chars.len()));
    assert(tail@ =~= decode_utf8(raw@.skip(4)));
    let (start, end) = trim_bounds(&tail);
    AckParse::Ack(parse_u32_chars(&tail, start, end))
}

/// The text of the acknowledgement of packet `seq`: `ACK:` and the number in
/// decimal.
pub open spec fn ack_chars(seq: u32) -> Seq<char> {
    seq!['A', 'C', 'K', ':'] + decimal(seq as nat)
}

/// The acknowledgement of packet `seq`, `ACK:<seq>`.
pub fn ack_text(seq: u32) -> (text: String)
    ensures
        text@ == ack_chars(seq),
{
    let mut out: Vec<char> = Vec::new();
    out.push('A');
    out.push('C');
    out.push('K');
    out.push(':');
    push_decimal(&mut out, seq as u64);
    assert(out@ =~= ack_chars(seq));
    string_from_chars(out)
}

/// The decimal digits of `n` are one or more ASCII digits worth `n`.
pub proof fn lemma_decimal_digits(n: nat)
    ensures
        decimal(n).len() > 0,
        all_digits(decimal(n)),
        digits_value(decimal(n)) == n,
    decreases n,
{
    let ds = seq!['0', '1', '2', '3', '4', '5', '6', '7', '8', '9'];
    assert(forall|d: int| 0 <= d < 10 ==> is_digit(#[trigger] ds[d]) && ds[d] as int - '0' as int
        == d) by {
        assert forall|d: int| 0 <= d < 10 implies is_digit(#[trigger] ds[d]) && ds[d] as int
            - '0' as int == d by {
            if d == 0 {} else if d == 1 {} else if d == 2 {} else if d == 3 {} else if d == 4 {
            } else if d == 5 {} else if d == 6 {} else if d == 7 {} else if d == 8 {} else {}
        }
    }
    if n < 10 {
        assert(ds[n as int] as int - '0' as int == n);
        assert(decimal(n).drop_last() =~= Seq::<char>::empty());
        assert(digits_value(Seq::<char>::empty()) == 0);
        assert(decimal(n).last() == ds[n as int]);
    } else {
        lemma_decimal_digits(n / 10);
        let s = decimal(n);
        assert(s.drop_last() =~= decimal(n / 10));
        assert(s.last() == digit_char((n % 10) as int));
        assert(ds[(n % 10) as int] as int - '0' as int == n % 10);
        assert(digits_value(s) == digits_value(decimal(n / 10)) * 10 + (n % 10));
        assert((n / 10) * 10 + n % 10 == n);
        assert(all_digits(s)) by {
            assert forall|i: int| 0 <= i < s.len() implies is_digit(#[trigger] s[i]) by {
                if i < s.len() - 1 {
                    assert(s[i] == decimal(n / 10)[i]);
                }
            }
        }
    }
}

/// Bytes that encode ASCII characters and start with the four characters
/// `ACK:` start with the bytes of `ACK:`, and what follows them encodes the
/// rest of the characters.
proof fn lemma_ack_bytes(cs: Seq<char>)
    requires
        is_ascii_chars(cs),
        cs.len() >= 4,
        cs[0] == 'A' && cs[1] == 'C' && cs[2] == 'K' && cs[3] == ':',
    ensures
        starts_with_ack(encode_utf8(cs)),
        encode_utf8(cs).skip(4) == encode_utf8(cs.skip(4)),
{
    let b = encode_utf8(cs);
    let rest = cs.skip(4);
    vstd::utf8::is_ascii_chars_encode_utf8(cs);
    assert(is_ascii_chars(rest)) by {
        assert forall|i: int| 0 <= i < rest.len() implies '\0' <= #[trigger] rest[i] <= '\u{7f}' by {
            assert(rest[i] == cs[i + 4]);
        }
    }
    vstd::utf8::is_ascii_chars_encode_utf8(rest);
    assert(b[0] == 'A' as u8 && b[1] == 'C' as u8 && b[2] == 'K' as u8 && b[3] == ':' as u8);
    assert(b.skip(4) =~= encode_utf8(rest)) by {
        assert forall|i: int| 0 <= i < rest.len() implies b.skip(4)[i] == encode_utf8(rest)[i] by {
            assert(rest[i] == cs[i + 4]);
        }
    }
}

/// The acknowledgement of packet `seq`, as the server sends it, reads back as
/// an acknowledgement of `seq`.
pub proof fn lemma_ack_roundtrip(seq: u32)
    ensures
        ack_of(encode_utf8(ack_chars(seq))) == AckParse::Ack(Some(seq)),
{
    let cs = ack_chars(seq);
    let ds = decimal(seq as nat);
    lemma_decimal_digits(seq as nat);
    assert(is_ascii_chars(cs)) by {
        assert forall|i: int| 0 <= i < cs.len() implies '\0' <= #[trigger] cs[i] <= '\u{7f}' by {
            if i >= 4 {
                assert(cs[i] == ds[i - 4]);
                assert(is_digit(ds[i - 4]));
            }
        }
    }
    lemma_ack_bytes(cs);
    vstd::utf8::encode_utf8_valid_utf8(cs);
    assert(cs.skip(4) =~= ds);
    vstd::utf8::encode_utf8_decode_utf8(ds);
    assert(is_digit(ds[0]) && is_digit(ds.last()));
    assert(trim_start_ws(ds) == ds);
    assert(trim_end_ws(ds) == ds);
    assert(strip_plus(ds) == ds);
}

} // verus!
