//! Byte-level primitives of the wire codec: JSON string escaping, decimal
//! numbers, and exact-literal matching, each with a total specification
//! parser and an executable counterpart proved against it.
//!
//! The grammar is the compact JSON the encoder in `codec` produces: no
//! whitespace, strings escaped with `\"`, `\\` and `\u00XX` for control
//! characters, and everything else carried as raw UTF-8 bytes.

use vstd::prelude::*;
use vstd::utf8::{
    decode_utf8, encode_utf8, is_continuation_byte, is_leading_byte_width_1,
    is_leading_byte_width_2, is_leading_byte_width_3, is_leading_byte_width_4, pop_first_scalar,
    take_first_scalar, valid_first_scalar, valid_utf8, valid_utf8_concat,
};
use crate::hash::hex_digit;

verus! {

/// Why a frame could not be decoded.
#[derive(PartialEq, Eq, Structural, Debug, Clone, Copy)]
pub enum DecodeError {
    /// Fewer than four bytes: no length prefix.
    TruncatedLength,
    /// The buffer is shorter than the declared length.
    TruncatedBody,
    /// The body is not valid UTF-8.
    InvalidUtf8,
    /// The body is not a message of the expected shape.
    Malformed,
}

pub const QUOTE: u8 = 0x22;
pub const BACKSLASH: u8 = 0x5C;

/// The escape of one byte inside a JSON string: quote and backslash get a
/// backslash escape, control bytes become `\u00XX`, everything else stands
/// for itself. Bytes of multi-byte UTF-8 characters are all at least 0x80
/// and pass through untouched.
pub open spec fn esc_byte(b: u8) -> Seq<u8> {
    if b == 0x22 {
        seq![0x5C, 0x22]
    } else if b == 0x5C {
        seq![0x5C, 0x5C]
    } else if b < 0x20 {
        seq![0x5C, 0x75, 0x30, 0x30, hex_digit(b / 16), hex_digit(b % 16)]
    } else {
        seq![b]
    }
}

/// Bytewise escaping of a whole string body.
pub open spec fn esc_bytes(s: Seq<u8>) -> Seq<u8>
    decreases s.len(),
{
    if s.len() == 0 {
        Seq::<u8>::empty()
    } else {
        esc_byte(s[0]) + esc_bytes(s.skip(1))
    }
}

/// A JSON string literal holding the given raw bytes.
pub open spec fn jstr_raw(raw: Seq<u8>) -> Seq<u8> {
    seq![QUOTE] + esc_bytes(raw) + seq![QUOTE]
}

/// A JSON string literal holding the given characters, carried as UTF-8.
pub open spec fn jstr(s: Seq<char>) -> Seq<u8> {
    jstr_raw(encode_utf8(s))
}

/// The decimal digits of a number, most significant first.
pub open spec fn dec_of(n: u64) -> Seq<u8>
    decreases n,
{
    if n < 10 {
        seq![(0x30 + n) as u8]
    } else {
        dec_of(n / 10).push((0x30 + n % 10) as u8)
    }
}

pub open spec fn is_digit(b: u8) -> bool {
    0x30 <= b <= 0x39
}

pub open spec fn is_hex(b: u8) -> bool {
    (0x30 <= b <= 0x39) || (0x61 <= b <= 0x66)
}

/// The value of a hex digit byte (lowercase letters only).
pub open spec fn hex_val(b: u8) -> u8 {
    if 0x30 <= b <= 0x39 {
        (b - 0x30) as u8
    } else {
        (b - 0x61 + 10) as u8
    }
}

/// The specification parser for a JSON string body: everything after the
/// opening quote. Returns the unescaped raw bytes and the input after the
/// closing quote, or nothing if the input is not a well-formed string body.
pub open spec fn sp_string_body(t: Seq<u8>) -> Option<(Seq<u8>, Seq<u8>)>
    decreases t.len(),
{
    if t.len() == 0 {
        None
    } else if t[0] == QUOTE {
        Some((Seq::<u8>::empty(), t.skip(1)))
    } else if t[0] == BACKSLASH {
        if t.len() < 2 {
            None
        } else if t[1] == QUOTE || t[1] == BACKSLASH {
            match sp_string_body(t.skip(2)) {
                Some((raw, rest)) => Some((seq![t[1]] + raw, rest)),
                None => None,
            }
        } else if t[1] == 0x75 {
            if t.len() < 6 || !(is_hex(t[2]) && is_hex(t[3]) && is_hex(t[4]) && is_hex(t[5])) {
                None
            } else {
                let v = hex_val(t[2]) as int * 4096 + hex_val(t[3]) as int * 256 + hex_val(
                    t[4],
                ) as int * 16 + hex_val(t[5]) as int;
                if v < 0x80 {
                    match sp_string_body(t.skip(6)) {
                        Some((raw, rest)) => Some((seq![v as u8] + raw, rest)),
                        None => None,
                    }
                } else {
                    None
                }
            }
        } else {
            None
        }
    } else if t[0] >= 0x20 {
        match sp_string_body(t.skip(1)) {
            Some((raw, rest)) => Some((seq![t[0]] + raw, rest)),
            None => None,
        }
    } else {
        None
    }
}

/// A full JSON string: an opening quote, then a string body.
pub open spec fn sp_jstring(t: Seq<u8>) -> Option<(Seq<u8>, Seq<u8>)> {
    if t.len() > 0 && t[0] == QUOTE {
        sp_string_body(t.skip(1))
    } else {
        None
    }
}

/// The specification parser for a digit run: consumes digits, accumulating
/// their value, and returns the value with the rest of the input.
pub open spec fn sp_digits(t: Seq<u8>, acc: nat) -> (nat, Seq<u8>)
    decreases t.len(),
{
    if t.len() > 0 && is_digit(t[0]) {
        sp_digits(t.skip(1), acc * 10 + (t[0] - 0x30) as nat)
    } else {
        (acc, t)
    }
}

/// The specification parser for a decimal `u64`: at least one digit, and a
/// value that fits.
pub open spec fn sp_u64(t: Seq<u8>) -> Option<(u64, Seq<u8>)> {
    if t.len() > 0 && is_digit(t[0]) {
        let (v, rest) = sp_digits(t, 0);
        if v <= u64::MAX {
            Some((v as u64, rest))
        } else {
            None
        }
    } else {
        None
    }
}

/// Strip an exact byte prefix.
pub open spec fn strip(t: Seq<u8>, pre: Seq<u8>) -> Option<Seq<u8>> {
    if pre.len() <= t.len() && t.take(pre.len() as int) == pre {
        Some(t.skip(pre.len() as int))
    } else {
        None
    }
}

pub proof fn lemma_strip_concat(pre: Seq<u8>, rest: Seq<u8>)
    ensures
        strip(pre + rest, pre) == Some(rest),
{
    assert((pre + rest).take(pre.len() as int) =~= pre);
    assert((pre + rest).skip(pre.len() as int) =~= rest);
}

pub proof fn lemma_esc_bytes_concat(a: Seq<u8>, b: Seq<u8>)
    ensures
        esc_bytes(a + b) == esc_bytes(a) + esc_bytes(b),
    decreases a.len(),
{
    if a.len() == 0 {
        assert(a + b =~= b);
        assert(esc_bytes(a) =~= Seq::<u8>::empty());
        assert(esc_bytes(a) + esc_bytes(b) =~= esc_bytes(b));
    } else {
        assert((a + b).skip(1) =~= a.skip(1) + b);
        lemma_esc_bytes_concat(a.skip(1), b);
        assert((a + b)[0] == a[0]);
        assert(esc_bytes(a + b) =~= esc_bytes(a) + esc_bytes(b));
    }
}

pub proof fn lemma_esc_bytes_push(s: Seq<u8>, b: u8)
    ensures
        esc_bytes(s.push(b)) == esc_bytes(s) + esc_byte(b),
{
    assert(s.push(b) =~= s + seq![b]);
    lemma_esc_bytes_concat(s, seq![b]);
    assert(seq![b].skip(1) =~= Seq::<u8>::empty());
    assert(esc_bytes(Seq::<u8>::empty()) =~= Seq::<u8>::empty());
    assert(esc_bytes(seq![b]) == esc_byte(seq![b][0]) + esc_bytes(seq![b].skip(1)));
    assert(esc_bytes(seq![b]) =~= esc_byte(b));
}

/// The value a hex digit encodes comes back out.
pub proof fn lemma_hex_digit_val(x: u8)
    requires
        x < 16,
    ensures
        is_hex(hex_digit(x)),
        hex_val(hex_digit(x)) == x,
{
}

/// Parsing an escaped string body finds exactly the original raw bytes and
/// stops at the closing quote.
pub proof fn lemma_sp_string_body_of_escaped(raw: Seq<u8>, rest: Seq<u8>)
    ensures
        sp_string_body(esc_bytes(raw) + seq![QUOTE] + rest) == Some((raw, rest)),
    decreases raw.len(),
{
    let t = esc_bytes(raw) + seq![QUOTE] + rest;
    if raw.len() == 0 {
        assert(esc_bytes(raw) =~= Seq::<u8>::empty());
        assert(t =~= seq![QUOTE] + rest);
        assert(t[0] == QUOTE);
        assert(t.skip(1) =~= rest);
        assert(sp_string_body(t) == Some((Seq::<u8>::empty(), rest)));
        assert(raw =~= Seq::<u8>::empty());
    } else {
        let b = raw[0];
        let raw2 = raw.skip(1);
        lemma_sp_string_body_of_escaped(raw2, rest);
        let t2 = esc_bytes(raw2) + seq![QUOTE] + rest;
        assert(esc_bytes(raw) == esc_byte(b) + esc_bytes(raw2));
        assert(t =~= esc_byte(b) + t2);
        if b == 0x22 || b == 0x5C {
            assert(t[0] == BACKSLASH && t[1] == b);
            assert(t.skip(2) =~= t2);
            assert(sp_string_body(t) == Some((seq![b] + raw2, rest)));
            assert(seq![b] + raw2 =~= raw);
        } else if b < 0x20 {
            lemma_hex_digit_val(b / 16);
            lemma_hex_digit_val(b % 16);
            assert(t[0] == BACKSLASH && t[1] == 0x75);
            assert(t[2] == 0x30 && t[3] == 0x30);
            assert(t[4] == hex_digit(b / 16) && t[5] == hex_digit(b % 16));
            assert(t.len() >= 6);
            let v = hex_val(t[2]) as int * 4096 + hex_val(t[3]) as int * 256 + hex_val(
                t[4],
            ) as int * 16 + hex_val(t[5]) as int;
            assert(v == (b / 16) as int * 16 + (b % 16) as int);
            assert(v == b as int);
            assert(t.skip(6) =~= t2);
            assert(sp_string_body(t) == Some((seq![v as u8] + raw2, rest)));
            assert(seq![v as u8] + raw2 =~= raw);
        } else {
            assert(t[0] == b);
            assert(b != QUOTE && b != BACKSLASH && b >= 0x20);
            assert(t.skip(1) =~= t2);
            assert(sp_string_body(t) == Some((seq![b] + raw2, rest)));
            assert(seq![b] + raw2 =~= raw);
        }
    }
}

/// A successful string-body parse consumes at least one byte.
pub proof fn lemma_sp_string_body_len(t: Seq<u8>)
    requires
        sp_string_body(t) is Some,
    ensures
        (sp_string_body(t)->0).1.len() < t.len(),
    decreases t.len(),
{
    if t[0] == QUOTE {
    } else if t[0] == BACKSLASH {
        if t[1] == QUOTE || t[1] == BACKSLASH {
            lemma_sp_string_body_len(t.skip(2));
        } else {
            lemma_sp_string_body_len(t.skip(6));
        }
    } else {
        lemma_sp_string_body_len(t.skip(1));
    }
}

/// All bytes below 0x80 form valid UTF-8.
pub proof fn lemma_ascii_bytes_valid(s: Seq<u8>)
    requires
        forall|i: int| 0 <= i < s.len() ==> s[i] < 0x80,
    ensures
        valid_utf8(s),
    decreases s.len(),
{
    if s.len() > 0 {
        assert(is_leading_byte_width_1(s[0]));
        assert(valid_first_scalar(s));
        assert(pop_first_scalar(s) =~= s.skip(1));
        lemma_ascii_bytes_valid(s.skip(1));
    }
}

/// Escaping preserves UTF-8 validity: escapes are ASCII runs, and the bytes
/// of multi-byte characters pass through untouched and in place.
pub proof fn lemma_esc_bytes_valid(s: Seq<u8>)
    requires
        valid_utf8(s),
    ensures
        valid_utf8(esc_bytes(s)),
    decreases s.len(),
{
    if s.len() > 0 {
        let f = take_first_scalar(s);
        let r = pop_first_scalar(s);
        assert(s =~= f + r);
        lemma_esc_bytes_concat(f, r);
        assert(r.len() < s.len());
        lemma_esc_bytes_valid(r);
        if is_leading_byte_width_1(s[0]) {
            assert(f =~= seq![s[0]]);
            assert(esc_bytes(f) == esc_byte(s[0]) + esc_bytes(f.skip(1)));
            assert(f.skip(1) =~= Seq::<u8>::empty());
            assert(esc_bytes(f) =~= esc_byte(s[0]));
            assert(forall|i: int| 0 <= i < esc_byte(s[0]).len() ==> esc_byte(s[0])[i] < 0x80);
            lemma_ascii_bytes_valid(esc_byte(s[0]));
        } else {
            // A multi-byte character: every byte is at least 0x80, so the
            // escape map leaves each of them alone.
            assert(forall|i: int| 0 <= i < f.len() ==> f[i] >= 0x80) by {
                if is_leading_byte_width_2(s[0]) {
                    assert(is_continuation_byte(s[1]));
                } else if is_leading_byte_width_3(s[0]) {
                    assert(is_continuation_byte(s[1]) && is_continuation_byte(s[2]));
                } else {
                    assert(is_leading_byte_width_4(s[0]));
                    assert(is_continuation_byte(s[1]) && is_continuation_byte(s[2])
                        && is_continuation_byte(s[3]));
                }
            }
            lemma_esc_id_high(f);
            assert(esc_bytes(f) == f);
            assert(valid_first_scalar(f)) by {
                assert(forall|i: int| 0 <= i < f.len() ==> f[i] == s[i]);
            }
            assert(pop_first_scalar(f) =~= Seq::<u8>::empty());
            assert(valid_utf8(Seq::<u8>::empty()));
            assert(valid_utf8(pop_first_scalar(f)));
            assert(valid_utf8(f));
        }
        valid_utf8_concat(esc_bytes(f), esc_bytes(r));
    }
}

/// Escaping is the identity on runs of bytes at or above 0x80.
proof fn lemma_esc_id_high(s: Seq<u8>)
    requires
        forall|i: int| 0 <= i < s.len() ==> s[i] >= 0x80,
    ensures
        esc_bytes(s) == s,
    decreases s.len(),
{
    if s.len() > 0 {
        lemma_esc_id_high(s.skip(1));
        assert(esc_byte(s[0]) =~= seq![s[0]]);
        assert(esc_bytes(s) =~= s);
    }
}

/// The digit-run parser never shrinks its accumulator.
pub proof fn lemma_sp_digits_monotone(t: Seq<u8>, acc: nat)
    ensures
        sp_digits(t, acc).0 >= acc,
    decreases t.len(),
{
    if t.len() > 0 && is_digit(t[0]) {
        lemma_sp_digits_monotone(t.skip(1), acc * 10 + (t[0] - 0x30) as nat);
    }
}

/// Consuming the printed digits of `m` multiplies the accumulator past them.
proof fn lemma_sp_digits_of_dec(m: u64, t: Seq<u8>, acc: nat)
    ensures
        sp_digits(dec_of(m) + t, acc) == sp_digits(
            t,
            acc * pow10(dec_of(m).len() as nat) + m as nat,
        ),
    decreases m,
{
    let s = dec_of(m) + t;
    if m < 10 {
        assert(dec_of(m) =~= seq![(0x30 + m) as u8]);
        assert(s[0] == (0x30 + m) as u8);
        assert(is_digit(s[0]));
        assert(s.skip(1) =~= t);
        assert(pow10(0) == 1);
        assert(pow10(1) == pow10(0) * 10);
        assert(sp_digits(s, acc) == sp_digits(t, acc * 10 + m as nat));
    } else {
        let d = (0x30 + m % 10) as u8;
        assert(dec_of(m) == dec_of(m / 10).push(d));
        assert(dec_of(m / 10).push(d) + t =~= dec_of(m / 10) + (seq![d] + t));
        lemma_sp_digits_of_dec(m / 10, seq![d] + t, acc);
        let k = dec_of(m / 10).len() as nat;
        assert(sp_digits(s, acc) == sp_digits(seq![d] + t, acc * pow10(k) + (m / 10) as nat));
        assert((seq![d] + t)[0] == d && is_digit(d));
        assert((seq![d] + t).skip(1) =~= t);
        assert(sp_digits(seq![d] + t, acc * pow10(k) + (m / 10) as nat) == sp_digits(
            t,
            (acc * pow10(k) + (m / 10) as nat) * 10 + (m % 10) as nat,
        ));
        assert(dec_of(m).len() == k + 1);
        assert(pow10(k + 1) == pow10(k) * 10);
        assert((acc * pow10(k) + (m / 10) as nat) * 10 + (m % 10) as nat == acc * (pow10(k) * 10)
            + ((m / 10) as nat * 10 + (m % 10) as nat)) by (nonlinear_arith);
        assert((m / 10) as nat * 10 + (m % 10) as nat == m as nat);
    }
}

pub open spec fn pow10(k: nat) -> nat
    decreases k,
{
    if k == 0 {
        1
    } else {
        pow10((k - 1) as nat) * 10
    }
}

/// Parsing the printed digits of `n` gives back `n`, provided the input
/// continues with something other than a digit.
pub proof fn lemma_sp_u64_of_dec(n: u64, t: Seq<u8>)
    requires
        t.len() == 0 || !is_digit(t[0]),
    ensures
        sp_u64(dec_of(n) + t) == Some((n, t)),
{
    let s = dec_of(n) + t;
    lemma_sp_digits_of_dec(n, t, 0);
    assert(sp_digits(t, 0 * pow10(dec_of(n).len() as nat) + n as nat) == (n as nat, t));
    assert(dec_of(n).len() > 0);
    assert(s[0] == dec_of(n)[0]);
    lemma_dec_of_digits(n);
    assert(is_digit(s[0]));
}

/// Every byte `dec_of` prints is a digit.
pub proof fn lemma_dec_of_digits(n: u64)
    ensures
        forall|i: int| 0 <= i < dec_of(n).len() ==> is_digit(#[trigger] dec_of(n)[i]),
        dec_of(n).len() >= 1,
    decreases n,
{
    if n >= 10 {
        lemma_dec_of_digits(n / 10);
    }
}

/// Relies on String::from_utf8: it succeeds exactly on valid UTF-8 and
/// returns the string those bytes encode.
#[verifier::external_body]
pub(crate) fn bytes_to_string(bytes: Vec<u8>) -> (r: Option<String>)
    ensures
        r is Some <==> valid_utf8(bytes@),
        r is Some ==> r->0@ == decode_utf8(bytes@),
{
    String::from_utf8(bytes).ok()
}

/// Relies on core::str::from_utf8: it succeeds exactly on valid UTF-8.
#[verifier::external_body]
pub(crate) fn utf8_check(bytes: &Vec<u8>) -> (r: bool)
    ensures
        r == valid_utf8(bytes@),
{
    core::str::from_utf8(bytes.as_slice()).is_ok()
}

/// Append the UTF-8 bytes of a fixed piece of JSON text.
pub(crate) fn emit_lit(out: &mut Vec<u8>, s: &str)
    ensures
        final(out)@ == old(out)@ + encode_utf8(s@),
{
    let ghost out0 = out@;
    let bs = s.as_bytes();
    let mut j: usize = 0;
    proof {
        assert(bs@.take(0int) =~= Seq::<u8>::empty());
        assert(out@ =~= out0 + bs@.take(0int));
    }
    while j < bs.len()
        invariant
            j <= bs@.len(),
            bs@ == encode_utf8(s@),
            out@ == out0 + bs@.take(j as int),
        decreases bs@.len() - j,
    {
        out.push(bs[j]);
        proof {
            assert(bs@.take(j + 1) =~= bs@.take(j as int).push(bs@[j as int]));
            assert(out@ =~= out0 + bs@.take(j + 1));
        }
        j = j + 1;
    }
    proof {
        assert(bs@.take(bs@.len() as int) =~= bs@);
    }
}

/// Append a JSON string literal carrying the given text.
pub(crate) fn emit_json_string(out: &mut Vec<u8>, s: &str)
    ensures
        final(out)@ == old(out)@ + jstr(s@),
{
    let ghost out0 = out@;
    out.push(QUOTE);
    let bs = s.as_bytes();
    let mut j: usize = 0;
    proof {
        assert(bs@.take(0int) =~= Seq::<u8>::empty());
        assert(esc_bytes(Seq::<u8>::empty()) =~= Seq::<u8>::empty());
        assert(out@ =~= out0 + seq![QUOTE] + esc_bytes(bs@.take(0int)));
    }
    while j < bs.len()
        invariant
            j <= bs@.len(),
            bs@ == encode_utf8(s@),
            out@ == out0 + seq![QUOTE] + esc_bytes(bs@.take(j as int)),
        decreases bs@.len() - j,
    {
        let b = bs[j];
        if b == 0x22 {
            out.push(0x5C);
            out.push(0x22);
        } else if b == 0x5C {
            out.push(0x5C);
            out.push(0x5C);
        } else if b < 0x20 {
            out.push(0x5C);
            out.push(0x75);
            out.push(0x30);
            out.push(0x30);
            let hi = b / 16;
            let lo = b % 16;
            out.push(if hi < 10 { 0x30 + hi } else { 0x61 + (hi - 10) });
            out.push(if lo < 10 { 0x30 + lo } else { 0x61 + (lo - 10) });
        } else {
            out.push(b);
        }
        proof {
            lemma_esc_bytes_push(bs@.take(j as int), b);
            assert(bs@.take(j + 1) =~= bs@.take(j as int).push(b));
            assert(out@ =~= out0 + seq![QUOTE] + esc_bytes(bs@.take(j + 1)));
        }
        j = j + 1;
    }
    out.push(QUOTE);
    proof {
        assert(bs@.take(bs@.len() as int) =~= bs@);
        assert(out@ =~= out0 + jstr(s@));
    }
}

/// Append the decimal digits of a number.
pub(crate) fn emit_u64(out: &mut Vec<u8>, n: u64)
    ensures
        final(out)@ == old(out)@ + dec_of(n),
    decreases n,
{
    if n < 10 {
        out.push(0x30 + (n as u8));
        proof {
            assert(out@ =~= old(out)@ + dec_of(n));
        }
    } else {
        emit_u64(out, n / 10);
        out.push(0x30 + ((n % 10) as u8));
        proof {
            assert(out@ =~= old(out)@ + dec_of(n));
        }
    }
}

/// Match an exact piece of JSON text at the given position.
pub(crate) fn expect_lit(buf: &Vec<u8>, pos: usize, lit: &str) -> (r: Result<
    usize,
    DecodeError,
>)
    requires
        pos <= buf@.len(),
    ensures
        ({
            let t = buf@.skip(pos as int);
            let pre = encode_utf8(lit@);
            match r {
                Ok(np) => {
                    &&& np == pos + pre.len()
                    &&& np <= buf@.len()
                    &&& strip(t, pre) == Some(buf@.skip(np as int))
                },
                Err(e) => strip(t, pre) is None && e == DecodeError::Malformed,
            }
        }),
{
    let ghost t = buf@.skip(pos as int);
    let bs = lit.as_bytes();
    let bl = buf.len();
    if bl - pos < bs.len() {
        return Err(DecodeError::Malformed);
    }
    let mut j: usize = 0;
    while j < bs.len()
        invariant
            j <= bs@.len(),
            pos + bs@.len() <= bl,
            bl == buf@.len(),
            bs@ == encode_utf8(lit@),
            t == buf@.skip(pos as int),
            forall|i: int| 0 <= i < j ==> buf@[pos + i] == bs@[i],
        decreases bs@.len() - j,
    {
        if buf[pos + j] != bs[j] {
            proof {
                assert(t.take(bs@.len() as int)[j as int] == buf@[pos + j]);
                assert(t.take(bs@.len() as int) != bs@);
            }
            return Err(DecodeError::Malformed);
        }
        j = j + 1;
    }
    proof {
        assert(t.take(bs@.len() as int) =~= bs@);
        assert(t.skip(bs@.len() as int) =~= buf@.skip(pos + bs@.len()));
    }
    Ok(pos + bs.len())
}

/// Parse a decimal `u64` at the given position.
pub(crate) fn parse_u64(buf: &Vec<u8>, pos: usize) -> (r: Result<(u64, usize), DecodeError>)
    requires
        pos <= buf@.len(),
    ensures
        ({
            let t = buf@.skip(pos as int);
            match r {
                Ok((v, np)) => {
                    &&& pos < np <= buf@.len()
                    &&& sp_u64(t) == Some((v, buf@.skip(np as int)))
                },
                Err(e) => sp_u64(t) is None && e == DecodeError::Malformed,
            }
        }),
{
    let ghost t = buf@.skip(pos as int);
    if pos >= buf.len() || !(0x30 <= buf[pos] && buf[pos] <= 0x39) {
        proof {
            if pos < buf@.len() {
                assert(t[0] == buf@[pos as int]);
            }
        }
        return Err(DecodeError::Malformed);
    }
    let mut i: usize = pos;
    let mut acc: u64 = 0;
    while i < buf.len() && 0x30 <= buf[i] && buf[i] <= 0x39
        invariant
            pos <= i <= buf@.len(),
            t == buf@.skip(pos as int),
            t.len() > 0 && is_digit(t[0]),
            sp_digits(t, 0) == sp_digits(buf@.skip(i as int), acc as nat),
        decreases buf@.len() - i,
    {
        let b = buf[i];
        let d = b - 0x30;
        proof {
            assert(buf@.skip(i as int)[0] == b && is_digit(b));
            assert(buf@.skip(i as int).skip(1) =~= buf@.skip(i + 1));
            lemma_sp_digits_monotone(buf@.skip(i + 1), acc as nat * 10 + d as nat);
        }
        if acc > (u64::MAX - (d as u64)) / 10 {
            proof {
                let m = (u64::MAX - d) as int;
                let q = m / 10;
                assert(m == 10 * q + m % 10);
                assert(acc as int * 10 >= q * 10 + 10);
                assert(acc as int * 10 + d > u64::MAX);
                assert(sp_digits(t, 0).0 > u64::MAX);
            }
            return Err(DecodeError::Malformed);
        }
        proof {
            let m = (u64::MAX - d) as int;
            let q = m / 10;
            assert(m == 10 * q + m % 10);
            assert(acc as int * 10 <= q * 10);
            assert(acc as int * 10 + d <= u64::MAX);
        }
        acc = acc * 10 + (d as u64);
        i = i + 1;
    }
    proof {
        if i < buf@.len() {
            assert(buf@.skip(i as int)[0] == buf@[i as int]);
            assert(!is_digit(buf@.skip(i as int)[0]));
        } else {
            assert(buf@.skip(i as int).len() == 0);
        }
        assert(sp_digits(buf@.skip(i as int), acc as nat) == (acc as nat, buf@.skip(i as int)));
    }
    Ok((acc, i))
}

/// Parse a JSON string at the given position, returning its text.
pub(crate) fn parse_string(buf: &Vec<u8>, pos: usize) -> (r: Result<
    (String, usize),
    DecodeError,
>)
    requires
        pos <= buf@.len(),
    ensures
        ({
            let sp = sp_jstring(buf@.skip(pos as int));
            match r {
                Ok((s, np)) => {
                    &&& pos < np <= buf@.len()
                    &&& sp is Some
                    &&& valid_utf8((sp->0).0)
                    &&& s@ == decode_utf8((sp->0).0)
                    &&& (sp->0).1 == buf@.skip(np as int)
                },
                Err(e) => sp is None || !valid_utf8((sp->0).0),
            }
        }),
{
    let ghost t = buf@.skip(pos as int);
    if pos >= buf.len() || buf[pos] != QUOTE {
        proof {
            if pos < buf@.len() {
                assert(t[0] == buf@[pos as int]);
            }
        }
        return Err(DecodeError::Malformed);
    }
    let ghost body0 = buf@.skip(pos + 1);
    proof {
        assert(t[0] == QUOTE);
        assert(t.skip(1) =~= body0);
    }
    let mut raw: Vec<u8> = Vec::new();
    let mut i: usize = pos + 1;
    while i < buf.len()
        invariant
            pos < buf@.len(),
            pos + 1 <= i <= buf@.len(),
            body0 == buf@.skip(pos + 1),
            t == buf@.skip(pos as int),
            t.len() > 0 && t[0] == QUOTE,
            sp_jstring(t) == sp_string_body(body0),
            sp_string_body(body0) == match sp_string_body(buf@.skip(i as int)) {
                Some((r2, rest)) => Some((raw@ + r2, rest)),
                None => None::<(Seq<u8>, Seq<u8>)>,
            },
        decreases buf@.len() - i,
    {
        let ghost cur = buf@.skip(i as int);
        let b = buf[i];
        proof {
            assert(cur[0] == b);
        }
        if b == QUOTE {
            proof {
                assert(sp_string_body(cur) == Some((Seq::<u8>::empty(), cur.skip(1))));
                assert(raw@ + Seq::<u8>::empty() =~= raw@);
                assert(cur.skip(1) =~= buf@.skip(i + 1));
            }
            match bytes_to_string(raw) {
                Some(s) => {
                    return Ok((s, i + 1));
                },
                None => {
                    return Err(DecodeError::InvalidUtf8);
                },
            }
        } else if b == BACKSLASH {
            if buf.len() - i < 2 {
                proof {
                    assert(cur.len() < 2);
                }
                return Err(DecodeError::Malformed);
            }
            let b2 = buf[i + 1];
            proof {
                assert(cur[1] == b2);
            }
            if b2 == QUOTE || b2 == BACKSLASH {
                proof {
                    let ghost spn = sp_string_body(buf@.skip(i + 2));
                    assert(cur.skip(2) =~= buf@.skip(i + 2));
                    if spn is Some {
                        let (r2, rest) = spn->0;
                        assert(raw@ + (seq![b2] + r2) =~= raw@.push(b2) + r2);
                    }
                }
                raw.push(b2);
                i = i + 2;
            } else if b2 == 0x75 {
                if buf.len() - i < 6 {
                    proof {
                        assert(cur.len() < 6);
                    }
                    return Err(DecodeError::Malformed);
                }
                let h2 = buf[i + 2];
                let h3 = buf[i + 3];
                let h4 = buf[i + 4];
                let h5 = buf[i + 5];
                proof {
                    assert(cur[2] == h2 && cur[3] == h3 && cur[4] == h4 && cur[5] == h5);
                }
                let ok2 = (0x30 <= h2 && h2 <= 0x39) || (0x61 <= h2 && h2 <= 0x66);
                let ok3 = (0x30 <= h3 && h3 <= 0x39) || (0x61 <= h3 && h3 <= 0x66);
                let ok4 = (0x30 <= h4 && h4 <= 0x39) || (0x61 <= h4 && h4 <= 0x66);
                let ok5 = (0x30 <= h5 && h5 <= 0x39) || (0x61 <= h5 && h5 <= 0x66);
                if !(ok2 && ok3 && ok4 && ok5) {
                    return Err(DecodeError::Malformed);
                }
                let v2 = if h2 <= 0x39 { h2 - 0x30 } else { h2 - 0x61 + 10 };
                let v3 = if h3 <= 0x39 { h3 - 0x30 } else { h3 - 0x61 + 10 };
                let v4 = if h4 <= 0x39 { h4 - 0x30 } else { h4 - 0x61 + 10 };
                let v5 = if h5 <= 0x39 { h5 - 0x30 } else { h5 - 0x61 + 10 };
                let v: u32 = (v2 as u32) * 4096 + (v3 as u32) * 256 + (v4 as u32) * 16
                    + (v5 as u32);
                if v >= 0x80 {
                    return Err(DecodeError::Malformed);
                }
                proof {
                    let ghost spn = sp_string_body(buf@.skip(i + 6));
                    assert(cur.skip(6) =~= buf@.skip(i + 6));
                    if spn is Some {
                        let (r2, rest) = spn->0;
                        assert(raw@ + (seq![(v as int) as u8] + r2) =~= raw@.push(
                            (v as int) as u8,
                        ) + r2);
                    }
                }
                raw.push(v as u8);
                i = i + 6;
            } else {
                return Err(DecodeError::Malformed);
            }
        } else if b >= 0x20 {
            proof {
                let ghost spn = sp_string_body(buf@.skip(i + 1));
                assert(cur.skip(1) =~= buf@.skip(i + 1));
                if spn is Some {
                    let (r2, rest) = spn->0;
                    assert(raw@ + (seq![b] + r2) =~= raw@.push(b) + r2);
                }
            }
            raw.push(b);
            i = i + 1;
        } else {
            return Err(DecodeError::Malformed);
        }
    }
    proof {
        assert(buf@.skip(i as int).len() == 0);
    }
    Err(DecodeError::Malformed)
}

/// Whether two pieces of text are the same, compared through their UTF-8
/// bytes.
pub fn str_eq(a: &str, b: &str) -> (r: bool)
    ensures
        r == (a@ == b@),
{
    let ab = a.as_bytes();
    let bb = b.as_bytes();
    proof {
        vstd::utf8::encode_utf8_decode_utf8(a@);
        vstd::utf8::encode_utf8_decode_utf8(b@);
    }
    if ab.len() != bb.len() {
        proof {
            if a@ == b@ {
                assert(ab@ == bb@);
            }
        }
        return false;
    }
    let mut i: usize = 0;
    while i < ab.len()
        invariant
            i <= ab@.len(),
            ab@.len() == bb@.len(),
            ab@ == encode_utf8(a@),
            bb@ == encode_utf8(b@),
            forall|j: int| 0 <= j < i ==> ab@[j] == bb@[j],
        decreases ab@.len() - i,
    {
        if ab[i] != bb[i] {
            proof {
                vstd::utf8::encode_utf8_decode_utf8(a@);
                vstd::utf8::encode_utf8_decode_utf8(b@);
                if a@ == b@ {
                    assert(ab@[i as int] == bb@[i as int]);
                }
            }
            return false;
        }
        i = i + 1;
    }
    proof {
        assert(ab@ =~= bb@);
        vstd::utf8::encode_utf8_decode_utf8(a@);
        vstd::utf8::encode_utf8_decode_utf8(b@);
        assert(decode_utf8(ab@) == decode_utf8(bb@));
    }
    true
}

} // verus!
