//! Content hashing: SHA-256 of a file's bytes, rendered as lowercase hex.

use vstd::prelude::*;
use sha2::Digest;

verus! {

/// The SHA-256 digest (32 bytes) of a byte sequence. The digest function is
/// far too long to state here; this name stands for it, and `sha256_digest`
/// below is the only producer of it.
pub uninterp spec fn sha256_of(bytes: Seq<u8>) -> Seq<u8>;

/// Relies on sha2::Sha256 through sha2::Digest::{new, update, finalize}:
/// the digest depends on the input bytes alone and is always 32 bytes long.
#[verifier::external_body]
fn sha256_digest(bytes: &Vec<u8>) -> (r: Vec<u8>)
    ensures
        r@ == sha256_of(bytes@),
        r@.len() == 32,
{
    let mut hasher = sha2::Sha256::new();
    hasher.update(bytes.as_slice());
    hasher.finalize().to_vec()
}

/// The ASCII code of the lowercase hex digit for a value below 16.
pub open spec fn hex_digit(n: u8) -> u8
    recommends
        n < 16,
{
    if n < 10 {
        (0x30 + n) as u8
    } else {
        (0x61 + (n - 10)) as u8
    }
}

/// A byte sequence rendered as lowercase hex, two digits per byte,
/// as a character sequence.
pub open spec fn hex_of(bytes: Seq<u8>) -> Seq<char>
    decreases bytes.len(),
{
    if bytes.len() == 0 {
        Seq::<char>::empty()
    } else {
        seq![hex_digit(bytes[0] / 16) as char, hex_digit(bytes[0] % 16) as char]
            + hex_of(bytes.skip(1))
    }
}

/// The lowercase hex SHA-256 digest of a byte sequence: what the content
/// hasher returns and what every `hash` field of a live file entry holds.
pub open spec fn sha256_hex(bytes: Seq<u8>) -> Seq<char> {
    hex_of(sha256_of(bytes))
}

/// A sequence of ASCII bytes read as characters, one per byte.
pub open spec fn chars_of_ascii(bytes: Seq<u8>) -> Seq<char> {
    bytes.map(|i: int, b: u8| b as char)
}

proof fn lemma_hex_of_push(bytes: Seq<u8>, b: u8)
    ensures
        hex_of(bytes.push(b)) == hex_of(bytes) + seq![
            hex_digit(b / 16) as char,
            hex_digit(b % 16) as char,
        ],
    decreases bytes.len(),
{
    let pair = seq![hex_digit(b / 16) as char, hex_digit(b % 16) as char];
    if bytes.len() == 0 {
        let s = bytes.push(b);
        assert(s.skip(1) =~= Seq::<u8>::empty());
        assert(hex_of(Seq::<u8>::empty()) =~= Seq::<char>::empty());
        assert(s[0] == b);
        assert(hex_of(s) == seq![hex_digit(s[0] / 16) as char, hex_digit(s[0] % 16) as char]
            + hex_of(s.skip(1)));
        assert(hex_of(s) =~= hex_of(bytes) + pair);
    } else {
        assert(bytes.push(b).skip(1) =~= bytes.skip(1).push(b));
        lemma_hex_of_push(bytes.skip(1), b);
        assert(bytes.push(b)[0] == bytes[0]);
        assert(hex_of(bytes.push(b)) =~= hex_of(bytes) + pair);
    }
}

/// Hash a file's contents: the SHA-256 digest of the bytes, lowercase hex,
/// no separators. Reading the file itself is the caller's business; the
/// hash is a function of the bytes alone.
pub fn calculate_file_hash(contents: &Vec<u8>) -> (r: String)
    ensures
        r@ == sha256_hex(contents@),
{
    let digest = sha256_digest(contents);
    let mut out: Vec<u8> = Vec::new();
    let mut i: usize = 0;
    proof {
        assert(digest@.take(0int) =~= Seq::<u8>::empty());
        assert(hex_of(Seq::<u8>::empty()) =~= Seq::<char>::empty());
        assert(chars_of_ascii(out@) =~= Seq::<char>::empty());
    }
    while i < digest.len()
        invariant
            i <= digest.len(),
            out@.len() == 2 * i,
            forall|j: int| 0 <= j < out@.len() ==> out@[j] < 0x80,
            chars_of_ascii(out@) == hex_of(digest@.take(i as int)),
        decreases digest.len() - i,
    {
        let b = digest[i];
        let hi = b / 16;
        let lo = b % 16;
        let hi_d = if hi < 10 { 0x30 + hi } else { 0x61 + (hi - 10) };
        let lo_d = if lo < 10 { 0x30 + lo } else { 0x61 + (lo - 10) };
        out.push(hi_d);
        out.push(lo_d);
        proof {
            assert(hi_d == hex_digit(b / 16));
            assert(lo_d == hex_digit(b % 16));
            lemma_hex_of_push(digest@.take(i as int), b);
            assert(digest@.take(i + 1) =~= digest@.take(i as int).push(b));
            assert(chars_of_ascii(out@) =~= hex_of(digest@.take(i + 1)));
        }
        i = i + 1;
    }
    proof {
        assert(digest@.take(digest@.len() as int) =~= digest@);
    }
    let r = ascii_bytes_to_string(out);
    r
}

/// Turn a vector of ASCII bytes into the string of those characters.
/// Relies on String::from_utf8: ASCII bytes are valid UTF-8 and decode to
/// themselves, one character per byte.
#[verifier::external_body]
pub(crate) fn ascii_bytes_to_string(bytes: Vec<u8>) -> (r: String)
    requires
        forall|i: int| 0 <= i < bytes@.len() ==> bytes@[i] < 0x80,
    ensures
        r@ == chars_of_ascii(bytes@),
{
    String::from_utf8(bytes).unwrap_or_default()
}

} // verus!
