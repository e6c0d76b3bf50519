//! The fields of the file format: integers in little-endian order and
//! length-prefixed UTF-8 text, each with an encoder, a decoder and the proof
//! that the decoder reads back what the encoder wrote.
//!
//! A decoder takes the whole input and a position and returns the value with
//! the position behind it, or nothing if the input ends too early or does not
//! hold such a field there.

use crate::text::string_from_utf8;
use vstd::arithmetic::div_mod::lemma_fundamental_div_mod_converse;
use vstd::prelude::*;
use vstd::slice::*;
use vstd::string::*;
use vstd::utf8::*;

verus! {

/// The bytes `e` stand in `b` at position `pos`.
pub open spec fn at(b: Seq<u8>, pos: int, e: Seq<u8>) -> bool {
    0 <= pos && pos + e.len() <= b.len() && b.subrange(pos, pos + e.len()) == e
}

/// Two fields stand one behind the other exactly when their concatenation
/// stands there.
pub proof fn lemma_at_split(b: Seq<u8>, pos: int, x: Seq<u8>, y: Seq<u8>)
    ensures
        at(b, pos, x + y) <==> at(b, pos, x) && at(b, pos + x.len(), y),
{
    if at(b, pos, x + y) {
        assert(b.subrange(pos, pos + x.len()) =~= (x + y).subrange(0, x.len() as int));
        assert((x + y).subrange(0, x.len() as int) =~= x);
        assert(b.subrange(pos + x.len(), pos + x.len() + y.len()) =~= (x + y).subrange(
            x.len() as int,
            (x + y).len() as int,
        ));
        assert((x + y).subrange(x.len() as int, (x + y).len() as int) =~= y);
    }
    if at(b, pos, x) && at(b, pos + x.len(), y) {
        assert(b.subrange(pos, pos + (x + y).len()) =~= b.subrange(pos, pos + x.len())
            + b.subrange(pos + x.len(), pos + x.len() + y.len()));
    }
}

/// One byte.
pub open spec fn dec_u8(b: Seq<u8>, pos: int) -> Option<(u8, int)> {
    if 0 <= pos < b.len() {
        Some((b[pos], pos + 1))
    } else {
        None
    }
}

/// A 32-bit value, least significant byte first.
#[verifier::opaque]
pub open spec fn enc_u32(x: u32) -> Seq<u8> {
    seq![
        (x % 256) as u8,
        ((x / 256) % 256) as u8,
        ((x / 65536) % 256) as u8,
        ((x / 16777216) % 256) as u8,
    ]
}

/// The 32-bit value of four bytes, least significant first.
pub open spec fn u32_of(b0: u8, b1: u8, b2: u8, b3: u8) -> u32 {
    (b0 as int + 256 * (b1 as int) + 65536 * (b2 as int) + 16777216 * (b3 as int)) as u32
}

/// Reads a 32-bit value at `pos`.
#[verifier::opaque]
pub open spec fn dec_u32(b: Seq<u8>, pos: int) -> Option<(u32, int)> {
    if 0 <= pos && pos + 4 <= b.len() {
        Some((u32_of(b[pos], b[pos + 1], b[pos + 2], b[pos + 3]), pos + 4))
    } else {
        None
    }
}

/// A 64-bit value, least significant byte first: its lower half, then its
/// upper half.
#[verifier::opaque]
pub open spec fn enc_u64(x: u64) -> Seq<u8> {
    enc_u32((x % 4294967296) as u32) + enc_u32((x / 4294967296) as u32)
}

/// The 64-bit value of two 32-bit halves, the lower one first.
pub open spec fn u64_of(lo: u32, hi: u32) -> u64 {
    (lo as int + 4294967296 * (hi as int)) as u64
}

/// Reads a 64-bit value at `pos`.
#[verifier::opaque]
pub open spec fn dec_u64(b: Seq<u8>, pos: int) -> Option<(u64, int)> {
    if 0 <= pos && pos + 8 <= b.len() {
        Some(
            (
                u64_of(
                    u32_of(b[pos], b[pos + 1], b[pos + 2], b[pos + 3]),
                    u32_of(b[pos + 4], b[pos + 5], b[pos + 6], b[pos + 7]),
                ),
                pos + 8,
            ),
        )
    } else {
        None
    }
}

/// The 64 bits of a signed value in two's complement.
pub open spec fn i64_bits(t: i64) -> u64 {
    if t >= 0 {
        t as u64
    } else {
        (t + 0x1_0000_0000_0000_0000) as u64
    }
}

/// The signed value of 64 bits in two's complement.
pub open spec fn bits_i64(u: u64) -> i64 {
    if u <= 0x7fff_ffff_ffff_ffff {
        u as i64
    } else {
        (u - 0x1_0000_0000_0000_0000) as i64
    }
}

/// The text's UTF-8 encoding is short enough for its length to be written.
pub open spec fn text_fits(s: Seq<char>) -> bool {
    encode_utf8(s).len() <= u64::MAX
}

/// A text: the length of its UTF-8 encoding, then the encoding.
pub open spec fn enc_text(s: Seq<char>) -> Seq<u8> {
    enc_u64(encode_utf8(s).len() as u64) + encode_utf8(s)
}

/// Reads a text at `pos`: a length, then as many bytes, which are valid
/// UTF-8.
#[verifier::opaque]
pub open spec fn dec_text(b: Seq<u8>, pos: int) -> Option<(Seq<char>, int)> {
    match dec_u64(b, pos) {
        Some((n, p)) => if p + n <= b.len() && valid_utf8(b.subrange(p, p + n)) {
            Some((decode_utf8(b.subrange(p, p + n)), p + n))
        } else {
            None
        },
        None => None,
    }
}

/// An optional text is absent or fits.
pub open spec fn opt_text_fits(o: Option<Seq<char>>) -> bool {
    match o {
        Some(s) => text_fits(s),
        None => true,
    }
}

/// An optional text: the byte 0 for an absent one, the byte 1 and the text
/// for a present one, so that an empty text is not an absent one.
pub open spec fn enc_opt_text(o: Option<Seq<char>>) -> Seq<u8> {
    match o {
        None => seq![0u8],
        Some(s) => seq![1u8] + enc_text(s),
    }
}

/// Reads an optional text at `pos`. A tag other than 0 and 1 is malformed.
#[verifier::opaque]
pub open spec fn dec_opt_text(b: Seq<u8>, pos: int) -> Option<(Option<Seq<char>>, int)> {
    match dec_u8(b, pos) {
        Some((tag, p)) => if tag == 0 {
            Some((None, p))
        } else if tag == 1 {
            match dec_text(b, p) {
                Some((s, q)) => Some((Some(s), q)),
                None => None,
            }
        } else {
            None
        },
        None => None,
    }
}

/// Four bytes hold a 32-bit value.
pub proof fn lemma_u32_round(x: u32)
    ensures
        enc_u32(x).len() == 4,
        u32_of(enc_u32(x)[0], enc_u32(x)[1], enc_u32(x)[2], enc_u32(x)[3]) == x,
{
    reveal(enc_u32);
}

/// Two halves hold a 64-bit value.
pub proof fn lemma_u64_round(x: u64)
    ensures
        enc_u64(x).len() == 8,
        u64_of((x % 4294967296) as u32, (x / 4294967296) as u32) == x,
{
    reveal(enc_u64);
    lemma_u32_round((x % 4294967296) as u32);
    lemma_u32_round((x / 4294967296) as u32);
}

/// The 64 bits of a signed value determine it.
pub proof fn lemma_i64_round(t: i64)
    ensures
        bits_i64(i64_bits(t)) == t,
{
}

/// The decoder reads a 32-bit value back.
pub proof fn lemma_dec_u32(b: Seq<u8>, pos: int, x: u32)
    requires
        at(b, pos, enc_u32(x)),
    ensures
        dec_u32(b, pos) == Some((x, pos + 4)),
        enc_u32(x).len() == 4,
{
    reveal(dec_u32);
    lemma_u32_round(x);
    let s = b.subrange(pos, pos + 4);
    assert(s[0] == b[pos] && s[1] == b[pos + 1] && s[2] == b[pos + 2] && s[3] == b[pos + 3]);
}

/// The decoder reads a 64-bit value back.
pub proof fn lemma_dec_u64(b: Seq<u8>, pos: int, x: u64)
    requires
        at(b, pos, enc_u64(x)),
    ensures
        dec_u64(b, pos) == Some((x, pos + 8)),
        enc_u64(x).len() == 8,
{
    reveal(dec_u64);
    reveal(dec_u32);
    reveal(enc_u64);
    let lo = (x % 4294967296) as u32;
    let hi = (x / 4294967296) as u32;
    lemma_u64_round(x);
    lemma_at_split(b, pos, enc_u32(lo), enc_u32(hi));
    lemma_dec_u32(b, pos, lo);
    lemma_dec_u32(b, pos + 4, hi);
}

/// The decoder reads a text back.
pub proof fn lemma_dec_text(b: Seq<u8>, pos: int, s: Seq<char>)
    requires
        at(b, pos, enc_text(s)),
        text_fits(s),
    ensures
        dec_text(b, pos) == Some((s, pos + enc_text(s).len())),
        enc_text(s).len() == 8 + encode_utf8(s).len(),
{
    reveal(dec_text);
    let n = encode_utf8(s).len() as u64;
    lemma_u64_round(n);
    lemma_at_split(b, pos, enc_u64(n), encode_utf8(s));
    lemma_dec_u64(b, pos, n);
    encode_utf8_valid_utf8(s);
    encode_utf8_decode_utf8(s);
}

/// The decoder reads an optional text back.
pub proof fn lemma_dec_opt_text(b: Seq<u8>, pos: int, o: Option<Seq<char>>)
    requires
        at(b, pos, enc_opt_text(o)),
        opt_text_fits(o),
    ensures
        dec_opt_text(b, pos) == Some((o, pos + enc_opt_text(o).len())),
{
    reveal(dec_opt_text);
    match o {
        None => {
            assert(b.subrange(pos, pos + 1)[0] == b[pos]);
        },
        Some(s) => {
            lemma_at_split(b, pos, seq![1u8], enc_text(s));
            assert(b.subrange(pos, pos + 1)[0] == b[pos]);
            lemma_dec_text(b, pos + 1, s);
        },
    }
}

/// The digits of a number in base 256 are determined by the number.
pub proof fn lemma_digits(b0: int, b1: int, b2: int, b3: int)
    requires
        0 <= b0 < 256,
        0 <= b1 < 256,
        0 <= b2 < 256,
        0 <= b3 < 256,
    ensures
        ({
            let x = b0 + 256 * b1 + 65536 * b2 + 16777216 * b3;
            &&& 0 <= x < 4294967296
            &&& x % 256 == b0
            &&& (x / 256) % 256 == b1
            &&& (x / 65536) % 256 == b2
            &&& (x / 16777216) % 256 == b3
        }),
{
    let x = b0 + 256 * b1 + 65536 * b2 + 16777216 * b3;
    let y1 = b1 + 256 * b2 + 65536 * b3;
    let y2 = b2 + 256 * b3;
    lemma_fundamental_div_mod_converse(x, 256, y1, b0);
    lemma_fundamental_div_mod_converse(y1, 256, y2, b1);
    lemma_fundamental_div_mod_converse(x, 65536, y2, b0 + 256 * b1);
    lemma_fundamental_div_mod_converse(y2, 256, b3, b2);
    lemma_fundamental_div_mod_converse(x, 16777216, b3, b0 + 256 * b1 + 65536 * b2);
    lemma_fundamental_div_mod_converse(b3, 256, 0, b3);
}

/// What the decoder reads as a 32-bit value is what the encoder writes for it.
pub proof fn lemma_enc_u32(b: Seq<u8>, pos: int)
    requires
        dec_u32(b, pos) is Some,
    ensures
        at(b, pos, enc_u32(dec_u32(b, pos).unwrap().0)),
        dec_u32(b, pos).unwrap().1 == pos + 4,
{
    reveal(dec_u32);
    let x = dec_u32(b, pos).unwrap().0;
    lemma_digits(b[pos] as int, b[pos + 1] as int, b[pos + 2] as int, b[pos + 3] as int);
    assert(b.subrange(pos, pos + 4) =~= enc_u32(x)) by {
        reveal(enc_u32);
    }
}

/// What the decoder reads as a 64-bit value is what the encoder writes for it.
pub proof fn lemma_enc_u64(b: Seq<u8>, pos: int)
    requires
        dec_u64(b, pos) is Some,
    ensures
        at(b, pos, enc_u64(dec_u64(b, pos).unwrap().0)),
        dec_u64(b, pos).unwrap().1 == pos + 8,
        enc_u64(dec_u64(b, pos).unwrap().0).len() == 8,
{
    reveal(dec_u64);
    reveal(dec_u32);
    reveal(enc_u64);
    let x = dec_u64(b, pos).unwrap().0;
    let lo = dec_u32(b, pos).unwrap().0;
    let hi = dec_u32(b, pos + 4).unwrap().0;
    assert(x == lo + 4294967296 * hi);
    assert((x % 4294967296) as u32 == lo);
    assert((x / 4294967296) as u32 == hi);
    lemma_enc_u32(b, pos);
    lemma_enc_u32(b, pos + 4);
    lemma_u32_round(lo);
    lemma_u32_round(hi);
    lemma_at_split(b, pos, enc_u32(lo), enc_u32(hi));
}

/// A signed value is determined by its 64 bits.
pub proof fn lemma_bits_round(u: u64)
    ensures
        i64_bits(bits_i64(u)) == u,
{
}

/// What the decoder reads as a text is what the encoder writes for it.
pub proof fn lemma_enc_text(b: Seq<u8>, pos: int)
    requires
        dec_text(b, pos) is Some,
    ensures
        at(b, pos, enc_text(dec_text(b, pos).unwrap().0)),
        dec_text(b, pos).unwrap().1 == pos + enc_text(dec_text(b, pos).unwrap().0).len(),
        text_fits(dec_text(b, pos).unwrap().0),
{
    reveal(dec_text);
    let (n, p) = dec_u64(b, pos).unwrap();
    let raw = b.subrange(p, p + n);
    let s = decode_utf8(raw);
    lemma_enc_u64(b, pos);
    decode_utf8_encode_utf8(raw);
    lemma_at_split(b, pos, enc_u64(n), raw);
}

/// What the decoder reads as an optional text is what the encoder writes
/// for it.
pub proof fn lemma_enc_opt_text(b: Seq<u8>, pos: int)
    requires
        dec_opt_text(b, pos) is Some,
    ensures
        at(b, pos, enc_opt_text(dec_opt_text(b, pos).unwrap().0)),
        dec_opt_text(b, pos).unwrap().1 == pos + enc_opt_text(
            dec_opt_text(b, pos).unwrap().0,
        ).len(),
        opt_text_fits(dec_opt_text(b, pos).unwrap().0),
{
    reveal(dec_opt_text);
    let tag = b[pos];
    assert(b.subrange(pos, pos + 1) =~= seq![tag]);
    if tag == 1 {
        lemma_enc_text(b, pos + 1);
        lemma_at_split(b, pos, seq![1u8], enc_text(dec_text(b, pos + 1).unwrap().0));
    }
}

/// Appends a 32-bit value.
pub fn write_u32(out: &mut Vec<u8>, x: u32)
    ensures
        final(out)@ == old(out)@ + enc_u32(x),
{
    proof {
        reveal(enc_u32);
    }
    out.push((x % 256) as u8);
    out.push(((x / 256) % 256) as u8);
    out.push(((x / 65536) % 256) as u8);
    out.push(((x / 16777216) % 256) as u8);
    proof {
        assert(out@ =~= old(out)@ + enc_u32(x));
    }
}

/// Appends a 64-bit value.
pub fn write_u64(out: &mut Vec<u8>, x: u64)
    ensures
        final(out)@ == old(out)@ + enc_u64(x),
{
    proof {
        reveal(enc_u64);
    }
    write_u32(out, (x % 4294967296) as u32);
    write_u32(out, (x / 4294967296) as u32);
    proof {
        assert(out@ =~= old(out)@ + enc_u64(x));
    }
}

/// The 64 bits of a signed value.
pub fn to_bits(t: i64) -> (u: u64)
    ensures
        u == i64_bits(t),
{
    if t >= 0 {
        t as u64
    } else {
        u64::MAX - ((-(t + 1)) as u64)
    }
}

/// The signed value of 64 bits.
pub fn from_bits(u: u64) -> (t: i64)
    ensures
        t == bits_i64(u),
{
    if u <= 0x7fff_ffff_ffff_ffff {
        u as i64
    } else {
        -((u64::MAX - u) as i64) - 1
    }
}

/// Appends a text.
pub fn write_text(out: &mut Vec<u8>, s: &str)
    ensures
        final(out)@ == old(out)@ + enc_text(s@),
        text_fits(s@),
{
    let bytes = s.as_bytes();
    write_u64(out, bytes.len() as u64);
    out.extend_from_slice(bytes);
    proof {
        assert(out@ =~= old(out)@ + enc_text(s@));
    }
}

/// Appends an optional text.
pub fn write_opt_text(out: &mut Vec<u8>, o: Option<&str>)
    ensures
        final(out)@ == old(out)@ + enc_opt_text(crate::text::opt_str_view(o)),
        opt_text_fits(crate::text::opt_str_view(o)),
{
    match o {
        None => {
            out.push(0u8);
            proof {
                assert(out@ =~= old(out)@ + seq![0u8]);
            }
        },
        Some(s) => {
            out.push(1u8);
            write_text(out, s);
            proof {
                assert(out@ =~= old(out)@ + (seq![1u8] + enc_text(s@)));
            }
        },
    }
}

/// Reads one byte at `pos`.
pub fn read_u8(bytes: &[u8], pos: usize) -> (r: Option<(u8, usize)>)
    ensures
        match r {
            Some((x, next)) => dec_u8(bytes@, pos as int) == Some((x, next as int)),
            None => dec_u8(bytes@, pos as int) is None,
        },
{
    if pos < bytes.len() {
        Some((bytes[pos], pos + 1))
    } else {
        None
    }
}

/// Reads a 32-bit value at `pos`.
pub fn read_u32(bytes: &[u8], pos: usize) -> (r: Option<(u32, usize)>)
    ensures
        match r {
            Some((x, next)) => dec_u32(bytes@, pos as int) == Some((x, next as int)),
            None => dec_u32(bytes@, pos as int) is None,
        },
{
    proof {
        reveal(dec_u32);
    }
    if pos > bytes.len() || bytes.len() - pos < 4 {
        return None;
    }
    let x: u32 = bytes[pos] as u32 + 256 * (bytes[pos + 1] as u32) + 65536 * (bytes[pos + 2] as u32)
        + 16777216 * (bytes[pos + 3] as u32);
    Some((x, pos + 4))
}

/// Reads a 64-bit value at `pos`.
pub fn read_u64(bytes: &[u8], pos: usize) -> (r: Option<(u64, usize)>)
    ensures
        match r {
            Some((x, next)) => dec_u64(bytes@, pos as int) == Some((x, next as int)),
            None => dec_u64(bytes@, pos as int) is None,
        },
{
    proof {
        reveal(dec_u64);
    }
    if pos > bytes.len() || bytes.len() - pos < 8 {
        return None;
    }
    let lo: u32 = bytes[pos] as u32 + 256 * (bytes[pos + 1] as u32) + 65536 * (bytes[pos + 2] as u32)
        + 16777216 * (bytes[pos + 3] as u32);
    let hi: u32 = bytes[pos + 4] as u32 + 256 * (bytes[pos + 5] as u32) + 65536 * (bytes[pos
        + 6] as u32) + 16777216 * (bytes[pos + 7] as u32);
    let x: u64 = lo as u64 + 4294967296 * (hi as u64);
    Some((x, pos + 8))
}

/// Reads a text at `pos`.
pub fn read_text(bytes: &[u8], pos: usize) -> (r: Option<(String, usize)>)
    ensures
        match r {
            Some((s, next)) => dec_text(bytes@, pos as int) == Some((s@, next as int)),
            None => dec_text(bytes@, pos as int) is None,
        },
{
    proof {
        reveal(dec_text);
        reveal(dec_u64);
    }
    let (n, p) = match read_u64(bytes, pos) {
        Some(v) => v,
        None => {
            return None;
        },
    };
    if n > (bytes.len() - p) as u64 {
        return None;
    }
    let end: usize = p + n as usize;
    let raw = slice_to_vec(slice_subrange(bytes, p, end));
    match string_from_utf8(raw) {
        Some(s) => {
            proof {
                encode_utf8_decode_utf8(s@);
            }
            Some((s, end))
        },
        None => None,
    }
}

/// Reads an optional text at `pos`.
pub fn read_opt_text(bytes: &[u8], pos: usize) -> (r: Option<(Option<String>, usize)>)
    ensures
        match r {
            Some((o, next)) => dec_opt_text(bytes@, pos as int) == Some(
                (crate::text::opt_string_view(o), next as int),
            ),
            None => dec_opt_text(bytes@, pos as int) is None,
        },
{
    proof {
        reveal(dec_opt_text);
    }
    let (tag, p) = match read_u8(bytes, pos) {
        Some(v) => v,
        None => {
            return None;
        },
    };
    if tag == 0 {
        Some((None, p))
    } else if tag == 1 {
        match read_text(bytes, p) {
            Some((s, q)) => Some((Some(s), q)),
            None => None,
        }
    } else {
        None
    }
}

} // verus!
