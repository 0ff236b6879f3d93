//! The V2 binary histogram format: a fixed big-endian header followed by the counts array,
//! run-length encoded for zeros, zig-zag encoded and written as LEB128-64b9B varints.
use vstd::prelude::*;
use vstd::arithmetic::power2::{pow2, lemma_pow2_adds, lemma2_to64};
use vstd::arithmetic::div_mod::{lemma_breakdown, lemma_fundamental_div_mod};
use byteorder::{BigEndian, ByteOrder};
use flate2::Compression;
use flate2::read::ZlibDecoder;
use flate2::write::ZlibEncoder;
use std::io::{Read, Write};
use crate::counter::Counter;
use crate::histogram::{
    Histogram, creation_error, unit_magnitude_for, sub_bucket_magnitude_for, cap_u64, seq_sum,
    last_nonzero, first_nonzero_past_zero, raised_max, lowered_min,
};
use crate::math::{bucket_of, two_pow_64};

verus! {

/// The common prefix of the V2 cookies; the low byte tells the variants apart.
pub const V2_COOKIE_BASE: u32 = 0x1c849303;

/// The cookie that starts an uncompressed V2 histogram.
pub const V2_COOKIE: u32 = V2_COOKIE_BASE | 0x10;

/// The cookie that starts a DEFLATE-compressed V2 histogram.
pub const V2_COMPRESSED_COOKIE: u32 = V2_COOKIE_BASE | 0x20;

/// The length of the V2 header: cookie, payload length, normalizing offset, significant
/// digits, lowest and highest value, and the integer-to-double ratio.
pub const V2_HEADER_SIZE: usize = 40;

/// The bit pattern of the `f64` value 1.0, the only integer-to-double ratio supported.
pub const V2_RATIO_ONE_BITS: u64 = 0x3FF0000000000000;

// --------------------------------------------------------------------------------------------
// Big-endian integers
// --------------------------------------------------------------------------------------------

/// The `width` low-order bytes of `n`, most significant first.
pub open spec fn be_bytes(n: nat, width: nat) -> Seq<u8>
    decreases width,
{
    if width == 0 {
        Seq::empty()
    } else {
        be_bytes(n / 256, (width - 1) as nat).push((n % 256) as u8)
    }
}

/// The number that a sequence of bytes stands for, most significant first.
pub open spec fn be_value(s: Seq<u8>) -> nat
    decreases s.len(),
{
    if s.len() == 0 {
        0
    } else {
        (be_value(s.drop_last()) * 256 + s.last()) as nat
    }
}

/// Reading back the bytes of `n` gives `n` modulo `2^(8 width)`.
pub proof fn lemma_be_roundtrip(n: nat, width: nat)
    ensures
        be_bytes(n, width).len() == width,
        be_value(be_bytes(n, width)) == n % pow2(8 * width),
    decreases width,
{
    if width == 0 {
        assert(pow2(0) == 1) by {
            lemma2_to64();
        }
    } else {
        let w1 = (width - 1) as nat;
        lemma_be_roundtrip(n / 256, w1);
        let s = be_bytes(n, width);
        assert(s.drop_last() =~= be_bytes(n / 256, w1));
        lemma2_to64();
        lemma_pow2_adds(8, 8 * w1);
        assert(pow2(8 * width) == 256 * pow2(8 * w1)) by {
            assert(8 * width == 8 + 8 * w1);
        }
        assert(pow2(8 * w1) > 0) by {
            vstd::arithmetic::power2::lemma_pow2_pos(8 * w1);
        }
        lemma_breakdown(n as int, 256, pow2(8 * w1) as int);
    }
}

/// The four bytes of a `u32`, most significant first.
pub open spec fn u32_be(n: u32) -> Seq<u8> {
    be_bytes(n as nat, 4)
}

/// The eight bytes of a `u64`, most significant first.
pub open spec fn u64_be(n: u64) -> Seq<u8> {
    be_bytes(n as nat, 8)
}

/// Reading back the bytes of a `u32` or `u64` gives the number.
pub proof fn lemma_be_exact(n: u64, width: nat)
    requires
        width == 4 ==> n <= u32::MAX,
        width == 4 || width == 8,
    ensures
        be_bytes(n as nat, width).len() == width,
        be_value(be_bytes(n as nat, width)) == n,
{
    lemma_be_roundtrip(n as nat, width);
    lemma2_to64();
    vstd::arithmetic::power2::lemma_pow2_strictly_increases(32, 64);
    if width == 4 {
        assert(pow2(32) == 0x100000000);
    } else {
        assert(n < pow2(64)) by {
            vstd::arithmetic::power2::lemma_pow2(64);
            vstd::arithmetic::power::lemma_pow_positive(2, 64);
            assert(pow2(64) == 0x10000000000000000) by {
                vstd::arithmetic::power2::lemma2_to64_rest();
            }
        }
    }
    vstd::arithmetic::div_mod::lemma_small_mod(n as nat, pow2(8 * width));
}

/// The `width` bytes of a number are those of its remainder modulo `2^(8 width)`.
pub proof fn lemma_be_mod(n: nat, width: nat)
    ensures
        be_bytes(n, width) == be_bytes(n % pow2(8 * width), width),
    decreases width,
{
    if width > 0 {
        let w1 = (width - 1) as nat;
        let p = pow2(8 * w1);
        lemma2_to64();
        lemma_pow2_adds(8, 8 * w1);
        assert(8 * width == 8 + 8 * w1);
        vstd::arithmetic::power2::lemma_pow2_pos(8 * w1);
        lemma_breakdown(n as int, 256, p as int);
        let m = n % pow2(8 * width);
        let q = (n / 256) % p;
        let r = n % 256;
        assert(m == 256 * q + r);
        assert(m / 256 == q);
        assert(m % 256 == r);
        lemma_be_mod(n / 256, w1);
        assert(be_bytes(n / 256, w1) == be_bytes(q, w1));
        assert(be_bytes(m, width) == be_bytes(m / 256, w1).push((m % 256) as u8));
        assert(be_bytes(n, width) == be_bytes(n / 256, w1).push((n % 256) as u8));
        assert((m % 256) as u8 == (n % 256) as u8);
        assert(be_bytes(n, width) =~= be_bytes(m, width));
    } else {
        lemma2_to64();
        let k = n % pow2(8 * width);
        assert(be_bytes(n, 0) =~= Seq::<u8>::empty());
        assert(be_bytes(k, 0) =~= Seq::<u8>::empty());
    }
}

/// byteorder's `BigEndian::write_u32`, through a four-byte array: appends the bytes of `n`
/// to `buf`, most significant first, as `u32::to_be_bytes` lays them out.
#[verifier::external_body]
fn append_u32_be(buf: &mut Vec<u8>, n: u32)
    ensures
        final(buf)@ == old(buf)@ + u32_be(n),
{
    let mut bytes = [0u8; 4];
    BigEndian::write_u32(&mut bytes, n);
    buf.extend_from_slice(&bytes);
}

/// byteorder's `BigEndian::write_u64`, through an eight-byte array: appends the bytes of `n`
/// to `buf`, most significant first, as `u64::to_be_bytes` lays them out.
#[verifier::external_body]
fn append_u64_be(buf: &mut Vec<u8>, n: u64)
    ensures
        final(buf)@ == old(buf)@ + u64_be(n),
{
    let mut bytes = [0u8; 8];
    BigEndian::write_u64(&mut bytes, n);
    buf.extend_from_slice(&bytes);
}

/// byteorder's `BigEndian::read_u32`: the number that the first four bytes of `buf` stand
/// for, most significant first (`u32::from_be_bytes`). It panics on a shorter slice.
#[verifier::external_body]
fn read_u32_be(buf: &[u8]) -> (r: u32)
    requires
        buf@.len() >= 4,
    ensures
        r == be_value(buf@.subrange(0, 4)),
{
    BigEndian::read_u32(buf)
}

/// byteorder's `BigEndian::read_u64`: the number that the first eight bytes of `buf` stand
/// for, most significant first (`u64::from_be_bytes`). It panics on a shorter slice.
#[verifier::external_body]
fn read_u64_be(buf: &[u8]) -> (r: u64)
    requires
        buf@.len() >= 8,
    ensures
        r == be_value(buf@.subrange(0, 8)),
{
    BigEndian::read_u64(buf)
}

// --------------------------------------------------------------------------------------------
// Zig-zag
// --------------------------------------------------------------------------------------------

/// Zig-zag encoding: non-negative `n` to `2n`, negative `n` to `-2n - 1`.
pub open spec fn zig_zag(n: int) -> int {
    if n >= 0 {
        2 * n
    } else {
        -2 * n - 1
    }
}

/// Zig-zag decoding: even `e` to `e / 2`, odd `e` to `-(e + 1) / 2`.
pub open spec fn zig_zag_inverse(e: int) -> int {
    if e % 2 == 0 {
        e / 2
    } else {
        -((e + 1) / 2)
    }
}

/// Map a signed number to an unsigned one so that numbers of small magnitude stay small.
pub fn zig_zag_encode(num: i64) -> (r: u64)
    ensures
        r == zig_zag(num as int),
{
    let r = ((num << 1u32) ^ (num >> 63u32)) as u64;
    assert(num >= 0 ==> ((num << 1u32) ^ (num >> 63u32)) as u64 == 2 * (num as int)) by (bit_vector);
    assert(num < 0 ==> ((num << 1u32) ^ (num >> 63u32)) as u64 == -2 * (num as int) - 1) by (bit_vector);
    r
}

/// Undo `zig_zag_encode`.
pub fn zig_zag_decode(encoded: u64) -> (r: i64)
    ensures
        r == zig_zag_inverse(encoded as int),
{
    let half = (encoded >> 1u32) as i64;
    let low_bit = encoded & 1;
    assert(low_bit == encoded % 2 && low_bit <= 1) by (bit_vector)
        requires
            low_bit == encoded & 1,
    ;
    let sign: i64 = -(low_bit as i64);
    let r = half ^ sign;
    assert(encoded % 2 == 0 ==> r == encoded / 2) by (bit_vector)
        requires
            half == (encoded >> 1u32) as i64,
            sign == 0 || sign == -1,
            sign == -1 <==> encoded % 2 == 1,
            r == half ^ sign,
    ;
    assert(encoded % 2 == 1 ==> r == -((encoded as int + 1) / 2)) by (bit_vector)
        requires
            half == (encoded >> 1u32) as i64,
            sign == 0 || sign == -1,
            sign == -1 <==> encoded % 2 == 1,
            r == half ^ sign,
    ;
    r
}

/// Zig-zag decoding undoes zig-zag encoding, for every `i64`.
pub proof fn lemma_zig_zag_roundtrip(n: i64)
    ensures
        zig_zag_inverse(zig_zag(n as int)) == n,
        0 <= zig_zag(n as int) <= u64::MAX,
{
}

/// Zig-zag encoding undoes zig-zag decoding, for every `u64`.
pub proof fn lemma_zig_zag_inverse_roundtrip(e: u64)
    ensures
        zig_zag(zig_zag_inverse(e as int)) == e,
        i64::MIN <= zig_zag_inverse(e as int) <= i64::MAX,
{
}


// --------------------------------------------------------------------------------------------
// LEB128-64b9B varints
// --------------------------------------------------------------------------------------------

/// The number of bytes in the varint of `v`, counting from byte `k`: the first `k` in
/// `1..=8` with nothing left above the low `7k` bits, or 9.
pub open spec fn varint_len_from(v: u64, k: nat) -> nat
    decreases 9 - k,
{
    if k >= 9 {
        9
    } else if k >= 1 && v >> ((7 * k) as u64) == 0 {
        k
    } else {
        varint_len_from(v, k + 1)
    }
}

/// The number of bytes in the LEB128-64b9B varint of `v`.
pub open spec fn varint_len(v: u64) -> nat {
    varint_len_from(v, 1)
}

/// Byte `i` of the varint of `v`: seven bits of `v` with the high bit set while more bytes
/// follow; the ninth byte holds the top eight bits whole.
pub open spec fn varint_byte(v: u64, i: nat) -> u8 {
    if i == 8 {
        (v >> 56u64) as u8
    } else if i + 1 < varint_len(v) {
        (((v >> ((7 * i) as u64)) & 0x7f) as u8) | 0x80
    } else {
        ((v >> ((7 * i) as u64)) & 0x7f) as u8
    }
}

/// The LEB128-64b9B varint of `v`.
pub open spec fn varint_bytes(v: u64) -> Seq<u8> {
    Seq::new(varint_len(v), |i: int| varint_byte(v, i as nat))
}

/// Decoding a LEB128-64b9B varint from byte `i` of the one at `at` in `b`, with the bits of
/// the earlier bytes in `acc`: the value and the number of bytes used, or `None` when `b`
/// ends first.
pub open spec fn varint_parse_from(b: Seq<u8>, at: int, i: nat, acc: u64) -> Option<(u64, nat)>
    decreases 9 - i,
{
    if i >= 9 || at + i >= b.len() {
        None
    } else if i == 8 {
        Some((acc | ((b[at + 8] as u64) << 56u64), 9))
    } else {
        let byte = b[at + i];
        let next = acc | (((byte & 0x7f) as u64) << ((7 * i) as u64));
        if byte & 0x80 == 0 {
            Some((next, (i + 1) as nat))
        } else {
            varint_parse_from(b, at, i + 1, next)
        }
    }
}

/// Decoding the LEB128-64b9B varint that starts at `at` in `b`.
pub open spec fn varint_parse(b: Seq<u8>, at: int) -> Option<(u64, nat)> {
    varint_parse_from(b, at, 0, 0)
}

proof fn lemma_varint_len_bounds(v: u64, k: nat)
    requires
        1 <= k <= 9,
    ensures
        k <= varint_len_from(v, k) <= 9,
        varint_len_from(v, k) == k || varint_len_from(v, k) == varint_len_from(v, k + 1),
    decreases 9 - k,
{
    if k < 9 {
        lemma_varint_len_bounds(v, k + 1);
    }
}

proof fn lemma_shift_step(v: u64, s: u64)
    requires
        s <= 49,
    ensures
        (v >> s) >> 7u64 == v >> ((s + 7) as u64),
        (v >> s) >> 7u64 == 0 ==> ((v >> s) as u8) == (((v >> s) & 0x7f) as u8),
{
    assert((v >> s) >> 7u64 == v >> ((s + 7) as u64)) by (bit_vector)
        requires
            s <= 49,
    ;
    assert((v >> s) >> 7u64 == 0 ==> ((v >> s) as u8) == (((v >> s) & 0x7f) as u8)) by (bit_vector);
}

/// Write the varint of `input` at `at` in `buf`; returns its length.
fn varint_write_at(input: u64, buf: &mut [u8], at: usize) -> (r: usize)
    requires
        at + varint_len(input) <= old(buf)@.len(),
    ensures
        r == varint_len(input),
        final(buf)@.len() == old(buf)@.len(),
        final(buf)@ =~= old(buf)@.subrange(0, at as int) + varint_bytes(input) + old(buf)@.subrange(
            at + r,
            old(buf)@.len() as int,
        ),
{
    let ghost orig = buf@;
    let n = buf.len();
    let mut rest = input;
    let mut i: usize = 0;
    proof {
        lemma_varint_len_bounds(input, 1);
        assert(input >> 0u64 == input) by (bit_vector);
    }
    while i < 8
        invariant
            i <= 8,
            rest == input >> ((7 * i) as u64),
            varint_len(input) == varint_len_from(input, (i + 1) as nat),
            i + 1 <= varint_len(input) <= 9,
            at + varint_len(input) <= orig.len(),
            orig == old(buf)@,
            n == orig.len(),
            buf@.len() == orig.len(),
            forall|j: int| 0 <= j < i ==> buf@[at + j] == #[trigger] varint_byte(input, j as nat),
            forall|j: int| 0 <= j < at ==> buf@[j] == orig[j],
            forall|j: int| at + i <= j < orig.len() ==> buf@[j] == orig[j],
        decreases 8 - i,
    {
        proof {
            lemma_shift_step(input, (7 * i) as u64);
            lemma_varint_len_bounds(input, (i + 1) as nat);
            lemma_varint_len_bounds(input, (i + 2) as nat);
        }
        if rest >> 7u32 == 0 {
            proof {
                assert(input >> ((7 * (i + 1)) as u64) == 0);
                assert(varint_len(input) == i + 1);
            }
            buf[at + i] = rest as u8;
            proof {
                assert(forall|j: int| 0 <= j <= i ==> buf@[at + j] == #[trigger] varint_byte(input, j as nat));
                assert(buf@ =~= orig.subrange(0, at as int) + varint_bytes(input) + orig.subrange(
                    at + i + 1,
                    orig.len() as int,
                ));
            }
            return i + 1;
        }
        proof {
            assert(input >> ((7 * (i + 1)) as u64) != 0);
        }
        buf[at + i] = ((rest & 0x7f) as u8) | 0x80;
        rest = rest >> 7u32;
        i = i + 1;
    }
    proof {
        assert(varint_len(input) == 9);
    }
    buf[at + 8] = rest as u8;
    proof {
        assert(rest == input >> 56u64);
        assert(forall|j: int| 0 <= j <= 8 ==> buf@[at + j] == #[trigger] varint_byte(input, j as nat));
        assert(buf@ =~= orig.subrange(0, at as int) + varint_bytes(input) + orig.subrange(
            at + 9,
            orig.len() as int,
        ));
    }
    9
}

/// Write the LEB128-64b9B varint of `input` at the start of `buf`; returns its length, at
/// most 9.
pub fn varint_write(input: u64, buf: &mut [u8]) -> (r: usize)
    requires
        varint_len(input) <= old(buf)@.len(),
    ensures
        r == varint_len(input),
        final(buf)@ =~= varint_bytes(input) + old(buf)@.subrange(r as int, old(buf)@.len() as int),
{
    varint_write_at(input, buf, 0)
}

/// Read the varint at `at` in `buf`: its value and length, or `None` when `buf` ends first.
fn varint_read_at(buf: &[u8], at: usize) -> (r: Option<(u64, usize)>)
    requires
        at <= buf@.len(),
    ensures
        r is None <==> varint_parse(buf@, at as int) is None,
        r matches Some((v, n)) ==> varint_parse(buf@, at as int) == Some((v, n as nat)),
{
    let len = buf.len();
    let mut acc: u64 = 0;
    let mut i: usize = 0;
    while i < 8
        invariant
            i <= 8,
            at <= len,
            len == buf@.len(),
            varint_parse(buf@, at as int) == varint_parse_from(buf@, at as int, i as nat, acc),
        decreases 8 - i,
    {
        if i >= len - at {
            return None;
        }
        let byte = buf[at + i];
        acc = acc | (((byte & 0x7f) as u64) << ((7 * i) as u64));
        if byte & 0x80 == 0 {
            return Some((acc, i + 1));
        }
        i = i + 1;
    }
    if 8 >= len - at {
        return None;
    }
    let byte = buf[at + 8];
    Some((acc | ((byte as u64) << 56u64), 9))
}

/// Read the LEB128-64b9B varint at the start of `buf`: its value and length in bytes, or
/// `None` when `buf` ends before the varint does.
pub fn varint_read(buf: &[u8]) -> (r: Option<(u64, usize)>)
    ensures
        r is None <==> varint_parse(buf@, 0) is None,
        r matches Some((v, n)) ==> varint_parse(buf@, 0) == Some((v, n as nat)),
{
    varint_read_at(buf, 0)
}

/// The low `s` bits of `v`.
pub open spec fn low_bits(v: u64, s: u64) -> u64 {
    v & (((1u64 << s) - 1) as u64)
}

proof fn lemma_varint_bits(v: u64, s: u64)
    requires
        s <= 49,
    ensures
        low_bits(v, 0) == 0,
        ({
            let chunk = ((v >> s) & 0x7f) as u8;
            &&& (chunk | 0x80) & 0x80 != 0
            &&& (chunk | 0x80) & 0x7f == chunk
            &&& chunk & 0x80 == 0
            &&& chunk & 0x7f == chunk
            &&& low_bits(v, s) | ((chunk as u64) << s) == low_bits(v, (s + 7) as u64)
        }),
        v >> ((s + 7) as u64) == 0 ==> low_bits(v, (s + 7) as u64) == v,
        low_bits(v, 56) | ((((v >> 56u64) as u8) as u64) << 56u64) == v,
{
    assert(low_bits(v, 0) == 0) by (bit_vector);
    assert({
        let chunk = ((v >> s) & 0x7f) as u8;
        &&& (chunk | 0x80) & 0x80 != 0
        &&& (chunk | 0x80) & 0x7f == chunk
        &&& chunk & 0x80 == 0
        &&& chunk & 0x7f == chunk
        &&& low_bits(v, s) | ((chunk as u64) << s) == low_bits(v, (s + 7) as u64)
    }) by (bit_vector)
        requires
            s <= 49,
    ;
    assert(v >> ((s + 7) as u64) == 0 ==> low_bits(v, (s + 7) as u64) == v) by (bit_vector)
        requires
            s <= 49,
    ;
    assert(low_bits(v, 56) | ((((v >> 56u64) as u8) as u64) << 56u64) == v) by (bit_vector);
}

proof fn lemma_varint_len_stops(v: u64, j: nat, k: nat)
    requires
        1 <= j <= k <= 8,
        varint_len_from(v, j) == k,
    ensures
        v >> ((7 * k) as u64) == 0,
    decreases k - j,
{
    lemma_varint_len_bounds(v, j + 1);
    if j < k {
        lemma_varint_len_stops(v, j + 1, k);
    }
}

proof fn lemma_varint_parse_step(b: Seq<u8>, at: int, v: u64, i: nat)
    requires
        0 <= at,
        at + varint_len(v) <= b.len(),
        i < varint_len(v),
        forall|j: nat| j < varint_len(v) ==> b[at + j] == #[trigger] varint_byte(v, j),
    ensures
        varint_parse_from(b, at, i, low_bits(v, (7 * i) as u64)) == Some((v, varint_len(v))),
    decreases 9 - i,
{
    lemma_varint_len_bounds(v, 1);
    if i == 8 {
        lemma_varint_bits(v, 0);
        assert(b[at + 8] == varint_byte(v, 8));
    } else {
        let s = (7 * i) as u64;
        lemma_varint_bits(v, s);
        assert(b[at + i] == varint_byte(v, i));
        if i + 1 < varint_len(v) {
            assert(((s + 7) as u64) == (7 * (i + 1)) as u64);
            lemma_varint_parse_step(b, at, v, i + 1);
        } else {
            lemma_varint_len_stops(v, 1, i + 1);
            assert(((s + 7) as u64) == (7 * (i + 1)) as u64);
        }
    }
}

/// Reading a varint back gives the value written and its length, whatever follows it.
pub proof fn lemma_varint_roundtrip(b: Seq<u8>, at: int, v: u64)
    requires
        0 <= at,
        at + varint_len(v) <= b.len(),
        b.subrange(at, at + varint_len(v)) == varint_bytes(v),
    ensures
        varint_parse(b, at) == Some((v, varint_len(v))),
        1 <= varint_len(v) <= 9,
{
    lemma_varint_len_bounds(v, 1);
    assert forall|j: nat| j < varint_len(v) implies b[at + j] == #[trigger] varint_byte(v, j) by {
        assert(b.subrange(at, at + varint_len(v))[j as int] == b[at + j]);
    }
    lemma_varint_bits(v, 0);
    lemma_varint_parse_step(b, at, v, 0);
}

/// The seven low bits of each of the `n` bytes from `at` in `b`, the byte `i` places in taken
/// `7 * i` bits up: the value those varint bytes spell.
pub open spec fn varint_chunks(b: Seq<u8>, at: int, n: nat) -> nat
    decreases n,
{
    if n == 0 {
        0
    } else {
        varint_chunks(b, at, (n - 1) as nat) + (b[at + n - 1] % 128) as nat * pow2(
            (7 * (n - 1)) as nat,
        )
    }
}

/// Placing bits above a value's own sets them without carries.
proof fn lemma_chunk_or_is_add(acc: u64, c: u64, s: u64)
    by (bit_vector)
    requires
        s <= 56,
        acc < (1u64 << s),
        c < 256,
        s < 56 ==> c < 128,
    ensures
        acc | (c << s) == acc + (c << s),
{
}

/// The seven low bits of a byte are its remainder by 128; its high bit is clear exactly when
/// it is below 128.
proof fn lemma_byte_bits(byte: u8)
    ensures
        (byte & 0x7f) as nat == byte % 128,
        (byte & 0x80 == 0) <==> byte < 128,
{
    assert((byte & 0x7f) == byte % 128) by (bit_vector);
    assert((byte & 0x80 == 0) <==> byte < 128) by (bit_vector);
}

proof fn lemma_varint_parse_value(b: Seq<u8>, at: int, i: nat, acc: u64)
    requires
        0 <= at,
        i <= 8,
        acc as nat == varint_chunks(b, at, i),
        acc < pow2(7 * i),
        0 < i ==> b[at + i - 1] >= 128,
        varint_parse_from(b, at, i, acc) is Some,
    ensures
        ({
            let (v, n) = varint_parse_from(b, at, i, acc).unwrap();
            &&& i < n <= 9
            &&& at + n <= b.len()
            &&& forall|j: int| i <= j < n - 1 && j < 8 ==> #[trigger] b[at + j] >= 128
            &&& n == 9 ==> b[at + 7] >= 128
            &&& n < 9 ==> b[at + n - 1] < 128
            &&& v == if n == 9 {
                varint_chunks(b, at, 8) + b[at + 8] as nat * pow2(56)
            } else {
                varint_chunks(b, at, n)
            }
        }),
    decreases 9 - i,
{
    let s: u64 = (7 * i) as u64;
    lemma2_to64();
    vstd::arithmetic::power2::lemma2_to64_rest();
    if 7 * i < 56 {
        vstd::arithmetic::power2::lemma_pow2_strictly_increases(7 * i, 56);
    }
    vstd::bits::lemma_u64_shl_is_mul(1, s);
    if i == 8 {
        let c = b[at + 8] as u64;
        lemma_chunk_or_is_add(acc, c, 56);
        assert(c * pow2(56) <= u64::MAX) by (nonlinear_arith)
            requires
                c < 256,
                pow2(56) == 0x100000000000000,
        ;
        vstd::bits::lemma_u64_shl_is_mul(c, 56);
    } else {
        let byte = b[at + i];
        let c = (byte & 0x7f) as u64;
        lemma_byte_bits(byte);
        lemma_chunk_or_is_add(acc, c, s);
        lemma_pow2_adds(7 * i, 7);
        if 7 * i < 49 {
            vstd::arithmetic::power2::lemma_pow2_strictly_increases(7 * i, 49);
        }
        assert(c * pow2(7 * i) <= u64::MAX) by (nonlinear_arith)
            requires
                c < 128,
                pow2(7 * i) <= pow2(49),
                pow2(49) == 0x2000000000000,
        ;
        vstd::bits::lemma_u64_shl_is_mul(c, s);
        let next = acc | (c << s);
        assert(next < pow2(7 * (i + 1))) by (nonlinear_arith)
            requires
                next == acc + c * pow2(7 * i),
                acc < pow2(7 * i),
                c < 128,
                pow2(7 * (i + 1)) == pow2(7 * i) * 128,
        ;
        if byte & 0x80 != 0 {
            lemma_varint_parse_value(b, at, i + 1, next);
        }
    }
}

/// Decoding a varint, in closed form: when the varint at `at` in `b` decodes to `v` from `n`
/// bytes, every byte before the last has its high bit set and the last has it clear (the
/// ninth byte, if reached, counts whole), and `v` is the sum of the seven low bits of each
/// byte `i` places in taken `7 * i` bits up, plus the ninth byte whole taken 56 bits up.
pub proof fn lemma_varint_value(b: Seq<u8>, at: int)
    requires
        0 <= at,
        varint_parse(b, at) is Some,
    ensures
        ({
            let (v, n) = varint_parse(b, at).unwrap();
            &&& 1 <= n <= 9
            &&& at + n <= b.len()
            &&& forall|j: int| 0 <= j < n - 1 && j < 8 ==> #[trigger] b[at + j] >= 128
            &&& n < 9 ==> b[at + n - 1] < 128
            &&& v == if n == 9 {
                varint_chunks(b, at, 8) + b[at + 8] as nat * pow2(56)
            } else {
                varint_chunks(b, at, n)
            }
        }),
{
    vstd::arithmetic::power2::lemma_pow2_pos(0);
    assert(pow2(0) == 1) by {
        vstd::arithmetic::power2::lemma2_to64();
    }
    lemma_varint_parse_value(b, at, 0, 0);
}

// --------------------------------------------------------------------------------------------
// The counts array
// --------------------------------------------------------------------------------------------

/// Errors that can happen while serializing.
#[derive(Debug, PartialEq, Eq, Clone, Copy, Structural)]
pub enum V2SerializeError {
    /// A count above `i64::MAX` cannot be written.
    CountNotSerializable,
    /// The encoded size does not fit in a `usize`.
    UsizeTypeTooSmall,
}

/// The number of zero counts in a row from bin `i`, stopping at bin `end`.
pub open spec fn zero_run(c: Seq<nat>, i: nat, end: nat) -> nat
    decreases end - i,
{
    if i >= end || c[i as int] != 0 {
        0
    } else {
        1 + zero_run(c, i + 1, end)
    }
}

/// A run of zeros fits in what is left, and is at least one long at a zero count.
pub proof fn lemma_zero_run_bounds(c: Seq<nat>, i: nat, end: nat)
    ensures
        i <= end ==> zero_run(c, i, end) <= end - i,
        i < end && c[i as int] == 0 ==> zero_run(c, i, end) >= 1,
    decreases end - i,
{
    if i < end && c[i as int] == 0 {
        lemma_zero_run_bounds(c, i + 1, end);
    }
}

/// The numbers that encode bins `i..end` of the counts `c`: each non-zero count as itself,
/// a run of two or more zero counts as minus its length, and a lone zero count as 0.
pub open spec fn count_tokens(c: Seq<nat>, i: nat, end: nat) -> Seq<int>
    decreases end - i,
{
    if i >= end {
        Seq::empty()
    } else if c[i as int] != 0 {
        seq![c[i as int] as int] + count_tokens(c, i + 1, end)
    } else {
        let z = zero_run(c, i, end);
        proof {
            lemma_zero_run_bounds(c, i, end);
        }
        if z > 1 {
            seq![-(z as int)] + count_tokens(c, i + z, end)
        } else {
            seq![0int] + count_tokens(c, i + 1, end)
        }
    }
}

/// The bytes of a sequence of numbers: the varint of each one's zig-zag encoding, in order.
pub open spec fn token_bytes(t: Seq<int>) -> Seq<u8>
    decreases t.len(),
{
    if t.len() == 0 {
        Seq::empty()
    } else {
        token_bytes(t.drop_last()) + varint_bytes(zig_zag(t.last()) as u64)
    }
}

/// The number of leading numbers of `t`, from the `k`-th on, that fit in an `i64`.
pub open spec fn fitting_prefix(t: Seq<int>, k: nat) -> nat
    decreases t.len() - k,
{
    if k >= t.len() || t[k as int] > i64::MAX {
        k
    } else {
        fitting_prefix(t, k + 1)
    }
}

/// The numbers that encode a histogram's counts: its bins up to the bin of its maximum.
pub open spec fn histogram_tokens<T: Counter>(h: &Histogram<T>) -> Seq<int> {
    count_tokens(h.counts_view(), 0, h.index_spec(h.max_spec()) + 1)
}

/// The largest number of bytes that `length` counts can take when encoded, if that fits in
/// a `usize`.
pub fn counts_array_max_encoded_size(length: usize) -> (r: Option<usize>)
    ensures
        r == (if length * 9 <= usize::MAX {
            Some((length * 9) as usize)
        } else {
            None::<usize>
        }),
{
    length.checked_mul(9)
}

proof fn lemma_zero_run_exact(c: Seq<nat>, start: nat, index: nat, end: nat)
    requires
        start <= index <= end,
        end <= c.len(),
        forall|j: int| start <= j < index ==> c[j] == 0,
        index == end || c[index as int] != 0,
    ensures
        zero_run(c, start, end) == index - start,
    decreases index - start,
{
    if start < index {
        lemma_zero_run_exact(c, start + 1, index, end);
    }
}

proof fn lemma_fitting_prefix_bounds(t: Seq<int>, k: nat)
    requires
        k <= t.len(),
    ensures
        k <= fitting_prefix(t, k) <= t.len(),
        fitting_prefix(t, k) < t.len() ==> t[fitting_prefix(t, k) as int] > i64::MAX,
        forall|j: int| k <= j < fitting_prefix(t, k) ==> t[j] <= i64::MAX,
    decreases t.len() - k,
{
    if k < t.len() && t[k as int] <= i64::MAX {
        lemma_fitting_prefix_bounds(t, k + 1);
    }
}

proof fn lemma_token_bytes_append(a: Seq<int>, b: Seq<int>)
    ensures
        token_bytes(a + b) == token_bytes(a) + token_bytes(b),
    decreases b.len(),
{
    if b.len() == 0 {
        assert(a + b =~= a);
        assert(token_bytes(a) + token_bytes(b) =~= token_bytes(a));
    } else {
        lemma_token_bytes_append(a, b.drop_last());
        assert((a + b).drop_last() =~= a + b.drop_last());
        assert((a + b).last() == b.last());
    }
}

proof fn lemma_emit_step(all: Seq<int>, before: Seq<int>, token: int, rest: Seq<int>, fit: nat)
    requires
        all == before + (seq![token] + rest),
        fit <= all.len(),
        before.len() <= fit,
        fit < all.len() ==> all[fit as int] > i64::MAX,
        token <= i64::MAX,
    ensures
        all == before.push(token) + rest,
        all[before.len() as int] == token,
        before.push(token).len() <= fit,
        before.push(token) == all.subrange(0, before.len() + 1int),
        token_bytes(before.push(token)).len() <= token_bytes(all.subrange(0, fit as int)).len(),
        token_bytes(before.push(token)) == token_bytes(before) + varint_bytes(zig_zag(token) as u64),
{
    let emitted = before.push(token);
    assert(all =~= emitted + rest);
    assert(all[before.len() as int] == token);
    assert(emitted =~= all.subrange(0, emitted.len() as int));
    lemma_token_bytes_append(emitted, all.subrange(emitted.len() as int, fit as int));
    assert(emitted + all.subrange(emitted.len() as int, fit as int) =~= all.subrange(0, fit as int));
    assert(emitted.drop_last() =~= before);
}

proof fn lemma_buf_step(orig: Seq<u8>, before: Seq<u8>, after: Seq<u8>, bw: nat, bytes: Seq<u8>, written: Seq<u8>)
    requires
        bw + bytes.len() <= orig.len(),
        before.len() == orig.len(),
        before.subrange(0, bw as int) == written,
        before.subrange(bw as int, orig.len() as int) == orig.subrange(bw as int, orig.len() as int),
        after == before.subrange(0, bw as int) + bytes + before.subrange((bw + bytes.len()) as int, before.len() as int),
    ensures
        after.len() == orig.len(),
        after.subrange(0, (bw + bytes.len()) as int) == written + bytes,
        after.subrange((bw + bytes.len()) as int, orig.len() as int) == orig.subrange((bw + bytes.len()) as int, orig.len() as int),
{
    assert(after.subrange(0, (bw + bytes.len()) as int) =~= written + bytes);
    let e = (bw + bytes.len()) as int;
    assert forall|j: int| 0 <= j < orig.len() - e implies #[trigger] after.subrange(e, orig.len() as int)[j]
        == orig.subrange(e, orig.len() as int)[j] by {
        let a = before.subrange(0, bw as int);
        let b = before.subrange(e, before.len() as int);
        assert(a.len() == bw);
        assert((a + bytes + b)[e + j] == b[j]);
        assert(after[e + j] == before[e + j]);
        assert(before.subrange(bw as int, orig.len() as int)[j + bytes.len()] == before[e + j]);
        assert(orig.subrange(bw as int, orig.len() as int)[j + bytes.len()] == orig[e + j]);
        assert(before.subrange(bw as int, orig.len() as int)[j + bytes.len()] == orig.subrange(bw as int, orig.len() as int)[j + bytes.len()]);
    }
    assert(after.subrange((bw + bytes.len()) as int, orig.len() as int) =~= orig.subrange((bw + bytes.len()) as int, orig.len() as int));
}

/// Encode the counts of `h`, up to the bin of its maximum, into `buf`; returns the number
/// of bytes written. Fails when a count is above `i64::MAX`.
pub fn encode_counts<T: Counter>(h: &Histogram<T>, buf: &mut [u8]) -> (r: Result<usize, V2SerializeError>)
    requires
        h.wf(),
        token_bytes(
            histogram_tokens(h).subrange(0, fitting_prefix(histogram_tokens(h), 0) as int),
        ).len() <= old(buf)@.len(),
    ensures
        final(buf)@.len() == old(buf)@.len(),
        r is Ok <==> fitting_prefix(histogram_tokens(h), 0) == histogram_tokens(h).len(),
        r is Err ==> r == Err::<usize, V2SerializeError>(V2SerializeError::CountNotSerializable),
        r matches Ok(n) ==> {
            &&& n == token_bytes(histogram_tokens(h)).len()
            &&& final(buf)@ =~= token_bytes(histogram_tokens(h)) + old(buf)@.subrange(
                n as int,
                old(buf)@.len() as int,
            )
        },
{
    let ghost c = h.counts_view();
    let ghost all = histogram_tokens(h);
    let ghost orig = buf@;
    let ghost fit = fitting_prefix(all, 0);
    let index_limit = h.index_for(h.max());
    proof {
        h.lemma_max_bin();
        h.lemma_bins_bounds();
        lemma_fitting_prefix_bounds(all, 0);
        assert(all.subrange(0, 0) =~= Seq::<int>::empty());
        assert(token_bytes(Seq::<int>::empty()) =~= Seq::<u8>::empty());
        assert(count_tokens(c, 0, (index_limit + 1) as nat) =~= Seq::<int>::empty() + count_tokens(c, 0, (index_limit + 1) as nat));
    }
    let end = index_limit + 1;
    let blen = buf.len();
    let mut index: usize = 0;
    let mut bytes_written: usize = 0;
    let ghost mut emitted: Seq<int> = Seq::empty();
    while index < end
        invariant
            h.wf(),
            c == h.counts_view(),
            end == h.index_spec(h.max_spec()) + 1,
            end <= c.len(),
            all == count_tokens(c, 0, end as nat),
            all == emitted + count_tokens(c, index as nat, end as nat),
            index <= end,
            fit == fitting_prefix(all, 0),
            fit <= all.len(),
            fit < all.len() ==> all[fit as int] > i64::MAX,
            forall|j: int| 0 <= j < fit ==> all[j] <= i64::MAX,
            emitted.len() <= fit,
            token_bytes(all.subrange(0, fit as int)).len() <= orig.len(),
            orig == old(buf)@,
            buf@.len() == orig.len(),
            blen == orig.len(),
            bytes_written <= orig.len(),
            bytes_written == token_bytes(emitted).len(),
            buf@.subrange(0, bytes_written as int) == token_bytes(emitted),
            buf@.subrange(bytes_written as int, orig.len() as int) == orig.subrange(bytes_written as int, orig.len() as int),
        decreases end - index,
    {
        let ghost before = emitted;
        let ghost start = index as nat;
        let count = match h.count_at_index(index) {
            Some(v) => v,
            None => {
                proof {
                    assert(false);
                }
                return Err(V2SerializeError::CountNotSerializable);
            },
        };
        index = index + 1;
        let mut zero_count: usize = 0;
        if count.is_zero() {
            zero_count = 1;
            loop
                invariant
                    h.wf(),
                    c == h.counts_view(),
                    end <= c.len(),
                    start < index <= end,
                    c[start as int] == 0,
                    zero_count == index - start,
                    forall|j: int| start <= j < index ==> c[j] == 0,
                ensures
                    start < index <= end,
                    zero_count == index - start,
                    forall|j: int| start <= j < index ==> c[j] == 0,
                    index == end || c[index as int] != 0,
                decreases end - index,
            {
                if index >= end {
                    break;
                }
                let next = match h.count_at_index(index) {
                    Some(v) => v,
                    None => {
                        proof {
                            assert(false);
                        }
                        break;
                    },
                };
                if !next.is_zero() {
                    break;
                }
                zero_count = zero_count + 1;
                index = index + 1;
            }
            proof {
                lemma_zero_run_exact(c, start, index as nat, end as nat);
            }
        }
        let ghost token: int;
        proof {
            assert(zero_count <= 66 * 0x20000) by {
                h.lemma_bins_bounds();
            }
        }
        let count_or_zeros: i64 = if zero_count > 1 {
            proof {
                token = -(zero_count as int);
            }
            -(zero_count as i64)
        } else {
            let v = count.to_u64();
            proof {
                token = v as int;
            }
            if v > 0x7fff_ffff_ffff_ffffu64 {
                proof {
                    assert(count_tokens(c, start, end as nat)[0] == token);
                    assert(all[emitted.len() as int] == token);
                    assert(emitted.len() == fit);
                    assert(fit < all.len());
                }
                return Err(V2SerializeError::CountNotSerializable);
            }
            v as i64
        };
        proof {
            assert(count_tokens(c, start, end as nat) =~= seq![token] + count_tokens(c, index as nat, end as nat));
            lemma_emit_step(all, before, token, count_tokens(c, index as nat, end as nat), fit);
            emitted = emitted.push(token);
        }
        let zz = zig_zag_encode(count_or_zeros);
        proof {
            assert(count_or_zeros as int == token);
            assert(varint_bytes(zz).len() == varint_len(zz));
            assert(token_bytes(emitted).len() == bytes_written + varint_len(zz));
        }
        let ghost buf_before = buf@;
        let n = varint_write_at(zz, buf, bytes_written);
        proof {
            lemma_buf_step(orig, buf_before, buf@, bytes_written as nat, varint_bytes(zz), token_bytes(before));
        }
        bytes_written = bytes_written + n;
    }
    proof {
        assert(count_tokens(c, index as nat, end as nat) =~= Seq::<int>::empty());
        assert(all =~= emitted);
        assert(buf@ =~= buf@.subrange(0, bytes_written as int) + buf@.subrange(bytes_written as int, orig.len() as int));
    }
    Ok(bytes_written)
}

proof fn lemma_tokens_len(c: Seq<nat>, i: nat, end: nat)
    requires
        i <= end,
    ensures
        count_tokens(c, i, end).len() <= end - i,
    decreases end - i,
{
    if i < end {
        if c[i as int] != 0 {
            lemma_tokens_len(c, i + 1, end);
        } else {
            lemma_zero_run_bounds(c, i, end);
            let z = zero_run(c, i, end);
            if z > 1 {
                lemma_tokens_len(c, i + z, end);
            } else {
                lemma_tokens_len(c, i + 1, end);
            }
        }
    }
}

proof fn lemma_token_bytes_len(t: Seq<int>)
    ensures
        token_bytes(t).len() <= 9 * t.len(),
    decreases t.len(),
{
    if t.len() > 0 {
        lemma_token_bytes_len(t.drop_last());
        lemma_varint_len_bounds(zig_zag(t.last()) as u64, 1);
    }
}

/// The encoded counts of a histogram, and any prefix of them, take at most nine bytes per
/// bin up to the bin of its maximum.
pub proof fn lemma_encoded_size<T: Counter>(h: &Histogram<T>, k: nat)
    requires
        h.wf(),
        k <= histogram_tokens(h).len(),
    ensures
        token_bytes(histogram_tokens(h).subrange(0, k as int)).len() <= 9 * (h.index_spec(h.max_spec()) + 1),
        histogram_tokens(h).len() <= h.index_spec(h.max_spec()) + 1,
{
    let end = h.index_spec(h.max_spec()) + 1;
    lemma_tokens_len(h.counts_view(), 0, end);
    lemma_token_bytes_len(histogram_tokens(h).subrange(0, k as int));
}

/// The V2 header of a histogram with these settings and a payload of `payload_len` bytes.
pub open spec fn v2_header(payload_len: nat, sigfig: nat, low: nat, high: nat) -> Seq<u8> {
    u32_be(V2_COOKIE) + be_bytes(payload_len, 4) + u32_be(0) + be_bytes(sigfig, 4) + be_bytes(low, 8)
        + be_bytes(high, 8) + u64_be(V2_RATIO_ONE_BITS)
}

/// The V2 encoding of a histogram: the header, then its encoded counts.
pub open spec fn v2_encoding<T: Counter>(h: &Histogram<T>) -> Seq<u8> {
    let payload = token_bytes(histogram_tokens(h));
    v2_header(payload.len(), h.spec_sigfig(), h.spec_low(), h.spec_high()) + payload
}

/// Whether every count of `h` up to the bin of its maximum fits in an `i64`, so that the
/// histogram can be written.
pub open spec fn serializable<T: Counter>(h: &Histogram<T>) -> bool {
    fitting_prefix(histogram_tokens(h), 0) == histogram_tokens(h).len()
}

/// Serializer for the V2 binary format.
pub struct V2Serializer {
    buf: Vec<u8>,
}

impl V2Serializer {
    /// The bytes held in the serializer's scratch buffer.
    pub closed spec fn buffered(&self) -> Seq<u8> {
        self.buf@
    }

    /// Create a new serializer, with an empty scratch buffer.
    pub fn new() -> (r: V2Serializer)
        ensures
            r.buffered() == Seq::<u8>::empty(),
    {
        V2Serializer { buf: Vec::new() }
    }

    /// Serialize the histogram, appending its V2 encoding to `writer`; returns the number of
    /// bytes written. Fails, writing nothing, when a count is above `i64::MAX`.
    pub fn serialize<T: Counter>(&mut self, h: &Histogram<T>, writer: &mut Vec<u8>) -> (r: Result<usize, V2SerializeError>)
        requires
            h.wf(),
        ensures
            r is Ok <==> serializable(h),
            r is Err ==> r == Err::<usize, V2SerializeError>(V2SerializeError::CountNotSerializable)
                && final(writer)@ == old(writer)@,
            r matches Ok(n) ==> final(writer)@ == old(writer)@ + v2_encoding(h) && n == v2_encoding(h).len(),
    {
        let ghost all = histogram_tokens(h);
        let limit = h.index_for(h.max());
        proof {
            h.lemma_max_bin();
            h.lemma_bins_bounds();
            lemma_fitting_prefix_bounds(all, 0);
            lemma_encoded_size(h, fitting_prefix(all, 0));
        }
        let max_size = match counts_array_max_encoded_size(limit + 1) {
            Some(s) => s,
            None => {
                return Err(V2SerializeError::UsizeTypeTooSmall);
            },
        };
        self.buf.clear();
        self.buf.resize(max_size, 0u8);
        let counts_len = match encode_counts(h, self.buf.as_mut_slice()) {
            Ok(n) => n,
            Err(e) => {
                return Err(e);
            },
        };
        proof {
            lemma_encoded_size(h, all.len());
            assert(all.subrange(0, all.len() as int) =~= all);
        }
        let ghost start = writer@;
        append_u32_be(writer, V2_COOKIE);
        append_u32_be(writer, counts_len as u32);
        append_u32_be(writer, 0);
        append_u32_be(writer, h.sigfig() as u32);
        append_u64_be(writer, h.low());
        append_u64_be(writer, h.high());
        append_u64_be(writer, V2_RATIO_ONE_BITS);
        let ghost header_end = writer@;
        let mut i: usize = 0;
        while i < counts_len
            invariant
                i <= counts_len,
                counts_len <= self.buf@.len(),
                self.buf@.subrange(0, counts_len as int) == token_bytes(all),
                writer@ == header_end + token_bytes(all).subrange(0, i as int),
            decreases counts_len - i,
        {
            let b = self.buf[i];
            proof {
                assert(self.buf@.subrange(0, counts_len as int)[i as int] == b);
            }
            writer.push(b);
            proof {
                assert(token_bytes(all).subrange(0, i + 1) =~= token_bytes(all).subrange(0, i as int).push(b));
            }
            i = i + 1;
        }
        proof {
            assert(token_bytes(all).subrange(0, counts_len as int) =~= token_bytes(all));
            assert(writer@ =~= start + v2_encoding(h));
            lemma_be_roundtrip(V2_COOKIE as nat, 4);
            lemma_be_roundtrip(counts_len as nat, 4);
            lemma_be_roundtrip(0, 4);
            lemma_be_roundtrip(h.spec_sigfig(), 4);
            lemma_be_roundtrip(h.spec_low(), 8);
            lemma_be_roundtrip(h.spec_high(), 8);
            lemma_be_roundtrip(V2_RATIO_ONE_BITS as nat, 8);
        }
        Ok(V2_HEADER_SIZE + counts_len)
    }
}

// --------------------------------------------------------------------------------------------
// Deserialization
// --------------------------------------------------------------------------------------------

/// Errors that can happen during deserialization.
#[derive(Debug, PartialEq, Eq, Clone, Copy, Structural)]
pub enum DeserializeError {
    /// The input ended before the encoded histogram did.
    UnexpectedEof,
    /// The cookie (first 4 bytes) did not match that for any supported format.
    InvalidCookie,
    /// The histogram uses features that this implementation doesn't support (yet), so it
    /// cannot be deserialized correctly.
    UnsupportedFeature,
    /// A count exceeded what can be represented in the chosen counter type.
    UnsuitableCounterType,
    /// The histogram instance could not be created because the serialized parameters were
    /// invalid (e.g. lowest value, highest value, etc.)
    InvalidParameters,
    /// The current system's pointer width cannot represent the encoded histogram.
    UsizeTypeTooSmall,
    /// The encoded array is longer than it should be for the histogram's value range.
    EncodedArrayTooLong,
    /// The compressed payload could not be inflated.
    IoError,
}

/// A decoded varint has at least one and at most nine bytes.
pub proof fn lemma_varint_parse_len(b: Seq<u8>, at: int, i: nat, acc: u64)
    ensures
        varint_parse_from(b, at, i, acc) matches Some((_, n)) ==> i < n <= 9 && at + n <= b.len(),
    decreases 9 - i,
{
    if i < 8 {
        lemma_varint_parse_len(b, at, i + 1, acc | (((b[at + i] & 0x7f) as u64) << ((7 * i) as u64)));
    }
}

/// The big-endian number in bytes `at..at + width` of `b`.
pub open spec fn header_field(b: Seq<u8>, at: int, width: nat) -> nat {
    be_value(b.subrange(at, at + width))
}

/// The number of bins of a histogram with these settings.
pub open spec fn layout_bins(low: nat, high: nat, sigfig: nat) -> nat {
    let u = unit_magnitude_for(low);
    let m = sub_bucket_magnitude_for(sigfig);
    (bucket_of(u + m, high) + 2) * pow2((m - 1) as nat)
}

/// Decoding the payload `p` from byte `pos`, with the next count going to bin `dest` of
/// `counts`: each varint's zig-zag decoding is a count for the next bin or, when negative,
/// a number of empty bins to skip. The result is the counts and the bin after the last one
/// reached, or the first error.
pub open spec fn decode_counts(p: Seq<u8>, pos: nat, dest: nat, counts: Seq<nat>, cap: nat) -> Result<(Seq<nat>, nat), DeserializeError>
    decreases p.len() - pos,
{
    if pos >= p.len() {
        Ok((counts, dest))
    } else {
        proof {
            lemma_varint_parse_len(p, pos as int, 0, 0);
        }
        match varint_parse(p, pos as int) {
            None => Err(DeserializeError::UnexpectedEof),
            Some((v, n)) => {
                let num = zig_zag_inverse(v as int);
                if num < 0 {
                    if num == i64::MIN || dest + (-num) > usize::MAX {
                        Err(DeserializeError::UsizeTypeTooSmall)
                    } else {
                        decode_counts(p, pos + n, (dest + (-num)) as nat, counts, cap)
                    }
                } else if num > cap {
                    Err(DeserializeError::UnsuitableCounterType)
                } else if dest >= counts.len() {
                    Err(DeserializeError::EncodedArrayTooLong)
                } else {
                    decode_counts(p, pos + n, dest + 1, counts.update(dest as int, num as nat), cap)
                }
            },
        }
    }
}

/// Decoding `b` as a V2 histogram whose counters hold at most `cap`: the lowest and highest
/// value, the significant digits, the counts of all bins and the bin after the last one
/// the payload reached; or the first error.
pub open spec fn v2_decode(b: Seq<u8>, cap: nat) -> Result<(u64, u64, u8, Seq<nat>, nat), DeserializeError> {
    if b.len() < 4 {
        Err(DeserializeError::UnexpectedEof)
    } else if header_field(b, 0, 4) != V2_COOKIE {
        Err(DeserializeError::InvalidCookie)
    } else if b.len() < 12 {
        Err(DeserializeError::UnexpectedEof)
    } else if header_field(b, 8, 4) != 0 {
        Err(DeserializeError::UnsupportedFeature)
    } else if b.len() < 16 {
        Err(DeserializeError::UnexpectedEof)
    } else if header_field(b, 12, 4) > 255 {
        Err(DeserializeError::InvalidParameters)
    } else if b.len() < 40 {
        Err(DeserializeError::UnexpectedEof)
    } else if header_field(b, 32, 8) != V2_RATIO_ONE_BITS {
        Err(DeserializeError::UnsupportedFeature)
    } else {
        let low = header_field(b, 16, 8);
        let high = header_field(b, 24, 8);
        let sigfig = header_field(b, 12, 4);
        let plen = header_field(b, 4, 4);
        if creation_error(low, high, sigfig) is Some {
            Err(DeserializeError::InvalidParameters)
        } else if b.len() < 40 + plen {
            Err(DeserializeError::UnexpectedEof)
        } else {
            match decode_counts(
                b.subrange(40, 40 + plen as int),
                0,
                0,
                Seq::new(layout_bins(low, high, sigfig), |i: int| 0nat),
                cap,
            ) {
                Err(e) => Err(e),
                Ok((counts, dest)) => Ok((low as u64, high as u64, sigfig as u8, counts, dest)),
            }
        }
    }
}

/// Decoding `b` as a V2 histogram, plain or DEFLATE-compressed: after the compressed cookie
/// come the length of the compressed stream and the stream (cut short where `b` ends), whose
/// inflated bytes are decoded as a plain V2 histogram.
pub open spec fn decode(b: Seq<u8>, cap: nat) -> Result<(u64, u64, u8, Seq<nat>, nat), DeserializeError> {
    if b.len() < 4 {
        Err(DeserializeError::UnexpectedEof)
    } else if header_field(b, 0, 4) != V2_COMPRESSED_COOKIE {
        v2_decode(b, cap)
    } else if b.len() < 8 {
        Err(DeserializeError::UnexpectedEof)
    } else {
        let end = if 8 + header_field(b, 4, 4) < b.len() {
            8 + header_field(b, 4, 4)
        } else {
            b.len() as nat
        };
        match zlib_inflated(b.subrange(8, end as int)) {
            None => Err(DeserializeError::IoError),
            Some(x) => v2_decode(x, cap),
        }
    }
}

/// `h` is the histogram with these settings and counts, with its total, minimum and
/// maximum computed from the bins before `dest`.
pub open spec fn decoded_histogram<T: Counter>(
    h: &Histogram<T>,
    low: u64,
    high: u64,
    sigfig: u8,
    counts: Seq<nat>,
    dest: nat,
) -> bool {
    let until = if dest < counts.len() {
        dest
    } else {
        counts.len()
    };
    &&& h.wf()
    &&& h.spec_low() == low
    &&& h.spec_high() == high
    &&& h.spec_sigfig() == sigfig
    &&& !h.spec_auto()
    &&& h.u() == unit_magnitude_for(low as nat)
    &&& h.m() == sub_bucket_magnitude_for(sigfig as nat)
    &&& h.spec_buckets() == bucket_of(h.u() + h.m(), high as nat) + 1
    &&& h.counts_view() == counts
    &&& h.spec_total() == cap_u64(seq_sum(counts.subrange(0, until as int)))
    &&& h.spec_max_value() == match last_nonzero(counts, until) {
        Some(i) => raised_max(
            h.spec_unit_mask(),
            h.highest_spec(h.value_spec(i)) as u64,
            h.spec_unit_mask(),
        ),
        None => h.spec_unit_mask(),
    }
    &&& h.spec_min_non_zero() == match first_nonzero_past_zero(counts, until) {
        Some(i) => lowered_min(u64::MAX, h.value_spec(i) as u64, h.spec_unit_mask()),
        None => u64::MAX,
    }
}

/// Deserializer for the V2 format.
pub struct Deserializer {}

impl Deserializer {
    /// Create a new deserializer.
    pub fn new() -> (r: Deserializer) {
        Deserializer {  }
    }

    /// Deserialize an encoded histogram from the start of `input`, in the V2 format or its
    /// DEFLATE-compressed form.
    pub fn deserialize<T: Counter>(&mut self, input: &[u8]) -> (r: Result<Histogram<T>, DeserializeError>)
        ensures
            match decode(input@, T::cap()) {
                Err(e) => r == Err::<Histogram<T>, DeserializeError>(e),
                Ok((low, high, sigfig, counts, dest)) => r matches Ok(h) && decoded_histogram(
                    &h,
                    low,
                    high,
                    sigfig,
                    counts,
                    dest,
                ),
            },
    {
        let len = input.len();
        if len < 4 {
            return Err(DeserializeError::UnexpectedEof);
        }
        let cookie = read_u32_be(input);
        if cookie != V2_COMPRESSED_COOKIE {
            return Self::deserialize_v2(input);
        }
        if len < 8 {
            return Err(DeserializeError::UnexpectedEof);
        }
        let payload_len = read_u32_be(vstd::slice::slice_subrange(input, 4, len));
        proof {
            assert(input@.subrange(4, len as int).subrange(0, 4) =~= input@.subrange(4, 8));
        }
        let end = if (payload_len as usize) < len - 8 {
            8 + payload_len as usize
        } else {
            len
        };
        let inflated = match zlib_inflate(vstd::slice::slice_subrange(input, 8, end)) {
            Some(v) => v,
            None => {
                return Err(DeserializeError::IoError);
            },
        };
        Self::deserialize_v2(inflated.as_slice())
    }

    /// Deserialize a V2 histogram from the start of `input`.
    fn deserialize_v2<T: Counter>(input: &[u8]) -> (r: Result<Histogram<T>, DeserializeError>)
        ensures
            match v2_decode(input@, T::cap()) {
                Err(e) => r == Err::<Histogram<T>, DeserializeError>(e),
                Ok((low, high, sigfig, counts, dest)) => r matches Ok(h) && decoded_histogram(
                    &h,
                    low,
                    high,
                    sigfig,
                    counts,
                    dest,
                ),
            },
    {
        let ghost b = input@;
        let len = input.len();
        if len < 4 {
            return Err(DeserializeError::UnexpectedEof);
        }
        let cookie = read_u32_be(input);
        if cookie != V2_COOKIE {
            return Err(DeserializeError::InvalidCookie);
        }
        if len < 12 {
            return Err(DeserializeError::UnexpectedEof);
        }
        let payload_len = read_u32_be(vstd::slice::slice_subrange(input, 4, len));
        let normalizing_offset = read_u32_be(vstd::slice::slice_subrange(input, 8, len));
        proof {
            assert(b.subrange(4, len as int).subrange(0, 4) =~= b.subrange(4, 8));
            assert(b.subrange(8, len as int).subrange(0, 4) =~= b.subrange(8, 12));
        }
        if normalizing_offset != 0 {
            return Err(DeserializeError::UnsupportedFeature);
        }
        if len < 16 {
            return Err(DeserializeError::UnexpectedEof);
        }
        let num_digits = read_u32_be(vstd::slice::slice_subrange(input, 12, len));
        proof {
            assert(b.subrange(12, len as int).subrange(0, 4) =~= b.subrange(12, 16));
        }
        if num_digits > 255 {
            return Err(DeserializeError::InvalidParameters);
        }
        if len < 40 {
            return Err(DeserializeError::UnexpectedEof);
        }
        let low = read_u64_be(vstd::slice::slice_subrange(input, 16, len));
        let high = read_u64_be(vstd::slice::slice_subrange(input, 24, len));
        let ratio = read_u64_be(vstd::slice::slice_subrange(input, 32, len));
        proof {
            assert(b.subrange(16, len as int).subrange(0, 8) =~= b.subrange(16, 24));
            assert(b.subrange(24, len as int).subrange(0, 8) =~= b.subrange(24, 32));
            assert(b.subrange(32, len as int).subrange(0, 8) =~= b.subrange(32, 40));
        }
        if ratio != V2_RATIO_ONE_BITS {
            return Err(DeserializeError::UnsupportedFeature);
        }
        let sigfig = num_digits as u8;
        let mut h = match Histogram::<T>::new_with_bounds(low, high, sigfig) {
            Ok(h) => h,
            Err(_) => {
                return Err(DeserializeError::InvalidParameters);
            },
        };
        let plen = payload_len as usize;
        if plen > len - 40 {
            return Err(DeserializeError::UnexpectedEof);
        }
        let payload = vstd::slice::slice_subrange(input, 40, 40 + plen);
        let ghost p = payload@;
        let ghost zeros = Seq::new(layout_bins(low as nat, high as nat, num_digits as nat), |i: int| 0nat);
        proof {
            assert(h.counts_view() =~= zeros);
            assert(header_field(b, 4, 4) == payload_len);
            assert(header_field(b, 12, 4) == num_digits);
            assert(header_field(b, 16, 8) == low);
            assert(header_field(b, 24, 8) == high);
            assert(p == b.subrange(40, 40 + plen as int));
            assert(v2_decode(b, T::cap()) == match decode_counts(p, 0, 0, zeros, T::cap()) {
                Err(e) => Err(e),
                Ok((c, d)) => Ok((low, high, sigfig, c, d)),
            });
        }
        let mut pos: usize = 0;
        let mut dest: usize = 0;
        while pos < plen
            invariant
                p == payload@,
                plen == p.len(),
                pos <= plen,
                h.wf(),
                h.spec_low() == low,
                h.spec_high() == high,
                h.spec_sigfig() == sigfig,
                b == input@,
                v2_decode(b, T::cap()) == match decode_counts(p, 0, 0, zeros, T::cap()) {
                    Err(e) => Err(e),
                    Ok((c, d)) => Ok((low, high, sigfig, c, d)),
                },
                !h.spec_auto(),
                h.u() == unit_magnitude_for(low as nat),
                h.m() == sub_bucket_magnitude_for(sigfig as nat),
                h.spec_buckets() == bucket_of(h.u() + h.m(), high as nat) + 1,
                h.bins() == zeros.len(),
                forall|j: int| dest <= j < h.bins() ==> h.counts_view()[j] == 0,
                decode_counts(p, 0, 0, zeros, T::cap()) == decode_counts(
                    p,
                    pos as nat,
                    dest as nat,
                    h.counts_view(),
                    T::cap(),
                ),
            decreases plen - pos,
        {
            proof {
                lemma_varint_parse_len(p, pos as int, 0, 0);
            }
            let (v, n) = match varint_read_at(payload, pos) {
                Some(x) => x,
                None => {
                    return Err(DeserializeError::UnexpectedEof);
                },
            };
            let num = zig_zag_decode(v);
            if num < 0 {
                if num == i64::MIN {
                    return Err(DeserializeError::UsizeTypeTooSmall);
                }
                let zero_count = -num;
                if zero_count as u64 > usize::MAX as u64 {
                    return Err(DeserializeError::UsizeTypeTooSmall);
                }
                dest = match dest.checked_add(zero_count as usize) {
                    Some(d) => d,
                    None => {
                        return Err(DeserializeError::UsizeTypeTooSmall);
                    },
                };
            } else {
                let count = match T::from_u64(num as u64) {
                    Some(c) => c,
                    None => {
                        return Err(DeserializeError::UnsuitableCounterType);
                    },
                };
                let ghost before = h.counts_view();
                match h.set_count_at_index(dest, count) {
                    Ok(()) => {},
                    Err(()) => {
                        return Err(DeserializeError::EncodedArrayTooLong);
                    },
                }
                proof {
                    h.lemma_bins_bounds();
                }
                dest = dest + 1;
            }
            pos = pos + n;
        }
        h.restat_until(dest);
        Ok(h)
    }
}

// --------------------------------------------------------------------------------------------
// V2 + DEFLATE
// --------------------------------------------------------------------------------------------

#[verifier::external_type_specification]
#[verifier::external_body]
pub struct ExIoError(std::io::Error);

/// The zlib stream (zlib's wrapper around DEFLATE) that flate2's `ZlibEncoder` produces for
/// `input` at the default compression level.
pub uninterp spec fn zlib_compressed(input: Seq<u8>) -> Seq<u8>;

/// What flate2's `ZlibDecoder` gives for the zlib stream `input`, read to its end: the
/// inflated bytes, or `None` when the decoder reports an error.
pub uninterp spec fn zlib_inflated(input: Seq<u8>) -> Option<Seq<u8>>;

/// flate2's `ZlibEncoder` over a vector at the default level: writes all of `input`, then
/// finishes the stream and returns it. It succeeds: writing into a vector does not fail, and
/// the miniz_oxide compressor behind it reports an error only when it is used after an error
/// or after finishing, which this sequence (writes, then finish) never does. The stream is
/// `zlib_compressed(input)`, and inflating it gives `input` back (the compression is
/// lossless); nothing more is stated of the stream.
#[verifier::external_body]
fn zlib_compress(input: &[u8]) -> (r: Result<Vec<u8>, std::io::Error>)
    ensures
        r is Ok,
        r matches Ok(v) ==> v@ == zlib_compressed(input@),
        r matches Ok(v) ==> zlib_inflated(v@) == Some(input@),
{
    let mut encoder = ZlibEncoder::new(Vec::new(), Compression::default());
    encoder.write_all(input)?;
    encoder.finish()
}

/// flate2's `ZlibDecoder` over `input`, read to its end: the inflated bytes, `None` when the
/// decoder reports an error. The outcome is `zlib_inflated(input)`.
#[verifier::external_body]
fn zlib_inflate(input: &[u8]) -> (r: Option<Vec<u8>>)
    ensures
        r is Some <==> zlib_inflated(input@) is Some,
        r matches Some(v) ==> zlib_inflated(input@) == Some(v@),
{
    let mut out = Vec::new();
    match ZlibDecoder::new(input).read_to_end(&mut out) {
        Ok(_) => Some(out),
        Err(_) => None,
    }
}

/// Errors that occur during DEFLATE serialization.
#[derive(Debug, PartialEq, Eq, Clone, Copy, Structural)]
pub enum V2DeflateSerializeError {
    /// The underlying serialization failed.
    InternalSerializationError(V2SerializeError),
    /// The compressor reported an i/o error.
    IoError,
}

/// The V2 + DEFLATE encoding of a histogram: the compressed cookie, the length of the
/// compressed stream (modulo 2^32), and the zlib stream of its V2 encoding.
pub open spec fn v2_deflate_encoding<T: Counter>(h: &Histogram<T>) -> Seq<u8> {
    compressed_frame(zlib_compressed(v2_encoding(h)))
}

/// The V2 + DEFLATE frame around a compressed V2 encoding: the compressed cookie, the length
/// of the compressed stream (modulo 2^32) and the stream.
pub open spec fn compressed_frame(compressed: Seq<u8>) -> Seq<u8> {
    u32_be(V2_COMPRESSED_COOKIE) + be_bytes(compressed.len(), 4) + compressed
}

/// Append the V2 + DEFLATE frame around the compressed V2 encoding `compressed` to `writer`;
/// returns the number of bytes appended.
pub fn frame_compressed(compressed: &[u8], writer: &mut Vec<u8>) -> (n: usize)
    ensures
        final(writer)@ == old(writer)@ + compressed_frame(compressed@),
        n == compressed_frame(compressed@).len(),
{
    let clen = compressed.len();
    let ghost start = writer@;
    let start_len = writer.len();
    append_u32_be(writer, V2_COMPRESSED_COOKIE);
    append_u32_be(writer, (clen as u64 % 0x1_0000_0000u64) as u32);
    proof {
        lemma_be_mod(clen as nat, 4);
        lemma2_to64();
        vstd::arithmetic::power2::lemma2_to64_rest();
        assert(pow2(32) == 0x1_0000_0000);
    }
    let ghost header_end = writer@;
    let mut i: usize = 0;
    while i < clen
        invariant
            i <= clen,
            clen == compressed@.len(),
            writer@ == header_end + compressed@.subrange(0, i as int),
        decreases clen - i,
    {
        let b = compressed[i];
        writer.push(b);
        proof {
            assert(compressed@.subrange(0, i + 1) =~= compressed@.subrange(0, i as int).push(b));
        }
        i = i + 1;
    }
    proof {
        assert(compressed@.subrange(0, clen as int) =~= compressed@);
        assert(writer@ =~= start + compressed_frame(compressed@));
        lemma_be_roundtrip(V2_COMPRESSED_COOKIE as nat, 4);
        lemma_be_roundtrip(clen as nat, 4);
    }
    writer.len() - start_len
}

/// The DEFLATE frame around a stream that inflates back to the V2 encoding of a histogram
/// decodes as that encoding does, when the stream's length fits in the frame's length field.
proof fn lemma_deflate_roundtrip<T: Counter>(h: &Histogram<T>)
    requires
        h.wf(),
        serializable(h),
        zlib_inflated(zlib_compressed(v2_encoding(h))) == Some(v2_encoding(h)),
    ensures
        zlib_compressed(v2_encoding(h)).len() < 0x1_0000_0000 ==> decode(v2_deflate_encoding(h), T::cap())
            == v2_decode(v2_encoding(h), T::cap()),
        v2_decode(v2_encoding(h), T::cap()) == Ok::<(u64, u64, u8, Seq<nat>, nat), DeserializeError>(
            (
                h.spec_low() as u64,
                h.spec_high() as u64,
                h.spec_sigfig() as u8,
                h.counts_view(),
                h.index_spec(h.max_spec()) + 1,
            ),
        ),
{
    lemma_v2_roundtrip(h);
    let z = zlib_compressed(v2_encoding(h));
    let f = v2_deflate_encoding(h);
    if z.len() < 0x1_0000_0000 {
        lemma_be_exact(V2_COMPRESSED_COOKIE as u64, 4);
        lemma_be_exact(z.len() as u64, 4);
        assert(f.subrange(0, 4) =~= u32_be(V2_COMPRESSED_COOKIE));
        assert(f.subrange(4, 8) =~= be_bytes(z.len(), 4));
        assert(f.subrange(8, f.len() as int) =~= z);
        assert(header_field(f, 0, 4) == V2_COMPRESSED_COOKIE);
        assert(header_field(f, 4, 4) == z.len());
    }
}

/// Serializer for the V2 + DEFLATE binary format.
///
/// It's called "deflate" after the name of the format's cookie, but it actually uses zlib's
/// wrapper format around plain DEFLATE.
pub struct V2DeflateSerializer {
    uncompressed_buf: Vec<u8>,
    v2_serializer: V2Serializer,
}

impl V2DeflateSerializer {
    /// The bytes held in the serializer's buffer of uncompressed encodings.
    pub closed spec fn buffered(&self) -> Seq<u8> {
        self.uncompressed_buf@
    }

    /// The V2 serializer it encodes with before compressing.
    pub closed spec fn inner(&self) -> V2Serializer {
        self.v2_serializer
    }

    /// Create a new serializer, with empty buffers.
    pub fn new() -> (r: V2DeflateSerializer)
        ensures
            r.buffered() == Seq::<u8>::empty(),
            r.inner().buffered() == Seq::<u8>::empty(),
    {
        V2DeflateSerializer { uncompressed_buf: Vec::new(), v2_serializer: V2Serializer::new() }
    }

    /// Serialize the histogram, appending its V2 + DEFLATE encoding to `writer`; returns the
    /// number of bytes written. Fails, writing nothing, exactly when a count is above
    /// `i64::MAX`. The stream after the eight-byte frame inflates back to the V2 encoding.
    pub fn serialize<T: Counter>(&mut self, h: &Histogram<T>, writer: &mut Vec<u8>) -> (r: Result<usize, V2DeflateSerializeError>)
        requires
            h.wf(),
        ensures
            !serializable(h) ==> r == Err::<usize, V2DeflateSerializeError>(
                V2DeflateSerializeError::InternalSerializationError(V2SerializeError::CountNotSerializable),
            ),
            r is Ok <==> serializable(h),
            r is Err ==> final(writer)@ == old(writer)@,
            r matches Ok(n) ==> final(writer)@ == old(writer)@ + v2_deflate_encoding(h) && n
                == v2_deflate_encoding(h).len(),
            r is Ok ==> zlib_inflated(zlib_compressed(v2_encoding(h))) == Some(v2_encoding(h)),
            r is Ok && zlib_compressed(v2_encoding(h)).len() < 0x1_0000_0000 ==> decode(
                v2_deflate_encoding(h),
                T::cap(),
            ) == Ok::<(u64, u64, u8, Seq<nat>, nat), DeserializeError>(
                (
                    h.spec_low() as u64,
                    h.spec_high() as u64,
                    h.spec_sigfig() as u8,
                    h.counts_view(),
                    h.index_spec(h.max_spec()) + 1,
                ),
            ),
    {
        self.uncompressed_buf.clear();
        match self.v2_serializer.serialize(h, &mut self.uncompressed_buf) {
            Ok(_) => {},
            Err(e) => {
                return Err(V2DeflateSerializeError::InternalSerializationError(e));
            },
        }
        proof {
            assert(self.uncompressed_buf@ =~= v2_encoding(h));
        }
        let compressed = match zlib_compress(self.uncompressed_buf.as_slice()) {
            Ok(v) => v,
            Err(_) => {
                return Err(V2DeflateSerializeError::IoError);
            },
        };
        proof {
            assert(compressed@ == zlib_compressed(v2_encoding(h)));
            lemma_deflate_roundtrip(h);
        }
        Ok(frame_compressed(compressed.as_slice(), writer))
    }
}

// --------------------------------------------------------------------------------------------
// Reading back what was written
// --------------------------------------------------------------------------------------------

/// The counts `c` with every bin from `i` on emptied.
pub open spec fn counts_before(c: Seq<nat>, i: nat) -> Seq<nat> {
    Seq::new(c.len(), |j: int| if j < i { c[j] } else { 0 })
}

proof fn lemma_zero_run_zeros(c: Seq<nat>, i: nat, end: nat)
    requires
        end <= c.len(),
    ensures
        forall|j: int| i <= j < i + zero_run(c, i, end) ==> c[j] == 0,
    decreases end - i,
{
    if i < end && c[i as int] == 0 {
        lemma_zero_run_zeros(c, i + 1, end);
    }
}

proof fn lemma_token_bytes_single(e: Seq<int>, t: int, rest: Seq<int>)
    ensures
        token_bytes(e + (seq![t] + rest)) == token_bytes(e) + varint_bytes(zig_zag(t) as u64)
            + token_bytes(rest),
        e + (seq![t] + rest) == e.push(t) + rest,
{
    lemma_token_bytes_append(e.push(t), rest);
    assert(e + (seq![t] + rest) =~= e.push(t) + rest);
    assert(e.push(t).drop_last() =~= e);
}

proof fn lemma_decode_tokens(c: Seq<nat>, i: nat, end: nat, e: Seq<int>, cap: nat)
    requires
        i <= end <= c.len(),
        c.len() <= 66 * 0x20000,
        forall|j: int| 0 <= j < c.len() ==> c[j] <= cap,
        count_tokens(c, 0, end) == e + count_tokens(c, i, end),
        forall|j: int|
            0 <= j < count_tokens(c, i, end).len() ==> #[trigger] count_tokens(c, i, end)[j] <= i64::MAX,
    ensures
        decode_counts(
            token_bytes(count_tokens(c, 0, end)),
            token_bytes(e).len(),
            i,
            counts_before(c, i),
            cap,
        ) == Ok::<(Seq<nat>, nat), DeserializeError>((counts_before(c, end), end)),
    decreases end - i,
{
    let all = count_tokens(c, 0, end);
    let p = token_bytes(all);
    let pos = token_bytes(e).len();
    if i == end {
        assert(all =~= e);
    } else {
        let rest_i = count_tokens(c, i, end);
        lemma_zero_run_bounds(c, i, end);
        lemma_zero_run_zeros(c, i, end);
        let z = zero_run(c, i, end);
        let t: int = if c[i as int] != 0 {
            c[i as int] as int
        } else if z > 1 {
            -(z as int)
        } else {
            0
        };
        let ni: nat = if c[i as int] != 0 {
            i + 1
        } else if z > 1 {
            i + z
        } else {
            i + 1
        };
        let rest = count_tokens(c, ni, end);
        assert(rest_i == seq![t] + rest);
        assert(rest_i[0] == t);
        assert(t <= i64::MAX);
        lemma_token_bytes_single(e, t, rest);
        let v = zig_zag(t) as u64;
        assert(zig_zag(t) == v);
        assert(zig_zag_inverse(v as int) == t);
        lemma_varint_len_bounds(v, 1);
        assert(p == token_bytes(e) + varint_bytes(v) + token_bytes(rest));
        assert(p.subrange(pos as int, (pos + varint_len(v)) as int) =~= varint_bytes(v));
        lemma_varint_roundtrip(p, pos as int, v);
        assert forall|j: int| 0 <= j < rest.len() implies #[trigger] rest[j] <= i64::MAX by {
            assert(rest_i[j + 1] == rest[j]);
        }
        lemma_decode_tokens(c, ni, end, e.push(t), cap);
        assert(token_bytes(e.push(t)).len() == pos + varint_len(v)) by {
            assert(e.push(t).drop_last() =~= e);
        }
        if c[i as int] != 0 {
            assert(counts_before(c, i).update(i as int, c[i as int]) =~= counts_before(c, i + 1));
        } else if z > 1 {
            assert(counts_before(c, i) =~= counts_before(c, i + z));
        } else {
            assert(counts_before(c, i).update(i as int, 0) =~= counts_before(c, i + 1));
        }
    }
}

/// Deserializing the V2 encoding of a histogram gives back its lowest and highest value,
/// its significant digits and all its counts; the payload reaches the bin after the one of
/// its maximum.
pub proof fn lemma_serialize_roundtrip<T: Counter>(h: &Histogram<T>)
    requires
        h.wf(),
        serializable(h),
    ensures
        v2_decode(v2_encoding(h), T::cap()) == Ok::<(u64, u64, u8, Seq<nat>, nat), DeserializeError>(
            (
                h.spec_low() as u64,
                h.spec_high() as u64,
                h.spec_sigfig() as u8,
                h.counts_view(),
                h.index_spec(h.max_spec()) + 1,
            ),
        ),
        decode(v2_encoding(h), T::cap()) == v2_decode(v2_encoding(h), T::cap()),
{
    lemma_v2_roundtrip(h);
    assert((0x1c849303u32 | 0x10u32) != (0x1c849303u32 | 0x20u32)) by (bit_vector);
}

/// Deserializing what was serialized keeps the statistics that agree with the counts: the
/// histogram read back from the V2 encoding of `h` has `h`'s total when that is the capped
/// sum of `h`'s counts; `h`'s maximum when the bin of the tracked maximum has a count, the
/// maximum is tracked above 0 (or the unit is 1) and, in a bin that ends at `2^64`, the
/// unit is above 1 exactly when the tracked maximum is `u64::MAX`; and `h`'s non-zero
/// minimum when the tracked minimum lies in the first bin past bin 0 with a count (and none
/// is tracked when there is no such bin).
pub proof fn lemma_roundtrip_keeps_stats<T: Counter>(h: &Histogram<T>, d: &Histogram<T>)
    requires
        h.wf(),
        serializable(h),
        decode(v2_encoding(h), T::cap()) matches Ok((low, high, sigfig, counts, dest))
            && decoded_histogram(d, low, high, sigfig, counts, dest),
    ensures
        h.spec_total() == cap_u64(seq_sum(h.counts_view())) ==> d.spec_total() == h.spec_total(),
        ({
            let mv = h.spec_max_value() as nat;
            &&& h.counts_view()[h.index_spec(mv) as int] != 0
            &&& (mv != 0 || h.spec_unit_mask() == 0)
            &&& (h.lowest_spec(mv) + h.range_spec(mv) == two_pow_64() ==> (h.spec_unit_mask() != 0
                <==> mv == u64::MAX))
        }) ==> d.max_spec() == h.max_spec(),
        first_nonzero_past_zero(h.counts_view(), h.bins()) == (if h.spec_min_non_zero() == u64::MAX {
            None::<nat>
        } else {
            Some(h.index_spec(h.spec_min_non_zero() as nat))
        }) ==> d.min_nz_spec() == h.min_nz_spec(),
{
    lemma_serialize_roundtrip(h);
    h.lemma_layout();
    d.lemma_layout();
    h.lemma_max_bin();
    h.lemma_max_spec_bin();
    Histogram::<T>::lemma_restat_keeps_stats(h, d, h.index_spec(h.spec_max_value() as nat) + 1);
}

/// The V2 encoding of a histogram decodes to its settings and counts.
proof fn lemma_v2_roundtrip<T: Counter>(h: &Histogram<T>)
    requires
        h.wf(),
        serializable(h),
    ensures
        v2_decode(v2_encoding(h), T::cap()) == Ok::<(u64, u64, u8, Seq<nat>, nat), DeserializeError>(
            (
                h.spec_low() as u64,
                h.spec_high() as u64,
                h.spec_sigfig() as u8,
                h.counts_view(),
                h.index_spec(h.max_spec()) + 1,
            ),
        ),
{
    let c = h.counts_view();
    let end = h.index_spec(h.max_spec()) + 1;
    let all = histogram_tokens(h);
    let payload = token_bytes(all);
    let b = v2_encoding(h);
    h.lemma_layout();
    h.lemma_max_bin();
    h.lemma_bins_bounds();
    h.lemma_counts_capped();
    lemma_encoded_size(h, all.len());
    assert(all.subrange(0, all.len() as int) =~= all);
    lemma_fitting_prefix_bounds(all, 0);
    lemma_be_roundtrip(V2_COOKIE as nat, 4);
    lemma_be_roundtrip(payload.len(), 4);
    lemma_be_roundtrip(0, 4);
    lemma_be_roundtrip(h.spec_sigfig(), 4);
    lemma_be_roundtrip(h.spec_low(), 8);
    lemma_be_roundtrip(h.spec_high(), 8);
    lemma_be_roundtrip(V2_RATIO_ONE_BITS as nat, 8);
    lemma_be_exact(V2_COOKIE as u64, 4);
    lemma_be_exact(payload.len() as u64, 4);
    lemma_be_exact(0, 4);
    lemma_be_exact(h.spec_sigfig() as u64, 4);
    lemma_be_exact(h.spec_low() as u64, 8);
    lemma_be_exact(h.spec_high() as u64, 8);
    lemma_be_exact(V2_RATIO_ONE_BITS, 8);
    let h0 = u32_be(V2_COOKIE);
    let h1 = be_bytes(payload.len(), 4);
    let h2 = u32_be(0);
    let h3 = be_bytes(h.spec_sigfig(), 4);
    let h4 = be_bytes(h.spec_low(), 8);
    let h5 = be_bytes(h.spec_high(), 8);
    let h6 = u64_be(V2_RATIO_ONE_BITS);
    assert(b == h0 + h1 + h2 + h3 + h4 + h5 + h6 + payload);
    assert(b.subrange(0, 4) =~= h0);
    assert(b.subrange(4, 8) =~= h1);
    assert(b.subrange(8, 12) =~= h2);
    assert(b.subrange(12, 16) =~= h3);
    assert(b.subrange(16, 24) =~= h4);
    assert(b.subrange(24, 32) =~= h5);
    assert(b.subrange(32, 40) =~= h6);
    assert(b.subrange(40, 40 + payload.len() as int) =~= payload);
    let zeros = Seq::new(layout_bins(h.spec_low(), h.spec_high(), h.spec_sigfig()), |i: int| 0nat);
    assert(zeros =~= counts_before(c, 0));
    assert(all =~= Seq::<int>::empty() + count_tokens(c, 0, end));
    assert(token_bytes(Seq::<int>::empty()) =~= Seq::<u8>::empty());
    lemma_decode_tokens(c, 0, end, Seq::empty(), T::cap());
    assert(counts_before(c, end) =~= c);
}

} // verus!
