//! Arithmetic of the bucket layout: bit lengths, powers of two, and the mapping between
//! values and bin indexes, stated over mathematical integers.
use vstd::prelude::*;
use vstd::arithmetic::power2::*;
use vstd::arithmetic::div_mod::*;
use vstd::arithmetic::mul::*;
use vstd::std_specs::bits::u64_leading_zeros;

verus! {

/// Number of binary digits of `x` (0 for 0).
pub open spec fn bit_len(x: nat) -> nat
    decreases x,
{
    if x == 0 {
        0
    } else {
        1 + bit_len(x / 2)
    }
}

/// `2^64`.
pub open spec fn two_pow_64() -> nat {
    0x1_0000_0000_0000_0000
}

pub proof fn lemma_pow2_values()
    ensures
        pow2(0) == 1,
        pow2(1) == 2,
        pow2(63) == 0x8000_0000_0000_0000,
        pow2(64) == two_pow_64(),
{
    lemma2_to64();
    lemma2_to64_rest();
}

/// `pow2` is monotone.
pub proof fn lemma_pow2_le(a: nat, b: nat)
    requires
        a <= b,
    ensures
        pow2(a) <= pow2(b),
{
    if a < b {
        lemma_pow2_strictly_increases(a, b);
    }
}

pub proof fn lemma_bit_len_bounds(x: nat)
    ensures
        x < pow2(bit_len(x)),
        x > 0 ==> pow2((bit_len(x) - 1) as nat) <= x,
    decreases x,
{
    lemma_pow2_values();
    if x > 0 {
        lemma_bit_len_bounds(x / 2);
        let b = bit_len(x / 2);
        lemma_pow2_unfold(b + 1);
        if x / 2 > 0 {
            lemma_pow2_unfold(b);
        }
    }
}

/// `bit_len(x) <= k` exactly when `x < 2^k`.
pub proof fn lemma_bit_len_le(x: nat, k: nat)
    ensures
        bit_len(x) <= k <==> x < pow2(k),
{
    lemma_bit_len_bounds(x);
    if bit_len(x) <= k {
        lemma_pow2_le(bit_len(x), k);
    } else {
        lemma_pow2_le(k, (bit_len(x) - 1) as nat);
    }
}

/// A value between `2^(l-1)` and `2^l` has `l` binary digits.
pub proof fn lemma_bit_len_exact(x: nat, l: nat)
    requires
        l >= 1,
        pow2((l - 1) as nat) <= x < pow2(l),
    ensures
        bit_len(x) == l,
{
    lemma_bit_len_le(x, l);
    lemma_bit_len_le(x, (l - 1) as nat);
}

pub proof fn lemma_bit_len_mono(x: nat, y: nat)
    requires
        x <= y,
    ensures
        bit_len(x) <= bit_len(y),
{
    lemma_bit_len_bounds(y);
    lemma_bit_len_le(x, bit_len(y));
}

/// `leading_zeros` of a `u64` in terms of its bit length.
pub proof fn lemma_leading_zeros(x: u64)
    ensures
        bit_len(x as nat) <= 64,
        u64_leading_zeros(x) == 64 - bit_len(x as nat),
    decreases x,
{
    reveal(u64_leading_zeros);
    lemma_pow2_values();
    lemma_bit_len_le(x as nat, 64);
    if x > 0 {
        lemma_leading_zeros((x / 2) as u64);
    }
}

/// Index of the bucket holding `v`, where the first bucket spans `[0, 2^k)`
/// (`k` is the unit magnitude plus the sub-bucket count magnitude).
pub open spec fn bucket_of(k: nat, v: nat) -> nat {
    if bit_len(v) <= k {
        0
    } else {
        (bit_len(v) - k) as nat
    }
}

/// The bucket of `v` is the first one whose upper end `2^(k+b)` lies above `v`.
pub proof fn lemma_bucket_of(k: nat, v: nat)
    ensures
        v < pow2(k + bucket_of(k, v)),
        bucket_of(k, v) > 0 ==> pow2((k + bucket_of(k, v) - 1) as nat) <= v,
{
    lemma_bit_len_bounds(v);
    lemma_bit_len_le(v, k);
}

/// The conditions of `lemma_bucket_of` pin the bucket down.
pub proof fn lemma_bucket_of_unique(k: nat, v: nat, b: nat)
    requires
        v < pow2(k + b),
        b > 0 ==> pow2((k + b - 1) as nat) <= v,
    ensures
        bucket_of(k, v) == b,
{
    lemma_bit_len_le(v, k + b);
    if b > 0 {
        lemma_bit_len_le(v, (k + b - 1) as nat);
    }
}

pub proof fn lemma_bucket_of_mono(k: nat, v: nat, w: nat)
    requires
        v <= w,
    ensures
        bucket_of(k, v) <= bucket_of(k, w),
{
    lemma_bit_len_mono(v, w);
}

/// A `u64` value lies in bucket `64 - k` at most.
pub proof fn lemma_bucket_of_u64(k: nat, v: u64)
    requires
        k <= 64,
    ensures
        bucket_of(k, v as nat) <= 64 - k,
{
    lemma_leading_zeros(v);
}

/// `(q * d + r) / d == q` and `(q * d + r) % d == r` for `0 <= r < d`.
pub proof fn lemma_div_mod_parts(q: int, d: int, r: int)
    requires
        d > 0,
        0 <= r < d,
    ensures
        (q * d + r) / d == q,
        (q * d + r) % d == r,
{
    lemma_fundamental_div_mod_converse(q * d + r, d, q, r);
}

/// `x / d * d <= x < (x / d + 1) * d`.
pub proof fn lemma_div_bounds(x: nat, d: nat)
    requires
        d > 0,
    ensures
        (x / d) * d <= x,
        x < (x / d) * d + d,
        x / d <= x,
{
    lemma_fundamental_div_mod(x as int, d as int);
    lemma_mod_pos_bound(x as int, d as int);
    lemma_mul_is_commutative((x / d) as int, d as int);
    lemma_div_is_ordered_by_denominator(x as int, 1, d as int);
}

/// `x < a * d` iff `x / d < a`, for positive `d`.
pub proof fn lemma_div_lt(x: nat, a: nat, d: nat)
    requires
        d > 0,
    ensures
        x < a * d <==> x / d < a,
        a * d <= x <==> a <= x / d,
{
    lemma_div_bounds(x, d);
    let q = x / d;
    assert(x < a * d <==> q < a) by (nonlinear_arith)
        requires
            q * d <= x,
            x < q * d + d,
            d > 0,
    ;
    assert(a * d <= x <==> a <= q) by (nonlinear_arith)
        requires
            q * d <= x,
            x < q * d + d,
            d > 0,
    ;
}

/// Log2 of the value step of the bucket holding `v`, for unit magnitude `u` and sub-bucket
/// count `2^m`.
pub open spec fn shift_of(u: nat, m: nat, v: nat) -> nat {
    u + bucket_of(u + m, v)
}

/// Position of `v` inside its bucket.
pub open spec fn sub_bucket_of(u: nat, m: nat, v: nat) -> nat {
    v / pow2(shift_of(u, m, v))
}

/// Bin index of `v`: buckets past the first use only the upper half of their sub-buckets.
pub open spec fn index_of(u: nat, m: nat, v: nat) -> nat {
    bucket_of(u + m, v) * pow2((m - 1) as nat) + sub_bucket_of(u, m, v)
}

/// Smallest value sharing a bin with `v`.
pub open spec fn lowest_of(u: nat, m: nat, v: nat) -> nat {
    sub_bucket_of(u, m, v) * pow2(shift_of(u, m, v))
}

/// Number of values sharing a bin with `v`.
pub open spec fn range_of(u: nat, m: nat, v: nat) -> nat {
    pow2(shift_of(u, m, v))
}

/// Smallest value of bin `i` (before any truncation to 64 bits).
pub open spec fn value_at(u: nat, m: nat, i: nat) -> nat {
    let h = pow2((m - 1) as nat);
    let q = i / h;
    if q <= 1 {
        i * pow2(u)
    } else {
        (i % h + h) * pow2((u + q - 1) as nat)
    }
}

/// The position inside a bucket lies in its upper half, except in the first bucket.
pub proof fn lemma_sub_bucket_range(u: nat, m: nat, v: nat)
    requires
        m >= 1,
    ensures
        sub_bucket_of(u, m, v) < pow2(m),
        bucket_of(u + m, v) > 0 ==> pow2((m - 1) as nat) <= sub_bucket_of(u, m, v),
        pow2(m) == 2 * pow2((m - 1) as nat),
{
    let b = bucket_of(u + m, v);
    let s = shift_of(u, m, v);
    lemma_bucket_of(u + m, v);
    lemma_pow2_unfold(m);
    lemma_pow2_pos(s);
    lemma_pow2_adds(m, s);
    assert(u + m + b == m + s);
    lemma_div_lt(v, pow2(m), pow2(s));
    if b > 0 {
        lemma_pow2_adds((m - 1) as nat, s);
        assert((u + m + b - 1) as nat == (m - 1) as nat + s);
        lemma_div_lt(v, pow2((m - 1) as nat), pow2(s));
    }
}

/// `lowest_of(v) <= v < lowest_of(v) + range_of(v) <= 2^64` for 64-bit values.
pub proof fn lemma_lowest_of(u: nat, m: nat, v: nat)
    requires
        u + m <= 64,
    ensures
        lowest_of(u, m, v) <= v < lowest_of(u, m, v) + range_of(u, m, v),
        v < two_pow_64() ==> lowest_of(u, m, v) + range_of(u, m, v) <= two_pow_64(),
        range_of(u, m, v) >= 1,
{
    let s = shift_of(u, m, v);
    let p = pow2(s);
    lemma_pow2_pos(s);
    lemma_div_bounds(v, p);
    if v < two_pow_64() {
        let q = v / p;
        lemma_pow2_values();
        lemma_bit_len_le(v, 64);
        assert(s <= 64);
        lemma_pow2_subtracts(s, 64);
        lemma_pow2_adds((64 - s) as nat, s);
        assert(pow2(64) == pow2((64 - s) as nat) * p);
        lemma_div_lt(v, pow2((64 - s) as nat), p);
        assert(q + 1 <= pow2((64 - s) as nat));
        lemma_mul_inequality((q + 1) as int, pow2((64 - s) as nat) as int, p as int);
        assert((q + 1) * p == q * p + p) by (nonlinear_arith);
    }
}

/// The smallest value of the bin of `v` is `lowest_of(v)`.
pub proof fn lemma_value_at_index_of(u: nat, m: nat, v: nat)
    requires
        m >= 1,
    ensures
        value_at(u, m, index_of(u, m, v)) == lowest_of(u, m, v),
{
    let h = pow2((m - 1) as nat);
    let b = bucket_of(u + m, v);
    let sub = sub_bucket_of(u, m, v);
    lemma_sub_bucket_range(u, m, v);
    lemma_pow2_pos((m - 1) as nat);
    let i = index_of(u, m, v);
    if b == 0 {
        assert(i == sub);
        lemma_div_lt(sub, 2, h);
    } else {
        assert(i == b * h + sub);
        assert(b * h + sub == (b + 1) * h + (sub - h)) by (nonlinear_arith);
        lemma_div_mod_parts((b + 1) as int, h as int, (sub - h) as int);
        assert(i / h == b + 1);
        assert(i % h == sub - h);
        assert((u + (b + 1) - 1) as nat == shift_of(u, m, v));
    }
}

/// Bin `i` holds the values whose index is `i`.
pub proof fn lemma_index_of_value_at(u: nat, m: nat, i: nat)
    requires
        m >= 1,
    ensures
        index_of(u, m, value_at(u, m, i)) == i,
        bucket_of(u + m, value_at(u, m, i)) == if i / pow2((m - 1) as nat) <= 1 {
            0
        } else {
            (i / pow2((m - 1) as nat) - 1) as nat
        },
{
    let h = pow2((m - 1) as nat);
    lemma_pow2_pos((m - 1) as nat);
    lemma_pow2_unfold(m);
    let q = i / h;
    let v = value_at(u, m, i);
    lemma_pow2_pos(u);
    lemma_pow2_adds(m, u);
    if q <= 1 {
        lemma_div_lt(i, 2, h);
        assert(v == i * pow2(u));
        lemma_mul_strict_inequality(i as int, pow2(m) as int, pow2(u) as int);
        lemma_bucket_of_unique(u + m, v, 0);
        assert(shift_of(u, m, v) == u);
        lemma_div_mod_parts(i as int, pow2(u) as int, 0);
    } else {
        let b = (q - 1) as nat;
        let sub = i % h + h;
        lemma_fundamental_div_mod(i as int, h as int);
        lemma_mod_pos_bound(i as int, h as int);
        lemma_pow2_pos(u + b);
        lemma_pow2_adds(m, u + b);
        lemma_pow2_adds((m - 1) as nat, u + b);
        assert(v == sub * pow2(u + b));
        lemma_mul_strict_inequality(sub as int, pow2(m) as int, pow2(u + b) as int);
        lemma_mul_inequality(h as int, sub as int, pow2(u + b) as int);
        assert((u + m + b - 1) as nat == (m - 1) as nat + (u + b));
        lemma_bucket_of_unique(u + m, v, b);
        lemma_div_mod_parts(sub as int, pow2(u + b) as int, 0);
        assert(sub_bucket_of(u, m, v) == sub);
        assert(b * h + sub == q * h + i % h) by (nonlinear_arith)
            requires
                b == q - 1,
                sub == i % h + h,
        ;
    }
}

/// Values between the lowest value of the bin of `v` and the end of that bin share its bin.
pub proof fn lemma_same_bin(u: nat, m: nat, v: nat, w: nat)
    requires
        m >= 1,
        lowest_of(u, m, v) <= w < lowest_of(u, m, v) + range_of(u, m, v),
    ensures
        bucket_of(u + m, w) == bucket_of(u + m, v),
        shift_of(u, m, w) == shift_of(u, m, v),
        sub_bucket_of(u, m, w) == sub_bucket_of(u, m, v),
        index_of(u, m, w) == index_of(u, m, v),
        lowest_of(u, m, w) == lowest_of(u, m, v),
{
    let b = bucket_of(u + m, v);
    let s = shift_of(u, m, v);
    let p = pow2(s);
    let sub = sub_bucket_of(u, m, v);
    lemma_pow2_pos(s);
    lemma_sub_bucket_range(u, m, v);
    assert(w == sub * p + (w - sub * p));
    lemma_div_mod_parts(sub as int, p as int, (w - sub * p) as int);
    assert(w / p == sub);
    lemma_pow2_adds(m, s);
    assert(u + m + b == m + s);
    lemma_mul_inequality((sub + 1) as int, pow2(m) as int, p as int);
    assert((sub + 1) * p == sub * p + p) by (nonlinear_arith);
    if b > 0 {
        lemma_pow2_adds((m - 1) as nat, s);
        assert((u + m + b - 1) as nat == (m - 1) as nat + s);
        lemma_mul_inequality(pow2((m - 1) as nat) as int, sub as int, p as int);
    }
    lemma_bucket_of_unique(u + m, w, b);
}

/// The bucket order agrees with the value order.
pub proof fn lemma_bucket_lt_value_lt(k: nat, v: nat, w: nat)
    requires
        bucket_of(k, v) < bucket_of(k, w),
    ensures
        v < w,
{
    if w <= v {
        lemma_bucket_of_mono(k, w, v);
    }
}

/// The bin index grows with the value.
pub proof fn lemma_index_of_mono(u: nat, m: nat, v: nat, w: nat)
    requires
        m >= 1,
        v <= w,
    ensures
        index_of(u, m, v) <= index_of(u, m, w),
{
    let k = u + m;
    let h = pow2((m - 1) as nat);
    lemma_bucket_of_mono(k, v, w);
    lemma_sub_bucket_range(u, m, v);
    lemma_sub_bucket_range(u, m, w);
    let bv = bucket_of(k, v);
    let bw = bucket_of(k, w);
    if bv == bw {
        lemma_pow2_pos(shift_of(u, m, v));
        vstd::arithmetic::div_mod::lemma_div_is_ordered(v as int, w as int, pow2(shift_of(u, m, v)) as int);
    } else {
        let sv = sub_bucket_of(u, m, v);
        let sw = sub_bucket_of(u, m, w);
        assert(bv * h + sv <= bw * h + sw) by (nonlinear_arith)
            requires
                bv < bw,
                sv < 2 * h,
                sw >= h,
        ;
    }
}

/// The smallest value of a bin grows with the bin index.
pub proof fn lemma_value_at_mono(u: nat, m: nat, i: nat, j: nat)
    requires
        m >= 1,
        i <= j,
    ensures
        value_at(u, m, i) <= value_at(u, m, j),
{
    lemma_index_of_value_at(u, m, i);
    lemma_index_of_value_at(u, m, j);
    if value_at(u, m, i) > value_at(u, m, j) {
        lemma_index_of_mono(u, m, value_at(u, m, j), value_at(u, m, i));
    }
}

} // verus!
