//! The histogram: configuration, the value/bin mapping, recording, and statistics.
use vstd::prelude::*;
use vstd::arithmetic::power2::*;
use vstd::arithmetic::mul::*;
use vstd::bits::*;
use vstd::arithmetic::div_mod::lemma_mod_multiples_basic;
use crate::counter::Counter;
use crate::math::{
    bit_len, two_pow_64, lemma_pow2_values, lemma_pow2_le, lemma_bit_len_bounds,
    lemma_bit_len_le, lemma_bit_len_exact, lemma_leading_zeros, bucket_of, lemma_bucket_of,
    lemma_bucket_of_unique, lemma_bucket_of_mono, lemma_bucket_of_u64, lemma_div_mod_parts,
    lemma_div_bounds, lemma_div_lt, shift_of, sub_bucket_of, index_of, lowest_of, range_of,
    value_at, lemma_sub_bucket_range, lemma_lowest_of, lemma_value_at_index_of,
    lemma_index_of_value_at, lemma_same_bin, lemma_bucket_lt_value_lt, lemma_index_of_mono,
    lemma_value_at_mono,
};

verus! {

/// `Histogram` records value counts in "buckets" of values whose resolution shrinks as values
/// grow, like the mantissa and exponent of a float: bucket `k` holds values in steps of
/// `2^(unit_magnitude + k)`, and the "sub-buckets" of a bucket hold the mantissa. Every bucket
/// past the first keeps only the upper half of its sub-buckets, since the lower half is covered
/// by earlier buckets at finer resolution.
#[derive(Clone, Debug)]
pub struct Histogram<T: Counter> {
    auto_resize: bool,
    highest_trackable_value: u64,
    lowest_discernible_value: u64,
    significant_value_digits: u8,
    bucket_count: u8,
    sub_bucket_count: u32,
    sub_bucket_half_count: u32,
    sub_bucket_half_count_magnitude: u8,
    sub_bucket_mask: u64,
    leading_zero_count_base: u8,
    unit_magnitude: u8,
    unit_magnitude_mask: u64,
    max_value: u64,
    min_non_zero_value: u64,
    total_count: u64,
    counts: Vec<T>,
}

/// Errors that can occur when creating a histogram.
#[derive(Debug, PartialEq, Eq, Clone, Copy)]
pub enum CreationError {
    /// Lowest discernible value must be >= 1.
    LowIsZero,
    /// Lowest discernible value must be <= `u64::max_value() / 2`.
    LowExceedsMax,
    /// Highest trackable value must be >= 2 * lowest discernible value.
    HighLessThanTwiceLow,
    /// Number of significant digits must be in the range `[0, 5]`.
    SigFigExceedsMax,
    /// The exponent of the largest power of two not above the lowest value, plus the bits
    /// needed for the requested significant figures, must not exceed 63.
    CannotRepresentSigFigBeyondLow,
}

impl CreationError {
    /// A description of the error.
    pub fn message(&self) -> (r: &'static str)
        ensures
            r@ == match *self {
                CreationError::LowIsZero => "lowest discernible value must be >= 1"@,
                CreationError::LowExceedsMax => "lowest discernible value must be <= u64::max_value() / 2"@,
                CreationError::HighLessThanTwiceLow => "highest trackable value must be >= 2 * lowest discernible value"@,
                CreationError::SigFigExceedsMax => "number of significant digits must be in the range [0, 5]"@,
                CreationError::CannotRepresentSigFigBeyondLow => "cannot represent sigfig worth of values beyond lowest discernible value"@,
            },
    {
        match self {
            CreationError::LowIsZero => "lowest discernible value must be >= 1",
            CreationError::LowExceedsMax => "lowest discernible value must be <= u64::max_value() / 2",
            CreationError::HighLessThanTwiceLow => "highest trackable value must be >= 2 * lowest discernible value",
            CreationError::SigFigExceedsMax => "number of significant digits must be in the range [0, 5]",
            CreationError::CannotRepresentSigFigBeyondLow => "cannot represent sigfig worth of values beyond lowest discernible value",
        }
    }
}

/// Errors that can occur when adding another histogram.
#[derive(Debug, PartialEq, Eq, Clone, Copy)]
pub enum AdditionError {
    /// The other histogram includes values that do not fit in this histogram's range.
    /// Only possible when auto resize is disabled.
    OtherAddendValuesExceedRange,
}

/// Errors that can occur when subtracting another histogram.
#[derive(Debug, PartialEq, Eq, Clone, Copy)]
pub enum SubtractionError {
    /// The other histogram includes values that do not fit in this histogram's range.
    /// Only possible when auto resize is disabled.
    SubtrahendValuesExceedMinuendRange,
    /// The other histogram includes counts that are higher than the current count for a value.
    /// Counts before the offending value may already have been subtracted.
    SubtrahendCountExceedsMinuendCount,
}

/// `10^n`.
pub open spec fn pow10(n: nat) -> nat
    decreases n,
{
    if n == 0 {
        1
    } else {
        10 * pow10((n - 1) as nat)
    }
}

/// Magnitude of the sub-bucket count for `sigfig` significant digits: the smallest `m` with
/// `2^m >= 2 * 10^sigfig`, so that values up to twice `10^sigfig` get unit resolution.
pub open spec fn sub_bucket_magnitude_for(sigfig: nat) -> nat {
    bit_len((2 * pow10(sigfig) - 1) as nat)
}

/// Unit magnitude for lowest discernible value `low`: the exponent of the largest power of
/// two not above `low`.
pub open spec fn unit_magnitude_for(low: nat) -> nat {
    (bit_len(low) - 1) as nat
}

/// `a + b`, capped at `u64::MAX`.
pub open spec fn sat_add_u64(a: nat, b: nat) -> nat {
    if a + b > u64::MAX {
        u64::MAX as nat
    } else {
        a + b
    }
}

/// Capped sum of a counter and a count.
pub open spec fn sat_add_count<T: Counter>(a: nat, b: nat) -> nat {
    if a + b > T::cap() {
        T::cap()
    } else {
        a + b
    }
}

/// Unit-equivalent form of `value` for the maximum: all bits below the unit set.
pub open spec fn max_form(value: u64, unit_mask: u64) -> u64 {
    value | unit_mask
}

/// Unit-equivalent form of `value` for the minimum: all bits below the unit cleared.
pub open spec fn min_form(value: u64, unit_mask: u64) -> u64 {
    value & !unit_mask
}

/// The maximum tracked after recording `value`.
pub open spec fn max_after(max: u64, value: u64, unit_mask: u64) -> u64 {
    if value > max && max_form(value, unit_mask) > max {
        max_form(value, unit_mask)
    } else {
        max
    }
}

/// The maximum after raising `cur` to the unit-equivalent form of `value`.
pub open spec fn raised_max(cur: u64, value: u64, unit_mask: u64) -> u64 {
    if max_form(value, unit_mask) > cur {
        max_form(value, unit_mask)
    } else {
        cur
    }
}

/// The non-zero minimum after lowering `cur` to the unit-equivalent form of `value`, unless
/// `value` is unit-equivalent to 0.
pub open spec fn lowered_min(cur: u64, value: u64, unit_mask: u64) -> u64 {
    if value > unit_mask && min_form(value, unit_mask) < cur {
        min_form(value, unit_mask)
    } else {
        cur
    }
}

/// The non-zero minimum tracked after recording `value`.
pub open spec fn min_after(min: u64, value: u64, unit_mask: u64) -> u64 {
    if value < min && value != 0 && value > unit_mask && min_form(value, unit_mask) < min {
        min_form(value, unit_mask)
    } else {
        min
    }
}

/// Sum of a sequence of counts.
pub open spec fn seq_sum(s: Seq<nat>) -> nat
    decreases s.len(),
{
    if s.len() == 0 {
        0
    } else {
        seq_sum(s.drop_last()) + s.last()
    }
}

/// `x` capped at `u64::MAX`.
pub open spec fn cap_u64(x: nat) -> nat {
    if x > u64::MAX {
        u64::MAX as nat
    } else {
        x
    }
}

/// Index of the last non-zero count among the first `n`.
pub open spec fn last_nonzero(s: Seq<nat>, n: nat) -> Option<nat>
    decreases n,
{
    if n == 0 {
        None
    } else if s[n - 1] != 0 {
        Some((n - 1) as nat)
    } else {
        last_nonzero(s, (n - 1) as nat)
    }
}

/// Index of the first non-zero count among indexes `1..n`.
pub open spec fn first_nonzero_past_zero(s: Seq<nat>, n: nat) -> Option<nat>
    decreases n,
{
    if n <= 1 {
        None
    } else {
        match first_nonzero_past_zero(s, (n - 1) as nat) {
            Some(i) => Some(i),
            None => if s[n - 1] != 0 {
                Some((n - 1) as nat)
            } else {
                None
            },
        }
    }
}

/// A prefix of a sequence of counts sums to no more than the whole.
pub proof fn lemma_seq_sum_prefix_le(s: Seq<nat>, n: nat)
    requires
        n <= s.len(),
    ensures
        seq_sum(s.subrange(0, n as int)) <= seq_sum(s),
    decreases s.len() - n,
{
    if n < s.len() {
        lemma_seq_sum_prefix_le(s, n + 1);
        assert(s.subrange(0, n as int + 1).drop_last() =~= s.subrange(0, n as int));
    } else {
        assert(s.subrange(0, n as int) =~= s);
    }
}

/// What `last_nonzero` finds: a non-zero count with only zeros after it, or only zeros.
pub proof fn lemma_last_nonzero(s: Seq<nat>, n: nat)
    requires
        n <= s.len(),
    ensures
        last_nonzero(s, n) is Some ==> {
            let k = last_nonzero(s, n)->0;
            &&& k < n
            &&& s[k as int] != 0
            &&& forall|j: int| k < j < n ==> s[j] == 0
        },
        last_nonzero(s, n) is None ==> forall|j: int| 0 <= j < n ==> s[j] == 0,
    decreases n,
{
    if n > 0 {
        lemma_last_nonzero(s, (n - 1) as nat);
    }
}

/// Sum of the counts among the first `n` bins of a source layout (`su`, `sm`) whose smallest
/// values fall in bin `j` of the layout (`u`, `m`).
pub open spec fn mapped_sum(
    u: nat,
    m: nat,
    src: Seq<nat>,
    su: nat,
    sm: nat,
    j: nat,
    n: nat,
) -> nat
    decreases n,
{
    if n == 0 {
        0
    } else {
        mapped_sum(u, m, src, su, sm, j, (n - 1) as nat) + if index_of(
            u,
            m,
            value_at(su, sm, (n - 1) as nat),
        ) == j {
            src[n - 1]
        } else {
            0
        }
    }
}

/// The tracked maximum after recording the smallest value of each non-zero source bin among
/// the first `n`, in order.
pub open spec fn max_over(start: u64, mask: u64, src: Seq<nat>, su: nat, sm: nat, n: nat) -> u64
    decreases n,
{
    if n == 0 {
        start
    } else {
        let prev = max_over(start, mask, src, su, sm, (n - 1) as nat);
        if src[n - 1] != 0 {
            max_after(prev, value_at(su, sm, (n - 1) as nat) as u64, mask)
        } else {
            prev
        }
    }
}

/// The tracked non-zero minimum after recording the smallest value of each non-zero source
/// bin among the first `n`, in order.
pub open spec fn min_over(start: u64, mask: u64, src: Seq<nat>, su: nat, sm: nat, n: nat) -> u64
    decreases n,
{
    if n == 0 {
        start
    } else {
        let prev = min_over(start, mask, src, su, sm, (n - 1) as nat);
        if src[n - 1] != 0 {
            min_after(prev, value_at(su, sm, (n - 1) as nat) as u64, mask)
        } else {
            prev
        }
    }
}

/// Zero counts past `n` add nothing to the mapped sums, the maximum or the minimum.
pub proof fn lemma_over_zero_tail(
    u: nat,
    m: nat,
    src: Seq<nat>,
    su: nat,
    sm: nat,
    start_max: u64,
    start_min: u64,
    mask: u64,
    n: nat,
    total: nat,
)
    requires
        n <= total <= src.len(),
        forall|i: int| n <= i < total ==> src[i] == 0,
    ensures
        forall|j: nat| mapped_sum(u, m, src, su, sm, j, total) == mapped_sum(u, m, src, su, sm, j, n),
        max_over(start_max, mask, src, su, sm, total) == max_over(start_max, mask, src, su, sm, n),
        min_over(start_min, mask, src, su, sm, total) == min_over(start_min, mask, src, su, sm, n),
        seq_sum(src.subrange(0, total as int)) == seq_sum(src.subrange(0, n as int)),
    decreases total - n,
{
    if n < total {
        lemma_over_zero_tail(u, m, src, su, sm, start_max, start_min, mask, n, (total - 1) as nat);
        assert(src.subrange(0, total as int).drop_last() =~= src.subrange(0, total - 1));
    }
}

/// State while subtracting: counts, total, tracked maximum and minimum, and whether a count
/// was found too small.
pub type SubState = (Seq<nat>, nat, u64, u64, bool);

/// The state after subtracting, in order, each non-zero bin among the first `n` bins of a
/// source layout (`su`, `sm`) from the bin of its smallest value in the layout (`u`, `m`);
/// it stops at the first bin whose count is smaller than the amount to subtract.
pub open spec fn sub_run(
    start: SubState,
    u: nat,
    m: nat,
    mask: u64,
    src: Seq<nat>,
    su: nat,
    sm: nat,
    n: nat,
) -> SubState
    decreases n,
{
    if n == 0 {
        start
    } else {
        let prev = sub_run(start, u, m, mask, src, su, sm, (n - 1) as nat);
        let c = src[n - 1];
        let v = value_at(su, sm, (n - 1) as nat);
        let k = index_of(u, m, v);
        if prev.4 || c == 0 {
            prev
        } else if prev.0[k as int] < c {
            (prev.0, prev.1, prev.2, prev.3, true)
        } else {
            (
                prev.0.update(k as int, (prev.0[k as int] - c) as nat),
                if prev.1 >= c {
                    (prev.1 - c) as nat
                } else {
                    0
                },
                max_after(prev.2, v as u64, mask),
                min_after(prev.3, v as u64, mask),
                false,
            )
        }
    }
}

/// Once a subtraction run has failed, later bins change nothing.
pub proof fn lemma_sub_run_stops(
    start: SubState,
    u: nat,
    m: nat,
    mask: u64,
    src: Seq<nat>,
    su: nat,
    sm: nat,
    n1: nat,
    n2: nat,
)
    requires
        n1 <= n2,
        sub_run(start, u, m, mask, src, su, sm, n1).4,
    ensures
        sub_run(start, u, m, mask, src, su, sm, n2) == sub_run(start, u, m, mask, src, su, sm, n1),
    decreases n2 - n1,
{
    if n1 < n2 {
        lemma_sub_run_stops(start, u, m, mask, src, su, sm, n1, (n2 - 1) as nat);
    }
}

/// Number of values `record_n_correct` records for `value` at expected `interval`: `value`
/// itself, then `value - interval`, `value - 2 * interval`, ... while at least `interval`.
pub open spec fn corrected_count(value: nat, interval: nat) -> nat {
    if interval == 0 || value < interval {
        1
    } else {
        value / interval
    }
}

/// How many of the first `n` corrected values (`value - k * interval`) fall in bin `j`.
pub open spec fn corrected_hits(u: nat, m: nat, j: nat, value: nat, interval: nat, n: nat) -> nat
    decreases n,
{
    if n == 0 {
        0
    } else {
        corrected_hits(u, m, j, value, interval, (n - 1) as nat) + if index_of(
            u,
            m,
            (value - (n - 1) * interval) as nat,
        ) == j {
            1nat
        } else {
            0nat
        }
    }
}

/// The tracked maximum after recording the first `n` corrected values.
pub open spec fn corrected_max(start: u64, mask: u64, value: nat, interval: nat, n: nat) -> u64
    decreases n,
{
    if n == 0 {
        start
    } else {
        max_after(
            corrected_max(start, mask, value, interval, (n - 1) as nat),
            (value - (n - 1) * interval) as u64,
            mask,
        )
    }
}

/// The tracked non-zero minimum after recording the first `n` corrected values.
pub open spec fn corrected_min(start: u64, mask: u64, value: nat, interval: nat, n: nat) -> u64
    decreases n,
{
    if n == 0 {
        start
    } else {
        min_after(
            corrected_min(start, mask, value, interval, (n - 1) as nat),
            (value - (n - 1) * interval) as u64,
            mask,
        )
    }
}

proof fn lemma_or_below(x: u64, y: u64, l: u64)
    by (bit_vector)
    requires
        l < 64,
        x < (1u64 << l),
        y < (1u64 << l),
    ensures
        (x | y) < (1u64 << l),
{
}

proof fn lemma_or_zero(x: u64)
    by (bit_vector)
    ensures
        (0u64 | x) == x,
{
}

proof fn lemma_or_above(x: u64, y: u64)
    by (bit_vector)
    ensures
        (x | y) >= x,
        (x | y) >= y,
{
}

/// `1 << l == 2^l` for `l < 64`.
proof fn lemma_one_shl(l: u64)
    requires
        l < 64,
    ensures
        (1u64 << l) as nat == pow2(l as nat),
{
    lemma_u64_pow2_no_overflow(l as nat);
    lemma_u64_shl_is_mul(1, l);
}

/// Bit length of `v | mask` when the mask occupies the top bit below `2^k`.
proof fn lemma_or_mask_bit_len(v: u64, mask: u64, k: nat)
    requires
        1 <= k <= 63,
        pow2((k - 1) as nat) <= mask < pow2(k),
    ensures
        bit_len((v | mask) as nat) == if bit_len(v as nat) <= k {
            k
        } else {
            bit_len(v as nat)
        },
{
    let x = v | mask;
    lemma_or_above(v, mask);
    lemma_leading_zeros(v);
    lemma_bit_len_bounds(v as nat);
    let l = if bit_len(v as nat) <= k {
        k
    } else {
        bit_len(v as nat)
    };
    lemma_bit_len_le(v as nat, l);
    lemma_pow2_le(k, l);
    lemma_pow2_values();
    if l < 64 {
        lemma_one_shl(l as u64);
        lemma_or_below(v, mask, l as u64);
    }
    lemma_bit_len_exact(x as nat, l);
}

/// `x << s` keeps the low 64 bits of `x * 2^s`.
#[verifier::spinoff_prover]
proof fn lemma_shl_truncates(x: u64, s: u64)
    requires
        s < 64,
    ensures
        (x << s) as nat == (x as nat * pow2(s as nat)) % two_pow_64(),
{
    lemma_pow2_values();
    lemma_pow2_pos(s as nat);
    if s == 0 {
        assert(x << 0u64 == x) by (bit_vector);
        lemma_small_mod_nat(x as nat, two_pow_64());
    } else {
        let n = (64 - s) as u64;
        let d = pow2(n as nat);
        lemma_u64_pow2_no_overflow(n as nat);
        lemma_one_shl(n);
        let lo = x & (((1u64 << n) - 1) as u64);
        assert(x << s == lo << s) by (bit_vector)
            requires
                0 < s < 64,
                n == 64 - s,
                lo == x & (((1u64 << n) - 1) as u64),
        ;
        assert(low_bits_mask(n as nat) == ((1u64 << n) - 1) as nat);
        lemma_u64_low_bits_mask_is_mod(x, n as nat);
        assert(lo as nat == x as nat % d);
        lemma_div_bounds(x as nat, d);
        vstd::arithmetic::div_mod::lemma_mod_pos_bound(x as int, d as int);
        lemma_pow2_adds(n as nat, s as nat);
        assert(d * pow2(s as nat) == two_pow_64());
        lemma_mul_strict_inequality(lo as int, d as int, pow2(s as nat) as int);
        assert(lo * pow2(s as nat) < two_pow_64());
        lemma_u64_shl_is_mul(lo, s);
        vstd::arithmetic::div_mod::lemma_fundamental_div_mod(x as int, d as int);
        let hi = x as nat / d;
        assert(x as nat * pow2(s as nat) == hi * two_pow_64() + lo * pow2(s as nat)) by (nonlinear_arith)
            requires
                x as nat == d * hi + lo,
                d * pow2(s as nat) == two_pow_64(),
        ;
        lemma_div_mod_parts(hi as int, two_pow_64() as int, (lo * pow2(s as nat)) as int);
    }
}

proof fn lemma_small_mod_nat(x: nat, d: nat)
    requires
        x < d,
    ensures
        x % d == x,
{
    lemma_div_mod_parts(0, d as int, x as int);
}

/// The error `new_with_bounds` reports for these arguments, if any, in the order it checks.
pub open spec fn creation_error(low: nat, high: nat, sigfig: nat) -> Option<CreationError> {
    if low < 1 {
        Some(CreationError::LowIsZero)
    } else if low > u64::MAX / 2 {
        Some(CreationError::LowExceedsMax)
    } else if high < 2 * low {
        Some(CreationError::HighLessThanTwiceLow)
    } else if sigfig > 5 {
        Some(CreationError::SigFigExceedsMax)
    } else if unit_magnitude_for(low) + sub_bucket_magnitude_for(sigfig) > 63 {
        Some(CreationError::CannotRepresentSigFigBeyondLow)
    } else {
        None
    }
}

proof fn lemma_magnitude_table(sigfig: nat)
    requires
        sigfig <= 5,
    ensures
        1 <= sub_bucket_magnitude_for(sigfig) <= 18,
        pow10(sigfig) <= 100000,
{
    reveal_with_fuel(pow10, 6);
    lemma2_to64();
    if sigfig == 0 {
        lemma_bit_len_exact(1, 1);
    } else if sigfig == 1 {
        lemma_bit_len_exact(19, 5);
    } else if sigfig == 2 {
        lemma_bit_len_exact(199, 8);
    } else if sigfig == 3 {
        lemma_bit_len_exact(1999, 11);
    } else if sigfig == 4 {
        lemma_bit_len_exact(19999, 15);
    } else {
        lemma_bit_len_exact(199999, 18);
    }
}

proof fn lemma_pow10_pos(n: nat)
    ensures
        pow10(n) >= 1,
    decreases n,
{
    if n > 0 {
        lemma_pow10_pos((n - 1) as nat);
    }
}

proof fn lemma_pow10_mono(a: nat, b: nat)
    requires
        a <= b,
    ensures
        pow10(a) <= pow10(b),
        pow10(a) >= 1,
    decreases b,
{
    lemma_pow10_pos(a);
    if a < b {
        lemma_pow10_mono(a, (b - 1) as nat);
    }
}

/// `10^n` for `n <= 5`.
fn pow10_u32(n: u8) -> (r: u32)
    requires
        n <= 5,
    ensures
        r == pow10(n as nat),
{
    let mut p: u32 = 1;
    let mut i: u8 = 0;
    while i < n
        invariant
            i <= n <= 5,
            p == pow10(i as nat),
        decreases n - i,
    {
        proof {
            lemma_pow10_mono((i + 1) as nat, 5);
            lemma_magnitude_table(5);
        }
        p = p * 10;
        i = i + 1;
    }
    p
}

impl<T: Counter> Histogram<T> {
    // ----------------------------------------------------------------------------------------
    // The mathematical model.
    // ----------------------------------------------------------------------------------------

    /// Unit magnitude: log2 of the value step of the first bucket.
    pub closed spec fn u(&self) -> nat {
        self.unit_magnitude as nat
    }

    /// Sub-bucket count magnitude: each bucket spans `2^m` steps.
    pub closed spec fn m(&self) -> nat {
        self.sub_bucket_half_count_magnitude as nat + 1
    }

    /// Number of bins per bucket past the first.
    pub open spec fn half(&self) -> nat {
        pow2((self.m() - 1) as nat)
    }

    /// The counts of all bins.
    pub closed spec fn counts_view(&self) -> Seq<nat> {
        self.counts@.map_values(|c: T| c.val())
    }

    /// Number of bins.
    pub open spec fn bins(&self) -> nat {
        self.counts_view().len()
    }

    pub closed spec fn spec_low(&self) -> nat {
        self.lowest_discernible_value as nat
    }

    pub closed spec fn spec_high(&self) -> nat {
        self.highest_trackable_value as nat
    }

    pub closed spec fn spec_sigfig(&self) -> nat {
        self.significant_value_digits as nat
    }

    pub closed spec fn spec_buckets(&self) -> nat {
        self.bucket_count as nat
    }

    pub closed spec fn spec_total(&self) -> nat {
        self.total_count as nat
    }

    pub closed spec fn spec_auto(&self) -> bool {
        self.auto_resize
    }

    /// Internally tracked maximum (in its unit-equivalent form).
    pub closed spec fn spec_max_value(&self) -> u64 {
        self.max_value
    }

    /// Internally tracked non-zero minimum (in its unit-equivalent form).
    pub closed spec fn spec_min_non_zero(&self) -> u64 {
        self.min_non_zero_value
    }

    /// Mask of the bits below the unit.
    pub closed spec fn spec_unit_mask(&self) -> u64 {
        self.unit_magnitude_mask
    }

    /// Bin index of `v`.
    pub open spec fn index_spec(&self, v: nat) -> nat {
        index_of(self.u(), self.m(), v)
    }

    /// Smallest value of bin `i`.
    pub open spec fn value_spec(&self, i: nat) -> nat {
        value_at(self.u(), self.m(), i)
    }

    /// Smallest value equivalent to `v`.
    pub open spec fn lowest_spec(&self, v: nat) -> nat {
        lowest_of(self.u(), self.m(), v)
    }

    /// Number of values equivalent to `v`.
    pub open spec fn range_spec(&self, v: nat) -> nat {
        range_of(self.u(), self.m(), v)
    }

    /// Bucket of `v`.
    pub open spec fn bucket_spec(&self, v: nat) -> nat {
        bucket_of(self.u() + self.m(), v)
    }

    /// Largest value equivalent to `v`, as computed with a cap at `u64::MAX`.
    pub open spec fn highest_spec(&self, v: nat) -> nat {
        if v == u64::MAX {
            u64::MAX as nat
        } else {
            (sat_add_u64(self.lowest_spec(v), self.range_spec(v)) - 1) as nat
        }
    }

    /// The configuration is valid and every derived field agrees with it.
    pub closed spec fn config_wf(&self) -> bool {
        let u = self.u();
        let m = self.m();
        &&& 1 <= self.lowest_discernible_value <= u64::MAX / 2
        &&& 2 * self.lowest_discernible_value <= self.highest_trackable_value
        &&& self.significant_value_digits <= 5
        &&& u == unit_magnitude_for(self.lowest_discernible_value as nat)
        &&& m == sub_bucket_magnitude_for(self.significant_value_digits as nat)
        &&& 1 <= m <= 18
        &&& u + m <= 63
        &&& self.sub_bucket_count as nat == pow2(m)
        &&& self.sub_bucket_half_count as nat == pow2((m - 1) as nat)
        &&& self.sub_bucket_mask as nat == pow2(u + m) - pow2(u)
        &&& self.leading_zero_count_base as nat == 64 - u - m
        &&& self.unit_magnitude_mask as nat == pow2(u) - 1
    }

    /// Well-formedness: a valid configuration, and as many buckets and bins as the highest
    /// trackable value needs.
    pub closed spec fn wf(&self) -> bool {
        &&& self.config_wf()
        &&& self.bucket_count as nat == bucket_of(
            self.u() + self.m(),
            self.highest_trackable_value as nat,
        ) + 1
        &&& self.counts.len() == (self.bucket_count as nat + 1) * pow2((self.m() - 1) as nat)
        &&& self.max_covers()
    }

    /// The tracked maximum lies in an existing bin, at or above every bin with a count.
    pub closed spec fn max_covers(&self) -> bool {
        &&& self.index_spec(self.max_value as nat) < self.counts.len()
        &&& forall|i: int|
            0 <= i < self.counts.len() && (#[trigger] self.counts@[i]).val() != 0 ==> i
                <= self.index_spec(self.max_value as nat)
    }

    /// The unit-equivalent maximum form of a value lies in the value's bucket, at or above
    /// its bin.
    proof fn lemma_max_form_bin(&self, v: u64)
        requires
            self.config_wf(),
        ensures
            self.bucket_spec(max_form(v, self.unit_magnitude_mask) as nat) == self.bucket_spec(v as nat),
            self.index_spec(max_form(v, self.unit_magnitude_mask) as nat) >= self.index_spec(v as nat),
            max_form(v, self.unit_magnitude_mask) >= v,
    {
        let w = max_form(v, self.unit_magnitude_mask);
        let k = self.u() + self.m();
        let b = self.bucket_spec(v as nat);
        lemma_or_above(v, self.unit_magnitude_mask);
        lemma_bucket_of(k, v as nat);
        lemma_bucket_of_u64(k, v);
        lemma_bucket_of_u64(k, w);
        lemma_bucket_of_mono(k, v as nat, w as nat);
        lemma_index_of_mono(self.u(), self.m(), v as nat, w as nat);
        if k + b < 64 {
            lemma_pow2_le(self.u(), k + b);
            lemma_one_shl((k + b) as u64);
            lemma_or_below(v, self.unit_magnitude_mask, (k + b) as u64);
            lemma_bit_len_le(w as nat, k + b);
        }
    }

    /// Value 0 and the unit mask both lie in bin 0.
    proof fn lemma_bin_zero(&self)
        requires
            self.config_wf(),
        ensures
            self.index_spec(0) == 0,
            self.index_spec(self.unit_magnitude_mask as nat) == 0,
    {
        let k = self.u() + self.m();
        lemma_pow2_le(self.u(), k);
        lemma_pow2_pos(self.u());
        lemma_bucket_of_unique(k, 0, 0);
        lemma_bucket_of_unique(k, self.unit_magnitude_mask as nat, 0);
        lemma_div_lt(self.unit_magnitude_mask as nat, 1, pow2(self.u()));
    }

    /// Raising the maximum after adding to bin `ii` (the bin of `value`) keeps it covering
    /// every bin with a count.
    proof fn lemma_max_after_covers(&self, before: Self, value: u64, ii: nat)
        requires
            before.wf(),
            self.config_wf(),
            self.unit_magnitude == before.unit_magnitude,
            self.sub_bucket_half_count_magnitude == before.sub_bucket_half_count_magnitude,
            self.unit_magnitude_mask == before.unit_magnitude_mask,
            self.counts.len() == before.counts.len(),
            before.index_spec(value as nat) == ii,
            ii < before.counts.len(),
            forall|j: int|
                0 <= j < self.counts.len() && j != ii ==> (#[trigger] self.counts@[j]).val()
                    == before.counts@[j].val(),
            self.max_value == max_after(before.max_value, value, before.unit_magnitude_mask),
        ensures
            self.max_covers(),
    {
        before.lemma_index_in_range(value as nat);
        before.lemma_max_form_bin(value);
        let mask = before.unit_magnitude_mask;
        let w = max_form(value, mask);
        before.lemma_index_in_range(w as nat);
        if value > before.max_value && w > before.max_value {
            lemma_index_of_mono(self.u(), self.m(), before.max_value as nat, w as nat);
        } else {
            lemma_index_of_mono(self.u(), self.m(), value as nat, before.max_value as nat);
        }
        assert forall|j: int|
            0 <= j < self.counts.len() && (#[trigger] self.counts@[j]).val() != 0 implies j
                <= self.index_spec(self.max_value as nat) by {
            if j != ii {
                assert(before.counts@[j].val() != 0);
            }
        }
    }

    /// There is at least one bin.
    /// A histogram without counts is covered by any in-range maximum.
    proof fn lemma_zero_counts_cover(&self)
        requires
            forall|i: int| 0 <= i < self.bins() ==> self.counts_view()[i] == 0,
            self.index_spec(self.max_value as nat) < self.counts.len(),
        ensures
            self.max_covers(),
    {
        assert forall|i: int|
            0 <= i < self.counts.len() && (#[trigger] self.counts@[i]).val() != 0 implies i
                <= self.index_spec(self.max_value as nat) by {
            assert(self.counts_view()[i] == 0);
        }
    }

    /// Every count lies within its counter type's range.
    pub proof fn lemma_counts_capped(&self)
        ensures
            forall|j: int| 0 <= j < self.bins() ==> #[trigger] self.counts_view()[j] <= T::cap(),
    {
        assert forall|j: int| 0 <= j < self.bins() implies #[trigger] self.counts_view()[j] <= T::cap() by {
            T::lemma_range(self.counts@[j]);
        }
    }

    proof fn lemma_wf_bounds_config(&self)
        requires
            self.config_wf(),
            self.counts.len() == (self.bucket_count as nat + 1) * pow2((self.m() - 1) as nat),
        ensures
            self.counts.len() >= 1,
    {
        lemma_pow2_pos((self.m() - 1) as nat);
        lemma_mul_inequality(1, (self.bucket_count as nat + 1) as int, pow2((self.m() - 1) as nat) as int);
    }

    /// A well-formed histogram's settings are ones it could have been created with, and its
    /// layout is the one they give; the unit `2^u` is the largest power of two not above the
    /// lowest discernible value, and the unit mask has the `u` bits below it set.
    pub proof fn lemma_layout(&self)
        requires
            self.wf(),
        ensures
            creation_error(self.spec_low(), self.spec_high(), self.spec_sigfig()) is None,
            self.u() == unit_magnitude_for(self.spec_low()),
            self.m() == sub_bucket_magnitude_for(self.spec_sigfig()),
            self.spec_buckets() == bucket_of(self.u() + self.m(), self.spec_high()) + 1,
            self.bins() == (self.spec_buckets() + 1) * self.half(),
            self.spec_low() <= u64::MAX,
            self.spec_high() <= u64::MAX,
            self.spec_sigfig() <= 5,
            self.spec_unit_mask() == pow2(self.u()) - 1,
            pow2(self.u()) <= self.spec_low() < 2 * pow2(self.u()),
    {
        lemma_bit_len_bounds(self.spec_low());
        lemma_pow2_unfold(self.u() + 1);
        assert(self.u() + 1 == bit_len(self.spec_low()));
    }

    /// A well-formed histogram has at least one bin and at most `66 * 2^17`.
    pub proof fn lemma_bins_bounds(&self)
        requires
            self.wf(),
        ensures
            1 <= self.bins() <= 66 * 0x20000,
    {
        self.lemma_wf_bounds();
    }

    proof fn lemma_wf_bounds(&self)
        requires
            self.wf(),
        ensures
            self.bucket_count as nat <= 65 - self.u() - self.m(),
            self.bucket_count >= 1,
            pow2(self.m()) == 2 * self.half(),
            self.half() <= 0x20000,
            self.half() >= 1,
            self.counts.len() <= 66 * 0x20000,
            self.u() <= 62,
            self.counts.len() >= 2 * self.half(),
    {
        lemma_bucket_of_u64(self.u() + self.m(), self.highest_trackable_value);
        lemma_pow2_unfold(self.m());
        lemma_pow2_le((self.m() - 1) as nat, 17);
        lemma_pow2_pos((self.m() - 1) as nat);
        lemma2_to64();
        lemma_mul_inequality(
            (self.bucket_count + 1) as int,
            66,
            pow2((self.m() - 1) as nat) as int,
        );
        lemma_mul_inequality(66, 66, pow2((self.m() - 1) as nat) as int);
        lemma_mul_inequality(
            2,
            (self.bucket_count + 1) as int,
            pow2((self.m() - 1) as nat) as int,
        );
    }

    // ----------------------------------------------------------------------------------------
    // Facts about the layout
    // ----------------------------------------------------------------------------------------

    /// The largest value the last bin tracks.
    pub open spec fn top_spec(&self) -> nat {
        self.highest_spec(self.value_spec((self.bins() - 1) as nat))
    }

    /// Count of bin `j`, or 0 past the last bin.
    pub open spec fn count_or_zero(&self, j: nat) -> nat {
        if j < self.bins() {
            self.counts_view()[j as int]
        } else {
            0
        }
    }

    /// Both histograms have the same configuration and resizing mode.
    pub open spec fn same_config<F: Counter>(&self, other: &Histogram<F>) -> bool {
        &&& self.spec_low() == other.spec_low()
        &&& self.spec_sigfig() == other.spec_sigfig()
        &&& self.u() == other.u()
        &&& self.m() == other.m()
        &&& self.spec_auto() == other.spec_auto()
        &&& self.spec_unit_mask() == other.spec_unit_mask()
    }

    /// The highest equivalent value lies in the same bin, and not below the value.
    pub proof fn lemma_highest(&self, v: nat)
        requires
            self.wf(),
            v <= u64::MAX,
        ensures
            self.lowest_spec(v) <= self.highest_spec(v) < self.lowest_spec(v) + self.range_spec(v),
            v <= self.highest_spec(v) <= u64::MAX,
    {
        lemma_lowest_of(self.u(), self.m(), v);
        lemma_pow2_values();
        if v != u64::MAX && self.lowest_spec(v) + self.range_spec(v) == two_pow_64() {
            if self.range_spec(v) == 1 {
                // only bucket 0 with unit magnitude 0 has single-value bins, and it ends below 2^63
                lemma_bucket_of(self.u() + self.m(), v);
                lemma_pow2_pos(shift_of(self.u(), self.m(), v));
                if shift_of(self.u(), self.m(), v) > 0 {
                    lemma_pow2_le(1, shift_of(self.u(), self.m(), v));
                }
                lemma_pow2_le(self.u() + self.m(), 63);
            }
        }
    }

    /// Facts about the last bin.
    pub proof fn lemma_last_bin(&self)
        requires
            self.wf(),
        ensures
            self.value_spec((self.bins() - 1) as nat) < two_pow_64(),
            self.bucket_spec(self.value_spec((self.bins() - 1) as nat)) == self.spec_buckets() - 1,
            self.index_spec(self.value_spec((self.bins() - 1) as nat)) == self.bins() - 1,
            self.bucket_spec(self.top_spec()) == self.spec_buckets() - 1,
            self.top_spec() <= u64::MAX,
            ((self.bins() - 1) as nat) / self.half() + self.u() <= 64,
    {
        self.lemma_wf_bounds();
        let h = self.half();
        let bc = self.bucket_count as nat;
        let last = (self.bins() - 1) as nat;
        assert(last == bc * h + (h - 1)) by (nonlinear_arith)
            requires
                last == (bc + 1) * h - 1,
                h >= 1,
        ;
        lemma_div_mod_parts(bc as int, h as int, (h - 1) as int);
        lemma_index_of_value_at(self.u(), self.m(), last);
        let v = self.value_spec(last);
        lemma_bucket_of(self.u() + self.m(), v);
        lemma_pow2_values();
        lemma_pow2_le((self.u() + self.m() + bc - 1) as nat, 64);
        self.lemma_highest(v);
        lemma_same_bin(self.u(), self.m(), v, self.top_spec());
    }

    /// Values in later buckets than the highest trackable value are larger than it.
    proof fn lemma_beyond_high(&self, v: nat)
        requires
            self.wf(),
            self.bucket_spec(v) >= self.spec_buckets(),
        ensures
            v > self.spec_high(),
    {
        lemma_bucket_lt_value_lt(self.u() + self.m(), self.spec_high(), v);
    }

    /// A value's bin exists exactly when its bucket is one of the histogram's buckets.
    pub proof fn lemma_index_in_range(&self, v: nat)
        requires
            self.wf(),
        ensures
            self.index_spec(v) < self.bins() <==> self.bucket_spec(v) < self.spec_buckets(),
            self.index_spec(v) < (self.bucket_spec(v) + 2) * self.half(),
    {
        self.lemma_wf_bounds();
        lemma_sub_bucket_range(self.u(), self.m(), v);
        let b = self.bucket_spec(v);
        let h = self.half();
        let sub = sub_bucket_of(self.u(), self.m(), v);
        let bc = self.bucket_count as nat;
        assert(b * h + sub < (b + 2) * h) by (nonlinear_arith)
            requires
                sub < 2 * h,
        ;
        if b < bc {
            lemma_mul_inequality((b + 2) as int, (bc + 1) as int, h as int);
        } else {
            assert(b * h + sub >= (bc + 1) * h) by (nonlinear_arith)
                requires
                    b >= bc,
                    b > 0 ==> sub >= h,
                    bc >= 1,
                    h >= 1,
            ;
        }
    }

    // ----------------------------------------------------------------------------------------
    // Construction
    // ----------------------------------------------------------------------------------------

    /// A histogram with all counts zero, `len` bins, and the given configuration.
    pub open spec fn fresh(&self, low: nat, high: nat, sigfig: nat) -> bool {
        &&& self.wf()
        &&& self.spec_low() == low
        &&& self.spec_high() == high
        &&& self.spec_sigfig() == sigfig
        &&& self.u() == unit_magnitude_for(low)
        &&& self.m() == sub_bucket_magnitude_for(sigfig)
        &&& self.spec_buckets() == bucket_of(self.u() + self.m(), high) + 1
        &&& self.bins() == (self.spec_buckets() + 1) * self.half()
        &&& forall|i: int| 0 <= i < self.bins() ==> self.counts_view()[i] == 0
        &&& self.spec_total() == 0
        &&& self.spec_max_value() == 0
        &&& self.spec_min_non_zero() == u64::MAX
    }

    /// Construct an auto-resizing `Histogram` with a lowest discernible value of 1 and an
    /// auto-adjusting highest trackable value.
    pub fn new(sigfig: u8) -> (r: Result<Histogram<T>, CreationError>)
        ensures
            match creation_error(1, 2, sigfig as nat) {
                Some(e) => r == Err::<Histogram<T>, CreationError>(e),
                None => r is Ok && r->Ok_0.fresh(1, 2, sigfig as nat) && r->Ok_0.spec_auto(),
            },
            r is Ok <==> sigfig <= 5,
    {
        proof {
            lemma_pow2_values();
            lemma_bit_len_exact(1, 1);
            if sigfig <= 5 {
                lemma_magnitude_table(sigfig as nat);
            }
        }
        let mut h = Self::new_with_bounds(1, 2, sigfig);
        if let Ok(ref mut hh) = h {
            hh.auto_resize = true;
        }
        h
    }

    /// Construct a `Histogram` given a known maximum value to be tracked, and a number of
    /// significant decimal digits. Values as low as 1 are distinguished from 0. Auto-resizing
    /// is disabled.
    pub fn new_with_max(high: u64, sigfig: u8) -> (r: Result<Histogram<T>, CreationError>)
        ensures
            match creation_error(1, high as nat, sigfig as nat) {
                Some(e) => r == Err::<Histogram<T>, CreationError>(e),
                None => r is Ok && r->Ok_0.fresh(1, high as nat, sigfig as nat)
                    && !r->Ok_0.spec_auto(),
            },
    {
        Self::new_with_bounds(1, high, sigfig)
    }

    /// Construct a `Histogram` with known upper and lower bounds for recorded sample values.
    ///
    /// `low` is the lowest value that can be discerned (distinguished from 0); it is
    /// internally rounded down to a power of 2. `high` is the highest value to be tracked and
    /// must be at least `2 * low`. `sigfig` is the number of significant decimal digits kept,
    /// in `[0, 5]`.
    pub fn new_with_bounds(low: u64, high: u64, sigfig: u8) -> (r: Result<Histogram<T>, CreationError>)
        ensures
            match creation_error(low as nat, high as nat, sigfig as nat) {
                Some(e) => r == Err::<Histogram<T>, CreationError>(e),
                None => r is Ok && r->Ok_0.fresh(low as nat, high as nat, sigfig as nat)
                    && !r->Ok_0.spec_auto(),
            },
    {
        if low < 1 {
            return Err(CreationError::LowIsZero);
        }
        if low > u64::MAX / 2 {
            return Err(CreationError::LowExceedsMax);
        }
        if high < 2 * low {
            return Err(CreationError::HighLessThanTwiceLow);
        }
        if sigfig > 5 {
            return Err(CreationError::SigFigExceedsMax);
        }
        proof {
            lemma_magnitude_table(sigfig as nat);
            lemma_pow10_pos(sigfig as nat);
            lemma_leading_zeros(low);
            lemma_pow2_values();
        }
        // largest value with single unit resolution, in [2, 200_000].
        let largest: u32 = 2 * pow10_u32(sigfig);
        proof {
            lemma_leading_zeros((largest - 1) as u64);
            lemma_bit_len_le(low as nat, 63);
        }
        let unit_magnitude: u8 = (63 - low.leading_zeros()) as u8;
        let sub_bucket_count_magnitude: u8 = (64 - ((largest - 1) as u64).leading_zeros()) as u8;
        if unit_magnitude + sub_bucket_count_magnitude > 63 {
            return Err(CreationError::CannotRepresentSigFigBeyondLow);
        }
        let sub_bucket_half_count_magnitude: u8 = sub_bucket_count_magnitude - 1;
        proof {
            lemma_one_shl(unit_magnitude as u64);
            lemma_u32_pow2_no_overflow(sub_bucket_count_magnitude as nat);
            lemma_u32_shl_is_mul(1, sub_bucket_count_magnitude as u32);
            lemma_pow2_unfold(sub_bucket_count_magnitude as nat);
            lemma_pow2_adds(unit_magnitude as nat, sub_bucket_count_magnitude as nat);
            lemma_pow2_pos(unit_magnitude as nat);
            lemma_pow2_le(sub_bucket_count_magnitude as nat, 18);
            lemma_u64_pow2_no_overflow((unit_magnitude + sub_bucket_count_magnitude) as nat);
            lemma_mul_is_commutative(
                pow2(sub_bucket_count_magnitude as nat) as int,
                pow2(unit_magnitude as nat) as int,
            );
        }
        let unit_magnitude_mask: u64 = (1u64 << unit_magnitude) - 1;
        let sub_bucket_count: u32 = 1u32 << (sub_bucket_count_magnitude as u32);
        let sub_bucket_half_count: u32 = sub_bucket_count / 2;
        proof {
            let sc = (sub_bucket_count - 1) as u64;
            assert(sc * pow2(unit_magnitude as nat) == pow2((unit_magnitude + sub_bucket_count_magnitude) as nat) - pow2(unit_magnitude as nat)) by (nonlinear_arith)
                requires
                    sc == pow2(sub_bucket_count_magnitude as nat) - 1,
                    pow2((unit_magnitude + sub_bucket_count_magnitude) as nat) == pow2(sub_bucket_count_magnitude as nat) * pow2(unit_magnitude as nat),
            ;
            lemma_u64_shl_is_mul(sc, unit_magnitude as u64);
        }
        let sub_bucket_mask: u64 = ((sub_bucket_count as u64) - 1) << unit_magnitude;
        let mut h = Histogram {
            auto_resize: false,
            highest_trackable_value: high,
            lowest_discernible_value: low,
            significant_value_digits: sigfig,
            bucket_count: 0,
            sub_bucket_count: sub_bucket_count,
            sub_bucket_half_count: sub_bucket_half_count,
            sub_bucket_half_count_magnitude: sub_bucket_half_count_magnitude,
            sub_bucket_mask: sub_bucket_mask,
            leading_zero_count_base: 64 - unit_magnitude - sub_bucket_count_magnitude,
            unit_magnitude: unit_magnitude,
            unit_magnitude_mask: unit_magnitude_mask,
            max_value: 0,
            min_non_zero_value: u64::MAX,
            total_count: 0,
            counts: Vec::new(),
        };
        let len = h.cover(high);
        h.alloc_counts(len as usize);
        proof {
            h.lemma_bin_zero();
            h.lemma_wf_bounds_config();
        }
        Ok(h)
    }

    /// Construct a `Histogram` with the same range settings as a given source histogram,
    /// but none of its contents.
    pub fn new_from<F: Counter>(source: &Histogram<F>) -> (r: Histogram<T>)
        requires
            source.wf(),
        ensures
            r.fresh(source.spec_low(), source.spec_high(), source.spec_sigfig()),
            r.spec_auto() == source.spec_auto(),
            r.bins() == source.bins(),
            r.u() == source.u(),
            r.m() == source.m(),
    {
        let res = Self::new_with_bounds(
            source.lowest_discernible_value,
            source.highest_trackable_value,
            source.significant_value_digits,
        );
        match res {
            Ok(mut h) => {
                h.auto_resize = source.auto_resize;
                h.alloc_counts(source.len());
                proof {
                    h.lemma_bin_zero();
                    h.lemma_wf_bounds_config();
                }
                h
            },
            Err(_) => {
                proof {
                    assert(false);
                }
                Self::new_with_bounds(1, 2, 0).unwrap()
            },
        }
    }

    /// Allocate a counts array of the given size, all zero.
    fn alloc_counts(&mut self, len: usize)
        ensures
            final(self).counts_view().len() == len,
            final(self).counts@.len() == len,
            forall|i: int| 0 <= i < len ==> final(self).counts_view()[i] == 0,
            forall|i: int| 0 <= i < len ==> (#[trigger] final(self).counts@[i]).val() == 0,
            final(self).auto_resize == old(self).auto_resize,
            final(self).highest_trackable_value == old(self).highest_trackable_value,
            final(self).lowest_discernible_value == old(self).lowest_discernible_value,
            final(self).significant_value_digits == old(self).significant_value_digits,
            final(self).bucket_count == old(self).bucket_count,
            final(self).sub_bucket_count == old(self).sub_bucket_count,
            final(self).sub_bucket_half_count == old(self).sub_bucket_half_count,
            final(self).sub_bucket_half_count_magnitude == old(self).sub_bucket_half_count_magnitude,
            final(self).sub_bucket_mask == old(self).sub_bucket_mask,
            final(self).leading_zero_count_base == old(self).leading_zero_count_base,
            final(self).unit_magnitude == old(self).unit_magnitude,
            final(self).unit_magnitude_mask == old(self).unit_magnitude_mask,
            final(self).max_value == old(self).max_value,
            final(self).min_non_zero_value == old(self).min_non_zero_value,
            final(self).total_count == old(self).total_count,
    {
        let mut counts: Vec<T> = Vec::new();
        let mut i: usize = 0;
        while i < len
            invariant
                i <= len,
                counts@.len() == i,
                forall|j: int| 0 <= j < i ==> (#[trigger] counts@[j]).val() == 0,
            decreases len - i,
        {
            counts.push(T::zero());
            i = i + 1;
        }
        self.counts = counts;
    }

    /// Find the number of buckets needed such that `value` is representable.
    fn buckets_to_cover(&self, value: u64) -> (r: u8)
        requires
            self.config_wf(),
        ensures
            r == bucket_of(self.u() + self.m(), value as nat) + 1,
    {
        let ghost k = self.u() + self.m();
        proof {
            lemma_pow2_values();
            lemma_u64_pow2_no_overflow(k);
            lemma_pow2_adds(self.m(), self.u());
            lemma_u64_shl_is_mul(self.sub_bucket_count as u64, self.unit_magnitude as u64);
        }
        // the k'th bucket can express from 0 * 2^k to sub_bucket_count * 2^k in units of 2^k
        let mut smallest_untrackable_value: u64 = (self.sub_bucket_count as u64) << self.unit_magnitude;
        let mut buckets_needed: u8 = 1;
        while smallest_untrackable_value <= value
            invariant
                1 <= buckets_needed,
                k + buckets_needed - 1 <= 63,
                smallest_untrackable_value == pow2((k + buckets_needed - 1) as nat),
                buckets_needed > 1 ==> pow2((k + buckets_needed - 2) as nat) <= value,
                k == self.u() + self.m(),
                self.config_wf(),
            decreases 64 - buckets_needed,
        {
            if smallest_untrackable_value > u64::MAX / 2 {
                proof {
                    lemma_pow2_values();
                    if k + buckets_needed - 1 < 63 {
                        lemma_pow2_le((k + buckets_needed - 1) as nat, 62);
                        lemma2_to64_rest();
                    }
                    assert(k + buckets_needed - 1 == 63);
                    lemma_bucket_of_unique(k, value as nat, buckets_needed as nat);
                }
                return buckets_needed + 1;
            }
            proof {
                lemma_pow2_unfold((k + buckets_needed) as nat);
                lemma_pow2_values();
                if k + buckets_needed - 1 == 63 {
                    assert(false);
                }
            }
            smallest_untrackable_value = smallest_untrackable_value * 2;
            buckets_needed = buckets_needed + 1;
        }
        proof {
            lemma_bucket_of_unique(k, value as nat, (buckets_needed - 1) as nat);
        }
        buckets_needed
    }

    /// Compute the number of bins for the given bucket count: the upper half of each bucket,
    /// plus the lower half of the first.
    fn num_bins(&self, number_of_buckets: u8) -> (r: u32)
        requires
            self.config_wf(),
            number_of_buckets <= 65,
        ensures
            r == (number_of_buckets as nat + 1) * self.half(),
    {
        proof {
            lemma_pow2_le((self.m() - 1) as nat, 17);
            lemma2_to64();
            lemma_mul_inequality(number_of_buckets as int + 1, 66, self.half() as int);
        }
        (number_of_buckets as u32 + 1) * self.sub_bucket_half_count
    }

    /// Set the highest trackable value to `high` and the bucket count to what it needs;
    /// returns the number of bins needed.
    fn cover(&mut self, high: u64) -> (r: u32)
        requires
            old(self).config_wf(),
        ensures
            final(self).bucket_count == bucket_of(old(self).u() + old(self).m(), high as nat) + 1,
            final(self).highest_trackable_value == high,
            r == (final(self).bucket_count as nat + 1) * old(self).half(),
            final(self).auto_resize == old(self).auto_resize,
            final(self).lowest_discernible_value == old(self).lowest_discernible_value,
            final(self).significant_value_digits == old(self).significant_value_digits,
            final(self).sub_bucket_count == old(self).sub_bucket_count,
            final(self).sub_bucket_half_count == old(self).sub_bucket_half_count,
            final(self).sub_bucket_half_count_magnitude == old(self).sub_bucket_half_count_magnitude,
            final(self).sub_bucket_mask == old(self).sub_bucket_mask,
            final(self).leading_zero_count_base == old(self).leading_zero_count_base,
            final(self).unit_magnitude == old(self).unit_magnitude,
            final(self).unit_magnitude_mask == old(self).unit_magnitude_mask,
            final(self).max_value == old(self).max_value,
            final(self).min_non_zero_value == old(self).min_non_zero_value,
            final(self).total_count == old(self).total_count,
            final(self).counts == old(self).counts,
    {
        let buckets_needed = self.buckets_to_cover(high);
        proof {
            lemma_bucket_of_u64(self.u() + self.m(), high);
        }
        let counts_array_length = self.num_bins(buckets_needed);
        self.bucket_count = buckets_needed;
        self.highest_trackable_value = high;
        counts_array_length
    }

    // ----------------------------------------------------------------------------------------
    // Recording samples
    // ----------------------------------------------------------------------------------------

    /// `self` is `old` with `c` more samples of `value` recorded in bin `i`.
    pub open spec fn is_recorded(&self, old: &Self, value: u64, i: nat, c: nat) -> bool {
        &&& self.same_config(old)
        &&& i < self.bins()
        &&& self.bins() >= old.bins()
        &&& forall|j: int|
            0 <= j < self.bins() ==> #[trigger] self.counts_view()[j] == if j == i {
                sat_add_count::<T>(old.count_or_zero(j as nat), c)
            } else {
                old.count_or_zero(j as nat)
            }
        &&& self.spec_total() == sat_add_u64(old.spec_total(), c)
        &&& self.spec_max_value() == max_after(old.spec_max_value(), value, old.spec_unit_mask())
        &&& self.spec_min_non_zero() == min_after(
            old.spec_min_non_zero(),
            value,
            old.spec_unit_mask(),
        )
    }

    /// Grow the counts array such that it can cover the given `high` value.
    fn resize(&mut self, high: u64)
        requires
            old(self).wf(),
            old(self).bucket_spec(high as nat) + 1 >= old(self).spec_buckets(),
            2 * old(self).spec_low() <= high,
        ensures
            final(self).wf(),
            final(self).same_config(&*old(self)),
            final(self).spec_high() == high,
            final(self).spec_buckets() == old(self).bucket_spec(high as nat) + 1,
            final(self).bins() == (final(self).spec_buckets() + 1) * old(self).half(),
            forall|j: int|
                0 <= j < final(self).bins() ==> #[trigger] final(self).counts_view()[j]
                    == old(self).count_or_zero(j as nat),
            final(self).spec_total() == old(self).spec_total(),
            final(self).spec_max_value() == old(self).spec_max_value(),
            final(self).spec_min_non_zero() == old(self).spec_min_non_zero(),
    {
        let ghost old_counts = self.counts@;
        let len = self.cover(high);
        proof {
            lemma_bucket_of_u64(self.u() + self.m(), high);
            lemma_pow2_le((self.m() - 1) as nat, 17);
            lemma2_to64();
            lemma_mul_inequality(
                (old(self).bucket_count + 1) as int,
                (self.bucket_count + 1) as int,
                self.half() as int,
            );
        }
        let ghost covered = *self;
        while self.counts.len() < len as usize
            invariant
                *self == (Histogram { counts: self.counts, ..covered }),
                self.counts@.len() <= len,
                old_counts.len() <= self.counts@.len(),
                forall|j: int| 0 <= j < old_counts.len() ==> self.counts@[j] == old_counts[j],
                forall|j: int|
                    old_counts.len() <= j < self.counts@.len() ==> (#[trigger] self.counts@[j]).val()
                        == 0,
            decreases len - self.counts@.len(),
        {
            self.counts.push(T::zero());
        }
        proof {
            assert forall|j: int|
                0 <= j < self.counts.len() && (#[trigger] self.counts@[j]).val() != 0 implies j
                    <= self.index_spec(self.max_value as nat) by {
                if j < old_counts.len() {
                    assert(old(self).counts@[j].val() != 0);
                }
            }
        }
    }

    /// Set the tracked maximum to the unit-equivalent form of `value` if that is larger.
    fn update_max(&mut self, value: u64)
        ensures
            final(self).max_value == if max_form(value, old(self).unit_magnitude_mask)
                > old(self).max_value {
                max_form(value, old(self).unit_magnitude_mask)
            } else {
                old(self).max_value
            },
            *final(self) == (Histogram { max_value: final(self).max_value, ..*old(self) }),
    {
        let internal_value = value | self.unit_magnitude_mask;
        if internal_value > self.max_value {
            self.max_value = internal_value;
        }
    }

    /// Set the tracked non-zero minimum to the unit-equivalent form of `value` if that is
    /// smaller, unless `value` is unit-equivalent to 0.
    fn update_min(&mut self, value: u64)
        ensures
            final(self).min_non_zero_value == if value > old(self).unit_magnitude_mask && min_form(
                value,
                old(self).unit_magnitude_mask,
            ) < old(self).min_non_zero_value {
                min_form(value, old(self).unit_magnitude_mask)
            } else {
                old(self).min_non_zero_value
            },
            *final(self) == (Histogram { min_non_zero_value: final(self).min_non_zero_value, ..*old(self) }),
    {
        if value <= self.unit_magnitude_mask {
            return;
        }
        let internal_value = value & !self.unit_magnitude_mask;
        if internal_value < self.min_non_zero_value {
            self.min_non_zero_value = internal_value;
        }
    }

    fn update_min_max(&mut self, value: u64)
        ensures
            final(self).max_value == max_after(old(self).max_value, value, old(self).unit_magnitude_mask),
            final(self).min_non_zero_value == min_after(
                old(self).min_non_zero_value,
                value,
                old(self).unit_magnitude_mask,
            ),
            *final(self) == (Histogram {
                max_value: final(self).max_value,
                min_non_zero_value: final(self).min_non_zero_value,
                ..*old(self)
            }),
    {
        if value > self.max_value {
            self.update_max(value);
        }
        if value < self.min_non_zero_value && value != 0 {
            self.update_min(value);
        }
    }

    /// Add `count` (capped) to bin `i`, which exists.
    fn add_at(&mut self, i: usize, count: T)
        requires
            i < old(self).counts@.len(),
        ensures
            final(self).counts_view() == old(self).counts_view().update(
                i as int,
                sat_add_count::<T>(old(self).counts_view()[i as int], count.val()),
            ),
            *final(self) == (Histogram { counts: final(self).counts, ..*old(self) }),
            final(self).counts@.len() == old(self).counts@.len(),
            forall|j: int|
                0 <= j < old(self).counts@.len() && j != i ==> #[trigger] final(self).counts@[j]
                    == old(self).counts@[j],
    {
        let c = self.counts[i].add_sat(count);
        self.counts.set(i, c);
        proof {
            assert(self.counts_view() =~= old(self).counts_view().update(
                i as int,
                sat_add_count::<T>(old(self).counts_view()[i as int], count.val()),
            ));
        }
    }

    /// Set the count of bin `index`, widening the tracked maximum and minimum to the bin's
    /// value; fails, changing nothing, when the bin does not exist. The total is left as it
    /// was: callers recompute it with `restat`.
    pub(crate) fn set_count_at_index(&mut self, index: usize, count: T) -> (r: Result<(), ()>)
        requires
            old(self).wf(),
        ensures
            final(self).wf(),
            r is Ok <==> index < old(self).bins(),
            r is Err ==> *final(self) == *old(self),
            r is Ok ==> final(self).counts_view() == old(self).counts_view().update(index as int, count.val()),
            final(self).same_config(&*old(self)),
            final(self).bins() == old(self).bins(),
            final(self).spec_high() == old(self).spec_high(),
            final(self).spec_buckets() == old(self).spec_buckets(),
    {
        if index >= self.counts.len() {
            return Err(());
        }
        proof {
            self.lemma_value_in_range(index as nat);
            lemma_small_mod_nat(self.value_spec(index as nat), two_pow_64());
        }
        let v = self.value_for(index);
        let ghost before = *self;
        self.counts.set(index, count);
        self.update_min_max(v);
        proof {
            self.lemma_max_after_covers(before, v, index as nat);
            assert(self.counts_view() =~= before.counts_view().update(index as int, count.val()));
        }
        Ok(())
    }

    /// Record `count` samples of `value`; out-of-range values are clamped to the highest
    /// trackable value when `clamp` holds, otherwise they grow the histogram when auto-resize
    /// is enabled and are refused when it is not.
    fn record_n_inner(&mut self, value: u64, count: T, clamp: bool) -> (r: Result<(), ()>)
        requires
            old(self).wf(),
        ensures
            final(self).wf(),
            r is Ok <==> (clamp || old(self).index_spec(value as nat) < old(self).bins()
                || old(self).spec_auto()),
            r is Err ==> *final(self) == *old(self),
            r is Ok && old(self).index_spec(value as nat) < old(self).bins() ==> {
                &&& final(self).is_recorded(&*old(self), value, old(self).index_spec(value as nat), count.val())
                &&& final(self).bins() == old(self).bins()
                &&& final(self).spec_high() == old(self).spec_high()
                &&& final(self).spec_buckets() == old(self).spec_buckets()
            },
            r is Ok && old(self).index_spec(value as nat) >= old(self).bins() && clamp ==> {
                &&& final(self).is_recorded(
                    &*old(self),
                    old(self).spec_high() as u64,
                    old(self).index_spec(old(self).spec_high()),
                    count.val(),
                )
                &&& final(self).bins() == old(self).bins()
                &&& final(self).spec_high() == old(self).spec_high()
                &&& final(self).spec_buckets() == old(self).spec_buckets()
            },
            r is Ok && old(self).index_spec(value as nat) >= old(self).bins() && !clamp ==> {
                &&& final(self).is_recorded(&*old(self), value, old(self).index_spec(value as nat), count.val())
                &&& final(self).spec_buckets() == old(self).bucket_spec(value as nat) + 1
                &&& final(self).bins() == (final(self).spec_buckets() + 1) * final(self).half()
                &&& final(self).spec_high() == final(self).top_spec()
            },
    {
        let ghost old_self = *self;
        let mut value = value;
        let i = self.index_for(value);
        let ghost before: Self;
        let ghost ii: nat;
        proof {
            old_self.lemma_index_in_range(value as nat);
            old_self.lemma_wf_bounds();
        }
        if i < self.counts.len() {
            proof {
                before = *self;
                ii = i as nat;
            }
            self.add_at(i, count);
        } else if clamp {
            value = self.highest_trackable_value;
            let j = self.index_for(value);
            proof {
                old_self.lemma_index_in_range(value as nat);
                before = *self;
                ii = j as nat;
            }
            self.add_at(j, count);
        } else {
            if !self.auto_resize {
                return Err(());
            }
            proof {
                old_self.lemma_beyond_high(value as nat);
            }
            self.resize(value);
            proof {
                self.lemma_index_in_range(value as nat);
            }
            let last = self.last();
            proof {
                self.lemma_last_bin();
                let v = self.value_spec(last as nat);
                lemma_small_mod_nat(v, two_pow_64());
            }
            let top = self.highest_equivalent(self.value_for(last));
            proof {
                self.lemma_last_bin();
                self.lemma_wf_bounds();
                let v = self.value_spec(last as nat);
                if self.spec_buckets() >= 2 {
                    lemma_bucket_lt_value_lt(self.u() + self.m(), old_self.spec_high(), v);
                } else {
                    lemma_bucket_of_mono(self.u() + self.m(), old_self.spec_high(), v);
                }
                self.lemma_highest(v);
            }
            self.highest_trackable_value = top;
            proof {
                before = *self;
                ii = i as nat;
            }
            self.add_at(i, count);
        }
        self.update_min_max(value);
        proof {
            self.lemma_max_after_covers(before, value, ii);
        }
        self.total_count = self.total_count.saturating_add(count.to_u64());
        Ok(())
    }

    /// Record `value` in the histogram.
    ///
    /// Returns an error if `value` exceeds the highest trackable value and auto-resize is
    /// disabled.
    pub fn record(&mut self, value: u64) -> (r: Result<(), ()>)
        requires
            old(self).wf(),
        ensures
            final(self).wf(),
            r is Ok <==> (old(self).index_spec(value as nat) < old(self).bins() || old(self).spec_auto()),
            r is Err ==> *final(self) == *old(self),
            r is Ok ==> final(self).is_recorded(&*old(self), value, old(self).index_spec(value as nat), 1),
            r is Ok && old(self).index_spec(value as nat) < old(self).bins() ==> final(self).spec_high()
                == old(self).spec_high() && final(self).bins() == old(self).bins(),
            r is Ok && old(self).index_spec(value as nat) >= old(self).bins() ==> final(self).spec_buckets()
                == old(self).bucket_spec(value as nat) + 1 && final(self).spec_high() == final(self).top_spec(),
    {
        self.record_n_inner(value, T::one(), false)
    }

    /// Record multiple samples for a value in the histogram, adding to the value's current
    /// count (capped at the counter type's maximum); the total count is capped at
    /// `u64::MAX`.
    ///
    /// Returns an error if `value` exceeds the highest trackable value and auto-resize is
    /// disabled.
    pub fn record_n(&mut self, value: u64, count: T) -> (r: Result<(), ()>)
        requires
            old(self).wf(),
        ensures
            final(self).wf(),
            r is Ok <==> (old(self).index_spec(value as nat) < old(self).bins() || old(self).spec_auto()),
            r is Err ==> *final(self) == *old(self),
            r is Ok ==> final(self).is_recorded(&*old(self), value, old(self).index_spec(value as nat), count.val()),
            r is Ok && old(self).index_spec(value as nat) < old(self).bins() ==> final(self).spec_high()
                == old(self).spec_high() && final(self).bins() == old(self).bins(),
            r is Ok && old(self).index_spec(value as nat) >= old(self).bins() ==> final(self).spec_buckets()
                == old(self).bucket_spec(value as nat) + 1 && final(self).spec_high() == final(self).top_spec(),
    {
        self.record_n_inner(value, count, false)
    }

    /// Record `value` in the histogram, clamped to the range of the histogram: a value beyond
    /// the range is counted at the highest trackable value, and the histogram never grows.
    pub fn saturating_record(&mut self, value: u64)
        requires
            old(self).wf(),
        ensures
            final(self).wf(),
            final(self).bins() == old(self).bins(),
            final(self).spec_high() == old(self).spec_high(),
            old(self).index_spec(value as nat) < old(self).bins() ==> final(self).is_recorded(
                &*old(self),
                value,
                old(self).index_spec(value as nat),
                1,
            ),
            old(self).index_spec(value as nat) >= old(self).bins() ==> final(self).is_recorded(
                &*old(self),
                old(self).spec_high() as u64,
                old(self).index_spec(old(self).spec_high()),
                1,
            ),
    {
        let _ = self.record_n_inner(value, T::one(), true);
    }

    /// Record multiple samples of `value`, clamped to the range of the histogram as in
    /// `saturating_record`.
    pub fn saturating_record_n(&mut self, value: u64, count: T)
        requires
            old(self).wf(),
        ensures
            final(self).wf(),
            final(self).bins() == old(self).bins(),
            final(self).spec_high() == old(self).spec_high(),
            old(self).index_spec(value as nat) < old(self).bins() ==> final(self).is_recorded(
                &*old(self),
                value,
                old(self).index_spec(value as nat),
                count.val(),
            ),
            old(self).index_spec(value as nat) >= old(self).bins() ==> final(self).is_recorded(
                &*old(self),
                old(self).spec_high() as u64,
                old(self).index_spec(old(self).spec_high()),
                count.val(),
            ),
    {
        let _ = self.record_n_inner(value, count, true);
    }

    // ----------------------------------------------------------------------------------------
    // Adding and subtracting histograms
    // ----------------------------------------------------------------------------------------

    /// Whether `source` has the same bucket layout as `self`.
    pub open spec fn same_layout<F: Counter>(&self, source: &Histogram<F>) -> bool {
        &&& self.spec_buckets() == source.spec_buckets()
        &&& self.m() == source.m()
        &&& self.u() == source.u()
    }

    /// `self` is `old` grown (if needed) to hold values up to `top`, as `add` and `subtract`
    /// do before they merge.
    pub open spec fn grown_for(&self, old: &Self, top: nat) -> bool {
        let grown = old.top_spec() < top;
        &&& self.same_config(old)
        &&& self.spec_buckets() == if grown {
            old.bucket_spec(top) + 1
        } else {
            old.spec_buckets()
        }
        &&& self.spec_high() == if grown {
            top
        } else {
            old.spec_high()
        }
        &&& self.bins() == (self.spec_buckets() + 1) * self.half()
    }

    /// `self` is `old` with the contents of `source` added.
    pub open spec fn is_sum(&self, old: &Self, source: &Self) -> bool {
        &&& self.grown_for(old, source.max_spec())
        &&& self.spec_total() == sat_add_u64(old.spec_total(), seq_sum(source.counts_view()))
        &&& if self.same_layout(source) {
            &&& forall|j: int|
                0 <= j < self.bins() ==> #[trigger] self.counts_view()[j] == sat_add_count::<T>(
                    old.count_or_zero(j as nat),
                    source.counts_view()[j],
                )
            &&& self.spec_max_value() == if source.max_spec() > old.max_spec() {
                raised_max(old.spec_max_value(), source.max_spec() as u64, old.spec_unit_mask())
            } else {
                old.spec_max_value()
            }
            &&& self.spec_min_non_zero() == if source.min_nz_spec() < old.min_nz_spec() {
                lowered_min(
                    old.spec_min_non_zero(),
                    source.min_nz_spec() as u64,
                    old.spec_unit_mask(),
                )
            } else {
                old.spec_min_non_zero()
            }
        } else {
            &&& forall|j: int|
                0 <= j < self.bins() ==> #[trigger] self.counts_view()[j] == sat_add_count::<T>(
                    old.count_or_zero(j as nat),
                    mapped_sum(
                        self.u(),
                        self.m(),
                        source.counts_view(),
                        source.u(),
                        source.m(),
                        j as nat,
                        source.bins(),
                    ),
                )
            &&& self.spec_max_value() == max_over(
                old.spec_max_value(),
                old.spec_unit_mask(),
                source.counts_view(),
                source.u(),
                source.m(),
                source.bins(),
            )
            &&& self.spec_min_non_zero() == min_over(
                old.spec_min_non_zero(),
                old.spec_unit_mask(),
                source.counts_view(),
                source.u(),
                source.m(),
                source.bins(),
            )
        }
    }

    /// The bin of the reported maximum holds the tracked maximum, and no count lies past it.
    pub(crate) proof fn lemma_max_bin(&self)
        requires
            self.wf(),
        ensures
            self.max_spec() <= u64::MAX,
            self.max_spec() >= self.spec_max_value(),
            self.index_spec(self.max_spec()) == self.index_spec(self.spec_max_value() as nat),
            self.index_spec(self.max_spec()) < self.bins(),
            forall|i: int|
                self.index_spec(self.max_spec()) < i < self.bins() ==> self.counts_view()[i] == 0,
            self.lowest_spec(self.max_spec()) <= self.max_spec(),
    {
        let mv = self.max_value as nat;
        if mv != 0 {
            self.lemma_highest(mv);
            lemma_same_bin(self.u(), self.m(), mv, self.max_spec());
        }
        lemma_lowest_of(self.u(), self.m(), self.max_spec());
        assert forall|i: int|
            self.index_spec(self.max_spec()) < i < self.bins() implies self.counts_view()[i]
                == 0 by {
            if self.counts@[i].val() != 0 {
            }
        }
    }

    /// Grow to hold values up to `top` (the other histogram's maximum) if needed; refused
    /// when that needs a resize and auto-resize is off.
    fn grow_for(&mut self, top: u64) -> (r: bool)
        requires
            old(self).wf(),
        ensures
            final(self).wf(),
            r <==> !(old(self).top_spec() < top && !old(self).spec_auto()),
            !r ==> *final(self) == *old(self),
            r ==> final(self).grown_for(&*old(self), top as nat),
            r ==> forall|j: int|
                0 <= j < final(self).bins() ==> #[trigger] final(self).counts_view()[j]
                    == old(self).count_or_zero(j as nat),
            r ==> final(self).spec_total() == old(self).spec_total(),
            r ==> final(self).spec_max_value() == old(self).spec_max_value(),
            r ==> final(self).spec_min_non_zero() == old(self).spec_min_non_zero(),
            r ==> final(self).index_spec(top as nat) < final(self).bins(),
    {
        proof {
            self.lemma_last_bin();
            self.lemma_wf_bounds();
        }
        let last = self.last();
        let t = self.highest_equivalent(self.value_for(last));
        proof {
            lemma_small_mod_nat(self.value_spec(last as nat), two_pow_64());
        }
        if t < top {
            if !self.auto_resize {
                return false;
            }
            proof {
                lemma_bucket_of_mono(self.u() + self.m(), self.top_spec(), top as nat);
                self.lemma_top_above_high();
            }
            self.resize(top);
            proof {
                self.lemma_index_in_range(top as nat);
            }
        } else {
            proof {
                lemma_index_of_mono(self.u(), self.m(), top as nat, t as nat);
                self.lemma_last_bin();
                self.lemma_highest(self.value_spec(last as nat));
                lemma_same_bin(self.u(), self.m(), self.value_spec(last as nat), t as nat);
            }
        }
        true
    }

    /// The largest value of the last bin is at least the highest trackable value, unless it
    /// is capped just below `u64::MAX`.
    proof fn lemma_top_above_high(&self)
        requires
            self.wf(),
        ensures
            self.spec_high() <= self.top_spec() || self.top_spec() == u64::MAX - 1,
    {
        self.lemma_last_bin();
        self.lemma_wf_bounds();
        let k = self.u() + self.m();
        let h = self.half();
        let bc = self.bucket_count as nat;
        let last = (self.bins() - 1) as nat;
        let v = self.value_spec(last);
        let b = (bc - 1) as nat;
        let s = self.u() + b;
        lemma_value_at_index_of(self.u(), self.m(), v);
        lemma_index_of_value_at(self.u(), self.m(), last);
        let sub = sub_bucket_of(self.u(), self.m(), v);
        assert(b * h + sub == (bc + 1) * h - 1);
        assert(sub == 2 * h - 1) by (nonlinear_arith)
            requires
                b * h + sub == (bc + 1) * h - 1,
                b == bc - 1,
        ;
        assert(shift_of(self.u(), self.m(), v) == s);
        lemma_pow2_adds(self.m(), s);
        assert(k + b == self.m() + s);
        assert(self.lowest_spec(v) + self.range_spec(v) == pow2(k + b)) by (nonlinear_arith)
            requires
                self.lowest_spec(v) == sub * pow2(s),
                self.range_spec(v) == pow2(s),
                sub == 2 * h - 1,
                pow2(k + b) == pow2(self.m()) * pow2(s),
                pow2(self.m()) == 2 * h,
        ;
        lemma_bucket_of(k, self.spec_high());
        lemma_pow2_values();
        lemma_pow2_le(k + b, 64);
    }

    /// Add the contents of another histogram to this one.
    ///
    /// Fails if values in the other histogram are higher than the top of this histogram's
    /// range and auto-resize is disabled. Counts are capped at the counter type's maximum,
    /// and the total at `u64::MAX`.
    pub fn add(&mut self, source: &Histogram<T>) -> (r: Result<(), AdditionError>)
        requires
            old(self).wf(),
            source.wf(),
        ensures
            final(self).wf(),
            r is Err <==> (old(self).top_spec() < source.max_spec() && !old(self).spec_auto()),
            r is Err ==> *final(self) == *old(self),
            r is Ok ==> final(self).is_sum(&*old(self), source),
    {
        let ghost old_self = *self;
        let mx = source.max();
        if !self.grow_for(mx) {
            return Err(AdditionError::OtherAddendValuesExceedRange);
        }
        let ghost base = *self;
        let ghost sview = source.counts_view();
        let self_max = self.max();
        let self_min_nz = self.min_nz();
        proof {
            source.lemma_max_bin();
            source.lemma_wf_bounds();
            self.lemma_wf_bounds();
        }
        if self.bucket_count == source.bucket_count && self.sub_bucket_count == source.sub_bucket_count
            && self.unit_magnitude == source.unit_magnitude {
            proof {
                lemma_pow2_le(self.m(), 18);
                lemma_pow2_le(source.m(), 18);
                lemma2_to64();
                if self.m() != source.m() {
                    if self.m() < source.m() {
                        lemma_pow2_strictly_increases(self.m(), source.m());
                    } else {
                        lemma_pow2_strictly_increases(source.m(), self.m());
                    }
                }
            }
            let n = source.counts.len();
            let mut observed_other_total_count: u64 = 0;
            let mut i: usize = 0;
            while i < n
                invariant
                    n == sview.len(),
                    sview == source.counts_view(),
                    i <= n,
                    self.counts@.len() == n,
                    self.counts@.len() == base.counts@.len(),
                    *self == (Histogram { counts: self.counts, ..base }),
                    forall|j: int| 0 <= j < i ==> #[trigger] self.counts_view()[j] == sat_add_count::<T>(
                        base.counts_view()[j],
                        sview[j],
                    ),
                    forall|j: int| i <= j < n ==> #[trigger] self.counts@[j] == base.counts@[j],
                    observed_other_total_count == cap_u64(seq_sum(sview.subrange(0, i as int))),
                decreases n - i,
            {
                let other_count = source.counts[i];
                proof {
                    assert(sview.subrange(0, i + 1).drop_last() =~= sview.subrange(0, i as int));
                    T::lemma_range(base.counts@[i as int]);
                    assert(base.counts_view()[i as int] == base.counts@[i as int].val());
                    assert(self.counts_view()[i as int] == self.counts@[i as int].val());
                }
                if !other_count.is_zero() {
                    self.add_at(i, other_count);
                    observed_other_total_count = observed_other_total_count.saturating_add(other_count.to_u64());
                }
                i = i + 1;
            }
            proof {
                assert(sview.subrange(0, n as int) =~= sview);
            }
            let ghost after_loop = *self;
            self.total_count = self.total_count.saturating_add(observed_other_total_count);
            let ghost counted = *self;
            if mx > self_max {
                self.update_max(mx);
            }
            let mn = source.min_nz();
            if mn < self_min_nz {
                self.update_min(mn);
            }
            proof {
                base.lemma_max_bin();
                base.lemma_max_form_bin(mx);
                base.lemma_index_in_range(mx as nat);
                base.lemma_index_in_range(max_form(mx, base.unit_magnitude_mask) as nat);
                let newmax = self.max_value as nat;
                if newmax != base.max_value {
                    lemma_index_of_mono(self.u(), self.m(), mx as nat, newmax);
                    lemma_index_of_mono(self.u(), self.m(), base.max_value as nat, newmax);
                } else if mx > base.max_spec() {
                    lemma_index_of_mono(self.u(), self.m(), mx as nat, newmax);
                } else {
                    lemma_index_of_mono(self.u(), self.m(), mx as nat, base.max_spec());
                }
                assert forall|j: int|
                    0 <= j < self.counts.len() && (#[trigger] self.counts@[j]).val() != 0 implies j
                        <= self.index_spec(self.max_value as nat) by {
                    assert(self.counts_view()[j] == counted.counts_view()[j]);
                    assert(counted.counts_view() == after_loop.counts_view());
                    assert(after_loop.counts_view()[j] == sat_add_count::<T>(base.counts_view()[j], sview[j]));
                    assert(base.counts_view()[j] == base.counts@[j].val());
                    if base.counts@[j].val() == 0 {
                        assert(sview[j] != 0);
                        assert(j <= source.index_spec(source.max_spec()));
                    }
                }
                assert(self.same_layout(source));
                assert(self.grown_for(&old_self, source.max_spec()));
                assert(self.spec_total() == sat_add_u64(old_self.spec_total(), seq_sum(source.counts_view())));
                assert forall|j: int|
                    0 <= j < self.bins() implies #[trigger] self.counts_view()[j] == sat_add_count::<T>(
                        old_self.count_or_zero(j as nat),
                        source.counts_view()[j],
                    ) by {
                    assert(counted.counts_view() == after_loop.counts_view());
                    assert(after_loop.counts_view()[j] == sat_add_count::<T>(base.counts_view()[j], sview[j]));
                }
            }
        } else {
            let other_max_index = source.index_for(mx);
            proof {
                base.lemma_counts_capped();
            }
            let mut i: usize = 0;
            while i <= other_max_index
                invariant
                    self.wf(),
                    self.same_config(&base),
                    self.bins() == base.bins(),
                    self.spec_high() == base.spec_high(),
                    self.spec_buckets() == base.spec_buckets(),
                    source.wf(),
                    sview == source.counts_view(),
                    other_max_index == source.index_spec(source.max_spec()),
                    other_max_index < sview.len(),
                    i <= other_max_index + 1,
                    self.index_spec(source.max_spec()) < self.bins(),
                    forall|j: int| 0 <= j < self.bins() ==> #[trigger] self.counts_view()[j]
                        == sat_add_count::<T>(
                            base.counts_view()[j],
                            mapped_sum(self.u(), self.m(), sview, source.u(), source.m(), j as nat, i as nat),
                        ),
                    self.spec_total() == sat_add_u64(base.spec_total(), seq_sum(sview.subrange(0, i as int))),
                    self.spec_max_value() == max_over(base.spec_max_value(), base.spec_unit_mask(), sview, source.u(), source.m(), i as nat),
                    self.spec_min_non_zero() == min_over(base.spec_min_non_zero(), base.spec_unit_mask(), sview, source.u(), source.m(), i as nat),
                decreases other_max_index + 1 - i,
            {
                let other_count = source.counts[i];
                proof {
                    assert(sview.subrange(0, i + 1).drop_last() =~= sview.subrange(0, i as int));
                    source.lemma_value_in_range(i as nat);
                    lemma_small_mod_nat(source.value_spec(i as nat), two_pow_64());
                }
                if !other_count.is_zero() {
                    let v = source.value_for(i);
                    proof {
                        lemma_value_at_mono(source.u(), source.m(), i as nat, other_max_index as nat);
                        lemma_value_at_index_of(source.u(), source.m(), source.max_spec());
                        lemma_lowest_of(source.u(), source.m(), source.max_spec());
                        lemma_index_of_mono(self.u(), self.m(), v as nat, source.max_spec());
                    }
                    let _ = self.record_n(v, other_count);
                }
                i = i + 1;
            }
            proof {
                lemma_over_zero_tail(
                    self.u(), self.m(), sview, source.u(), source.m(),
                    base.spec_max_value(), base.spec_min_non_zero(), base.spec_unit_mask(),
                    (other_max_index + 1) as nat, sview.len(),
                );
                assert(sview.subrange(0, sview.len() as int) =~= sview);
                assert(!self.same_layout(source));
                assert(self.grown_for(&old_self, source.max_spec()));
                assert(self.spec_total() == sat_add_u64(old_self.spec_total(), seq_sum(source.counts_view())));
            }
        }
        Ok(())
    }

    /// The tracked maximum `restat` computes from counts `c`.
    pub open spec fn restat_max(&self, c: Seq<nat>) -> u64 {
        match last_nonzero(c, c.len()) {
            Some(i) => raised_max(
                self.spec_unit_mask(),
                self.highest_spec(self.value_spec(i)) as u64,
                self.spec_unit_mask(),
            ),
            None => self.spec_unit_mask(),
        }
    }

    /// The tracked non-zero minimum `restat` computes from counts `c`.
    pub open spec fn restat_min(&self, c: Seq<nat>) -> u64 {
        match first_nonzero_past_zero(c, c.len()) {
            Some(i) => lowered_min(u64::MAX, self.value_spec(i) as u64, self.spec_unit_mask()),
            None => u64::MAX,
        }
    }

    /// The subtraction run of `other` from the counts of `self` (already grown for it).
    pub open spec fn sub_result(&self, old: &Self, other: &Self) -> SubState {
        sub_run(
            (
                Seq::new(self.bins(), |j: int| old.count_or_zero(j as nat)),
                old.spec_total(),
                old.spec_max_value(),
                old.spec_min_non_zero(),
                false,
            ),
            self.u(),
            self.m(),
            self.spec_unit_mask(),
            other.counts_view(),
            other.u(),
            other.m(),
            other.bins(),
        )
    }

    /// `self` is `old` with the contents of `other` subtracted, as far as the subtraction run
    /// went: grown for `other`, with the run's counts, and the run's total, maximum and
    /// minimum, or those recomputed from the counts when the total had been capped or the
    /// bins of the minimum or maximum became empty.
    pub open spec fn is_difference(&self, old: &Self, other: &Self) -> bool {
        let run = self.sub_result(old, other);
        &&& self.grown_for(old, other.max_spec())
        &&& self.counts_view() == run.0
        &&& (run.4 || !self.needs_restat(old, run)) ==> {
            &&& self.spec_total() == run.1
            &&& self.spec_max_value() == run.2
            &&& self.spec_min_non_zero() == run.3
        }
        &&& (!run.4 && self.needs_restat(old, run)) ==> {
            &&& self.spec_total() == cap_u64(seq_sum(run.0))
            &&& self.spec_max_value() == self.restat_max(run.0)
            &&& self.spec_min_non_zero() == self.restat_min(run.0)
        }
    }

    /// Subtract the contents of another histogram from this one.
    ///
    /// Fails if values in the other histogram are higher than the top of this histogram's
    /// range and auto-resize is disabled (nothing changes), or when a count of the other
    /// histogram is higher than the current count for its value (the counts before it have
    /// then been subtracted already). On success the total, minimum and maximum are
    /// recomputed from the counts when the total had been capped or the bins of the minimum or
    /// maximum became empty.
    #[verifier::spinoff_prover]
    pub fn subtract(&mut self, other: &Histogram<T>) -> (r: Result<(), SubtractionError>)
        requires
            old(self).wf(),
            other.wf(),
        ensures
            final(self).wf(),
            r == Err::<(), SubtractionError>(SubtractionError::SubtrahendValuesExceedMinuendRange)
                <==> (old(self).top_spec() < other.max_spec() && !old(self).spec_auto()),
            r == Err::<(), SubtractionError>(SubtractionError::SubtrahendValuesExceedMinuendRange)
                ==> *final(self) == *old(self),
            r != Err::<(), SubtractionError>(SubtractionError::SubtrahendValuesExceedMinuendRange)
                ==> {
                &&& final(self).is_difference(&*old(self), other)
                &&& (r == Err::<(), SubtractionError>(SubtractionError::SubtrahendCountExceedsMinuendCount)
                    <==> final(self).sub_result(&*old(self), other).4)
            },
    {
        let ghost old_self = *self;
        let mx = other.max();
        if !self.grow_for(mx) {
            return Err(SubtractionError::SubtrahendValuesExceedMinuendRange);
        }
        let ghost base = *self;
        let ghost oview = other.counts_view();
        let was_saturated = self.total_count == u64::MAX;
        proof {
            other.lemma_max_bin();
            other.lemma_wf_bounds();
            self.lemma_wf_bounds();
            assert(Seq::new(self.bins(), |j: int| old_self.count_or_zero(j as nat)) =~= self.counts_view());
        }
        let n = other.counts.len();
        let mut i: usize = 0;
        while i < n
            invariant
                self.wf(),
                self.same_config(&base),
                self.bins() == base.bins(),
                self.spec_high() == base.spec_high(),
                self.spec_buckets() == base.spec_buckets(),
                other.wf(),
                oview == other.counts_view(),
                n == oview.len(),
                i <= n,
                self.index_spec(other.max_spec()) < self.bins(),
                forall|j: int| other.index_spec(other.max_spec()) < j < n ==> oview[j] == 0,
                old_self == *old(self),
                self.grown_for(&old_self, other.max_spec()),
                !(old_self.top_spec() < other.max_spec() && !old_self.spec_auto()),
                base.counts_view() == Seq::new(self.bins(), |j: int| old_self.count_or_zero(j as nat)),
                base.spec_total() == old_self.spec_total(),
                base.spec_max_value() == old_self.spec_max_value(),
                base.spec_min_non_zero() == old_self.spec_min_non_zero(),
                base.spec_unit_mask() == self.spec_unit_mask(),
                ({
                    let run = sub_run(
                        (base.counts_view(), base.spec_total(), base.spec_max_value(), base.spec_min_non_zero(), false),
                        self.u(), self.m(), self.spec_unit_mask(), oview, other.u(), other.m(), i as nat,
                    );
                    &&& !run.4
                    &&& self.counts_view() == run.0
                    &&& self.spec_total() == run.1
                    &&& self.spec_max_value() == run.2
                    &&& self.spec_min_non_zero() == run.3
                }),
            decreases n - i,
        {
            let other_count = other.counts[i];
            let ghost before = *self;
            proof {
                assert(oview[i as int] == other_count.val());
            }
            if !other_count.is_zero() {
                proof {
                    other.lemma_value_in_range(i as nat);
                    lemma_small_mod_nat(other.value_spec(i as nat), two_pow_64());
                    // the bin has a count, so it lies at or below the other maximum's bin
                    lemma_value_at_mono(other.u(), other.m(), i as nat, other.index_spec(other.max_spec()));
                    lemma_value_at_index_of(other.u(), other.m(), other.max_spec());
                    lemma_lowest_of(other.u(), other.m(), other.max_spec());
                }
                let other_value = other.value_for(i);
                let idx = self.index_for(other_value);
                proof {
                    lemma_index_of_mono(self.u(), self.m(), other_value as nat, other.max_spec());
                    assert(self.counts_view()[idx as int] == self.counts@[idx as int].val());
                }
                if self.counts[idx].less_than(other_count) {
                    proof {
                        let st = (base.counts_view(), base.spec_total(), base.spec_max_value(), base.spec_min_non_zero(), false);
                        assert(index_of(self.u(), self.m(), value_at(other.u(), other.m(), i as nat)) == idx);
                        assert(sub_run(st, self.u(), self.m(), self.spec_unit_mask(), oview, other.u(), other.m(), (i + 1) as nat).4);
                        lemma_sub_run_stops(
                            (base.counts_view(), base.spec_total(), base.spec_max_value(), base.spec_min_non_zero(), false),
                            self.u(), self.m(), self.spec_unit_mask(), oview, other.u(), other.m(),
                            (i + 1) as nat, n as nat,
                        );
                    }
                    return Err(SubtractionError::SubtrahendCountExceedsMinuendCount);
                }
                let c = self.counts[idx].sub_exact(other_count);
                self.counts.set(idx, c);
                proof {
                    assert(self.counts_view() =~= before.counts_view().update(idx as int, (before.counts_view()[idx as int] - other_count.val()) as nat));
                }
                let ghost subtracted = *self;
                self.update_min_max(other_value);
                self.total_count = self.total_count.saturating_sub(other_count.to_u64());
                proof {
                    assert forall|j: int|
                        0 <= j < self.counts.len() && (#[trigger] self.counts@[j]).val() != 0 implies j
                            <= self.index_spec(self.max_value as nat) by {
                        assert(before.counts@[j].val() != 0) by {
                            assert(self.counts_view()[j] == self.counts@[j].val());
                            assert(before.counts_view()[j] == before.counts@[j].val());
                        }
                        lemma_index_of_mono(self.u(), self.m(), before.max_value as nat, self.max_value as nat);
                    }
                    before.lemma_max_form_bin(other_value);
                    before.lemma_index_in_range(other_value as nat);
                    before.lemma_index_in_range(max_form(other_value, before.unit_magnitude_mask) as nat);
                    lemma_or_above(other_value, before.unit_magnitude_mask);
                }
            }
            i = i + 1;
        }
        proof {
            assert(base.counts_view() =~= Seq::new(self.bins(), |j: int| old_self.count_or_zero(j as nat)));
        }
        let mut needs = was_saturated;
        if !needs {
            let at_max = self.count_at(self.max());
            let at_min = self.count_at(self.min_nz());
            needs = at_max.unwrap().is_zero() || at_min.unwrap().is_zero();
        }
        if needs {
            let l = self.len();
            proof {
                assert(self.counts_view().subrange(0, l as int) =~= self.counts_view());
            }
            self.restat(l);
        }
        Ok(())
    }

    /// Whether `subtract` recomputes statistics after run `run`: the total was capped, or
    /// the bin of the new maximum or minimum is empty.
    pub open spec fn needs_restat(&self, old: &Self, run: SubState) -> bool {
        let max_spec = if run.2 == 0 {
            0
        } else {
            self.highest_spec(run.2 as nat)
        };
        let min_spec = if run.3 == u64::MAX {
            u64::MAX as nat
        } else {
            self.lowest_spec(run.3 as nat)
        };
        ||| old.spec_total() == u64::MAX
        ||| run.0[self.clamped_index(max_spec) as int] == 0
        ||| run.0[self.clamped_index(min_spec) as int] == 0
    }

    // ----------------------------------------------------------------------------------------
    // Copies, overwrites and corrections
    // ----------------------------------------------------------------------------------------

    /// Both histograms are the same in every observable respect.
    pub open spec fn same_state(&self, other: &Self) -> bool {
        &&& self.same_config(other)
        &&& self.bins() == other.bins()
        &&& self.spec_high() == other.spec_high()
        &&& self.spec_buckets() == other.spec_buckets()
        &&& self.counts_view() == other.counts_view()
        &&& self.spec_total() == other.spec_total()
        &&& self.spec_max_value() == other.spec_max_value()
        &&& self.spec_min_non_zero() == other.spec_min_non_zero()
    }

    /// `self` is `old` after `reset()`.
    pub open spec fn is_reset_of(&self, old: &Self) -> bool {
        &&& self.wf()
        &&& self.same_config(old)
        &&& self.bins() == old.bins()
        &&& self.spec_high() == old.spec_high()
        &&& self.spec_buckets() == old.spec_buckets()
        &&& forall|i: int| 0 <= i < self.bins() ==> self.counts_view()[i] == 0
        &&& self.spec_total() == 0
        &&& self.spec_max_value() == old.spec_unit_mask()
        &&& self.spec_min_non_zero() == u64::MAX
    }

    /// The value recorded for bin `i` when iterating over recorded values: the highest value
    /// equivalent to the bin's smallest value.
    pub open spec fn recorded_value(&self, i: nat) -> u64 {
        self.highest_spec(self.value_spec(i)) as u64
    }

    /// Step `k` of a correction chain: state `k + 1` of `states` is state `k` after
    /// correction-recording bin `k` of `source` (or unchanged, for an empty bin).
    pub open spec fn chain_link(states: Seq<Self>, source: &Self, interval: u64, k: nat) -> bool {
        &&& states[k as int].wf()
        &&& if source.counts_view()[k as int] != 0 {
            states[k + 1int].is_corrected(
                &states[k as int],
                source.recorded_value(k),
                source.counts_view()[k as int],
                interval,
            )
        } else {
            states[k + 1int].same_state(&states[k as int])
        }
    }

    /// `states` runs from `old` through the first `n` bins of `source`.
    pub open spec fn chain_through(states: Seq<Self>, old: &Self, source: &Self, interval: u64, n: nat) -> bool {
        &&& states.len() == n + 1
        &&& states[0].same_state(old)
        &&& forall|k: nat| k < n ==> #[trigger] Self::chain_link(states, source, interval, k)
    }

    /// `self` is `old` after correcting-recording the first `n` bins of `source` at `interval`,
    /// each non-zero bin as its recorded value with its count.
    pub open spec fn corrected_chain(&self, old: &Self, source: &Self, interval: u64, n: nat) -> bool {
        exists|states: Seq<Self>|
            #[trigger] Self::chain_through(states, old, source, interval, n) && states.last() == *self
    }

    /// A chain of no steps.
    proof fn lemma_chain_start(&self, old: &Self, source: &Self, interval: u64)
        requires
            self.same_state(old),
        ensures
            self.corrected_chain(old, source, interval, 0),
    {
        let states = seq![*self];
        assert(Self::chain_through(states, old, source, interval, 0));
    }

    /// One more step of a correction chain.
    proof fn lemma_chain_step(&self, mid: Self, old: &Self, source: &Self, interval: u64, n: nat)
        requires
            mid.wf(),
            mid.corrected_chain(old, source, interval, n),
            n < source.bins(),
            source.counts_view()[n as int] != 0 ==> self.is_corrected(
                &mid,
                source.recorded_value(n),
                source.counts_view()[n as int],
                interval,
            ),
            source.counts_view()[n as int] == 0 ==> self.same_state(&mid),
        ensures
            self.corrected_chain(old, source, interval, n + 1),
    {
        let states = choose|states: Seq<Self>|
            #[trigger] Self::chain_through(states, old, source, interval, n) && states.last() == mid;
        let next = states.push(*self);
        assert forall|k: nat| k < n + 1 implies #[trigger] Self::chain_link(next, source, interval, k) by {
            if k < n {
                assert(Self::chain_link(states, source, interval, k));
                assert(next[k as int] == states[k as int]);
                assert(next[k + 1int] == states[k + 1int]);
            } else {
                assert(next[k as int] == mid);
                assert(next[k + 1int] == *self);
            }
        }
        assert(next[0] == states[0]);
        assert(Self::chain_through(next, old, source, interval, n + 1));
        assert(next.last() == *self);
    }

    /// Overwrite this histogram with the given histogram: reset, then add.
    pub fn set_to(&mut self, source: &Histogram<T>) -> (r: Result<(), AdditionError>)
        requires
            old(self).wf(),
            source.wf(),
        ensures
            final(self).wf(),
            exists|mid: Self|
                #![trigger mid.is_reset_of(&*old(self))]
                mid.is_reset_of(&*old(self)) && {
                    &&& r is Err <==> (mid.top_spec() < source.max_spec() && !mid.spec_auto())
                    &&& r is Err ==> final(self).same_state(&mid)
                    &&& r is Ok ==> final(self).is_sum(&mid, source)
                },
    {
        self.reset();
        let ghost mid = *self;
        let r = self.add(source);
        proof {
            assert(mid.is_reset_of(&*old(self)));
        }
        r
    }

    /// Overwrite this histogram with the given histogram while correcting for coordinated
    /// omission: reset, then `add_correct`.
    pub fn set_to_corrected(&mut self, source: &Histogram<T>, interval: u64) -> (r: Result<(), ()>)
        requires
            old(self).wf(),
            source.wf(),
        ensures
            final(self).wf(),
            exists|mid: Self|
                #![trigger mid.is_reset_of(&*old(self))]
                mid.is_reset_of(&*old(self)) && final(self).add_correct_result(&mid, source, interval, r),
    {
        self.reset();
        let ghost mid = *self;
        let r = self.add_correct(source, interval);
        proof {
            assert(mid.is_reset_of(&*old(self)));
        }
        r
    }

    /// What `add_correct` leaves: every non-zero bin of `source` correction-recorded in
    /// order; with auto-resize off, it stops at the first bin whose recorded value is beyond
    /// the range, and reports an error.
    pub open spec fn add_correct_result(&self, old: &Self, source: &Self, interval: u64, r: Result<(), ()>) -> bool {
        &&& !old.spec_auto() && (exists|i: nat| i < source.bins() && #[trigger] old.correct_fails(source, i)) ==> {
            let first = choose|i: nat|
                i < source.bins() && #[trigger] old.correct_fails(source, i) && forall|k: nat|
                    k < i ==> !(#[trigger] old.correct_fails(source, k));
            &&& r is Err
            &&& self.corrected_chain(old, source, interval, first)
        }
        &&& (old.spec_auto() || !(exists|i: nat| i < source.bins() && #[trigger] old.correct_fails(source, i))) ==> {
            &&& r is Ok
            &&& self.corrected_chain(old, source, interval, source.bins())
        }
    }

    /// Bin `i` of `source` has a count whose recorded value is beyond the range of `self`.
    pub open spec fn correct_fails(&self, source: &Self, i: nat) -> bool {
        source.counts_view()[i as int] != 0 && self.index_spec(source.recorded_value(i) as nat) >= self.bins()
    }

    /// Add the contents of another histogram to this one, while correcting for coordinated
    /// omission: every recorded value of `source` (the highest value of each non-zero bin) is
    /// recorded with `record_n_correct`, with its count.
    ///
    /// Fails, after adding the earlier bins, when a recorded value is beyond the range and
    /// auto-resize is disabled.
    pub fn add_correct(&mut self, source: &Histogram<T>, interval: u64) -> (r: Result<(), ()>)
        requires
            old(self).wf(),
            source.wf(),
        ensures
            final(self).wf(),
            final(self).add_correct_result(&*old(self), source, interval, r),
    {
        let ghost old_self = *self;
        let n = source.counts.len();
        let mut i: usize = 0;
        proof {
            source.lemma_wf_bounds();
            self.lemma_chain_start(&old_self, source, interval);
        }
        while i < n
            invariant
                self.wf(),
                source.wf(),
                old_self.wf(),
                old_self == *old(self),
                n == source.bins(),
                i <= n,
                self.corrected_chain(&old_self, source, interval, i as nat),
                !old_self.spec_auto() ==> forall|k: nat| k < i ==> !(#[trigger] old_self.correct_fails(source, k)),
                !old_self.spec_auto() ==> self.bins() == old_self.bins(),
                self.same_config(&old_self),
                self.bins() >= old_self.bins(),
            decreases n - i,
        {
            let c = source.counts[i];
            let ghost before = *self;
            proof {
                assert(source.counts_view()[i as int] == c.val());
            }
            if !c.is_zero() {
                proof {
                    source.lemma_value_in_range(i as nat);
                    lemma_small_mod_nat(source.value_spec(i as nat), two_pow_64());
                    source.lemma_highest(source.value_spec(i as nat));
                }
                let v = source.highest_equivalent(source.value_for(i));
                let rr = self.record_n_correct(v, c, interval);
                proof {
                    assert(v == source.recorded_value(i as nat));
                }
                if rr.is_err() {
                    proof {
                        assert(old_self.correct_fails(source, i as nat));
                        let first = choose|j: nat|
                            j < source.bins() && #[trigger] old_self.correct_fails(source, j) && forall|k: nat|
                                k < j ==> !(#[trigger] old_self.correct_fails(source, k));
                        assert(forall|k: nat| k < i ==> !(#[trigger] old_self.correct_fails(source, k)));
                        if first < i {
                        } else if first > i {
                            assert(!old_self.correct_fails(source, i as nat));
                        }
                        assert(first == i);
                    }
                    return rr;
                }
                proof {
                    assert(self.is_corrected(&before, source.recorded_value(i as nat), source.counts_view()[i as int], interval));
                    self.lemma_chain_step(before, &old_self, source, interval, i as nat);
                    if !old_self.spec_auto() {
                        assert(!old_self.correct_fails(source, i as nat));
                    }
                }
            } else {
                proof {
                    assert(self.same_state(&before));
                    self.lemma_chain_step(before, &old_self, source, interval, i as nat);
                }
            }
            i = i + 1;
        }
        Ok(())
    }

    /// Get a copy of this histogram, corrected for coordinated omission: a histogram with the
    /// same range settings and no contents, into which every recorded value of this histogram
    /// is recorded with `record_n_correct` at `interval`, with its count.
    pub fn clone_correct(&self, interval: u64) -> (r: Histogram<T>)
        requires
            self.wf(),
        ensures
            r.wf(),
            exists|fresh: Self|
                #![trigger fresh.fresh(self.spec_low(), self.spec_high(), self.spec_sigfig())]
                fresh.fresh(self.spec_low(), self.spec_high(), self.spec_sigfig())
                    && fresh.spec_auto() == self.spec_auto()
                    && fresh.bins() == self.bins()
                    && r.corrected_chain(&fresh, self, interval, self.bins()),
    {
        let mut h: Histogram<T> = Histogram::new_from(self);
        let ghost fresh = h;
        let n = self.counts.len();
        let mut i: usize = 0;
        proof {
            self.lemma_wf_bounds();
            h.lemma_chain_start(&fresh, self, interval);
        }
        while i < n
            invariant
                h.wf(),
                self.wf(),
                fresh.wf(),
                n == self.bins(),
                i <= n,
                h.bins() == self.bins(),
                h.u() == self.u(),
                h.m() == self.m(),
                h.corrected_chain(&fresh, self, interval, i as nat),
            decreases n - i,
        {
            let c = self.counts[i];
            let ghost before = h;
            proof {
                assert(self.counts_view()[i as int] == c.val());
            }
            if !c.is_zero() {
                proof {
                    self.lemma_value_in_range(i as nat);
                    lemma_small_mod_nat(self.value_spec(i as nat), two_pow_64());
                    self.lemma_highest(self.value_spec(i as nat));
                    lemma_same_bin(self.u(), self.m(), self.value_spec(i as nat), self.recorded_value(i as nat) as nat);
                }
                let v = self.highest_equivalent(self.value_for(i));
                let rr = h.record_n_correct(v, c, interval);
                proof {
                    assert(v == self.recorded_value(i as nat));
                    assert(before.index_spec(v as nat) == i);
                    assert(rr is Ok);
                    assert(h.is_corrected(&before, self.recorded_value(i as nat), self.counts_view()[i as int], interval));
                    h.lemma_chain_step(before, &fresh, self, interval, i as nat);
                }
            } else {
                proof {
                    assert(h.same_state(&before));
                    h.lemma_chain_step(before, &fresh, self, interval, i as nat);
                }
            }
            i = i + 1;
        }
        h
    }

    // ----------------------------------------------------------------------------------------
    // Setters and resetters
    // ----------------------------------------------------------------------------------------

    /// Clear the contents of this histogram while preserving its statistics and configuration.
    pub fn clear(&mut self)
        requires
            old(self).wf(),
        ensures
            final(self).wf(),
            final(self).same_config(&*old(self)),
            final(self).bins() == old(self).bins(),
            final(self).spec_high() == old(self).spec_high(),
            final(self).spec_buckets() == old(self).spec_buckets(),
            forall|i: int| 0 <= i < final(self).bins() ==> final(self).counts_view()[i] == 0,
            final(self).spec_total() == 0,
            final(self).spec_max_value() == old(self).spec_max_value(),
            final(self).spec_min_non_zero() == old(self).spec_min_non_zero(),
    {
        let ghost start = *self;
        let n = self.counts.len();
        let mut i: usize = 0;
        while i < n
            invariant
                *self == (Histogram { counts: self.counts, ..start }),
                n == self.counts@.len(),
                i <= n,
                forall|j: int| 0 <= j < i ==> (#[trigger] self.counts@[j]).val() == 0,
            decreases n - i,
        {
            self.counts.set(i, T::zero());
            i = i + 1;
        }
        self.total_count = 0;
    }

    /// Reset the contents and statistics of this histogram, preserving only its
    /// configuration.
    pub fn reset(&mut self)
        requires
            old(self).wf(),
        ensures
            final(self).wf(),
            final(self).same_config(&*old(self)),
            final(self).bins() == old(self).bins(),
            final(self).spec_high() == old(self).spec_high(),
            forall|i: int| 0 <= i < final(self).bins() ==> final(self).counts_view()[i] == 0,
            final(self).spec_total() == 0,
            final(self).spec_max_value() == old(self).spec_unit_mask(),
            final(self).spec_min_non_zero() == u64::MAX,
    {
        self.clear();
        self.reset_max(0);
        self.reset_min(u64::MAX);
        proof {
            lemma_or_zero(self.unit_magnitude_mask);
            self.lemma_bin_zero();
            self.lemma_wf_bounds_config();
            self.lemma_zero_counts_cover();
        }
    }

    /// Control whether or not the histogram can auto-resize and auto-adjust its highest
    /// trackable value as high-valued samples are recorded.
    pub fn auto(&mut self, enabled: bool)
        requires
            old(self).wf(),
        ensures
            final(self).wf(),
            final(self).spec_auto() == enabled,
            final(self).spec_low() == old(self).spec_low(),
            final(self).spec_sigfig() == old(self).spec_sigfig(),
            final(self).u() == old(self).u(),
            final(self).m() == old(self).m(),
            final(self).spec_unit_mask() == old(self).spec_unit_mask(),
            final(self).spec_high() == old(self).spec_high(),
            final(self).spec_buckets() == old(self).spec_buckets(),
            final(self).counts_view() == old(self).counts_view(),
            final(self).spec_total() == old(self).spec_total(),
            final(self).spec_max_value() == old(self).spec_max_value(),
            final(self).spec_min_non_zero() == old(self).spec_min_non_zero(),
    {
        self.auto_resize = enabled;
    }

    fn reset_max(&mut self, max: u64)
        ensures
            final(self).max_value == max_form(max, old(self).unit_magnitude_mask),
            *final(self) == (Histogram { max_value: final(self).max_value, ..*old(self) }),
    {
        self.max_value = max | self.unit_magnitude_mask;
    }

    fn reset_min(&mut self, min: u64)
        ensures
            final(self).min_non_zero_value == if min == u64::MAX {
                min
            } else {
                min_form(min, old(self).unit_magnitude_mask)
            },
            *final(self) == (Histogram { min_non_zero_value: final(self).min_non_zero_value, ..*old(self) }),
    {
        let internal_value = min & !self.unit_magnitude_mask;
        self.min_non_zero_value = if min == u64::MAX {
            min
        } else {
            internal_value
        };
    }

    /// The number of bins that a scan of the first `until` bins covers.
    pub open spec fn scan_len(&self, until: nat) -> nat {
        if until < self.bins() {
            until
        } else {
            self.bins()
        }
    }

    /// Recompute the total count (capped at `u64::MAX`) and the tracked minimum and maximum
    /// from the first `until` bins, or from all of them when `until` is past the end.
    pub(crate) fn restat_until(&mut self, until: usize)
        requires
            old(self).wf(),
            forall|j: int| until <= j < old(self).bins() ==> old(self).counts_view()[j] == 0,
        ensures
            final(self).wf(),
            final(self).counts_view() == old(self).counts_view(),
            final(self).same_config(&*old(self)),
            final(self).spec_high() == old(self).spec_high(),
            final(self).spec_buckets() == old(self).spec_buckets(),
            final(self).spec_total() == cap_u64(
                seq_sum(old(self).counts_view().subrange(0, old(self).scan_len(until as nat) as int)),
            ),
            final(self).spec_max_value() == match last_nonzero(
                old(self).counts_view(),
                old(self).scan_len(until as nat),
            ) {
                Some(i) => raised_max(
                    old(self).spec_unit_mask(),
                    old(self).highest_spec(old(self).value_spec(i)) as u64,
                    old(self).spec_unit_mask(),
                ),
                None => old(self).spec_unit_mask(),
            },
            final(self).spec_min_non_zero() == match first_nonzero_past_zero(
                old(self).counts_view(),
                old(self).scan_len(until as nat),
            ) {
                Some(i) => lowered_min(
                    u64::MAX,
                    old(self).value_spec(i) as u64,
                    old(self).spec_unit_mask(),
                ),
                None => u64::MAX,
            },
    {
        let n = self.counts.len();
        let u = if until < n {
            until
        } else {
            n
        };
        self.restat(u);
    }

    /// Recompute the total count (capped at `u64::MAX`) and the tracked minimum and maximum
    /// from the first `until` bins.
    fn restat(&mut self, until: usize)
        requires
            old(self).wf(),
            until <= old(self).bins(),
            forall|j: int| until <= j < old(self).bins() ==> old(self).counts_view()[j] == 0,
        ensures
            final(self).wf(),
            final(self).counts == old(self).counts,
            final(self).same_config(&*old(self)),
            final(self).spec_high() == old(self).spec_high(),
            final(self).spec_total() == cap_u64(
                seq_sum(old(self).counts_view().subrange(0, until as int)),
            ),
            final(self).spec_max_value() == match last_nonzero(
                old(self).counts_view(),
                until as nat,
            ) {
                Some(i) => raised_max(
                    old(self).unit_magnitude_mask,
                    old(self).highest_spec(old(self).value_spec(i)) as u64,
                    old(self).unit_magnitude_mask,
                ),
                None => old(self).unit_magnitude_mask,
            },
            final(self).spec_min_non_zero() == match first_nonzero_past_zero(
                old(self).counts_view(),
                until as nat,
            ) {
                Some(i) => lowered_min(
                    u64::MAX,
                    old(self).value_spec(i) as u64,
                    old(self).unit_magnitude_mask,
                ),
                None => u64::MAX,
            },
    {
        let ghost view = self.counts_view();
        let mut max_i: Option<usize> = None;
        let mut min_i: Option<usize> = None;
        let mut total_count: u64 = 0;
        let mut i: usize = 0;
        while i < until
            invariant
                i <= until <= view.len(),
                view == self.counts_view(),
                self.counts@.len() == view.len(),
                total_count == cap_u64(seq_sum(view.subrange(0, i as int))),
                max_i is Some <==> last_nonzero(view, i as nat) is Some,
                max_i is Some ==> max_i->0 as nat == last_nonzero(view, i as nat)->0 && max_i->0 < i,
                min_i is Some <==> first_nonzero_past_zero(view, i as nat) is Some,
                min_i is Some ==> min_i->0 as nat == first_nonzero_past_zero(view, i as nat)->0
                    && min_i->0 < i,
            decreases until - i,
        {
            let count = self.counts[i];
            proof {
                assert(view.subrange(0, i + 1).drop_last() =~= view.subrange(0, i as int));
                assert(view[i as int] == count.val());
            }
            if !count.is_zero() {
                total_count = total_count.saturating_add(count.to_u64());
                max_i = Some(i);
                if min_i.is_none() && i != 0 {
                    min_i = Some(i);
                }
            }
            i = i + 1;
        }
        proof {
            self.lemma_wf_bounds();
            lemma_last_nonzero(view, until as nat);
        }
        let mut max_candidate: Option<u64> = None;
        if let Some(mi) = max_i {
            proof {
                self.lemma_value_in_range(mi as nat);
                lemma_small_mod_nat(self.value_spec(mi as nat), two_pow_64());
            }
            max_candidate = Some(self.highest_equivalent(self.value_for(mi)));
        }
        let mut min_candidate: Option<u64> = None;
        if let Some(mi) = min_i {
            proof {
                self.lemma_value_in_range(mi as nat);
                lemma_small_mod_nat(self.value_spec(mi as nat), two_pow_64());
            }
            min_candidate = Some(self.value_for(mi));
        }
        let ghost before = *self;
        self.reset_max(0);
        self.reset_min(u64::MAX);
        proof {
            lemma_or_zero(self.unit_magnitude_mask);
            before.lemma_bin_zero();
        }
        if let Some(max) = max_candidate {
            self.update_max(max);
            proof {
                let mi = max_i->0 as nat;
                let vv = before.value_spec(mi);
                before.lemma_value_in_range(mi);
                before.lemma_highest(vv);
                lemma_same_bin(before.u(), before.m(), vv, max as nat);
                before.lemma_max_form_bin(max);
                before.lemma_index_in_range(max_form(max, before.unit_magnitude_mask) as nat);
                before.lemma_index_in_range(max as nat);
                if !(max_form(max, before.unit_magnitude_mask) > before.unit_magnitude_mask) {
                    lemma_index_of_mono(before.u(), before.m(), max as nat, before.unit_magnitude_mask as nat);
                }
                assert forall|j: int|
                    0 <= j < self.counts.len() && (#[trigger] self.counts@[j]).val() != 0 implies j
                        <= self.index_spec(self.max_value as nat) by {
                    assert(view[j] != 0);
                    if j >= until {
                        assert(view[j] == 0);
                    }
                }
            }
        } else {
            proof {
                assert forall|j: int|
                    0 <= j < self.counts.len() && (#[trigger] self.counts@[j]).val() != 0 implies j
                        <= self.index_spec(self.max_value as nat) by {
                    assert(view[j] != 0);
                }
            }
        }
        if let Some(min) = min_candidate {
            self.update_min(min);
        }
        self.total_count = total_count;
    }

    /// The smallest value of bin `i + 1` as a `u64` shift gives it: its smallest value kept
    /// to its low 64 bits; where the shift would reach 64 (only for the bin after the last,
    /// with two sub-buckets per bucket over the whole `u64` range), the shift amount is taken
    /// modulo 64, as `<<` takes it in an optimized build, which gives the sub-bucket half
    /// count.
    pub open spec fn next_bin_start_spec(&self, i: nat) -> nat {
        if (i + 1) / self.half() + self.u() <= 64 {
            self.value_spec(i + 1) % two_pow_64()
        } else {
            self.half()
        }
    }

    /// The smallest value of the bin after bin `index`, as a `u64` shift gives it.
    pub fn next_bin_start(&self, index: usize) -> (r: u64)
        requires
            self.wf(),
            index < self.bins(),
        ensures
            r == self.next_bin_start_spec(index as nat),
    {
        proof {
            self.lemma_wf_bounds();
            lemma_pow2_values();
            lemma_usize_shr_is_div((index + 1) as usize, self.sub_bucket_half_count_magnitude as usize);
            lemma_usize_pow2_no_overflow(self.sub_bucket_half_count_magnitude as nat);
        }
        let q = (index + 1) >> (self.sub_bucket_half_count_magnitude as usize);
        if q + (self.unit_magnitude as usize) <= 64 {
            self.value_for(index + 1)
        } else {
            self.sub_bucket_half_count as u64
        }
    }

    pub proof fn lemma_value_in_range(&self, i: nat)
        requires
            self.wf(),
            i < self.bins(),
        ensures
            self.value_spec(i) < two_pow_64(),
            i / self.half() + self.u() <= 64,
            self.bucket_spec(self.value_spec(i)) < self.spec_buckets(),
            self.index_spec(self.value_spec(i)) == i,
    {
        self.lemma_wf_bounds();
        lemma_index_of_value_at(self.u(), self.m(), i);
        let bc = self.bucket_count as nat;
        let h = self.half();
        lemma_div_lt(i, bc + 1, h);
        let v = self.value_spec(i);
        lemma_bucket_of(self.u() + self.m(), v);
        lemma_pow2_values();
        lemma_pow2_le(self.u() + self.m() + self.bucket_spec(v), 64);
    }

    // ----------------------------------------------------------------------------------------
    // Data statistics
    // ----------------------------------------------------------------------------------------

    /// The bin `count_at` and `count_between` read for `v`: its own, or the last bin.
    pub open spec fn clamped_index(&self, v: nat) -> nat {
        if self.index_spec(v) < self.bins() {
            self.index_spec(v)
        } else {
            (self.bins() - 1) as nat
        }
    }

    /// Get the count of recorded values at a specific value (to within the histogram
    /// resolution at the value level). Values beyond the last bin read the last bin.
    pub fn count_at(&self, value: u64) -> (r: Result<T, ()>)
        requires
            self.wf(),
        ensures
            r is Ok,
            r->Ok_0.val() == self.counts_view()[self.clamped_index(value as nat) as int],
    {
        let i = self.index_for(value);
        let last = self.last();
        let j = if i < last {
            i
        } else {
            last
        };
        Ok(self.counts[j])
    }

    /// The count of bin `index`, if it exists.
    pub fn count_at_index(&self, index: usize) -> (r: Option<T>)
        ensures
            r is Some <==> index < self.bins(),
            r is Some ==> r->0.val() == self.counts_view()[index as int],
    {
        if index < self.counts.len() {
            Some(self.counts[index])
        } else {
            None
        }
    }

    /// Get the count of recorded values within a range of value levels (inclusive to within
    /// the histogram's resolution): the sum of the bins from that of `low` up to that of
    /// `high` (or the last bin). The sum must fit in the counter type.
    pub fn count_between(&self, low: u64, high: u64) -> (r: Result<T, ()>)
        requires
            self.wf(),
            self.index_spec(low as nat) <= self.clamped_index(high as nat) ==> seq_sum(
                self.counts_view().subrange(
                    self.index_spec(low as nat) as int,
                    self.clamped_index(high as nat) as int + 1,
                ),
            ) <= T::cap(),
        ensures
            r is Ok,
            r->Ok_0.val() == if self.index_spec(low as nat) <= self.clamped_index(high as nat) {
                seq_sum(
                    self.counts_view().subrange(
                        self.index_spec(low as nat) as int,
                        self.clamped_index(high as nat) as int + 1,
                    ),
                )
            } else {
                0
            },
    {
        let low_index = self.index_for(low);
        let hi = self.index_for(high);
        let last = self.last();
        let high_index = if hi < last {
            hi
        } else {
            last
        };
        let ghost view = self.counts_view();
        proof {
            self.lemma_wf_bounds();
        }
        let mut total = T::zero();
        if low_index <= high_index {
            let mut i = low_index;
            while i <= high_index
                invariant
                    low_index <= i <= high_index + 1,
                    high_index < view.len(),
                    view.len() <= 66 * 0x20000,
                    view == self.counts_view(),
                    total.val() == seq_sum(view.subrange(low_index as int, i as int)),
                    seq_sum(view.subrange(low_index as int, high_index + 1)) <= T::cap(),
                decreases high_index + 1 - i,
            {
                proof {
                    assert(view.subrange(low_index as int, i + 1).drop_last()
                        =~= view.subrange(low_index as int, i as int));
                    lemma_seq_sum_prefix_le(view.subrange(low_index as int, high_index + 1), (i + 1 - low_index) as nat);
                    assert(view.subrange(low_index as int, high_index + 1).subrange(0, i + 1 - low_index)
                        =~= view.subrange(low_index as int, i + 1));
                }
                total = total.add_sat(self.counts[i]);
                i = i + 1;
            }
        }
        Ok(total)
    }

    /// Get the lowest recorded value level in the histogram: 0 when nothing is recorded or
    /// the first bin has a count, `min_nz()` otherwise.
    pub fn min(&self) -> (r: u64)
        requires
            self.wf(),
        ensures
            r == if self.spec_total() == 0 || self.counts_view()[0] != 0 {
                0
            } else {
                self.min_nz_spec()
            },
    {
        proof {
            self.lemma_wf_bounds();
        }
        if self.total_count == 0 || !self.counts[0].is_zero() {
            0
        } else {
            self.min_nz()
        }
    }

    /// Get the highest recorded value level in the histogram (0 when none is tracked).
    pub fn max(&self) -> (r: u64)
        requires
            self.wf(),
        ensures
            r == self.max_spec(),
    {
        if self.max_value == 0 {
            0
        } else {
            self.highest_equivalent(self.max_value)
        }
    }

    /// Get the lowest recorded non-zero value level in the histogram (`u64::MAX` when none
    /// is tracked).
    pub fn min_nz(&self) -> (r: u64)
        requires
            self.wf(),
        ensures
            r == self.min_nz_spec(),
    {
        if self.min_non_zero_value == u64::MAX {
            u64::MAX
        } else {
            self.lowest_equivalent(self.min_non_zero_value)
        }
    }

    /// The value `max()` reports.
    pub open spec fn max_spec(&self) -> nat {
        if self.spec_max_value() == 0 {
            0
        } else {
            self.highest_spec(self.spec_max_value() as nat)
        }
    }

    /// The value `min_nz()` reports.
    pub open spec fn min_nz_spec(&self) -> nat {
        if self.spec_min_non_zero() == u64::MAX {
            u64::MAX as nat
        } else {
            self.lowest_spec(self.spec_min_non_zero() as nat)
        }
    }

    /// Record a value in the histogram while correcting for coordinated omission.
    ///
    /// See `record_n_correct` for further documentation.
    pub fn record_correct(&mut self, value: u64, interval: u64) -> (r: Result<(), ()>)
        requires
            old(self).wf(),
        ensures
            final(self).wf(),
            r is Ok <==> (old(self).index_spec(value as nat) < old(self).bins() || old(self).spec_auto()),
            r is Err ==> *final(self) == *old(self),
            r is Ok ==> final(self).is_corrected(&*old(self), value, 1, interval),
    {
        self.record_n_correct(value, T::one(), interval)
    }

    /// `self` is `old` after recording `c` samples of each corrected value of `value` at
    /// expected `interval`.
    pub open spec fn is_corrected(&self, old: &Self, value: u64, c: nat, interval: u64) -> bool {
        let n = corrected_count(value as nat, interval as nat);
        let fits = old.index_spec(value as nat) < old.bins();
        &&& self.same_config(old)
        &&& self.bins() >= old.bins()
        &&& fits ==> self.bins() == old.bins() && self.spec_high() == old.spec_high()
        &&& !fits ==> self.spec_buckets() == old.bucket_spec(value as nat) + 1
            && self.spec_high() == self.top_spec()
        &&& forall|j: int|
            0 <= j < self.bins() ==> #[trigger] self.counts_view()[j] == sat_add_count::<T>(
                old.count_or_zero(j as nat),
                c * corrected_hits(self.u(), self.m(), j as nat, value as nat, interval as nat, n),
            )
        &&& self.spec_total() == sat_add_u64(old.spec_total(), c * n)
        &&& self.spec_max_value() == corrected_max(
            old.spec_max_value(),
            old.spec_unit_mask(),
            value as nat,
            interval as nat,
            n,
        )
        &&& self.spec_min_non_zero() == corrected_min(
            old.spec_min_non_zero(),
            old.spec_unit_mask(),
            value as nat,
            interval as nat,
            n,
        )
    }

    /// Record multiple values in the histogram while correcting for coordinated omission.
    ///
    /// To compensate for the loss of sampled values when a recorded value is larger than the
    /// expected interval between value samples, this also records `count` samples of each of
    /// `value - interval`, `value - 2 * interval`, ..., down to the last one that is at least
    /// `interval`. An `interval` of 0 records `value` alone.
    ///
    /// Returns an error if `value` exceeds the highest trackable value and auto-resize is
    /// disabled.
    pub fn record_n_correct(&mut self, value: u64, count: T, interval: u64) -> (r: Result<(), ()>)
        requires
            old(self).wf(),
        ensures
            final(self).wf(),
            r is Ok <==> (old(self).index_spec(value as nat) < old(self).bins() || old(self).spec_auto()),
            r is Err ==> *final(self) == *old(self),
            r is Ok ==> final(self).is_corrected(&*old(self), value, count.val(), interval),
    {
        let ghost old_self = *self;
        let r = self.record_n(value, count);
        if r.is_err() {
            return r;
        }
        let ghost first = *self;
        proof {
            old_self.lemma_counts_capped();
            self.lemma_index_in_range(value as nat);
            if old_self.index_spec(value as nat) >= old_self.bins() {
                old_self.lemma_index_in_range(value as nat);
            }
            reveal_with_fuel(corrected_hits, 2);
            reveal_with_fuel(corrected_max, 2);
            reveal_with_fuel(corrected_min, 2);
            assert((value - 0 * interval) as nat == value as nat);
            assert(corrected_hits(self.u(), self.m(), old_self.index_spec(value as nat), value as nat, interval as nat, 1) == 1);
            assert forall|j: int| 0 <= j < self.bins() implies #[trigger] self.counts_view()[j]
                == sat_add_count::<T>(
                    old_self.count_or_zero(j as nat),
                    count.val() * corrected_hits(self.u(), self.m(), j as nat, value as nat, interval as nat, 1),
                ) by {
                assert(count.val() * 1 == count.val());
                assert(count.val() * 0 == 0);
                if j != old_self.index_spec(value as nat) {
                    assert(corrected_hits(self.u(), self.m(), j as nat, value as nat, interval as nat, 1) == 0);
                    if j < old_self.bins() {
                        assert(old_self.counts_view()[j] <= T::cap());
                    }
                }
            }
        }
        proof {
            assert(count.val() * 1 == count.val());
            if interval > 0 && value == interval {
                lemma_div_mod_parts(1, interval as int, 0);
            }
        }
        if interval == 0 {
            return Ok(());
        }
        if value > interval {
            let mut missing_value = value - interval;
            let ghost mut k: nat = 1;
            while missing_value >= interval
                invariant
                    self.wf(),
                    old_self.wf(),
                    self.same_config(&old_self),
                    self.bins() == first.bins(),
                    self.spec_high() == first.spec_high(),
                    self.spec_buckets() == first.spec_buckets(),
                    interval > 0,
                    value > interval,
                    k >= 1,
                    missing_value == value - k * interval,
                    k * interval <= value,
                    self.index_spec(value as nat) < self.bins(),
                    forall|j: int| 0 <= j < self.bins() ==> #[trigger] self.counts_view()[j]
                        == sat_add_count::<T>(
                            old_self.count_or_zero(j as nat),
                            count.val() * corrected_hits(self.u(), self.m(), j as nat, value as nat, interval as nat, k),
                        ),
                    self.spec_total() == sat_add_u64(old_self.spec_total(), count.val() * k),
                    self.spec_max_value() == corrected_max(old_self.spec_max_value(), old_self.spec_unit_mask(), value as nat, interval as nat, k),
                    self.spec_min_non_zero() == corrected_min(old_self.spec_min_non_zero(), old_self.spec_unit_mask(), value as nat, interval as nat, k),
                    old_self.spec_unit_mask() == self.spec_unit_mask(),
                    forall|j: int| 0 <= j < old_self.bins() ==> #[trigger] old_self.counts_view()[j] <= T::cap(),
                decreases missing_value,
            {
                let ghost before = *self;
                proof {
                    lemma_index_of_mono(self.u(), self.m(), missing_value as nat, value as nat);
                }
                let _ = self.record_n(missing_value, count);
                proof {
                    let kk = self.index_spec(missing_value as nat);
                    assert((value - k * interval) as nat == missing_value as nat);
                    assert forall|j: int| 0 <= j < self.bins() implies #[trigger] self.counts_view()[j]
                        == sat_add_count::<T>(
                            old_self.count_or_zero(j as nat),
                            count.val() * corrected_hits(self.u(), self.m(), j as nat, value as nat, interval as nat, k + 1),
                        ) by {
                        let h0 = corrected_hits(self.u(), self.m(), j as nat, value as nat, interval as nat, k);
                        let h1 = corrected_hits(self.u(), self.m(), j as nat, value as nat, interval as nat, k + 1);
                        assert(before.count_or_zero(j as nat) == before.counts_view()[j]);
                        if j == kk {
                            assert(h1 == h0 + 1);
                            assert(count.val() * h1 == count.val() * h0 + count.val()) by (nonlinear_arith)
                                requires
                                    h1 == h0 + 1,
                            ;
                        } else {
                            assert(h1 == h0);
                        }
                    }
                    assert(count.val() * (k + 1) == count.val() * k + count.val()) by (nonlinear_arith);
                }
                missing_value = missing_value - interval;
                proof {
                    k = k + 1;
                    assert(missing_value == value - k * interval) by (nonlinear_arith)
                        requires
                            missing_value == value - (k - 1) * interval - interval,
                    ;
                }
            }
            proof {
                lemma_div_lt(value as nat, k, interval as nat);
                lemma_div_lt(value as nat, k + 1, interval as nat);
                assert((k + 1) * interval == k * interval + interval) by (nonlinear_arith);
            }
        }
        Ok(())
    }

    // ----------------------------------------------------------------------------------------
    // Administrative read-outs
    // ----------------------------------------------------------------------------------------

    /// Whether the two histograms hold the same data: the same lowest discernible value and
    /// significant digits, the same total count, maximum and minimum non-zero value, and the
    /// same count in each bin of this histogram. The bins are compared only when everything
    /// before them agrees, and then this histogram must not have more bins than the other
    /// (the other's bins are read at each index of this one).
    pub fn equals(&self, other: &Histogram<T>) -> (r: bool)
        requires
            self.wf(),
            other.wf(),
            self.spec_low() == other.spec_low() && self.spec_sigfig() == other.spec_sigfig()
                && self.spec_total() == other.spec_total() && self.max_spec() == other.max_spec()
                && self.min_nz_spec() == other.min_nz_spec() ==> self.bins() <= other.bins(),
        ensures
            r == (self.spec_low() == other.spec_low() && self.spec_sigfig() == other.spec_sigfig()
                && self.spec_total() == other.spec_total() && self.max_spec() == other.max_spec()
                && self.min_nz_spec() == other.min_nz_spec() && self.counts_view()
                == other.counts_view().subrange(0, self.bins() as int)),
    {
        if self.lowest_discernible_value != other.lowest_discernible_value
            || self.significant_value_digits != other.significant_value_digits {
            return false;
        }
        if self.total_count != other.total_count {
            return false;
        }
        if self.max() != other.max() {
            return false;
        }
        if self.min_nz() != other.min_nz() {
            return false;
        }
        let n = self.counts.len();
        let mut i: usize = 0;
        while i < n
            invariant
                n == self.bins(),
                n <= other.bins(),
                i <= n,
                forall|j: int| 0 <= j < i ==> self.counts_view()[j] == other.counts_view()[j],
            decreases n - i,
        {
            let a = self.counts[i].to_u64();
            let b = other.counts[i].to_u64();
            if a != b {
                proof {
                    assert(self.counts_view().subrange(0, n as int)[i as int] != other.counts_view().subrange(0, n as int)[i as int]);
                    assert(self.counts_view().subrange(0, n as int) =~= self.counts_view());
                }
                return false;
            }
            i = i + 1;
        }
        proof {
            assert(self.counts_view() =~= other.counts_view().subrange(0, n as int));
        }
        true
    }

    /// Get the current number of distinct counted values (bins) in the histogram.
    pub fn len(&self) -> (r: usize)
        ensures
            r == self.bins(),
    {
        self.counts.len()
    }

    /// Get the lowest discernible value for the histogram in its current configuration.
    pub fn low(&self) -> (r: u64)
        ensures
            r == self.spec_low(),
    {
        self.lowest_discernible_value
    }

    /// Get the highest trackable value for the histogram in its current configuration.
    pub fn high(&self) -> (r: u64)
        ensures
            r == self.spec_high(),
    {
        self.highest_trackable_value
    }

    /// Get the number of significant value digits kept by this histogram.
    pub fn sigfig(&self) -> (r: u8)
        ensures
            r == self.spec_sigfig(),
    {
        self.significant_value_digits
    }

    /// Get the total number of samples recorded (capped at `u64::MAX`).
    pub fn count(&self) -> (r: u64)
        ensures
            r == self.spec_total(),
    {
        self.total_count
    }

    /// Get the index of the last histogram bin.
    pub fn last(&self) -> (r: usize)
        requires
            self.wf(),
        ensures
            r == self.bins() - 1,
    {
        proof {
            self.lemma_wf_bounds();
        }
        self.counts.len() - 1
    }

    /// Get the number of buckets used by the histogram to cover the highest trackable value.
    pub fn buckets(&self) -> (r: u8)
        ensures
            r == self.spec_buckets(),
    {
        self.bucket_count
    }

    /// The number of sub-buckets of each bucket (`2^m`).
    pub fn sub_bucket_count(&self) -> (r: u32)
        requires
            self.wf(),
        ensures
            r == pow2(self.m()),
    {
        self.sub_bucket_count
    }

    /// Half the number of sub-buckets of each bucket (`2^(m-1)`).
    pub fn sub_bucket_half_count(&self) -> (r: u32)
        requires
            self.wf(),
        ensures
            r == self.half(),
    {
        self.sub_bucket_half_count
    }

    /// Magnitude of the sub-bucket half count (`m - 1`).
    pub fn sub_bucket_half_count_magnitude(&self) -> (r: u8)
        ensures
            r == self.m() - 1,
    {
        self.sub_bucket_half_count_magnitude
    }

    /// The unit magnitude: log2 of the value step of the first bucket.
    pub fn unit_magnitude(&self) -> (r: u8)
        ensures
            r == self.u(),
    {
        self.unit_magnitude
    }

    /// Mask of the bits below the unit (`2^u - 1`).
    pub fn unit_magnitude_mask(&self) -> (r: u64)
        requires
            self.wf(),
        ensures
            r == pow2(self.u()) - 1,
    {
        self.unit_magnitude_mask
    }

    /// Mask of the bits of a first-bucket value above the unit (`2^(u+m) - 2^u`).
    pub fn sub_bucket_mask(&self) -> (r: u64)
        requires
            self.wf(),
        ensures
            r == pow2(self.u() + self.m()) - pow2(self.u()),
    {
        self.sub_bucket_mask
    }

    /// `64 - u - m`: the leading zeros of the largest value of the first bucket.
    pub fn leading_zero_count_base(&self) -> (r: u8)
        requires
            self.wf(),
        ensures
            r == 64 - self.u() - self.m(),
    {
        self.leading_zero_count_base
    }

    /// Whether the histogram grows when a value beyond its range is recorded.
    pub fn is_auto_resize(&self) -> (r: bool)
        ensures
            r == self.spec_auto(),
    {
        self.auto_resize
    }

    // ----------------------------------------------------------------------------------------
    // The value/bin mapping
    // ----------------------------------------------------------------------------------------

    /// Compute the lowest (and therefore highest precision) bucket index whose sub-buckets can
    /// represent the value.
    pub fn bucket_for(&self, value: u64) -> (r: u8)
        requires
            self.wf(),
        ensures
            r == self.bucket_spec(value as nat),
            r as nat + self.u() + self.m() <= 64,
    {
        proof {
            let k = self.u() + self.m();
            lemma_pow2_adds(self.u(), self.m());
            lemma_pow2_unfold(k);
            lemma_pow2_pos(self.u());
            lemma_pow2_le(self.u(), (k - 1) as nat);
            lemma_or_mask_bit_len(value, self.sub_bucket_mask, k);
            lemma_leading_zeros(value | self.sub_bucket_mask);
            lemma_leading_zeros(value);
        }
        self.leading_zero_count_base - (value | self.sub_bucket_mask).leading_zeros() as u8
    }

    /// Compute the position inside a bucket at which the given value should be recorded,
    /// indexed from position 0 in the bucket.
    pub fn sub_bucket_for(&self, value: u64, bucket_index: u8) -> (r: u32)
        requires
            self.wf(),
            bucket_index == self.bucket_spec(value as nat),
        ensures
            r == sub_bucket_of(self.u(), self.m(), value as nat),
            r < pow2(self.m()),
            bucket_index > 0 ==> r >= self.half(),
    {
        proof {
            lemma_bucket_of_u64(self.u() + self.m(), value);
            lemma_u64_shr_is_div(value, (bucket_index + self.unit_magnitude) as u64);
            lemma_sub_bucket_range(self.u(), self.m(), value as nat);
            lemma_pow2_le(self.m(), 18);
            lemma2_to64();
        }
        (value >> (bucket_index + self.unit_magnitude)) as u32
    }

    /// The value at position `sub_bucket_index` of bucket `bucket_index`.
    fn value_from_loc(&self, bucket_index: u8, sub_bucket_index: u32) -> (r: u64)
        requires
            self.wf(),
            bucket_index as nat + self.u() < 64,
        ensures
            r as nat == (sub_bucket_index as nat * pow2(bucket_index as nat + self.u()))
                % two_pow_64(),
    {
        proof {
            lemma_shl_truncates(sub_bucket_index as u64, (bucket_index + self.unit_magnitude) as u64);
        }
        (sub_bucket_index as u64) << (bucket_index + self.unit_magnitude)
    }

    /// Computes the matching histogram value for the given histogram bin: the smallest value
    /// of the bin, kept to its low 64 bits.
    pub fn value_for(&self, index: usize) -> (r: u64)
        requires
            self.wf(),
            index as nat / self.half() + self.u() <= 64,
        ensures
            r as nat == self.value_spec(index as nat) % two_pow_64(),
    {
        let hm = self.sub_bucket_half_count_magnitude;
        let half = self.sub_bucket_half_count as usize;
        proof {
            self.lemma_wf_bounds();
            lemma_pow2_values();
            lemma_usize_shr_is_div(index, hm as usize);
            lemma_usize_low_bits_mask_is_mod(index, hm as nat);
            lemma_usize_pow2_no_overflow(hm as nat);
            vstd::arithmetic::div_mod::lemma_mod_pos_bound(index as int, self.half() as int);
            vstd::arithmetic::div_mod::lemma_fundamental_div_mod(index as int, self.half() as int);
        }
        let q = index >> (hm as usize);
        let low_part = index & (half - 1);
        proof {
            assert(low_bits_mask(hm as nat) == (half - 1) as nat);
            assert(low_part as nat == index as nat % self.half());
            assert(q as nat == index as nat / self.half());
        }
        if q <= 1 {
            proof {
                if q == 0 {
                    lemma_div_lt(index as nat, 1, self.half());
                    lemma_small_mod_nat(index as nat, self.half());
                } else {
                    assert(index as nat / self.half() == 1);
                    let hh = self.half();
                    let qq = index as nat / hh;
                    assert(hh * qq == hh) by (nonlinear_arith)
                        requires
                            qq == 1,
                    ;
                    assert(index as nat == self.half() + low_part);
                }
            }
            let sub = if q == 0 {
                low_part
            } else {
                low_part + half
            };
            proof {
                assert(sub == index);
                lemma_div_lt(index as nat, 2, self.half());
            }
            self.value_from_loc(0, sub as u32)
        } else {
            proof {
                assert((q - 1) as nat + 1 == q);
            }
            self.value_from_loc((q - 1) as u8, (low_part + half) as u32)
        }
    }

    /// Get the size (in value units) of the range of values that are equivalent to the given
    /// value within the histogram's resolution.
    pub fn equivalent_range(&self, value: u64) -> (r: u64)
        requires
            self.wf(),
        ensures
            r == self.range_spec(value as nat),
    {
        let bucket_index = self.bucket_for(value);
        proof {
            lemma_one_shl((self.unit_magnitude + bucket_index) as u64);
        }
        1u64 << (self.unit_magnitude + bucket_index)
    }

    /// Get the lowest value that is equivalent to the given value within the histogram's
    /// resolution.
    pub fn lowest_equivalent(&self, value: u64) -> (r: u64)
        requires
            self.wf(),
        ensures
            r == self.lowest_spec(value as nat),
    {
        let bucket_index = self.bucket_for(value);
        let sub_bucket_index = self.sub_bucket_for(value, bucket_index);
        proof {
            lemma_lowest_of(self.u(), self.m(), value as nat);
            lemma_pow2_values();
            lemma_small_mod_nat(self.lowest_spec(value as nat), two_pow_64());
        }
        self.value_from_loc(bucket_index, sub_bucket_index)
    }

    /// Get the next value that is *not* equivalent to the given value within the histogram's
    /// resolution, capped at `u64::max_value()`.
    pub fn next_non_equivalent(&self, value: u64) -> (r: u64)
        requires
            self.wf(),
        ensures
            r == sat_add_u64(self.lowest_spec(value as nat), self.range_spec(value as nat)),
    {
        self.lowest_equivalent(value).saturating_add(self.equivalent_range(value))
    }

    /// Get the highest value that is equivalent to the given value within the histogram's
    /// resolution, capped at `u64::max_value()`.
    pub fn highest_equivalent(&self, value: u64) -> (r: u64)
        requires
            self.wf(),
        ensures
            r == self.highest_spec(value as nat),
    {
        if value == u64::MAX {
            u64::MAX
        } else {
            proof {
                lemma_lowest_of(self.u(), self.m(), value as nat);
            }
            self.next_non_equivalent(value) - 1
        }
    }

    /// Get a value that lies in the middle (rounded down) of the range of values equivalent to
    /// the given value.
    pub fn median_equivalent(&self, value: u64) -> (r: u64)
        requires
            self.wf(),
        ensures
            r == self.lowest_spec(value as nat) + self.range_spec(value as nat) / 2,
    {
        let low = self.lowest_equivalent(value);
        let range = self.equivalent_range(value);
        proof {
            lemma_lowest_of(self.u(), self.m(), value as nat);
            lemma_pow2_values();
            lemma_u64_shr_is_div(range, 1);
        }
        low + (range >> 1)
    }

    /// Determine if two values are equivalent with the histogram's resolution, i.e. counted in
    /// a common bin.
    pub fn equivalent(&self, value1: u64, value2: u64) -> (r: bool)
        requires
            self.wf(),
        ensures
            r == (self.lowest_spec(value1 as nat) == self.lowest_spec(value2 as nat)),
    {
        self.lowest_equivalent(value1) == self.lowest_equivalent(value2)
    }

    /// Find the bin the given value should be placed in.
    pub fn index_for(&self, value: u64) -> (r: usize)
        requires
            self.wf(),
        ensures
            r == self.index_spec(value as nat),
            r < 66 * 0x20000,
    {
        let bucket_index = self.bucket_for(value);
        let sub_bucket_index = self.sub_bucket_for(value, bucket_index);
        proof {
            self.lemma_wf_bounds();
            lemma_pow2_values();
            lemma_usize_pow2_no_overflow(self.sub_bucket_half_count_magnitude as nat);
            lemma_mul_inequality(
                (bucket_index + 1) as int,
                64,
                self.half() as int,
            );
            lemma_mul_inequality(64, 64, self.half() as int);
            lemma_usize_shl_is_mul(
                (bucket_index as usize + 1) as usize,
                self.sub_bucket_half_count_magnitude as usize,
            );
            assert((bucket_index + 1) * self.half() == bucket_index * self.half() + self.half())
                by (nonlinear_arith);
        }
        let bucket_base_index = (bucket_index as usize + 1) << (self.sub_bucket_half_count_magnitude as usize);
        bucket_base_index + sub_bucket_index as usize - self.sub_bucket_half_count as usize
    }
}


/// Indexing a histogram reads the count of a bin.
impl<T: Counter> core::ops::Index<usize> for Histogram<T> {
    type Output = T;

    fn index(&self, index: usize) -> (r: &T)
        ensures
            r.val() == self.counts_view()[index as int],
    {
        &self.counts[index]
    }
}

impl<T: Counter> vstd::std_specs::core::IndexSpecImpl<usize> for Histogram<T> {
    /// A bin can be read from a well-formed histogram that has it.
    open spec fn index_req(&self, index: &usize) -> bool {
        self.wf() && *index < self.bins()
    }
}

impl<T: Counter> Histogram<T> {
    // ----------------------------------------------------------------------------------------
    // Laws of the value/bin mapping
    // ----------------------------------------------------------------------------------------

    /// Equivalence: every value lies between the lowest and the highest value equivalent to
    /// it, every value in that range is equivalent to it, two values are equivalent exactly
    /// when they are counted in the same bin, and the smallest value of a value's bin is its
    /// lowest equivalent value.
    pub proof fn lemma_equivalence(&self, v: u64, w: u64)
        requires
            self.wf(),
        ensures
            self.lowest_spec(v as nat) <= v <= self.highest_spec(v as nat),
            self.lowest_spec(v as nat) <= w <= self.highest_spec(v as nat) ==> self.lowest_spec(w as nat)
                == self.lowest_spec(v as nat),
            (self.lowest_spec(v as nat) == self.lowest_spec(w as nat)) <==> (self.index_spec(v as nat)
                == self.index_spec(w as nat)),
            self.value_spec(self.index_spec(v as nat)) == self.lowest_spec(v as nat),
    {
        let u = self.u();
        let m = self.m();
        lemma_pow2_values();
        lemma_lowest_of(u, m, v as nat);
        lemma_lowest_of(u, m, w as nat);
        if self.lowest_spec(v as nat) <= w <= self.highest_spec(v as nat) {
            lemma_same_bin(u, m, v as nat, w as nat);
        }
        lemma_value_at_index_of(u, m, v as nat);
        lemma_value_at_index_of(u, m, w as nat);
        lemma_index_of_value_at(u, m, self.index_spec(v as nat));
        lemma_index_of_value_at(u, m, self.index_spec(w as nat));
    }

    /// Precision: the unit `2^unit_magnitude` is at most the lowest discernible value; a
    /// value of at least `10^sigfig` units shares its bin with at most a `1/10^sigfig`
    /// fraction of itself (its bin is at most `value / 10^sigfig` wide), and the values below
    /// `sub_bucket_count` units each have a bin one unit wide.
    pub proof fn lemma_precision(&self, v: u64)
        requires
            self.wf(),
        ensures
            pow2(self.u()) <= self.spec_low(),
            v >= pow2(self.u()) * pow10(self.spec_sigfig()) ==> self.range_spec(v as nat) * pow10(
                self.spec_sigfig(),
            ) <= v,
            v < pow2(self.m()) * pow2(self.u()) ==> self.range_spec(v as nat) == pow2(self.u()),
    {
        let u = self.u();
        let m = self.m();
        let p = pow10(self.spec_sigfig());
        let k = u + m;
        let b = self.bucket_spec(v as nat);
        let range = self.range_spec(v as nat);
        lemma_bit_len_bounds(self.spec_low());
        lemma_bit_len_bounds((2 * p - 1) as nat);
        lemma_pow10_pos(self.spec_sigfig());
        lemma_pow2_unfold(m);
        assert(p <= self.half());
        lemma_pow2_adds(m, u);
        lemma_bucket_of(k, v as nat);
        lemma_bit_len_le(v as nat, k);
        if v >= pow2(u) * p {
            if b == 0 {
                assert(range == pow2(u));
                lemma_mul_is_commutative(range as int, p as int);
            } else {
                lemma_pow2_adds((m - 1) as nat, u + b);
                assert((k + b - 1) as nat == (m - 1) as nat + (u + b));
                assert(range == pow2(u + b));
                lemma_mul_inequality(p as int, self.half() as int, range as int);
                lemma_mul_is_commutative(range as int, p as int);
                lemma_mul_is_commutative(range as int, self.half() as int);
            }
        }
    }
}


impl<T: Counter> Histogram<T> {
    // ----------------------------------------------------------------------------------------
    // Laws of recording, adding and subtracting
    // ----------------------------------------------------------------------------------------

    /// Reading back a record: once `c` samples of `v` are recorded in `self` from `old`, the
    /// count read for a value `w` of `old`'s range is `old`'s count plus `c` (capped at the
    /// counter type's maximum) when `w` is equivalent to `v`, and `old`'s count otherwise; the
    /// total grows by `c` (capped at `u64::MAX`).
    pub proof fn lemma_count_after_record(&self, old: &Self, v: u64, c: nat, w: u64)
        requires
            old.wf(),
            self.wf(),
            self.is_recorded(old, v, old.index_spec(v as nat), c),
            old.index_spec(w as nat) < old.bins(),
        ensures
            self.counts_view()[self.clamped_index(w as nat) as int] == if old.lowest_spec(v as nat)
                == old.lowest_spec(w as nat) {
                sat_add_count::<T>(old.counts_view()[old.clamped_index(w as nat) as int], c)
            } else {
                old.counts_view()[old.clamped_index(w as nat) as int]
            },
            self.spec_total() == sat_add_u64(old.spec_total(), c),
    {
        old.lemma_equivalence(v, w);
        assert(self.clamped_index(w as nat) == old.index_spec(w as nat));
        assert(old.clamped_index(w as nat) == old.index_spec(w as nat));
    }

    /// The subtraction run of `b`'s counts from `sum`, `a` with `b` added in one layout without
    /// reaching the counter type's maximum, gives back `a`'s count in each of its first `n`
    /// bins and does not fail.
    proof fn lemma_sub_run_inverse(a: &Self, b: &Self, sum: &Self, n: nat)
        requires
            a.wf(),
            b.wf(),
            sum.wf(),
            sum.is_sum(a, b),
            sum.same_layout(b),
            forall|j: int|
                0 <= j < sum.bins() ==> a.count_or_zero(j as nat) + #[trigger] b.counts_view()[j]
                    <= T::cap(),
            n <= sum.bins(),
        ensures
            !sub_run(
                (
                    Seq::new(sum.bins(), |j: int| sum.count_or_zero(j as nat)),
                    sum.spec_total(),
                    sum.spec_max_value(),
                    sum.spec_min_non_zero(),
                    false,
                ),
                sum.u(),
                sum.m(),
                sum.spec_unit_mask(),
                b.counts_view(),
                b.u(),
                b.m(),
                n,
            ).4,
            sub_run(
                (
                    Seq::new(sum.bins(), |j: int| sum.count_or_zero(j as nat)),
                    sum.spec_total(),
                    sum.spec_max_value(),
                    sum.spec_min_non_zero(),
                    false,
                ),
                sum.u(),
                sum.m(),
                sum.spec_unit_mask(),
                b.counts_view(),
                b.u(),
                b.m(),
                n,
            ).0 == Seq::new(
                sum.bins(),
                |j: int|
                    if j < n {
                        a.count_or_zero(j as nat)
                    } else {
                        sum.counts_view()[j]
                    },
            ),
        decreases n,
    {
        let start = (
            Seq::new(sum.bins(), |j: int| sum.count_or_zero(j as nat)),
            sum.spec_total(),
            sum.spec_max_value(),
            sum.spec_min_non_zero(),
            false,
        );
        if n == 0 {
            assert(start.0 =~= Seq::new(
                sum.bins(),
                |j: int|
                    if j < n {
                        a.count_or_zero(j as nat)
                    } else {
                        sum.counts_view()[j]
                    },
            ));
        } else {
            let i = (n - 1) as nat;
            Self::lemma_sub_run_inverse(a, b, sum, i);
            b.lemma_layout();
            sum.lemma_layout();
            a.lemma_counts_capped();
            lemma_index_of_value_at(b.u(), b.m(), i);
            let prev = sub_run(
                start,
                sum.u(),
                sum.m(),
                sum.spec_unit_mask(),
                b.counts_view(),
                b.u(),
                b.m(),
                i,
            );
            let c = b.counts_view()[i as int];
            assert(index_of(sum.u(), sum.m(), value_at(b.u(), b.m(), i)) == i);
            assert(sum.counts_view()[i as int] == a.count_or_zero(i) + c);
            assert(sub_run(
                start,
                sum.u(),
                sum.m(),
                sum.spec_unit_mask(),
                b.counts_view(),
                b.u(),
                b.m(),
                n,
            ).0 =~= Seq::new(
                sum.bins(),
                |j: int|
                    if j < n {
                        a.count_or_zero(j as nat)
                    } else {
                        sum.counts_view()[j]
                    },
            ));
        }
    }

    /// Subtracting undoes adding: when `sum` is `a` with `b` added in `b`'s layout, and no
    /// count reached the counter type's maximum, subtracting `b` from `sum` does not fail and
    /// leaves the counts of `a` (zero past `a`'s last bin).
    pub proof fn lemma_subtract_undoes_add(a: &Self, b: &Self, sum: &Self)
        requires
            a.wf(),
            b.wf(),
            sum.wf(),
            sum.is_sum(a, b),
            sum.same_layout(b),
            forall|j: int|
                0 <= j < sum.bins() ==> a.count_or_zero(j as nat) + #[trigger] b.counts_view()[j]
                    <= T::cap(),
        ensures
            !sum.sub_result(sum, b).4,
            sum.sub_result(sum, b).0 == Seq::new(sum.bins(), |j: int| a.count_or_zero(j as nat)),
    {
        b.lemma_layout();
        sum.lemma_layout();
        Self::lemma_sub_run_inverse(a, b, sum, sum.bins());
        assert(sum.sub_result(sum, b).0 =~= Seq::new(sum.bins(), |j: int| a.count_or_zero(j as nat)));
    }
}


impl<T: Counter> Histogram<T> {
    /// Setting to a source: a histogram reset and then given the contents of `src` in `src`'s
    /// layout, as `set_to` does, holds exactly `src`'s counts, and their sum (capped at
    /// `u64::MAX`) as its total; so the total is `src`'s when that one is its counts' sum.
    pub proof fn lemma_set_to_copies(fin: &Self, mid: &Self, old: &Self, src: &Self)
        requires
            old.wf(),
            src.wf(),
            fin.wf(),
            mid.is_reset_of(old),
            fin.is_sum(mid, src),
            fin.same_layout(src),
        ensures
            fin.counts_view() == src.counts_view(),
            fin.spec_total() == cap_u64(seq_sum(src.counts_view())),
            src.spec_total() == seq_sum(src.counts_view()) ==> fin.spec_total() == src.spec_total(),
    {
        fin.lemma_layout();
        src.lemma_layout();
        src.lemma_counts_capped();
        assert(fin.counts_view() =~= src.counts_view());
    }

    /// Adding commutes: in one layout, `a` with `b` added and `b` with `a` added hold the same
    /// counts, and the same total when each total is its counts' sum.
    pub proof fn lemma_add_commutes(a: &Self, b: &Self, ab: &Self, ba: &Self)
        requires
            a.wf(),
            b.wf(),
            ab.wf(),
            ba.wf(),
            a.same_layout(b),
            ab.is_sum(a, b),
            ba.is_sum(b, a),
            ab.same_layout(b),
            ba.same_layout(a),
        ensures
            ab.counts_view() == ba.counts_view(),
            a.spec_total() == seq_sum(a.counts_view()) && b.spec_total() == seq_sum(b.counts_view())
                ==> ab.spec_total() == ba.spec_total(),
    {
        a.lemma_layout();
        b.lemma_layout();
        ab.lemma_layout();
        ba.lemma_layout();
        assert(ab.counts_view() =~= ba.counts_view());
    }
}


/// A value whose bits below `2^l` are clear stays above any smaller value with those bits set.
proof fn lemma_or_low_bits_below(x: u64, y: u64, l: u64)
    by (bit_vector)
    requires
        l < 64,
        x < y,
        y & (((1u64 << l) - 1) as u64) == 0,
    ensures
        (x | (((1u64 << l) - 1) as u64)) < y,
{
}

/// Clearing bits that are already clear changes nothing.
proof fn lemma_and_not_clear(x: u64, mask: u64)
    by (bit_vector)
    requires
        x & mask == 0,
    ensures
        x & !mask == x,
{
}

/// A multiple of `2^l` has its bits below `2^l` clear.
proof fn lemma_multiple_low_bits(x: u64, l: nat)
    requires
        l < 64,
        (x as nat) % pow2(l) == 0,
    ensures
        x & ((pow2(l) - 1) as u64) == 0,
{
    lemma_u64_pow2_no_overflow(l);
    lemma_u64_low_bits_mask_is_mod(x, l);
}

impl<T: Counter> Histogram<T> {
    /// The smallest value of a bin, and the end of the bin, are whole multiples of the unit.
    proof fn lemma_bin_bounds_unit(&self, v: nat)
        requires
            self.wf(),
        ensures
            self.lowest_spec(v) % pow2(self.u()) == 0,
            (self.lowest_spec(v) + self.range_spec(v)) % pow2(self.u()) == 0,
    {
        let u = self.u();
        let b = self.bucket_spec(v);
        let s = shift_of(u, self.m(), v);
        let sub = sub_bucket_of(u, self.m(), v);
        lemma_pow2_adds(b, u);
        lemma_pow2_pos(u);
        assert(s == b + u);
        lemma_mul_is_associative(sub as int, pow2(b) as int, pow2(u) as int);
        lemma_mod_multiples_basic((sub * pow2(b)) as int, pow2(u) as int);
        assert((sub + 1) * pow2(s) == sub * pow2(s) + pow2(s)) by (nonlinear_arith);
        lemma_mul_is_associative((sub + 1) as int, pow2(b) as int, pow2(u) as int);
        lemma_mod_multiples_basic(((sub + 1) * pow2(b)) as int, pow2(u) as int);
    }

    /// The highest value equivalent to a value is its own highest equivalent value.
    proof fn lemma_highest_idempotent(&self, v: nat)
        requires
            self.wf(),
            v <= u64::MAX,
        ensures
            self.highest_spec(self.highest_spec(v)) == self.highest_spec(v),
    {
        let hv = self.highest_spec(v);
        self.lemma_highest(v);
        self.lemma_wf_bounds();
        if v != u64::MAX && hv != u64::MAX {
            lemma_same_bin(self.u(), self.m(), v, hv);
        }
    }

    /// The lowest value equivalent to a value is its own lowest equivalent value.
    proof fn lemma_lowest_idempotent(&self, v: nat)
        requires
            self.wf(),
            v <= u64::MAX,
        ensures
            self.lowest_spec(self.lowest_spec(v)) == self.lowest_spec(v),
    {
        self.lemma_wf_bounds();
        lemma_lowest_of(self.u(), self.m(), v);
        lemma_same_bin(self.u(), self.m(), v, self.lowest_spec(v));
    }

    /// Adding keeps the extremes: in one layout, `a` with `b` added reports the larger of the
    /// two maximums as its maximum and the smaller of the two non-zero minimums as its
    /// non-zero minimum. Left out are the inputs on which adding cannot record `b`'s extreme
    /// as it is: a larger maximum of `b` that becomes `u64::MAX` with the bits below the unit
    /// set (the last bin ends at `2^64`), and a smaller non-zero minimum of `b` within the
    /// first unit.
    pub proof fn lemma_add_extremes(a: &Self, b: &Self, ab: &Self)
        requires
            a.wf(),
            b.wf(),
            ab.wf(),
            ab.is_sum(a, b),
            ab.same_layout(b),
            b.max_spec() > a.max_spec() && (b.max_spec() as u64 | b.spec_unit_mask()) == u64::MAX
                ==> b.max_spec() == u64::MAX,
            b.min_nz_spec() < a.min_nz_spec() ==> b.min_nz_spec() > b.spec_unit_mask(),
        ensures
            ab.max_spec() == if b.max_spec() > a.max_spec() {
                b.max_spec()
            } else {
                a.max_spec()
            },
            ab.min_nz_spec() == if b.min_nz_spec() < a.min_nz_spec() {
                b.min_nz_spec()
            } else {
                a.min_nz_spec()
            },
    {
        a.lemma_layout();
        b.lemma_layout();
        ab.lemma_layout();
        a.lemma_wf_bounds();
        b.lemma_wf_bounds();
        let u = a.u();
        let mask = a.spec_unit_mask();
        assert(mask == b.spec_unit_mask());
        let am = a.spec_max_value();
        let bm = b.spec_max_value();
        let big_a = a.max_spec();
        let big_b = b.max_spec();
        if am != 0 {
            a.lemma_highest(am as nat);
        }
        if big_b > big_a {
            assert(bm != 0);
            b.lemma_highest(bm as nat);
            let w = (big_b as u64) | mask;
            lemma_or_above(big_b as u64, mask);
            assert(ab.spec_max_value() == w);
            if w == u64::MAX {
                assert(ab.max_spec() == big_b);
            } else {
                b.lemma_highest_idempotent(bm as nat);
                b.lemma_highest(big_b);
                lemma_lowest_of(u, b.m(), big_b);
                let y = b.lowest_spec(big_b) + b.range_spec(big_b);
                if y < two_pow_64() {
                    b.lemma_bin_bounds_unit(big_b);
                    lemma_one_shl(u as u64);
                    lemma_multiple_low_bits(y as u64, u);
                    lemma_or_low_bits_below(big_b as u64, y as u64, u as u64);
                }
                lemma_same_bin(u, b.m(), big_b, w as nat);
                assert(ab.highest_spec(w as nat) == b.highest_spec(big_b));
            }
        } else {
            assert(ab.spec_max_value() == am);
        }
        let an = a.spec_min_non_zero();
        let bn = b.spec_min_non_zero();
        let small_b = b.min_nz_spec();
        if an != u64::MAX {
            lemma_lowest_of(u, a.m(), an as nat);
        }
        if small_b < a.min_nz_spec() {
            lemma_lowest_of(u, b.m(), bn as nat);
            b.lemma_bin_bounds_unit(bn as nat);
            lemma_multiple_low_bits(small_b as u64, u);
            lemma_and_not_clear(small_b as u64, mask);
            assert(ab.spec_min_non_zero() == small_b);
            b.lemma_lowest_idempotent(bn as nat);
        } else {
            assert(ab.spec_min_non_zero() == an);
        }
    }
}

impl<T: Counter> Histogram<T> {
    /// Every value but 0 has a highest equivalent value at or above the unit mask.
    proof fn lemma_highest_above_mask(&self, v: nat)
        requires
            self.wf(),
            1 <= v <= u64::MAX,
        ensures
            self.highest_spec(v) >= self.spec_unit_mask(),
            self.highest_spec(self.spec_unit_mask() as nat) == self.spec_unit_mask(),
    {
        self.lemma_layout();
        self.lemma_wf_bounds();
        self.lemma_highest(v);
        lemma_lowest_of(self.u(), self.m(), v);
        lemma_pow2_le(self.u(), shift_of(self.u(), self.m(), v));
        let mask = self.spec_unit_mask() as nat;
        self.lemma_bin_zero();
        lemma_value_at_index_of(self.u(), self.m(), mask);
        lemma_lowest_of(self.u(), self.m(), mask);
        lemma_bucket_of(self.u() + self.m(), mask);
        lemma_pow2_le(self.u(), self.u() + self.m());
        lemma_bucket_of_unique(self.u() + self.m(), mask, 0);
        lemma_pow2_values();
    }

    /// Setting to a source keeps its extremes: a histogram reset and then given the contents
    /// of `src` in `src`'s layout, as `set_to` does, reports `src`'s non-zero minimum, and
    /// `src`'s maximum when that is above 0 or the unit is 1 (a reset histogram reports the
    /// unit mask as its maximum). Left out are the inputs on which adding cannot record
    /// `src`'s extremes as they are: a maximum that becomes `u64::MAX` with the bits below the
    /// unit set, and a non-zero minimum within the first unit.
    pub proof fn lemma_set_to_extremes(fin: &Self, mid: &Self, old: &Self, src: &Self)
        requires
            old.wf(),
            src.wf(),
            fin.wf(),
            mid.is_reset_of(old),
            fin.is_sum(mid, src),
            fin.same_layout(src),
            (src.max_spec() as u64 | src.spec_unit_mask()) == u64::MAX ==> src.max_spec() == u64::MAX,
            src.min_nz_spec() < u64::MAX ==> src.min_nz_spec() > src.spec_unit_mask(),
        ensures
            src.max_spec() > 0 || src.spec_unit_mask() == 0 ==> fin.max_spec() == src.max_spec(),
            fin.min_nz_spec() == src.min_nz_spec(),
    {
        mid.lemma_layout();
        src.lemma_layout();
        mid.lemma_highest_above_mask(1);
        if src.spec_max_value() != 0 {
            src.lemma_highest_above_mask(src.spec_max_value() as nat);
        }
        lemma_lowest_of(src.u(), src.m(), src.spec_min_non_zero() as nat);
        Self::lemma_add_extremes(mid, src, fin);
    }
}

/// Adding `x` and then `y` with a cap is adding `x + y` with the cap.
proof fn lemma_sat_count_twice<T: Counter>(a: nat, x: nat, y: nat)
    ensures
        sat_add_count::<T>(sat_add_count::<T>(a, x), y) == sat_add_count::<T>(a, x + y),
        sat_add_u64(sat_add_u64(a, x), y) == sat_add_u64(a, x + y),
{
}

impl<T: Counter> Histogram<T> {
    /// `states` records, from its first state on, `c` samples of each of the first `n`
    /// corrected values `value`, `value - interval`, `value - 2 * interval`, ... in turn, one
    /// state after the other, as `record_n` does.
    pub open spec fn records_in_turn(states: Seq<Self>, value: u64, c: nat, interval: u64, n: nat) -> bool {
        &&& states.len() == n + 1
        &&& forall|k: int|
            0 <= k < n ==> #[trigger] states[k + 1].is_recorded(
                &states[k],
                (value - k * interval) as u64,
                states[k].index_spec((value - k * interval) as u64 as nat),
                c,
            )
    }

    /// Past the bins of state `k`, none of the first `k` corrected values is counted; every
    /// state so far has `old`'s configuration, at least its bins, and holds `old`'s counts,
    /// total, maximum and minimum with those `k` values recorded.
    proof fn lemma_records_in_turn_prefix(states: Seq<Self>, old: &Self, value: u64, c: nat, interval: u64, n: nat, k: nat)
        requires
            old.wf(),
            states[0] == *old,
            Self::records_in_turn(states, value, c, interval, n),
            n == corrected_count(value as nat, interval as nat),
            k <= n,
        ensures
            states[k as int].same_config(old),
            states[k as int].bins() >= old.bins(),
            forall|j: nat|
                j >= states[k as int].bins() ==> corrected_hits(old.u(), old.m(), j, value as nat, interval as nat, k)
                    == 0,
            forall|j: nat|
                #[trigger] states[k as int].count_or_zero(j) == sat_add_count::<T>(
                    old.count_or_zero(j),
                    c * corrected_hits(old.u(), old.m(), j, value as nat, interval as nat, k),
                ),
            states[k as int].spec_total() == sat_add_u64(old.spec_total(), c * k),
            states[k as int].spec_max_value() == corrected_max(
                old.spec_max_value(),
                old.spec_unit_mask(),
                value as nat,
                interval as nat,
                k,
            ),
            states[k as int].spec_min_non_zero() == corrected_min(
                old.spec_min_non_zero(),
                old.spec_unit_mask(),
                value as nat,
                interval as nat,
                k,
            ),
        decreases k,
    {
        if k == 0 {
            assert forall|j: nat| #[trigger] states[0].count_or_zero(j) == sat_add_count::<T>(
                old.count_or_zero(j),
                c * corrected_hits(old.u(), old.m(), j, value as nat, interval as nat, 0),
            ) by {
                old.lemma_counts_capped();
                assert(c * 0 == 0);
                if j < old.bins() {
                    assert(old.counts_view()[j as int] <= T::cap());
                }
            }
        } else {
            let p = (k - 1) as nat;
            Self::lemma_records_in_turn_prefix(states, old, value, c, interval, n, p);
            let prev = states[p as int];
            let cur = states[k as int];
            let v = (value - p * interval) as u64;
            let i = prev.index_spec(v as nat);
            let pi = p as int;
            assert(states[pi + 1].is_recorded(
                &states[pi],
                (value - pi * interval) as u64,
                states[pi].index_spec((value - pi * interval) as u64 as nat),
                c,
            ));
            assert(p * interval <= value) by (nonlinear_arith)
                requires
                    p < n,
                    n == corrected_count(value as nat, interval as nat),
                    n == 1 || (interval > 0 && n == value / interval),
            ;
            assert((value - p * interval) as nat == v as nat);
            assert(cur.is_recorded(&prev, v, i, c));
            assert forall|j: nat| j >= cur.bins() implies corrected_hits(
                old.u(),
                old.m(),
                j,
                value as nat,
                interval as nat,
                k,
            ) == 0 by {
                assert(j >= prev.bins());
                assert(corrected_hits(old.u(), old.m(), j, value as nat, interval as nat, p) == 0);
                assert(index_of(old.u(), old.m(), (value - p * interval) as nat) == i);
                assert(i < cur.bins());
            }
            assert forall|j: nat| #[trigger] cur.count_or_zero(j) == sat_add_count::<T>(
                old.count_or_zero(j),
                c * corrected_hits(old.u(), old.m(), j, value as nat, interval as nat, k),
            ) by {
                let h = corrected_hits(old.u(), old.m(), j, value as nat, interval as nat, p);
                assert(prev.count_or_zero(j) == sat_add_count::<T>(old.count_or_zero(j), c * h));
                if j < cur.bins() {
                    if j == i {
                        lemma_sat_count_twice::<T>(old.count_or_zero(j), c * h, c);
                        assert(c * (h + 1) == c * h + c) by (nonlinear_arith);
                    }
                } else {
                    assert(j >= old.bins());
                }
            }
            lemma_sat_count_twice::<T>(old.spec_total(), c * p, c);
            assert(c * k == c * p + c) by (nonlinear_arith)
                requires
                    k == p + 1,
            ;
        }
    }

    /// Correcting is recording each corrected value in turn: when `fin` is `old` after
    /// `record_n_correct(value, c, interval)` succeeded, and `states` records `c` samples of
    /// `value`, `value - interval`, `value - 2 * interval`, ... (as many as are corrected for)
    /// one after the other from `old`, as `record_n` does, then `fin` and the last state hold
    /// the same count for every bin, the same total, maximum and minimum.
    pub proof fn lemma_correct_is_records_in_turn(
        fin: &Self,
        old: &Self,
        states: Seq<Self>,
        value: u64,
        c: nat,
        interval: u64,
    )
        requires
            old.wf(),
            fin.wf(),
            fin.is_corrected(old, value, c, interval),
            states[0] == *old,
            Self::records_in_turn(states, value, c, interval, corrected_count(value as nat, interval as nat)),
        ensures
            forall|j: nat| #[trigger] fin.count_or_zero(j) == states.last().count_or_zero(j),
            fin.spec_total() == states.last().spec_total(),
            fin.spec_max_value() == states.last().spec_max_value(),
            fin.spec_min_non_zero() == states.last().spec_min_non_zero(),
    {
        let n = corrected_count(value as nat, interval as nat);
        Self::lemma_records_in_turn_prefix(states, old, value, c, interval, n, n);
        let last = states.last();
        assert(last == states[n as int]);
        // every corrected value lies at or below `value`, whose bin `fin` has
        if old.index_spec(value as nat) >= old.bins() {
            fin.lemma_index_in_range(value as nat);
            fin.lemma_layout();
            old.lemma_layout();
        }
        assert(fin.index_spec(value as nat) < fin.bins());
        assert forall|j: nat| #[trigger] fin.count_or_zero(j) == last.count_or_zero(j) by {
            assert(last.count_or_zero(j) == sat_add_count::<T>(
                old.count_or_zero(j),
                c * corrected_hits(old.u(), old.m(), j, value as nat, interval as nat, n),
            ));
            if j >= fin.bins() {
                Self::lemma_hits_above(old, value, interval, j, n);
                assert(c * 0 == 0);
            }
        }
    }

    /// None of the first `k` corrected values of `value` lies in a bin past the bin of `value`.
    proof fn lemma_hits_above(h: &Self, value: u64, interval: u64, j: nat, k: nat)
        requires
            h.wf(),
            j > h.index_spec(value as nat),
            k <= corrected_count(value as nat, interval as nat),
        ensures
            corrected_hits(h.u(), h.m(), j, value as nat, interval as nat, k) == 0,
        decreases k,
    {
        if k > 0 {
            let p = (k - 1) as nat;
            Self::lemma_hits_above(h, value, interval, j, p);
            h.lemma_wf_bounds();
            assert(p * interval <= value) by (nonlinear_arith)
                requires
                    p < corrected_count(value as nat, interval as nat),
                    corrected_count(value as nat, interval as nat) == 1 || (interval > 0
                        && corrected_count(value as nat, interval as nat) == value / interval),
            ;
            lemma_index_of_mono(h.u(), h.m(), (value - p * interval) as nat, value as nat);
        }
    }
}

/// Counts that are zero from `n` on sum, over their first `n`, to their whole sum.
proof fn lemma_seq_sum_zero_tail(s: Seq<nat>, n: nat)
    requires
        n <= s.len(),
        forall|j: int| n <= j < s.len() ==> s[j] == 0,
    ensures
        seq_sum(s.subrange(0, n as int)) == seq_sum(s),
    decreases s.len() - n,
{
    if n < s.len() {
        lemma_seq_sum_zero_tail(s, n + 1);
        assert(s.subrange(0, n as int + 1).drop_last() =~= s.subrange(0, n as int));
    } else {
        assert(s.subrange(0, n as int) =~= s);
    }
}

/// The first non-zero count past index 0 is found in every prefix that holds it, and no
/// prefix holds one when the whole does not.
proof fn lemma_first_nonzero_prefix(s: Seq<nat>, n: nat, len: nat)
    requires
        n <= len <= s.len(),
        first_nonzero_past_zero(s, len) matches Some(i) ==> i < n,
    ensures
        first_nonzero_past_zero(s, n) == first_nonzero_past_zero(s, len),
    decreases len - n,
{
    if n < len {
        let p = (len - 1) as nat;
        if first_nonzero_past_zero(s, p) is None && len > 1 && s[p as int] != 0 {
            assert(first_nonzero_past_zero(s, len) == Some(p));
        }
        lemma_first_nonzero_prefix(s, n, p);
    }
}

/// What `first_nonzero_past_zero` finds lies past index 0 with a non-zero count.
proof fn lemma_first_nonzero_found(s: Seq<nat>, n: nat)
    requires
        n <= s.len(),
    ensures
        first_nonzero_past_zero(s, n) matches Some(i) ==> 1 <= i < n && s[i as int] != 0,
    decreases n,
{
    if n > 1 {
        lemma_first_nonzero_found(s, (n - 1) as nat);
    }
}

impl<T: Counter> Histogram<T> {
    /// The reported maximum lies in the bin of the tracked maximum.
    pub proof fn lemma_max_spec_bin(&self)
        requires
            self.wf(),
        ensures
            self.index_spec(self.max_spec()) == self.index_spec(self.spec_max_value() as nat),
    {
        let mv = self.spec_max_value() as nat;
        self.lemma_wf_bounds();
        if mv != 0 {
            self.lemma_highest(mv);
            lemma_lowest_of(self.u(), self.m(), mv);
            lemma_same_bin(self.u(), self.m(), mv, self.max_spec());
        }
    }

    /// Recomputing the statistics of a histogram from its counts keeps those that agree with
    /// the counts: `d`, with `h`'s settings and counts and the total, maximum and minimum
    /// recomputed from the first `until` bins (at least through the bin of `h`'s maximum),
    /// has `h`'s total when that is the capped sum of the counts; `h`'s maximum when the bin
    /// of the tracked maximum has a count, the maximum is tracked above 0 (or the unit is 1)
    /// and, in a bin that ends at `2^64`, the unit is above 1 exactly when the tracked
    /// maximum is `u64::MAX`; and `h`'s non-zero minimum when the tracked minimum lies in the
    /// first bin past bin 0 with a count (and none is tracked when there is no such bin).
    pub proof fn lemma_restat_keeps_stats(h: &Self, d: &Self, until: nat)
        requires
            h.wf(),
            d.wf(),
            d.u() == h.u(),
            d.m() == h.m(),
            d.spec_unit_mask() == h.spec_unit_mask(),
            d.counts_view() == h.counts_view(),
            h.index_spec(h.spec_max_value() as nat) < until <= h.bins(),
            d.spec_total() == cap_u64(seq_sum(h.counts_view().subrange(0, until as int))),
            d.spec_max_value() == match last_nonzero(h.counts_view(), until) {
                Some(i) => raised_max(
                    h.spec_unit_mask(),
                    h.highest_spec(h.value_spec(i)) as u64,
                    h.spec_unit_mask(),
                ),
                None => h.spec_unit_mask(),
            },
            d.spec_min_non_zero() == match first_nonzero_past_zero(h.counts_view(), until) {
                Some(i) => lowered_min(u64::MAX, h.value_spec(i) as u64, h.spec_unit_mask()),
                None => u64::MAX,
            },
        ensures
            h.spec_total() == cap_u64(seq_sum(h.counts_view())) ==> d.spec_total() == h.spec_total(),
            ({
                let mv = h.spec_max_value() as nat;
                &&& h.counts_view()[h.index_spec(mv) as int] != 0
                &&& (mv != 0 || h.spec_unit_mask() == 0)
                &&& (h.lowest_spec(mv) + h.range_spec(mv) == two_pow_64() ==> (h.spec_unit_mask() != 0
                    <==> mv == u64::MAX))
            }) ==> d.max_spec() == h.max_spec(),
            first_nonzero_past_zero(h.counts_view(), h.bins()) == (if h.spec_min_non_zero() == u64::MAX {
                None::<nat>
            } else {
                Some(h.index_spec(h.spec_min_non_zero() as nat))
            }) ==> d.min_nz_spec() == h.min_nz_spec(),
    {
        let c = h.counts_view();
        let u = h.u();
        let m = h.m();
        let mask = h.spec_unit_mask();
        let mv = h.spec_max_value() as nat;
        h.lemma_layout();
        h.lemma_wf_bounds();
        h.lemma_max_bin();
        // the total
        assert forall|j: int| until <= j < c.len() implies c[j] == 0 by {
            if c[j] != 0 {
                assert(h.counts@[j].val() != 0);
            }
        }
        lemma_seq_sum_zero_tail(c, until);
        // the maximum
        if c[h.index_spec(mv) as int] != 0 && (mv != 0 || mask == 0) && (h.lowest_spec(mv)
            + h.range_spec(mv) == two_pow_64() ==> (mask != 0 <==> mv == u64::MAX)) {
            let hi = h.index_spec(mv);
            lemma_last_nonzero(c, until);
            assert(last_nonzero(c, until) == Some(hi));
            h.lemma_value_in_range(hi);
            lemma_lowest_of(u, m, mv);
            lemma_value_at_index_of(u, m, mv);
            let lo = h.value_spec(hi);
            assert(lo == h.lowest_spec(mv));
            lemma_lowest_of(u, m, lo);
            lemma_same_bin(u, m, mv, lo);
            let big = h.highest_spec(lo);
            h.lemma_highest(lo);
            h.lemma_highest(mv);
            if mv != 0 {
                h.lemma_highest_above_mask(mv);
            } else {
                lemma_bucket_of_unique(u + m, 0, 0);
                lemma_pow2_le(u, u + m);
                lemma_pow2_pos(u);
            }
            lemma_pow2_values();
            if lo + h.range_spec(lo) < two_pow_64() {
                // `big` ends its bin, a whole multiple of the unit: its low bits are set
                h.lemma_bin_bounds_unit(lo);
                lemma_one_shl(u as u64);
                lemma_multiple_low_bits((lo + h.range_spec(lo)) as u64, u);
                lemma_or_low_bits_below(big as u64, (lo + h.range_spec(lo)) as u64, u as u64);
                lemma_or_above(big as u64, mask);
                assert((big as u64 | mask) == big);
                h.lemma_highest_idempotent(lo);
                assert(big == h.highest_spec(mv));
                assert(big >= mask);
                assert(d.spec_max_value() == big);
                if mv == 0 {
                    assert(u == 0);
                    assert(big == 0);
                }
                assert(d.max_spec() == h.max_spec());
            } else {
                assert(lo + h.range_spec(lo) == two_pow_64());
                if u > 0 {
                    lemma_pow2_le(1, shift_of(u, m, lo));
                    lemma2_to64();
                }
                assert(lo != u64::MAX);
                assert(big == u64::MAX - 1);
                lemma_same_bin(u, m, mv, (u64::MAX - 1) as nat);
                if mask == 0 {
                    assert((0xffff_ffff_ffff_fffe_u64 | 0u64) == 0xffff_ffff_ffff_fffe_u64) by (bit_vector);
                    assert(d.spec_max_value() == u64::MAX - 1);
                    assert(mv != u64::MAX);
                }
                if mask != 0 {
                    assert(u > 0);
                    lemma_pow2_unfold(u);
                    assert(mask % 2 == 1);
                    lemma_u64_low_bits_mask_is_mod(mask, 1);
                    lemma2_to64();
                    assert(low_bits_mask(1) == 1);
                    assert((0xffff_ffff_ffff_fffe_u64 | mask) == u64::MAX) by (bit_vector)
                        requires
                            mask & 1 == 1,
                    ;
                }
            }
        }
        // the non-zero minimum
        if first_nonzero_past_zero(c, h.bins()) == (if h.spec_min_non_zero() == u64::MAX {
            None::<nat>
        } else {
            Some(h.index_spec(h.spec_min_non_zero() as nat))
        }) {
            lemma_first_nonzero_found(c, h.bins());
            if h.spec_min_non_zero() != u64::MAX {
                let i = h.index_spec(h.spec_min_non_zero() as nat);
                assert(h.counts@[i as int].val() != 0);
                lemma_first_nonzero_prefix(c, until, h.bins());
                h.lemma_value_in_range(i);
                let lo = h.value_spec(i);
                lemma_value_at_index_of(u, m, h.spec_min_non_zero() as nat);
                lemma_value_at_mono(u, m, 1, i);
                lemma_index_of_value_at(u, m, 1);
                h.lemma_bin_bounds_unit(h.spec_min_non_zero() as nat);
                lemma_multiple_low_bits(lo as u64, u);
                lemma_and_not_clear(lo as u64, mask);
                h.lemma_lowest_idempotent(h.spec_min_non_zero() as nat);
            } else {
                lemma_first_nonzero_prefix(c, until, h.bins());
            }
        }
    }
}

/// Clearing the bits below the unit of a value above the unit mask leaves it above the mask.
proof fn lemma_min_form_above(v: u64, l: u64)
    by (bit_vector)
    requires
        l < 64,
        v > (((1u64 << l) - 1) as u64),
    ensures
        (v & !(((1u64 << l) - 1) as u64)) > (((1u64 << l) - 1) as u64),
{
}

/// Without a failure, and with enough total to start from, each count a subtraction run
/// subtracts comes off its total.
proof fn lemma_sub_run_total(
    start: SubState,
    u: nat,
    m: nat,
    mask: u64,
    src: Seq<nat>,
    su: nat,
    sm: nat,
    n: nat,
)
    requires
        n <= src.len(),
        !sub_run(start, u, m, mask, src, su, sm, n).4,
        start.1 >= seq_sum(src.subrange(0, n as int)),
    ensures
        sub_run(start, u, m, mask, src, su, sm, n).1 == start.1 - seq_sum(src.subrange(0, n as int)),
    decreases n,
{
    if n > 0 {
        let p = (n - 1) as nat;
        if sub_run(start, u, m, mask, src, su, sm, p).4 {
            lemma_sub_run_stops(start, u, m, mask, src, su, sm, p, n);
        }
        assert(src.subrange(0, n as int).drop_last() =~= src.subrange(0, p as int));
        lemma_sub_run_total(start, u, m, mask, src, su, sm, p);
    }
}

/// A subtraction run never lowers the tracked maximum nor raises the tracked minimum, and a
/// minimum above the unit mask (or none) stays so.
proof fn lemma_sub_run_extremes(
    start: SubState,
    u: nat,
    m: nat,
    mask: u64,
    src: Seq<nat>,
    su: nat,
    sm: nat,
    n: nat,
    l: u64,
)
    requires
        l < 64,
        mask == (((1u64 << l) - 1) as u64),
    ensures
        sub_run(start, u, m, mask, src, su, sm, n).2 >= start.2,
        sub_run(start, u, m, mask, src, su, sm, n).3 <= start.3,
        start.3 > mask || start.3 == u64::MAX ==> sub_run(start, u, m, mask, src, su, sm, n).3 > mask
            || sub_run(start, u, m, mask, src, su, sm, n).3 == u64::MAX,
    decreases n,
{
    if n > 0 {
        let p = (n - 1) as nat;
        lemma_sub_run_extremes(start, u, m, mask, src, su, sm, p, l);
        let v = value_at(su, sm, p) as u64;
        if v > mask {
            lemma_min_form_above(v, l);
        }
    }
}

/// Before the first non-zero count past index 0 all counts past index 0 are zero.
proof fn lemma_first_nonzero_least(s: Seq<nat>, n: nat)
    requires
        n <= s.len(),
    ensures
        first_nonzero_past_zero(s, n) matches Some(f) ==> forall|j: int| 1 <= j < f ==> s[j] == 0,
        first_nonzero_past_zero(s, n) is None ==> forall|j: int| 1 <= j < n ==> s[j] == 0,
    decreases n,
{
    if n > 1 {
        lemma_first_nonzero_least(s, (n - 1) as nat);
    }
}

impl<T: Counter> Histogram<T> {
    /// Subtracting from a sum what was added: the layout stays, the run does not fail and
    /// leaves the first addend's counts; without a recomputation the total is the first
    /// addend's, the maximum has not dropped below and the minimum has not risen above the
    /// first addend's, and a minimum above the unit mask stays so.
    proof fn lemma_difference_of_sum(a: &Self, b: &Self, sum: &Self, fin: &Self)
        requires
            a.wf(),
            b.wf(),
            sum.wf(),
            fin.wf(),
            a.same_layout(b),
            sum.is_sum(a, b),
            sum.same_layout(b),
            forall|j: int|
                0 <= j < sum.bins() ==> a.count_or_zero(j as nat) + #[trigger] b.counts_view()[j]
                    <= T::cap(),
            fin.is_difference(sum, b),
        ensures
            fin.bins() == a.bins(),
            fin.u() == a.u(),
            fin.m() == a.m(),
            fin.spec_unit_mask() == a.spec_unit_mask(),
            !fin.sub_result(sum, b).4,
            fin.counts_view() == a.counts_view(),
            !fin.needs_restat(sum, fin.sub_result(sum, b)) ==> {
                &&& fin.spec_total() == a.spec_total()
                &&& fin.spec_max_value() >= a.spec_max_value()
                &&& fin.spec_min_non_zero() <= a.spec_min_non_zero()
                &&& (a.spec_min_non_zero() > a.spec_unit_mask() || a.spec_min_non_zero() == u64::MAX)
                    ==> (fin.spec_min_non_zero() > a.spec_unit_mask() || fin.spec_min_non_zero()
                    == u64::MAX)
            },
    {
        let u = a.u();
        let m = a.m();
        let k = u + m;
        let mask = a.spec_unit_mask();
        a.lemma_layout();
        b.lemma_layout();
        sum.lemma_layout();
        fin.lemma_layout();
        b.lemma_max_bin();
        b.lemma_index_in_range(b.max_spec());
        sum.lemma_last_bin();
        if sum.top_spec() < b.max_spec() {
            lemma_bucket_of_mono(k, sum.top_spec(), b.max_spec());
        }
        assert(fin.bins() == sum.bins());
        assert(a.bins() == sum.bins());
        Self::lemma_subtract_undoes_add(a, b, sum);
        let run = fin.sub_result(sum, b);
        assert(run == sum.sub_result(sum, b));
        assert(Seq::new(sum.bins(), |j: int| a.count_or_zero(j as nat)) =~= a.counts_view());
        if !fin.needs_restat(sum, run) {
            let start = (
                Seq::new(fin.bins(), |j: int| sum.count_or_zero(j as nat)),
                sum.spec_total(),
                sum.spec_max_value(),
                sum.spec_min_non_zero(),
                false,
            );
            assert(b.counts_view().subrange(0, b.bins() as int) =~= b.counts_view());
            lemma_sub_run_total(start, u, m, mask, b.counts_view(), b.u(), b.m(), b.bins());
            lemma_one_shl(u as u64);
            lemma_sub_run_extremes(start, u, m, mask, b.counts_view(), b.u(), b.m(), b.bins(), u as u64);
            if b.spec_min_non_zero() != u64::MAX {
                lemma_lowest_of(u, m, b.spec_min_non_zero() as nat);
            }
            if b.min_nz_spec() > mask {
                let bn = b.min_nz_spec() as u64;
                assert(bn > mask);
                assert(mask == (((1u64 << (u as u64)) - 1) as u64));
                lemma_min_form_above(bn, u as u64);
            }
        }
    }

    /// Without a recomputation, a maximum in a bin with a count, at or above `a`'s maximum,
    /// in `a`'s counts, reports `a`'s maximum, under the conditions of the law.
    proof fn lemma_difference_max(a: &Self, fin: &Self)
        requires
            a.wf(),
            fin.wf(),
            fin.u() == a.u(),
            fin.m() == a.m(),
            fin.counts_view() == a.counts_view(),
            fin.spec_max_value() >= a.spec_max_value(),
            a.counts_view()[fin.clamped_index(fin.max_spec()) as int] != 0,
            a.counts_view()[a.index_spec(a.spec_max_value() as nat) as int] != 0,
            a.spec_max_value() != 0 || a.spec_unit_mask() == 0,
            a.lowest_spec(a.spec_max_value() as nat) + a.range_spec(a.spec_max_value() as nat)
                < two_pow_64(),
        ensures
            fin.max_spec() == a.max_spec(),
    {
        let u = a.u();
        let m = a.m();
        let mv = a.spec_max_value() as nat;
        let rm = fin.spec_max_value() as nat;
        a.lemma_layout();
        a.lemma_wf_bounds();
        a.lemma_max_bin();
        fin.lemma_max_bin();
        lemma_index_of_mono(u, m, mv, rm);
        assert(fin.clamped_index(fin.max_spec()) == a.index_spec(rm));
        assert(a.counts@[a.index_spec(rm) as int].val() != 0);
        assert(a.index_spec(rm) == a.index_spec(mv));
        a.lemma_equivalence(mv as u64, rm as u64);
        lemma_lowest_of(u, m, rm);
        lemma_lowest_of(u, m, mv);
        lemma_same_bin(u, m, rm, mv);
        if mv == 0 {
            lemma_bucket_of_unique(u + m, 0, 0);
            lemma_pow2_le(u, u + m);
            lemma_pow2_pos(u);
            assert(rm == 0);
        }
    }

    /// Without a recomputation, a minimum above the unit mask (or none), at or below `a`'s
    /// minimum, in a bin with a count of `a`'s counts, reports `a`'s minimum when that lies in
    /// `a`'s first bin past bin 0 with a count.
    proof fn lemma_difference_min(a: &Self, fin: &Self)
        requires
            a.wf(),
            fin.wf(),
            fin.u() == a.u(),
            fin.m() == a.m(),
            fin.spec_unit_mask() == a.spec_unit_mask(),
            fin.counts_view() == a.counts_view(),
            fin.spec_min_non_zero() <= a.spec_min_non_zero(),
            a.spec_min_non_zero() > a.spec_unit_mask() || a.spec_min_non_zero() == u64::MAX
                ==> fin.spec_min_non_zero() > a.spec_unit_mask() || fin.spec_min_non_zero() == u64::MAX,
            a.counts_view()[fin.clamped_index(fin.min_nz_spec()) as int] != 0,
            first_nonzero_past_zero(a.counts_view(), a.bins()) == (if a.spec_min_non_zero()
                == u64::MAX {
                None::<nat>
            } else {
                Some(a.index_spec(a.spec_min_non_zero() as nat))
            }),
        ensures
            fin.min_nz_spec() == a.min_nz_spec(),
    {
        let u = a.u();
        let m = a.m();
        let mask = a.spec_unit_mask();
        let c = a.counts_view();
        let mn = a.spec_min_non_zero();
        let rn = fin.spec_min_non_zero();
        a.lemma_layout();
        a.lemma_wf_bounds();
        lemma_first_nonzero_found(c, a.bins());
        lemma_first_nonzero_least(c, a.bins());
        a.lemma_bin_zero();
        lemma_index_of_value_at(u, m, 1);
        lemma_pow2_pos(u);
        assert(a.value_spec(1) == pow2(u));
        if mn != u64::MAX && mn <= mask {
            lemma_index_of_mono(u, m, mn as nat, mask as nat);
        }
        if rn != u64::MAX {
            assert(rn > mask);
            lemma_index_of_mono(u, m, pow2(u), rn as nat);
            lemma_value_at_index_of(u, m, rn as nat);
            lemma_lowest_of(u, m, rn as nat);
            let ri = a.index_spec(rn as nat);
            lemma_index_of_value_at(u, m, ri);
            assert(ri >= 1);
            if mn != u64::MAX {
                lemma_index_of_mono(u, m, rn as nat, mn as nat);
                assert(fin.clamped_index(fin.min_nz_spec()) == ri);
                assert(ri == a.index_spec(mn as nat));
                a.lemma_equivalence(rn, mn);
            } else {
                let ci = fin.clamped_index(fin.min_nz_spec());
                assert(ci >= 1);
                assert(c[ci as int] != 0);
            }
        }
    }

    /// Subtracting undoes adding, statistics included: when `sum` is `a` with `b` added, all
    /// in one layout and without reaching the counter type's maximum, and `fin` is `sum` with
    /// `b` subtracted, the subtraction does not fail and `fin` holds `a`'s counts; `a`'s total
    /// when that is the capped sum of its counts; `a`'s maximum when the bin of `a`'s tracked
    /// maximum has a count, ends below `2^64`, and the maximum is tracked above 0 (or the unit
    /// is 1); and `a`'s non-zero minimum when that lies in `a`'s first bin past bin 0 with a
    /// count (and none is tracked when there is no such bin).
    pub proof fn lemma_subtract_restores(a: &Self, b: &Self, sum: &Self, fin: &Self)
        requires
            a.wf(),
            b.wf(),
            sum.wf(),
            fin.wf(),
            a.same_layout(b),
            sum.is_sum(a, b),
            sum.same_layout(b),
            forall|j: int|
                0 <= j < sum.bins() ==> a.count_or_zero(j as nat) + #[trigger] b.counts_view()[j]
                    <= T::cap(),
            fin.is_difference(sum, b),
        ensures
            !fin.sub_result(sum, b).4,
            fin.counts_view() == a.counts_view(),
            a.spec_total() == cap_u64(seq_sum(a.counts_view())) ==> fin.spec_total() == a.spec_total(),
            ({
                let mv = a.spec_max_value() as nat;
                &&& a.counts_view()[a.index_spec(mv) as int] != 0
                &&& (mv != 0 || a.spec_unit_mask() == 0)
                &&& a.lowest_spec(mv) + a.range_spec(mv) < two_pow_64()
            }) ==> fin.max_spec() == a.max_spec(),
            first_nonzero_past_zero(a.counts_view(), a.bins()) == (if a.spec_min_non_zero() == u64::MAX {
                None::<nat>
            } else {
                Some(a.index_spec(a.spec_min_non_zero() as nat))
            }) ==> fin.min_nz_spec() == a.min_nz_spec(),
    {
        Self::lemma_difference_of_sum(a, b, sum, fin);
        let run = fin.sub_result(sum, b);
        let c = a.counts_view();
        let mv = a.spec_max_value() as nat;
        let mn = a.spec_min_non_zero();
        a.lemma_max_bin();
        if fin.needs_restat(sum, run) {
            assert(c.subrange(0, c.len() as int) =~= c);
            Self::lemma_restat_keeps_stats(a, fin, a.bins());
        } else {
            if c[a.index_spec(mv) as int] != 0 && (mv != 0 || a.spec_unit_mask() == 0) && a.lowest_spec(mv)
                + a.range_spec(mv) < two_pow_64() {
                Self::lemma_difference_max(a, fin);
            }
            if first_nonzero_past_zero(c, a.bins()) == (if mn == u64::MAX {
                None::<nat>
            } else {
                Some(a.index_spec(mn as nat))
            }) {
                Self::lemma_difference_min(a, fin);
            }
        }
    }
}

/// Clearing bits never raises a value.
proof fn lemma_and_below(x: u64, y: u64)
    by (bit_vector)
    ensures
        x & y <= x,
{
}

/// Recording the smallest value of each non-zero source bin in turn leaves a maximum at least
/// the start and at least every recorded value, and the start or the maximum form of one of
/// them.
proof fn lemma_max_over_bounds(start: u64, mask: u64, src: Seq<nat>, su: nat, sm: nat, n: nat)
    requires
        n <= src.len(),
    ensures
        max_over(start, mask, src, su, sm, n) >= start,
        forall|i: int|
            0 <= i < n && src[i] != 0 ==> max_over(start, mask, src, su, sm, n) >= value_at(
                su,
                sm,
                i as nat,
            ) as u64,
        max_over(start, mask, src, su, sm, n) == start || exists|i: int|
            0 <= i < n && src[i] != 0 && max_over(start, mask, src, su, sm, n) == max_form(
                value_at(su, sm, i as nat) as u64,
                mask,
            ),
    decreases n,
{
    if n > 0 {
        let p = (n - 1) as nat;
        lemma_max_over_bounds(start, mask, src, su, sm, p);
        let v = value_at(su, sm, p) as u64;
        lemma_or_above(v, mask);
        let prev = max_over(start, mask, src, su, sm, p);
        if src[p as int] != 0 && v > prev && max_form(v, mask) > prev {
            assert(max_over(start, mask, src, su, sm, n) == max_form(v, mask));
        } else if prev != start {
            let i = choose|i: int|
                0 <= i < p && src[i] != 0 && prev == max_form(value_at(su, sm, i as nat) as u64, mask);
            assert(0 <= i < n && src[i] != 0);
        }
    }
}

/// Recording the smallest value of each non-zero source bin in turn leaves a non-zero minimum
/// at most the start and at most every recorded value above the unit mask, and the start or
/// the minimum form of one of them.
proof fn lemma_min_over_bounds(start: u64, mask: u64, src: Seq<nat>, su: nat, sm: nat, n: nat)
    requires
        n <= src.len(),
    ensures
        min_over(start, mask, src, su, sm, n) <= start,
        forall|i: int|
            0 <= i < n && src[i] != 0 && value_at(su, sm, i as nat) as u64 > mask ==> min_over(
                start,
                mask,
                src,
                su,
                sm,
                n,
            ) <= value_at(su, sm, i as nat) as u64,
        min_over(start, mask, src, su, sm, n) == start || exists|i: int|
            0 <= i < n && src[i] != 0 && value_at(su, sm, i as nat) as u64 > mask && min_over(
                start,
                mask,
                src,
                su,
                sm,
                n,
            ) == min_form(value_at(su, sm, i as nat) as u64, mask),
    decreases n,
{
    if n > 0 {
        let p = (n - 1) as nat;
        lemma_min_over_bounds(start, mask, src, su, sm, p);
        let v = value_at(su, sm, p) as u64;
        lemma_and_below(v, !mask);
        let prev = min_over(start, mask, src, su, sm, p);
        if src[p as int] != 0 && v < prev && v != 0 && v > mask && min_form(v, mask) < prev {
            assert(min_over(start, mask, src, su, sm, n) == min_form(v, mask));
        } else if prev != start {
            let i = choose|i: int|
                0 <= i < p && src[i] != 0 && value_at(su, sm, i as nat) as u64 > mask && prev
                    == min_form(value_at(su, sm, i as nat) as u64, mask);
            assert(0 <= i < n && src[i] != 0);
        }
    }
}

impl<T: Counter> Histogram<T> {
    /// Adding records every sample of the source, whatever the two layouts: the sum's tracked
    /// maximum is not below `a`'s and its tracked non-zero minimum not above `a`'s; the sum's
    /// maximum is at least the smallest value of every bin of `b` with a count, and its
    /// non-zero minimum at most the smallest value of every bin of `b` with a count above the
    /// unit mask (in one layout, where `b`'s own minimum is taken, when that minimum lies in
    /// `b`'s first bin past bin 0 with a count). Across layouts, the sum's tracked maximum is
    /// `a`'s or the unit-equivalent maximum form of one of those values of `b`, and likewise
    /// its tracked non-zero minimum is `a`'s or the minimum form of one of them.
    pub proof fn lemma_add_records_source(a: &Self, b: &Self, ab: &Self)
        requires
            a.wf(),
            b.wf(),
            ab.wf(),
            ab.is_sum(a, b),
        ensures
            ab.spec_max_value() >= a.spec_max_value(),
            ab.spec_min_non_zero() <= a.spec_min_non_zero(),
            forall|i: int|
                0 <= i < b.bins() && b.counts_view()[i] != 0 ==> ab.max_spec() >= b.value_spec(
                    i as nat,
                ),
            (!ab.same_layout(b) || first_nonzero_past_zero(b.counts_view(), b.bins()) == (if b.spec_min_non_zero()
                == u64::MAX {
                None::<nat>
            } else {
                Some(b.index_spec(b.spec_min_non_zero() as nat))
            })) ==> forall|i: int|
                0 <= i < b.bins() && b.counts_view()[i] != 0 && b.value_spec(i as nat)
                    > ab.spec_unit_mask() ==> ab.min_nz_spec() <= b.value_spec(i as nat),
            !ab.same_layout(b) ==> (ab.spec_max_value() == a.spec_max_value() || exists|i: int|
                0 <= i < b.bins() && b.counts_view()[i] != 0 && ab.spec_max_value() == max_form(
                    b.value_spec(i as nat) as u64,
                    a.spec_unit_mask(),
                )),
            !ab.same_layout(b) ==> (ab.spec_min_non_zero() == a.spec_min_non_zero() || exists|i: int|
                0 <= i < b.bins() && b.counts_view()[i] != 0 && b.value_spec(i as nat) > a.spec_unit_mask()
                    && ab.spec_min_non_zero() == min_form(
                    b.value_spec(i as nat) as u64,
                    a.spec_unit_mask(),
                )),
    {
        let mask = a.spec_unit_mask();
        a.lemma_layout();
        b.lemma_layout();
        ab.lemma_layout();
        a.lemma_wf_bounds();
        b.lemma_wf_bounds();
        ab.lemma_wf_bounds();
        b.lemma_max_bin();
        let mv = ab.spec_max_value();
        let mn = ab.spec_min_non_zero();
        if mv != 0 {
            ab.lemma_highest(mv as nat);
        }
        if mn != u64::MAX {
            lemma_lowest_of(ab.u(), ab.m(), mn as nat);
        }
        assert forall|i: int| 0 <= i < b.bins() implies #[trigger] b.value_spec(i as nat) < two_pow_64() by {
            b.lemma_value_in_range(i as nat);
        }
        if ab.same_layout(b) {
            let big_a = a.max_spec();
            let big_b = b.max_spec();
            if a.spec_max_value() != 0 {
                a.lemma_highest(a.spec_max_value() as nat);
            }
            lemma_or_above(big_b as u64, mask);
            assert forall|i: int|
                0 <= i < b.bins() && b.counts_view()[i] != 0 implies ab.max_spec() >= b.value_spec(
                    i as nat,
                ) by {
                assert(b.counts@[i].val() != 0);
                lemma_value_at_mono(b.u(), b.m(), i as nat, b.index_spec(b.spec_max_value() as nat));
                lemma_value_at_index_of(b.u(), b.m(), b.spec_max_value() as nat);
                lemma_lowest_of(b.u(), b.m(), b.spec_max_value() as nat);
                if b.spec_max_value() != 0 {
                    b.lemma_highest(b.spec_max_value() as nat);
                }
                if big_b > big_a {
                    assert(mv >= big_b);
                } else {
                    assert(mv == a.spec_max_value());
                    if mv == 0 {
                        assert(big_a == 0);
                    }
                }
            }
            if first_nonzero_past_zero(b.counts_view(), b.bins()) == (if b.spec_min_non_zero() == u64::MAX {
                None::<nat>
            } else {
                Some(b.index_spec(b.spec_min_non_zero() as nat))
            }) {
                lemma_first_nonzero_found(b.counts_view(), b.bins());
                lemma_first_nonzero_least(b.counts_view(), b.bins());
                let an = a.spec_min_non_zero();
                if an != u64::MAX {
                    lemma_lowest_of(a.u(), a.m(), an as nat);
                }
                assert forall|i: int|
                    0 <= i < b.bins() && b.counts_view()[i] != 0 && b.value_spec(i as nat) > mask implies ab.min_nz_spec()
                        <= b.value_spec(i as nat) by {
                    if i == 0 {
                        assert(b.value_spec(0) == 0) by {
                            lemma_pow2_pos(b.u());
                            lemma_pow2_pos((b.m() - 1) as nat);
                            vstd::arithmetic::div_mod::lemma_basic_div(0, pow2((b.m() - 1) as nat) as int);
                        }
                    }
                    let f = b.index_spec(b.spec_min_non_zero() as nat);
                    assert(b.spec_min_non_zero() != u64::MAX);
                    lemma_value_at_mono(b.u(), b.m(), f, i as nat);
                    lemma_value_at_index_of(b.u(), b.m(), b.spec_min_non_zero() as nat);
                    lemma_lowest_of(b.u(), b.m(), b.spec_min_non_zero() as nat);
                    let small_b = b.min_nz_spec();
                    assert(small_b == b.value_spec(f));
                    b.lemma_value_in_range(f);
                    if f == 0 {
                        assert(false);
                    }
                    lemma_index_of_value_at(b.u(), b.m(), 1);
                    lemma_pow2_pos(b.u());
                    lemma_value_at_mono(b.u(), b.m(), 1, f);
                    assert(small_b > mask);
                    b.lemma_bin_bounds_unit(b.spec_min_non_zero() as nat);
                    lemma_multiple_low_bits(small_b as u64, b.u());
                    lemma_and_not_clear(small_b as u64, mask);
                    if small_b < a.min_nz_spec() {
                        assert(mn == small_b);
                    } else {
                        assert(mn == an);
                    }
                }
            }
        } else {
            lemma_max_over_bounds(a.spec_max_value(), mask, b.counts_view(), b.u(), b.m(), b.bins());
            lemma_min_over_bounds(a.spec_min_non_zero(), mask, b.counts_view(), b.u(), b.m(), b.bins());
            if mv == 0 {
                assert(forall|i: int|
                    0 <= i < b.bins() && b.counts_view()[i] != 0 ==> b.value_spec(i as nat) == 0);
            }
        }
    }
}

impl<T: Counter> Histogram<T> {
    /// Bins before the bin of `v` start below `v`'s lowest equivalent value; the bin of `v`
    /// and later ones start at or above it.
    pub proof fn lemma_bin_order(&self, i: nat, v: nat)
        requires
            self.wf(),
        ensures
            i < self.index_spec(v) ==> self.value_spec(i) < self.lowest_spec(v),
            i >= self.index_spec(v) ==> self.value_spec(i) >= self.lowest_spec(v),
    {
        let u = self.u();
        let m = self.m();
        self.lemma_wf_bounds();
        let iv = self.index_spec(v);
        lemma_value_at_index_of(u, m, v);
        if i < iv {
            lemma_value_at_mono(u, m, i, iv);
            lemma_index_of_value_at(u, m, i);
            lemma_index_of_value_at(u, m, iv);
        } else {
            lemma_value_at_mono(u, m, iv, i);
        }
    }

    /// Before the last bin, the start of the next bin is that bin's smallest value, and a value
    /// below it lies at or before the bin.
    pub proof fn lemma_next_bin_start(&self, i: nat, v: nat)
        requires
            self.wf(),
            i + 1 < self.bins(),
            v <= u64::MAX,
        ensures
            self.next_bin_start_spec(i) == self.value_spec(i + 1),
            v < self.next_bin_start_spec(i) ==> self.index_spec(v) <= i,
    {
        self.lemma_value_in_range(i + 1);
        vstd::arithmetic::div_mod::lemma_small_mod(self.value_spec(i + 1), two_pow_64());
        self.lemma_bin_order(i + 1, v);
        self.lemma_equivalence(v as u64, v as u64);
    }

    /// The clamped bin of a value is an existing bin, and it does not decrease with the value.
    pub proof fn lemma_clamped_mono(&self, v: nat, w: nat)
        requires
            self.wf(),
            v <= w,
        ensures
            self.clamped_index(v) <= self.clamped_index(w),
            self.clamped_index(w) < self.bins(),
    {
        self.lemma_wf_bounds();
        self.lemma_bins_bounds();
        lemma_index_of_mono(self.u(), self.m(), v, w);
    }
}

impl<T: Counter> Histogram<T> {
    /// `states` records, from its first state on, each bin `i` of `src` in turn, as `record_n`
    /// does: the bin's count of samples of its smallest value, and nothing for an empty bin.
    pub open spec fn records_bins_in_turn(states: Seq<Self>, src: &Self) -> bool {
        &&& states.len() == src.bins() + 1
        &&& forall|i: int|
            #![trigger states[i + 1]]
            0 <= i < src.bins() ==> if src.counts_view()[i] == 0 {
                states[i + 1] == states[i]
            } else {
                states[i + 1].is_recorded(
                    &states[i],
                    src.value_spec(i as nat) as u64,
                    states[i].index_spec(src.value_spec(i as nat) as u64 as nat),
                    src.counts_view()[i],
                )
            }
    }

    proof fn lemma_records_bins_prefix(states: Seq<Self>, old: &Self, src: &Self, k: nat)
        requires
            old.wf(),
            src.wf(),
            states[0] == *old,
            Self::records_bins_in_turn(states, src),
            k <= src.bins(),
        ensures
            states[k as int].same_config(old),
            states[k as int].bins() >= old.bins(),
            forall|j: nat|
                j >= states[k as int].bins() ==> mapped_sum(
                    old.u(),
                    old.m(),
                    src.counts_view(),
                    src.u(),
                    src.m(),
                    j,
                    k,
                ) == 0,
            forall|j: nat|
                #[trigger] states[k as int].count_or_zero(j) == sat_add_count::<T>(
                    old.count_or_zero(j),
                    mapped_sum(old.u(), old.m(), src.counts_view(), src.u(), src.m(), j, k),
                ),
            states[k as int].spec_total() == sat_add_u64(
                old.spec_total(),
                seq_sum(src.counts_view().subrange(0, k as int)),
            ),
            states[k as int].spec_max_value() == max_over(
                old.spec_max_value(),
                old.spec_unit_mask(),
                src.counts_view(),
                src.u(),
                src.m(),
                k,
            ),
            states[k as int].spec_min_non_zero() == min_over(
                old.spec_min_non_zero(),
                old.spec_unit_mask(),
                src.counts_view(),
                src.u(),
                src.m(),
                k,
            ),
        decreases k,
    {
        let sc = src.counts_view();
        if k == 0 {
            old.lemma_counts_capped();
            assert(sc.subrange(0, 0) =~= Seq::<nat>::empty());
            assert forall|j: nat| #[trigger] states[0].count_or_zero(j) == sat_add_count::<T>(
                old.count_or_zero(j),
                mapped_sum(old.u(), old.m(), sc, src.u(), src.m(), j, 0),
            ) by {
                if j < old.bins() {
                    assert(old.counts_view()[j as int] <= T::cap());
                }
            }
        } else {
            let p = (k - 1) as nat;
            Self::lemma_records_bins_prefix(states, old, src, p);
            let prev = states[p as int];
            let cur = states[k as int];
            let pi = p as int;
            assert(states[pi + 1] == cur);
            src.lemma_value_in_range(p);
            let v = src.value_spec(p);
            assert(v as u64 as nat == v);
            let cnt = sc[pi];
            assert(sc.subrange(0, k as int).drop_last() =~= sc.subrange(0, p as int));
            if cnt == 0 {
                assert(cur == prev);
                assert forall|j: nat| #[trigger] mapped_sum(old.u(), old.m(), sc, src.u(), src.m(), j, k)
                    == mapped_sum(old.u(), old.m(), sc, src.u(), src.m(), j, p) by {}
            } else {
                assert(cur.is_recorded(&prev, v as u64, prev.index_spec(v), cnt));
                let i = prev.index_spec(v);
                assert(index_of(old.u(), old.m(), value_at(src.u(), src.m(), p)) == i);
                assert forall|j: nat| j >= cur.bins() implies mapped_sum(
                    old.u(),
                    old.m(),
                    sc,
                    src.u(),
                    src.m(),
                    j,
                    k,
                ) == 0 by {
                    assert(j >= prev.bins());
                    assert(mapped_sum(old.u(), old.m(), sc, src.u(), src.m(), j, p) == 0);
                    assert(i < cur.bins());
                }
                assert forall|j: nat| #[trigger] cur.count_or_zero(j) == sat_add_count::<T>(
                    old.count_or_zero(j),
                    mapped_sum(old.u(), old.m(), sc, src.u(), src.m(), j, k),
                ) by {
                    let h = mapped_sum(old.u(), old.m(), sc, src.u(), src.m(), j, p);
                    assert(prev.count_or_zero(j) == sat_add_count::<T>(old.count_or_zero(j), h));
                    if j < cur.bins() {
                        if j == i {
                            lemma_sat_count_twice::<T>(old.count_or_zero(j), h, cnt);
                        }
                    } else {
                        assert(j >= old.bins());
                    }
                }
                lemma_sat_count_twice::<T>(old.spec_total(), seq_sum(sc.subrange(0, p as int)), cnt);
            }
        }
    }

    /// Adding across layouts is recording each bin of the source in turn: when `fin` is `old`
    /// with `src` added in another layout, and `states` records each bin of `src` in turn
    /// from `old` (its count of samples of its smallest value, as `record_n` does), then `fin`
    /// holds in each of its bins the count of the last state, and the same total, maximum and
    /// minimum.
    pub proof fn lemma_add_is_records_in_turn(fin: &Self, old: &Self, src: &Self, states: Seq<Self>)
        requires
            old.wf(),
            src.wf(),
            fin.wf(),
            fin.is_sum(old, src),
            !fin.same_layout(src),
            states[0] == *old,
            Self::records_bins_in_turn(states, src),
        ensures
            forall|j: int| 0 <= j < fin.bins() ==> #[trigger] fin.counts_view()[j] == states.last().count_or_zero(j as nat),
            fin.spec_total() == states.last().spec_total(),
            fin.spec_max_value() == states.last().spec_max_value(),
            fin.spec_min_non_zero() == states.last().spec_min_non_zero(),
    {
        let n = src.bins();
        Self::lemma_records_bins_prefix(states, old, src, n);
        let last = states.last();
        assert(last == states[n as int]);
        assert(src.counts_view().subrange(0, n as int) =~= src.counts_view());
        assert forall|j: int| 0 <= j < fin.bins() implies #[trigger] fin.counts_view()[j] == last.count_or_zero(j as nat) by {
            assert(last.count_or_zero(j as nat) == sat_add_count::<T>(
                old.count_or_zero(j as nat),
                mapped_sum(old.u(), old.m(), src.counts_view(), src.u(), src.m(), j as nat, n),
            ));
        }
    }
}

impl<T: Counter> Histogram<T> {
    /// The first `n` steps of subtracting `other` from `old` in one layout: they fail exactly
    /// when one of the first `n` bins of `other` holds more than the same bin of `old`, and
    /// otherwise take each of those bins' counts off the same bin.
    proof fn lemma_sub_run_same_layout(old: &Self, other: &Self, n: nat)
        requires
            old.wf(),
            other.wf(),
            old.same_layout(other),
            n <= other.bins(),
        ensures
            old.sub_result_upto(other, n).4 <==> exists|j: int|
                0 <= j < n && #[trigger] other.counts_view()[j] > old.counts_view()[j],
            !old.sub_result_upto(other, n).4 ==> old.sub_result_upto(other, n).0 == Seq::new(
                old.bins(),
                |j: int|
                    if j < n {
                        (old.counts_view()[j] - other.counts_view()[j]) as nat
                    } else {
                        old.counts_view()[j]
                    },
            ),
        decreases n,
    {
        old.lemma_layout();
        other.lemma_layout();
        old.lemma_wf_bounds();
        let start = (
            Seq::new(old.bins(), |j: int| old.count_or_zero(j as nat)),
            old.spec_total(),
            old.spec_max_value(),
            old.spec_min_non_zero(),
            false,
        );
        if n == 0 {
            assert(start.0 =~= Seq::new(
                old.bins(),
                |j: int|
                    if j < 0 {
                        (old.counts_view()[j] - other.counts_view()[j]) as nat
                    } else {
                        old.counts_view()[j]
                    },
            ));
        } else {
            let p = (n - 1) as nat;
            Self::lemma_sub_run_same_layout(old, other, p);
            lemma_index_of_value_at(other.u(), other.m(), p);
            assert(index_of(old.u(), old.m(), value_at(other.u(), other.m(), p)) == p);
            let prev = old.sub_result_upto(other, p);
            if prev.4 {
                let j = choose|j: int| 0 <= j < p && #[trigger] other.counts_view()[j] > old.counts_view()[j];
                assert(0 <= j < n && other.counts_view()[j] > old.counts_view()[j]);
            } else {
                assert(prev.0[p as int] == old.counts_view()[p as int]);
                let cur = old.sub_result_upto(other, n);
                if cur.4 {
                    assert(other.counts_view()[p as int] > old.counts_view()[p as int]);
                } else {
                    assert forall|j: int| 0 <= j < n implies !(#[trigger] other.counts_view()[j]
                        > old.counts_view()[j]) by {
                        if j != p {
                            assert(j < p);
                        }
                    }
                    assert(cur.0 =~= Seq::new(
                        old.bins(),
                        |j: int|
                            if j < n {
                                (old.counts_view()[j] - other.counts_view()[j]) as nat
                            } else {
                                old.counts_view()[j]
                            },
                    ));
                }
            }
        }
    }

    /// The subtraction run of the first `n` bins of `other` from `self`, in `self`'s layout.
    pub open spec fn sub_result_upto(&self, other: &Self, n: nat) -> SubState {
        sub_run(
            (
                Seq::new(self.bins(), |j: int| self.count_or_zero(j as nat)),
                self.spec_total(),
                self.spec_max_value(),
                self.spec_min_non_zero(),
                false,
            ),
            self.u(),
            self.m(),
            self.spec_unit_mask(),
            other.counts_view(),
            other.u(),
            other.m(),
            n,
        )
    }

    /// Subtracting in one layout: when `fin` is `old` with `other` subtracted and both have
    /// one layout, the subtraction fails exactly when some bin of `other` holds more than the
    /// same bin of `old`, and otherwise every bin of `fin` holds `old`'s count less `other`'s.
    pub proof fn lemma_subtract_same_layout(old: &Self, other: &Self, fin: &Self)
        requires
            old.wf(),
            other.wf(),
            fin.wf(),
            old.same_layout(other),
            fin.is_difference(old, other),
        ensures
            fin.sub_result(old, other).4 <==> exists|j: int|
                0 <= j < other.bins() && #[trigger] other.counts_view()[j] > old.counts_view()[j],
            !fin.sub_result(old, other).4 ==> fin.bins() == old.bins() && forall|j: int|
                0 <= j < fin.bins() ==> #[trigger] fin.counts_view()[j] == old.counts_view()[j]
                    - other.counts_view()[j],
    {
        let k = old.u() + old.m();
        old.lemma_layout();
        other.lemma_layout();
        fin.lemma_layout();
        other.lemma_max_bin();
        other.lemma_index_in_range(other.max_spec());
        old.lemma_last_bin();
        if old.top_spec() < other.max_spec() {
            lemma_bucket_of_mono(k, old.top_spec(), other.max_spec());
        }
        assert(fin.bins() == old.bins());
        assert(other.bins() == old.bins());
        assert(fin.sub_result(old, other) == old.sub_result_upto(other, other.bins()));
        Self::lemma_sub_run_same_layout(old, other, other.bins());
    }
}

} // verus!
