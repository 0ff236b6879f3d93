//! Interval logs in the HdrHistogram interval log format: comment lines
//! starting with `#`, a legend line starting with `"StartTimestamp"`, `StartTime` and
//! `BaseTime` header comments, and one line per interval histogram:
//! `[Tag=<tag>,]<start>,<duration>,<max>,<base64 histogram>`.
//!
//! Parsing works on bytes; the grammar is stated by the spec functions below, and every
//! parser returns what they give.
use vstd::prelude::*;
use vstd::string::StringSliceAdditionalSpecFns;
use vstd::utf8::valid_utf8;
use base64::engine::general_purpose::STANDARD;
use base64::Engine;
use crate::histogram::pow10;

verus! {

// --------------------------------------------------------------------------------------------
// Bytes and text
// --------------------------------------------------------------------------------------------

/// The first position at or after `from` holding byte `x`.
pub open spec fn find_byte(b: Seq<u8>, from: nat, x: u8) -> Option<nat>
    decreases b.len() - from,
{
    if from >= b.len() {
        None
    } else if b[from as int] == x {
        Some(from)
    } else {
        find_byte(b, from + 1, x)
    }
}

/// The bytes of `lit` stand at `from` in `b`.
pub open spec fn has_prefix(b: Seq<u8>, from: nat, lit: Seq<u8>) -> bool {
    from + lit.len() <= b.len() && b.subrange(from as int, (from + lit.len()) as int) == lit
}

/// The position after the first newline at or after `from`.
pub open spec fn line_end(b: Seq<u8>, from: nat) -> Option<nat> {
    match find_byte(b, from, 10) {
        Some(i) => Some(i + 1),
        None => None,
    }
}

/// An ASCII digit.
pub open spec fn is_digit(x: u8) -> bool {
    48 <= x <= 57
}

/// The end of the run of ASCII digits that starts at `from`.
pub open spec fn digit_run_end(b: Seq<u8>, from: nat) -> nat
    decreases b.len() - from,
{
    if from < b.len() && is_digit(b[from as int]) {
        digit_run_end(b, from + 1)
    } else {
        from
    }
}

/// The number that a sequence of ASCII digits stands for.
pub open spec fn digits_value(t: Seq<u8>) -> nat
    decreases t.len(),
{
    if t.len() == 0 {
        0
    } else {
        digits_value(t.drop_last()) * 10 + (t.last() - 48) as nat
    }
}

/// Every byte is an ASCII digit.
pub open spec fn all_digits(t: Seq<u8>) -> bool {
    forall|i: int| 0 <= i < t.len() ==> is_digit(#[trigger] t[i])
}

/// Rust's `u64` from text: an optional `+`, then one or more ASCII digits, for a number that
/// fits.
pub open spec fn parse_u64_text(t: Seq<u8>) -> Option<u64> {
    let d = if t.len() > 0 && t[0] == 43 {
        t.drop_first()
    } else {
        t
    };
    if d.len() > 0 && all_digits(d) && digits_value(d) <= u64::MAX {
        Some(digits_value(d) as u64)
    } else {
        None
    }
}

/// Nanoseconds from the digits after a decimal point: the first nine digits, scaled up when
/// there are fewer.
pub open spec fn nanos_of(t: Seq<u8>) -> nat {
    if t.len() >= 9 {
        digits_value(t.subrange(0, 9))
    } else {
        digits_value(t) * pow10((9 - t.len()) as nat)
    }
}

/// A number of seconds with a fraction, at `from`: the text up to the first `.` as a `u64`,
/// the `.`, and one or more digits, followed by a byte that is not a digit. Gives the
/// seconds, the nanoseconds and the position after the digits.
pub open spec fn fract_sec(b: Seq<u8>, from: nat) -> Option<(u64, u32, nat)> {
    match find_byte(b, from, 46) {
        None => None,
        Some(dot) => match parse_u64_text(b.subrange(from as int, dot as int)) {
            None => None,
            Some(secs) => {
                let e = digit_run_end(b, dot + 1);
                if e == dot + 1 || e >= b.len() {
                    None
                } else {
                    Some((secs, nanos_of(b.subrange(dot + 1int, e as int)) as u32, e))
                }
            },
        },
    }
}

/// The byte at `at` is `x`.
pub open spec fn byte_at(b: Seq<u8>, at: nat, x: u8) -> bool {
    at < b.len() && b[at as int] == x
}

/// The end of the run of digits at `from`, if it is not empty.
pub open spec fn digits_end(b: Seq<u8>, from: nat) -> Option<nat> {
    if from < b.len() && is_digit(b[from as int]) {
        Some(digit_run_end(b, from))
    } else {
        None
    }
}

/// The end of a floating-point number at `from`: an optional sign; digits with an optional
/// `.` and optional further digits, or a `.` and digits; then an optional exponent (`e` or
/// `E`, an optional sign, digits).
pub open spec fn float_end(b: Seq<u8>, from: nat) -> Option<nat> {
    let s = if byte_at(b, from, 43) || byte_at(b, from, 45) {
        from + 1
    } else {
        from
    };
    let mantissa = match digits_end(b, s) {
        Some(d) => if byte_at(b, d, 46) {
            Some(digit_run_end(b, d + 1))
        } else {
            Some(d)
        },
        None => if byte_at(b, s, 46) {
            digits_end(b, s + 1)
        } else {
            None
        },
    };
    match mantissa {
        None => None,
        Some(m) => if byte_at(b, m, 101) || byte_at(b, m, 69) {
            let t = if byte_at(b, m + 1, 43) || byte_at(b, m + 1, 45) {
                m + 2
            } else {
                m + 1
            };
            match digits_end(b, t) {
                Some(e) => Some(e),
                None => Some(m),
            }
        } else {
            Some(m)
        },
    }
}

/// std's `str::from_utf8`: the bytes as a string slice, with exactly these bytes, when they
/// are valid UTF-8, and nothing otherwise.
#[verifier::external_body]
fn utf8_str(b: &[u8]) -> (r: Option<&str>)
    ensures
        r is Some <==> valid_utf8(b@),
        r matches Some(s) ==> s.spec_bytes() == b@,
{
    std::str::from_utf8(b).ok()
}

// --------------------------------------------------------------------------------------------
// Scanners
// --------------------------------------------------------------------------------------------

/// Find byte `x` at or after `from`.
fn find_byte_at(b: &[u8], from: usize, x: u8) -> (r: Option<usize>)
    ensures
        r matches Some(i) ==> find_byte(b@, from as nat, x) == Some(i as nat),
        r is None ==> find_byte(b@, from as nat, x) is None,
{
    let n = b.len();
    let mut i = from;
    while i < n
        invariant
            n == b@.len(),
            from <= i,
            find_byte(b@, from as nat, x) == find_byte(b@, i as nat, x),
        decreases n - i,
    {
        if b[i] == x {
            return Some(i);
        }
        i = i + 1;
    }
    None
}

/// Whether the bytes of `lit` stand at `from` in `b`.
fn matches_at(b: &[u8], from: usize, lit: &[u8]) -> (r: bool)
    ensures
        r == has_prefix(b@, from as nat, lit@),
{
    let n = b.len();
    let m = lit.len();
    if from > n || m > n - from {
        return false;
    }
    let mut i: usize = 0;
    while i < m
        invariant
            n == b@.len(),
            m == lit@.len(),
            from + m <= n,
            i <= m,
            forall|j: int| 0 <= j < i ==> b@[from + j] == lit@[j],
        decreases m - i,
    {
        if b[from + i] != lit[i] {
            proof {
                assert(b@.subrange(from as int, from + m)[i as int] != lit@[i as int]);
            }
            return false;
        }
        i = i + 1;
    }
    proof {
        assert(b@.subrange(from as int, from + m) =~= lit@);
    }
    true
}

/// The end of the run of ASCII digits at `from`.
fn digit_run_end_at(b: &[u8], from: usize) -> (r: usize)
    ensures
        r == digit_run_end(b@, from as nat),
        from <= r,
        r > from ==> r <= b@.len(),
        forall|j: int| from <= j < r ==> is_digit(#[trigger] b@[j]),
{
    let n = b.len();
    let mut i = from;
    while i < n && b[i] >= 48 && b[i] <= 57
        invariant
            n == b@.len(),
            from <= i,
            i > from ==> i <= n,
            digit_run_end(b@, from as nat) == digit_run_end(b@, i as nat),
            forall|j: int| from <= j < i ==> is_digit(#[trigger] b@[j]),
        decreases n - i,
    {
        i = i + 1;
    }
    i
}

proof fn lemma_digits_value_push(t: Seq<u8>, x: u8)
    ensures
        digits_value(t.push(x)) == digits_value(t) * 10 + (x - 48) as nat,
{
    assert(t.push(x).drop_last() =~= t);
}

proof fn lemma_digits_value_mono(t: Seq<u8>, k: nat)
    requires
        k <= t.len(),
        all_digits(t),
    ensures
        digits_value(t.subrange(0, k as int)) <= digits_value(t),
    decreases t.len() - k,
{
    if k < t.len() {
        lemma_digits_value_mono(t, k + 1);
        assert(t.subrange(0, k + 1int) =~= t.subrange(0, k as int).push(t[k as int]));
        lemma_digits_value_push(t.subrange(0, k as int), t[k as int]);
    } else {
        assert(t.subrange(0, k as int) =~= t);
    }
}

/// The value of the digits in `b[from..to]`, if they are all digits, there is at least one,
/// and the value fits in a `u64`.
fn digits_value_at(b: &[u8], from: usize, to: usize) -> (r: Option<u64>)
    requires
        from <= to <= b@.len(),
    ensures
        r is Some <==> (to > from && all_digits(b@.subrange(from as int, to as int)) && digits_value(
            b@.subrange(from as int, to as int),
        ) <= u64::MAX),
        r matches Some(v) ==> v == digits_value(b@.subrange(from as int, to as int)),
{
    if to == from {
        return None;
    }
    let ghost t = b@.subrange(from as int, to as int);
    let mut acc: u64 = 0;
    let mut i = from;
    proof {
        assert(b@.subrange(from as int, from as int) =~= Seq::<u8>::empty());
    }
    while i < to
        invariant
            from <= i <= to <= b@.len(),
            t == b@.subrange(from as int, to as int),
            all_digits(b@.subrange(from as int, i as int)),
            acc == digits_value(b@.subrange(from as int, i as int)),
        decreases to - i,
    {
        let x = b[i];
        proof {
            assert(b@.subrange(from as int, i + 1) =~= b@.subrange(from as int, i as int).push(x));
            lemma_digits_value_push(b@.subrange(from as int, i as int), x);
        }
        if x < 48 || x > 57 {
            proof {
                assert(t[i - from] == x);
            }
            return None;
        }
        let next = match acc.checked_mul(10) {
            Some(v) => v.checked_add((x - 48) as u64),
            None => None,
        };
        match next {
            Some(v) => {
                acc = v;
            },
            None => {
                proof {
                    let k = (i + 1 - from) as nat;
                    if all_digits(t) {
                        assert(t.subrange(0, k as int) =~= b@.subrange(from as int, i + 1));
                        lemma_digits_value_mono(t, k);
                    }
                }
                return None;
            },
        }
        i = i + 1;
    }
    Some(acc)
}

/// Rust's `u64` from the text `b[from..to]`.
fn parse_u64_at(b: &[u8], from: usize, to: usize) -> (r: Option<u64>)
    requires
        from <= to <= b@.len(),
    ensures
        r == parse_u64_text(b@.subrange(from as int, to as int)),
{
    let ghost t = b@.subrange(from as int, to as int);
    if to > from && b[from] == 43 {
        proof {
            assert(t.drop_first() =~= b@.subrange(from + 1, to as int));
        }
        digits_value_at(b, from + 1, to)
    } else {
        digits_value_at(b, from, to)
    }
}

/// The nanoseconds from the digits in `b[from..to]`.
fn nanos_at(b: &[u8], from: usize, to: usize) -> (r: u32)
    requires
        from < to <= b@.len(),
        all_digits(b@.subrange(from as int, to as int)),
    ensures
        r == nanos_of(b@.subrange(from as int, to as int)),
{
    let ghost t = b@.subrange(from as int, to as int);
    let n = to - from;
    let end = if n > 9 {
        from + 9
    } else {
        to
    };
    let mut acc: u32 = 0;
    let mut i = from;
    proof {
        assert(b@.subrange(from as int, from as int) =~= Seq::<u8>::empty());
    }
    while i < end
        invariant
            from <= i <= end <= to <= b@.len(),
            end - from <= 9,
            t == b@.subrange(from as int, to as int),
            all_digits(t),
            acc == digits_value(b@.subrange(from as int, i as int)),
            acc < pow10((i - from) as nat),
        decreases end - i,
    {
        let x = b[i];
        proof {
            assert(t[i - from] == x);
            assert(b@.subrange(from as int, i + 1) =~= b@.subrange(from as int, i as int).push(x));
            lemma_digits_value_push(b@.subrange(from as int, i as int), x);
            assert(pow10((i + 1 - from) as nat) == 10 * pow10((i - from) as nat));
            reveal_with_fuel(pow10, 10);
        }
        acc = acc * 10 + (x - 48) as u32;
        i = i + 1;
    }
    proof {
        if n >= 9 {
            assert(t.subrange(0, 9) =~= b@.subrange(from as int, end as int));
        } else {
            assert(t =~= b@.subrange(from as int, end as int));
        }
    }
    if n >= 9 {
        return acc;
    }
    let scale: u32 = if n == 8 {
        10
    } else if n == 7 {
        100
    } else if n == 6 {
        1000
    } else if n == 5 {
        10000
    } else if n == 4 {
        100000
    } else if n == 3 {
        1000000
    } else if n == 2 {
        10000000
    } else {
        100000000
    };
    proof {
        reveal_with_fuel(pow10, 10);
        assert(scale == pow10((9 - n) as nat));
        lemma_pow10_split(n as nat, (9 - n) as nat);
        assert(pow10(9) == 1000000000);
        assert(acc * scale < 1000000000) by (nonlinear_arith)
            requires
                acc < pow10(n as nat),
                pow10(n as nat) * scale == 1000000000,
        ;
    }
    acc * scale
}

proof fn lemma_pow10_pos(n: nat)
    ensures
        pow10(n) >= 1,
    decreases n,
{
    if n > 0 {
        lemma_pow10_pos((n - 1) as nat);
    }
}

proof fn lemma_pow10_split(a: nat, b: nat)
    ensures
        pow10(a) * pow10(b) == pow10(a + b),
    decreases a,
{
    if a > 0 {
        lemma_pow10_split((a - 1) as nat, b);
        assert(pow10(a) * pow10(b) == 10 * (pow10((a - 1) as nat) * pow10(b))) by (nonlinear_arith)
            requires
                pow10(a) == 10 * pow10((a - 1) as nat),
        ;
        assert((a + b - 1) as nat == (a - 1) as nat + b);
        assert(pow10(a + b) == 10 * pow10((a + b - 1) as nat));
    } else {
        assert(pow10(0) == 1);
        assert(pow10(a) * pow10(b) == pow10(b)) by (nonlinear_arith)
            requires
                pow10(a) == 1,
        ;
    }
}

/// A number of seconds with a fraction at `from` in `b`: seconds, nanoseconds and the
/// position after the digits.
fn fract_sec_at(b: &[u8], from: usize) -> (r: Option<(u64, u32, usize)>)
    ensures
        r matches Some((s, n, e)) ==> fract_sec(b@, from as nat) == Some((s, n, e as nat)) && from < e < b@.len(),
        r is None ==> fract_sec(b@, from as nat) is None,
{
    let blen = b.len();
    assert(blen == b@.len());
    let dot = match find_byte_at(b, from, 46) {
        Some(d) => d,
        None => {
            return None;
        },
    };
    proof {
        lemma_find_byte_bounds(b@, from as nat, 46);
    }
    let secs = match parse_u64_at(b, from, dot) {
        Some(v) => v,
        None => {
            return None;
        },
    };
    let e = digit_run_end_at(b, dot + 1);
    if e == dot + 1 || e >= b.len() {
        return None;
    }
    proof {
        assert forall|i: int| 0 <= i < e - (dot + 1) implies is_digit(
            #[trigger] b@.subrange(dot + 1int, e as int)[i],
        ) by {
            assert(b@.subrange(dot + 1int, e as int)[i] == b@[dot + 1 + i]);
        }
    }
    let nanos = nanos_at(b, dot + 1, e);
    Some((secs, nanos, e))
}

proof fn lemma_find_byte_bounds(b: Seq<u8>, from: nat, x: u8)
    ensures
        find_byte(b, from, x) matches Some(i) ==> from <= i < b.len() && b[i as int] == x,
    decreases b.len() - from,
{
    if from < b.len() && b[from as int] != x {
        lemma_find_byte_bounds(b, from + 1, x);
    }
}

/// Whether byte `x` stands at `at`.
fn byte_at_exec(b: &[u8], at: usize, x: u8) -> (r: bool)
    ensures
        r == byte_at(b@, at as nat, x),
{
    at < b.len() && b[at] == x
}

/// The end of a non-empty run of digits at `from`.
fn digits_end_at(b: &[u8], from: usize) -> (r: Option<usize>)
    ensures
        r matches Some(e) ==> digits_end(b@, from as nat) == Some(e as nat) && from <= e,
        r is None ==> digits_end(b@, from as nat) is None,
{
    if from < b.len() && b[from] >= 48 && b[from] <= 57 {
        Some(digit_run_end_at(b, from))
    } else {
        None
    }
}

/// The end of the floating-point number at `from`.
fn float_end_at(b: &[u8], from: usize) -> (r: Option<usize>)
    ensures
        r matches Some(e) ==> float_end(b@, from as nat) == Some(e as nat) && from <= e,
        r is None ==> float_end(b@, from as nat) is None,
{
    let blen = b.len();
    assert(blen == b@.len());
    let s = if byte_at_exec(b, from, 43) || byte_at_exec(b, from, 45) {
        from + 1
    } else {
        from
    };
    let mantissa = match digits_end_at(b, s) {
        Some(d) => if byte_at_exec(b, d, 46) {
            Some(digit_run_end_at(b, d + 1))
        } else {
            Some(d)
        },
        None => if byte_at_exec(b, s, 46) {
            digits_end_at(b, s + 1)
        } else {
            None
        },
    };
    match mantissa {
        None => None,
        Some(m) => if byte_at_exec(b, m, 101) || byte_at_exec(b, m, 69) {
            let t = if byte_at_exec(b, m + 1, 43) || byte_at_exec(b, m + 1, 45) {
                m + 2
            } else {
                m + 1
            };
            match digits_end_at(b, t) {
                Some(e) => Some(e),
                None => Some(m),
            }
        } else {
            Some(m)
        },
    }
}

// --------------------------------------------------------------------------------------------
// Lines
// --------------------------------------------------------------------------------------------

/// `#[StartTime: `
pub open spec fn start_time_prefix() -> Seq<u8> {
    seq![35u8, 91, 83, 116, 97, 114, 116, 84, 105, 109, 101, 58, 32]
}

/// `#[BaseTime: `
pub open spec fn base_time_prefix() -> Seq<u8> {
    seq![35u8, 91, 66, 97, 115, 101, 84, 105, 109, 101, 58, 32]
}

/// `Tag=`
pub open spec fn tag_prefix() -> Seq<u8> {
    seq![84u8, 97, 103, 61]
}

/// `"StartTimestamp"`
pub open spec fn legend_prefix() -> Seq<u8> {
    seq![34u8, 83, 116, 97, 114, 116, 84, 105, 109, 101, 115, 116, 97, 109, 112, 34]
}

/// A comment line at `from`: `#`, then anything up to and including a newline. Gives the
/// position after the line.
pub open spec fn comment_line_spec(b: Seq<u8>, from: nat) -> Option<nat> {
    if byte_at(b, from, 35) {
        line_end(b, from + 1)
    } else {
        None
    }
}

/// A legend line at `from`: `"StartTimestamp"`, then anything up to and including a newline.
pub open spec fn legend_spec(b: Seq<u8>, from: nat) -> Option<nat> {
    if has_prefix(b, from, legend_prefix()) {
        line_end(b, from + 16)
    } else {
        None
    }
}

/// A line that carries no entry: a comment or the legend.
#[verifier::opaque]
pub open spec fn ignored_line_spec(b: Seq<u8>, from: nat) -> Option<nat> {
    match comment_line_spec(b, from) {
        Some(e) => Some(e),
        None => legend_spec(b, from),
    }
}

/// What a log line stands for, with positions into the log's bytes.
pub enum EntryModel {
    /// A `StartTime` header: seconds and nanoseconds.
    StartTime(u64, u32),
    /// A `BaseTime` header: seconds and nanoseconds.
    BaseTime(u64, u32),
    /// An interval: the span of the tag if there is one, the start and the duration (seconds
    /// and nanoseconds), and the spans of the maximum and of the encoded histogram.
    Interval(Option<(nat, nat)>, (u64, u32), (u64, u32), (nat, nat), (nat, nat)),
}

/// A timestamp header line at `from` after the given prefix: the prefix, seconds with a
/// fraction, a space, then anything up to and including a newline.
pub open spec fn timestamp_line(b: Seq<u8>, from: nat, prefix: Seq<u8>) -> Option<(u64, u32, nat)> {
    if has_prefix(b, from, prefix) {
        match fract_sec(b, from + prefix.len()) {
            Some((s, n, e)) => if byte_at(b, e, 32) {
                match line_end(b, e + 1) {
                    Some(end) => Some((s, n, end)),
                    None => None,
                }
            } else {
                None
            },
            None => None,
        }
    } else {
        None
    }
}

/// The optional tag at `from`: `Tag=`, then text up to a comma, which must be UTF-8. Gives
/// the tag's span and the position after the comma, or no tag and `from`; `None` when a
/// tag is started but not properly ended.
pub open spec fn tag_part(b: Seq<u8>, from: nat) -> Option<(Option<(nat, nat)>, nat)> {
    if has_prefix(b, from, tag_prefix()) {
        match find_byte(b, from + 4, 44) {
            Some(k) => if valid_utf8(b.subrange(from + 4int, k as int)) {
                Some((Some((from + 4, k)), k + 1))
            } else {
                None
            },
            None => None,
        }
    } else {
        Some((None, from))
    }
}

/// An interval line at `from`: an optional tag, then start, duration and maximum separated by
/// commas, a comma, and the encoded histogram (UTF-8) up to a newline.
pub open spec fn interval_hist_spec(b: Seq<u8>, from: nat) -> Option<(EntryModel, nat)> {
    match tag_part(b, from) {
        None => None,
        Some((tag, p0)) => match fract_sec(b, p0) {
            None => None,
            Some((s1, n1, p1)) => if !byte_at(b, p1, 44) {
                None
            } else {
                match fract_sec(b, p1 + 1) {
                    None => None,
                    Some((s2, n2, p2)) => if !byte_at(b, p2, 44) {
                        None
                    } else {
                        match float_end(b, p2 + 1) {
                            None => None,
                            Some(p3) => if !byte_at(b, p3, 44) {
                                None
                            } else {
                                match find_byte(b, p3 + 1, 10) {
                                    None => None,
                                    Some(nl) => if !valid_utf8(b.subrange(p3 + 1int, nl as int)) {
                                        None
                                    } else {
                                        Some(
                                            (
                                                EntryModel::Interval(
                                                    tag,
                                                    (s1, n1),
                                                    (s2, n2),
                                                    (p2 + 1, p3),
                                                    (p3 + 1, nl),
                                                ),
                                                nl + 1,
                                            ),
                                        )
                                    },
                                }
                            },
                        }
                    },
                }
            },
        },
    }
}

/// A log entry at `from`: a `StartTime` header, a `BaseTime` header or an interval, tried
/// in that order. Gives the entry and the position after its line.
#[verifier::opaque]
pub open spec fn log_entry_spec(b: Seq<u8>, from: nat) -> Option<(EntryModel, nat)> {
    match timestamp_line(b, from, start_time_prefix()) {
        Some((s, n, e)) => Some((EntryModel::StartTime(s, n), e)),
        None => match timestamp_line(b, from, base_time_prefix()) {
            Some((s, n, e)) => Some((EntryModel::BaseTime(s, n), e)),
            None => interval_hist_spec(b, from),
        },
    }
}

/// A point in time or a length of time: whole seconds and nanoseconds.
#[derive(Debug, PartialEq, Eq, Clone, Copy, Structural)]
pub struct Timestamp {
    /// Whole seconds.
    pub secs: u64,
    /// Nanoseconds past the whole seconds.
    pub nanos: u32,
}

/// A tag for an interval histogram.
///
/// Tags are just `str`s that do not contain a few disallowed characters: ',', '\r', '\n',
/// and ' '.
#[derive(Debug, PartialEq, Clone, Copy)]
pub struct Tag<'a>(&'a str);

/// A character a tag may not hold.
pub open spec fn tag_forbidden(c: char) -> bool {
    c == ',' || c == '\r' || c == '\n' || c == ' '
}

impl<'a> Tag<'a> {
    pub closed spec fn text(&self) -> &'a str {
        self.0
    }

    /// Create a new Tag; `None` when a disallowed character is present.
    pub fn new(s: &'a str) -> (r: Option<Tag<'a>>)
        ensures
            r is Some <==> !(exists|i: int| 0 <= i < s@.len() && tag_forbidden(#[trigger] s@[i])),
            r matches Some(t) ==> t.text() == s,
    {
        let mut bad = false;
        for c in it: s.chars()
            invariant
                it.seq() == s@,
                bad <==> exists|i: int| 0 <= i < it.index() && tag_forbidden(#[trigger] it.seq()[i]),
        {
            if c == ',' || c == '\r' || c == '\n' || c == ' ' {
                bad = true;
            }
        }
        if bad {
            None
        } else {
            Some(Tag(s))
        }
    }

    /// Returns the tag contents as a str.
    pub fn as_str(&self) -> (r: &'a str)
        ensures
            r == self.text(),
    {
        self.0
    }
}

impl<'a> core::ops::Deref for Tag<'a> {
    type Target = str;

    /// The tag contents as a str.
    fn deref(&self) -> (r: &str)
        ensures
            r == self.text(),
    {
        self.0
    }
}

/// An individual interval histogram parsed from an interval log.
#[derive(Debug, PartialEq, Clone, Copy)]
pub struct IntervalLogHistogram<'a> {
    tag: Option<Tag<'a>>,
    start_timestamp: Timestamp,
    duration: Timestamp,
    max: &'a [u8],
    encoded_histogram: &'a str,
}

impl<'a> IntervalLogHistogram<'a> {
    pub closed spec fn spec_tag(&self) -> Option<Tag<'a>> {
        self.tag
    }

    pub closed spec fn spec_start(&self) -> Timestamp {
        self.start_timestamp
    }

    pub closed spec fn spec_duration(&self) -> Timestamp {
        self.duration
    }

    pub closed spec fn spec_max(&self) -> Seq<u8> {
        self.max@
    }

    pub closed spec fn spec_encoded(&self) -> Seq<u8> {
        self.encoded_histogram.spec_bytes()
    }

    /// Tag, if any is present.
    pub fn tag(&self) -> (r: Option<Tag<'a>>)
        ensures
            r == self.spec_tag(),
    {
        self.tag
    }

    /// Timestamp of the start of the interval, relative to some start point (the epoch, or a
    /// `StartTime` or `BaseTime` of the log).
    pub fn start_timestamp(&self) -> (r: Timestamp)
        ensures
            r == self.spec_start(),
    {
        self.start_timestamp
    }

    /// Duration of the interval.
    pub fn duration(&self) -> (r: Timestamp)
        ensures
            r == self.spec_duration(),
    {
        self.duration
    }

    /// The text of the interval's maximum value (a decimal floating-point number): the
    /// maximum of the histogram divided by some scaling factor (which may be 1.0).
    pub fn max_text(&self) -> (r: &'a [u8])
        ensures
            r@ == self.spec_max(),
    {
        self.max
    }

    /// Base64-encoded serialized histogram.
    pub fn encoded_histogram(&self) -> (r: &'a str)
        ensures
            r.spec_bytes() == self.spec_encoded(),
    {
        self.encoded_histogram
    }
}

/// Represents one non-comment line in an interval log.
#[derive(Debug, PartialEq, Clone, Copy)]
pub enum LogEntry<'a> {
    /// Logs may hold a StartTime. If present, it represents seconds since the epoch.
    StartTime(Timestamp),
    /// Logs may hold a BaseTime. If present, it represents seconds since the epoch.
    BaseTime(Timestamp),
    /// An individual interval histogram.
    Interval(IntervalLogHistogram<'a>),
}

/// The entry `e`, parsed from `b`, is what `m` describes.
pub open spec fn entry_is(b: Seq<u8>, e: LogEntry, m: EntryModel) -> bool {
    match (e, m) {
        (LogEntry::StartTime(t), EntryModel::StartTime(s, n)) => t.secs == s && t.nanos == n,
        (LogEntry::BaseTime(t), EntryModel::BaseTime(s, n)) => t.secs == s && t.nanos == n,
        (LogEntry::Interval(h), EntryModel::Interval(tag, start, dur, max, enc)) => {
            &&& match (h.spec_tag(), tag) {
                (None, None) => true,
                (Some(t), Some((a, z))) => t.text().spec_bytes() == b.subrange(a as int, z as int),
                _ => false,
            }
            &&& h.spec_start().secs == start.0 && h.spec_start().nanos == start.1
            &&& h.spec_duration().secs == dur.0 && h.spec_duration().nanos == dur.1
            &&& h.spec_max() == b.subrange(max.0 as int, max.1 as int)
            &&& h.spec_encoded() == b.subrange(enc.0 as int, enc.1 as int)
        },
        _ => false,
    }
}

fn prefix_bytes(which: u8) -> (r: Vec<u8>)
    ensures
        which == 0 ==> r@ == start_time_prefix(),
        which == 1 ==> r@ == base_time_prefix(),
        which == 2 ==> r@ == tag_prefix(),
        which != 0 && which != 1 && which != 2 ==> r@ == legend_prefix(),
{
    if which == 0 {
        vec![35u8, 91, 83, 116, 97, 114, 116, 84, 105, 109, 101, 58, 32]
    } else if which == 1 {
        vec![35u8, 91, 66, 97, 115, 101, 84, 105, 109, 101, 58, 32]
    } else if which == 2 {
        vec![84u8, 97, 103, 61]
    } else {
        vec![34u8, 83, 116, 97, 114, 116, 84, 105, 109, 101, 115, 116, 97, 109, 112, 34]
    }
}

/// The position after the line that starts at or after `from`.
fn line_end_at(b: &[u8], from: usize) -> (r: Option<usize>)
    ensures
        r matches Some(e) ==> line_end(b@, from as nat) == Some(e as nat),
        r is None ==> line_end(b@, from as nat) is None,
{
    let blen = b.len();
    assert(blen == b@.len());
    match find_byte_at(b, from, 10) {
        Some(i) => {
            proof {
                lemma_find_byte_bounds(b@, from as nat, 10);
            }
            Some(i + 1)
        },
        None => None,
    }
}

/// A comment line at `at` in `b`; returns the position after it.
fn comment_line_at(b: &[u8], at: usize) -> (r: Option<usize>)
    ensures
        r matches Some(e) ==> comment_line_spec(b@, at as nat) == Some(e as nat),
        r is None ==> comment_line_spec(b@, at as nat) is None,
{
    let blen = b.len();
    assert(blen == b@.len());
    if byte_at_exec(b, at, 35) {
        line_end_at(b, at + 1)
    } else {
        None
    }
}

/// A legend line at `at` in `b`; returns the position after it.
fn legend_at(b: &[u8], at: usize) -> (r: Option<usize>)
    ensures
        r matches Some(e) ==> legend_spec(b@, at as nat) == Some(e as nat),
        r is None ==> legend_spec(b@, at as nat) is None,
{
    let blen = b.len();
    assert(blen == b@.len());
    let lit = prefix_bytes(3);
    if matches_at(b, at, lit.as_slice()) {
        line_end_at(b, at + 16)
    } else {
        None
    }
}

/// An ignored line (comment or legend) at `at` in `b`; returns the position after it.
fn ignored_line_at(b: &[u8], at: usize) -> (r: Option<usize>)
    ensures
        r matches Some(e) ==> ignored_line_spec(b@, at as nat) == Some(e as nat),
        r is None ==> ignored_line_spec(b@, at as nat) is None,
{
    reveal(ignored_line_spec);
    match comment_line_at(b, at) {
        Some(e) => Some(e),
        None => legend_at(b, at),
    }
}

/// Parse a comment line (`#` up to a newline) at the start of `input`; returns the number of
/// bytes it takes, newline included.
pub fn comment_line(input: &[u8]) -> (r: Option<usize>)
    ensures
        r matches Some(e) ==> comment_line_spec(input@, 0) == Some(e as nat),
        r is None ==> comment_line_spec(input@, 0) is None,
{
    comment_line_at(input, 0)
}

/// Parse a legend line (`"StartTimestamp"` up to a newline) at the start of `input`; returns
/// the number of bytes it takes, newline included.
pub fn legend(input: &[u8]) -> (r: Option<usize>)
    ensures
        r matches Some(e) ==> legend_spec(input@, 0) == Some(e as nat),
        r is None ==> legend_spec(input@, 0) is None,
{
    legend_at(input, 0)
}

/// Parse a line that carries no entry (a comment or the legend) at the start of `input`;
/// returns the number of bytes it takes.
pub fn ignored_line(input: &[u8]) -> (r: Option<usize>)
    ensures
        r matches Some(e) ==> ignored_line_spec(input@, 0) == Some(e as nat),
        r is None ==> ignored_line_spec(input@, 0) is None,
{
    ignored_line_at(input, 0)
}

/// A timestamp header after prefix number `which` at `at` in `b`.
fn timestamp_line_at(b: &[u8], at: usize, which: u8) -> (r: Option<(u64, u32, usize)>)
    requires
        which == 0 || which == 1,
    ensures
        ({
            let prefix = if which == 0 {
                start_time_prefix()
            } else {
                base_time_prefix()
            };
            &&& r matches Some((s, n, e)) ==> timestamp_line(b@, at as nat, prefix) == Some((s, n, e as nat))
            &&& r is None ==> timestamp_line(b@, at as nat, prefix) is None
        }),
{
    let blen = b.len();
    assert(blen == b@.len());
    let lit = prefix_bytes(which);
    if !matches_at(b, at, lit.as_slice()) {
        return None;
    }
    let (s, n, e) = match fract_sec_at(b, at + lit.len()) {
        Some(x) => x,
        None => {
            return None;
        },
    };
    if !byte_at_exec(b, e, 32) {
        return None;
    }
    match line_end_at(b, e + 1) {
        Some(end) => Some((s, n, end)),
        None => None,
    }
}

/// An interval line at `at` in `b`; returns the entry and the position after its line.
fn interval_hist_at<'a>(b: &'a [u8], at: usize) -> (r: Option<(LogEntry<'a>, usize)>)
    ensures
        r matches Some((e, end)) ==> (interval_hist_spec(b@, at as nat) matches Some((m, end2))
            && end2 == end && entry_is(b@, e, m)),
        r is None ==> interval_hist_spec(b@, at as nat) is None,
{
    let blen = b.len();
    let lit = prefix_bytes(2);
    let ghost tag_span: Option<(nat, nat)>;
    let (tag, p0): (Option<Tag<'a>>, usize) = if matches_at(b, at, lit.as_slice()) {
        let k = match find_byte_at(b, at + 4, 44) {
            Some(k) => k,
            None => {
                return None;
            },
        };
        proof {
            lemma_find_byte_bounds(b@, (at + 4) as nat, 44);
        }
        let tb = vstd::slice::slice_subrange(b, at + 4, k);
        match utf8_str(tb) {
            Some(ts) => {
                proof {
                    tag_span = Some(((at + 4) as nat, k as nat));
                }
                (Some(Tag(ts)), k + 1)
            },
            None => {
                return None;
            },
        }
    } else {
        proof {
            tag_span = None;
        }
        (None, at)
    };
    proof {
        assert(tag_part(b@, at as nat) == Some((tag_span, p0 as nat)));
    }
    let (s1, n1, p1) = match fract_sec_at(b, p0) {
        Some(x) => x,
        None => {
            return None;
        },
    };
    if !byte_at_exec(b, p1, 44) {
        return None;
    }
    let (s2, n2, p2) = match fract_sec_at(b, p1 + 1) {
        Some(x) => x,
        None => {
            return None;
        },
    };
    if !byte_at_exec(b, p2, 44) {
        return None;
    }
    let p3 = match float_end_at(b, p2 + 1) {
        Some(x) => x,
        None => {
            return None;
        },
    };
    if !byte_at_exec(b, p3, 44) {
        return None;
    }
    let nl = match find_byte_at(b, p3 + 1, 10) {
        Some(x) => x,
        None => {
            return None;
        },
    };
    proof {
        lemma_find_byte_bounds(b@, (p3 + 1) as nat, 10);
    }
    let eb = vstd::slice::slice_subrange(b, p3 + 1, nl);
    let enc = match utf8_str(eb) {
        Some(x) => x,
        None => {
            return None;
        },
    };
    let max = vstd::slice::slice_subrange(b, p2 + 1, p3);
    let h = IntervalLogHistogram {
        tag,
        start_timestamp: Timestamp { secs: s1, nanos: n1 },
        duration: Timestamp { secs: s2, nanos: n2 },
        max,
        encoded_histogram: enc,
    };
    Some((LogEntry::Interval(h), nl + 1))
}

/// A log entry at `at` in `b`: a `StartTime` header, a `BaseTime` header or an interval.
fn log_entry_at<'a>(b: &'a [u8], at: usize) -> (r: Option<(LogEntry<'a>, usize)>)
    ensures
        r matches Some((e, end)) ==> (log_entry_spec(b@, at as nat) matches Some((m, end2)) && end2
            == end && entry_is(b@, e, m)),
        r is None ==> log_entry_spec(b@, at as nat) is None,
{
    reveal(log_entry_spec);
    match timestamp_line_at(b, at, 0) {
        Some((s, n, e)) => {
            return Some((LogEntry::StartTime(Timestamp { secs: s, nanos: n }), e));
        },
        None => {},
    }
    match timestamp_line_at(b, at, 1) {
        Some((s, n, e)) => {
            return Some((LogEntry::BaseTime(Timestamp { secs: s, nanos: n }), e));
        },
        None => {},
    }
    interval_hist_at(b, at)
}

/// Parse a `StartTime` header line at the start of `input`: the entry and the number of
/// bytes it takes.
pub fn start_time<'a>(input: &'a [u8]) -> (r: Option<(LogEntry<'a>, usize)>)
    ensures
        r matches Some((e, n)) ==> (timestamp_line(input@, 0, start_time_prefix()) matches Some((s, ns, end))
            && end == n && e == LogEntry::StartTime(Timestamp { secs: s, nanos: ns })),
        r is None ==> timestamp_line(input@, 0, start_time_prefix()) is None,
{
    match timestamp_line_at(input, 0, 0) {
        Some((s, n, e)) => Some((LogEntry::StartTime(Timestamp { secs: s, nanos: n }), e)),
        None => None,
    }
}

/// Parse a `BaseTime` header line at the start of `input`: the entry and the number of
/// bytes it takes.
pub fn base_time<'a>(input: &'a [u8]) -> (r: Option<(LogEntry<'a>, usize)>)
    ensures
        r matches Some((e, n)) ==> (timestamp_line(input@, 0, base_time_prefix()) matches Some((s, ns, end))
            && end == n && e == LogEntry::BaseTime(Timestamp { secs: s, nanos: ns })),
        r is None ==> timestamp_line(input@, 0, base_time_prefix()) is None,
{
    match timestamp_line_at(input, 0, 1) {
        Some((s, n, e)) => Some((LogEntry::BaseTime(Timestamp { secs: s, nanos: n }), e)),
        None => None,
    }
}

/// Parse an interval line at the start of `input`: the entry and the number of bytes it
/// takes.
pub fn interval_hist<'a>(input: &'a [u8]) -> (r: Option<(LogEntry<'a>, usize)>)
    ensures
        r matches Some((e, n)) ==> (interval_hist_spec(input@, 0) matches Some((m, end)) && end == n
            && entry_is(input@, e, m)),
        r is None ==> interval_hist_spec(input@, 0) is None,
{
    interval_hist_at(input, 0)
}

/// Parse a log entry at the start of `input`: the entry and the number of bytes it takes.
pub fn log_entry<'a>(input: &'a [u8]) -> (r: Option<(LogEntry<'a>, usize)>)
    ensures
        r matches Some((e, n)) ==> (log_entry_spec(input@, 0) matches Some((m, end)) && end == n
            && entry_is(input@, e, m)),
        r is None ==> log_entry_spec(input@, 0) is None,
{
    log_entry_at(input, 0)
}

// --------------------------------------------------------------------------------------------
// Iterating over a log
// --------------------------------------------------------------------------------------------

/// Errors that occur when parsing an interval log.
#[derive(Debug, PartialEq, Eq, Clone, Copy, Structural)]
pub enum LogIteratorError {
    /// Parsing failed
    ParseError {
        /// Offset in the input where the failed parse started
        offset: usize,
    },
}

/// A line that carries no entry ends after it starts, within the log.
pub proof fn lemma_ignored_line_advances(b: Seq<u8>, pos: nat)
    ensures
        ignored_line_spec(b, pos) matches Some(e) ==> pos < e <= b.len(),
{
    reveal(ignored_line_spec);
    lemma_find_byte_bounds(b, pos + 1, 10);
    lemma_find_byte_bounds(b, pos + 16, 10);
}

/// What reading on from `pos` gives.
pub enum NextModel {
    /// The log is exhausted.
    End,
    /// An entry, and the position after its line.
    Entry(EntryModel, nat),
    /// A line that is neither an entry nor ignorable starts at this offset.
    Error(nat),
}

/// Reading on from `pos` in `b`: lines that carry no entry are skipped; then the log ends,
/// an entry is read, or the line there cannot be parsed.
pub open spec fn next_model(b: Seq<u8>, pos: nat) -> NextModel
    decreases b.len() - pos,
{
    if pos >= b.len() {
        NextModel::End
    } else {
        match log_entry_spec(b, pos) {
            Some((m, e)) => NextModel::Entry(m, e),
            None => match ignored_line_spec(b, pos) {
                Some(e) => {
                    proof {
                        lemma_ignored_line_advances(b, pos);
                    }
                    next_model(b, e)
                },
                None => NextModel::Error(pos),
            },
        }
    }
}

/// Parse interval logs.
///
/// Each call of `next_entry` gives the next item (comments and other information-free lines
/// are skipped). See `LogEntry`. Parsing stops for good at the end of the log or at the
/// first line that cannot be parsed.
pub struct IntervalLogIterator<'a> {
    input: &'a [u8],
    pos: usize,
    ended: bool,
}

impl<'a> IntervalLogIterator<'a> {
    pub closed spec fn spec_input(&self) -> Seq<u8> {
        self.input@
    }

    pub closed spec fn spec_pos(&self) -> nat {
        self.pos as nat
    }

    pub closed spec fn spec_ended(&self) -> bool {
        self.ended
    }

    /// Create a new iterator from the UTF-8 bytes of an interval log.
    pub fn new(input: &'a [u8]) -> (r: IntervalLogIterator<'a>)
        ensures
            r.spec_input() == input@,
            r.spec_pos() == 0,
            !r.spec_ended(),
    {
        IntervalLogIterator { input, pos: 0, ended: false }
    }

    /// The next entry of the log, or the error at the first line that cannot be parsed;
    /// `None` once the log is exhausted or an error was returned.
    pub fn next_entry(&mut self) -> (r: Option<Result<LogEntry<'a>, LogIteratorError>>)
        ensures
            final(self).spec_input() == old(self).spec_input(),
            old(self).spec_ended() ==> r is None && *final(self) == *old(self),
            !old(self).spec_ended() ==> match next_model(old(self).spec_input(), old(self).spec_pos()) {
                NextModel::End => r is None && final(self).spec_ended(),
                NextModel::Error(o) => final(self).spec_ended() && r
                    == Some(Err::<LogEntry<'a>, LogIteratorError>(LogIteratorError::ParseError { offset: o as usize })),
                NextModel::Entry(m, e) => !final(self).spec_ended() && final(self).spec_pos() == e && (r matches Some(
                    Ok(entry),
                ) && entry_is(old(self).spec_input(), entry, m)),
            },
    {
        if self.ended {
            return None;
        }
        let ghost start = self.pos as nat;
        let n = self.input.len();
        loop
            invariant
                n == self.input@.len(),
                !self.ended,
                !old(self).ended,
                start == old(self).pos as nat,
                self.input == old(self).input,
                next_model(self.input@, start) == next_model(self.input@, self.pos as nat),
            decreases n - self.pos,
        {
            if self.pos >= n {
                self.ended = true;
                return None;
            }
            match log_entry_at(self.input, self.pos) {
                Some((e, end)) => {
                    self.pos = end;
                    return Some(Ok(e));
                },
                None => {},
            }
            match ignored_line_at(self.input, self.pos) {
                Some(end) => {
                    proof {
                        lemma_ignored_line_advances(self.input@, self.pos as nat);
                    }
                    self.pos = end;
                },
                None => {
                    self.ended = true;
                    return Some(Err(LogIteratorError::ParseError { offset: self.pos }));
                },
            }
        }
    }
}

// --------------------------------------------------------------------------------------------
// Writing interval lines
// --------------------------------------------------------------------------------------------

/// A byte of standard base64 text: `A`-`Z`, `a`-`z`, `0`-`9`, `+`, `/`, or the padding `=`.
pub open spec fn base64_symbol(x: u8) -> bool {
    ||| 65 <= x <= 90
    ||| 97 <= x <= 122
    ||| 48 <= x <= 57
    ||| x == 43
    ||| x == 47
    ||| x == 61
}

/// The symbol of the standard base64 alphabet for the six-bit value `v`: `A`-`Z`, `a`-`z`,
/// `0`-`9`, `+`, `/`.
pub open spec fn base64_digit(v: int) -> u8 {
    if v < 26 {
        (65 + v) as u8
    } else if v < 52 {
        (71 + v) as u8
    } else if v < 62 {
        (v - 4) as u8
    } else if v == 62 {
        43u8
    } else {
        47u8
    }
}

/// The standard base64 text (RFC 4648 alphabet, padded with `=`) of `input`: each group of
/// three bytes, read as a 24-bit big-endian number, gives four symbols of six bits each, most
/// significant first; a last group of one or two bytes is filled with zero bits, gives two or
/// three symbols, and is padded with `=` to four.
pub open spec fn base64_standard(input: Seq<u8>) -> Seq<u8>
    decreases input.len(),
{
    if input.len() == 0 {
        Seq::empty()
    } else {
        let b1: int = if input.len() > 1 {
            input[1] as int
        } else {
            0
        };
        let b2: int = if input.len() > 2 {
            input[2] as int
        } else {
            0
        };
        let n: int = input[0] as int * 65536 + b1 * 256 + b2;
        let group = seq![
            base64_digit(n / 262144),
            base64_digit((n / 4096) % 64),
            if input.len() > 1 {
                base64_digit((n / 64) % 64)
            } else {
                61u8
            },
            if input.len() > 2 {
                base64_digit(n % 64)
            } else {
                61u8
            },
        ];
        if input.len() <= 3 {
            group
        } else {
            group + base64_standard(input.subrange(3, input.len() as int))
        }
    }
}

/// Standard base64 text has four symbols for every three bytes begun, each a symbol of the
/// standard alphabet or the padding.
pub proof fn lemma_base64_standard_shape(input: Seq<u8>)
    ensures
        base64_standard(input).len() == 4 * ((input.len() + 2) / 3),
        forall|i: int|
            0 <= i < base64_standard(input).len() ==> base64_symbol(
                #[trigger] base64_standard(input)[i],
            ),
    decreases input.len(),
{
    if input.len() > 0 {
        let b1: int = if input.len() > 1 {
            input[1] as int
        } else {
            0
        };
        let b2: int = if input.len() > 2 {
            input[2] as int
        } else {
            0
        };
        let n: int = input[0] as int * 65536 + b1 * 256 + b2;
        assert(0 <= n < 16777216);
        assert(0 <= n / 262144 < 64);
        let out = base64_standard(input);
        if input.len() > 3 {
            let rest = input.subrange(3, input.len() as int);
            lemma_base64_standard_shape(rest);
            assert forall|i: int| 0 <= i < out.len() implies base64_symbol(#[trigger] out[i]) by {
                if i >= 4 {
                    assert(out[i] == base64_standard(rest)[i - 4]);
                }
            }
        }
    }
}

/// base64's `STANDARD` engine, `Engine::encode`: the text is `base64_standard(input)`. The
/// encoder panics when the text's length does not fit in `usize`, which `requires` leaves out.
#[verifier::external_body]
fn base64_encode(input: &[u8]) -> (r: Vec<u8>)
    requires
        4 * ((input@.len() + 2) / 3) <= usize::MAX,
    ensures
        r@ == base64_standard(input@),
{
    STANDARD.encode(input).into_bytes()
}

/// The text of an interval line: `Tag=<tag>,` when there is a tag, then the start, the
/// duration and the maximum separated by commas, a comma, the encoded histogram and a
/// newline.
pub open spec fn interval_line_text(
    tag: Option<Seq<u8>>,
    start: Seq<u8>,
    duration: Seq<u8>,
    max: Seq<u8>,
    encoded: Seq<u8>,
) -> Seq<u8> {
    let head = match tag {
        Some(t) => tag_prefix() + t + seq![44u8],
        None => Seq::empty(),
    };
    head + start + seq![44u8] + duration + seq![44u8] + max + seq![44u8] + encoded + seq![10u8]
}

/// The bytes of an optional tag.
pub open spec fn tag_bytes(tag: Option<Tag>) -> Option<Seq<u8>> {
    match tag {
        Some(t) => Some(t.text().spec_bytes()),
        None => None,
    }
}

/// Append `b` to `out`.
fn push_all(out: &mut Vec<u8>, b: &[u8])
    ensures
        final(out)@ == old(out)@ + b@,
{
    let mut i: usize = 0;
    let ghost start = out@;
    while i < b.len()
        invariant
            i <= b@.len(),
            out@ == start + b@.subrange(0, i as int),
        decreases b@.len() - i,
    {
        out.push(b[i]);
        proof {
            assert(b@.subrange(0, i + 1) =~= b@.subrange(0, i as int).push(b@[i as int]));
        }
        i = i + 1;
    }
    proof {
        assert(b@.subrange(0, b@.len() as int) =~= b@);
    }
}

/// Append the interval line for a serialized histogram to `out`: the optional tag, the
/// start, duration and maximum texts as given (decimal texts, as the writer formats them),
/// and the standard base64 text of `serialized`. The base64 text is all symbols of the
/// standard alphabet.
pub fn write_interval_line(
    tag: Option<Tag>,
    start: &str,
    duration: &str,
    max: &str,
    serialized: &[u8],
    out: &mut Vec<u8>,
)
    requires
        4 * ((serialized@.len() + 2) / 3) <= usize::MAX,
    ensures
        final(out)@ == old(out)@ + interval_line_text(
            tag_bytes(tag),
            start.spec_bytes(),
            duration.spec_bytes(),
            max.spec_bytes(),
            base64_standard(serialized@),
        ),
        forall|i: int|
            0 <= i < base64_standard(serialized@).len() ==> base64_symbol(
                #[trigger] base64_standard(serialized@)[i],
            ),
{
    let ghost old_out = out@;
    let encoded = base64_encode(serialized);
    proof {
        lemma_base64_standard_shape(serialized@);
    }
    match tag {
        Some(t) => {
            let lit = prefix_bytes(2);
            push_all(out, lit.as_slice());
            push_all(out, t.as_str().as_bytes());
            out.push(44u8);
        },
        None => {},
    }
    let ghost after_head = out@;
    push_all(out, start.as_bytes());
    out.push(44u8);
    push_all(out, duration.as_bytes());
    out.push(44u8);
    push_all(out, max.as_bytes());
    out.push(44u8);
    push_all(out, encoded.as_slice());
    out.push(10u8);
    proof {
        let head = match tag_bytes(tag) {
            Some(tb) => tag_prefix() + tb + seq![44u8],
            None => Seq::<u8>::empty(),
        };
        assert(after_head =~= old_out + head);
        assert(out@ =~= old_out + interval_line_text(
            tag_bytes(tag),
            start.spec_bytes(),
            duration.spec_bytes(),
            max.spec_bytes(),
            base64_standard(serialized@),
        ));
    }
}

// --------------------------------------------------------------------------------------------
// Reading back what was written
// --------------------------------------------------------------------------------------------

/// A decimal text with a fraction, as a non-negative float printed with a fixed number of
/// decimals reads: one or more digits, a `.`, and one or more digits.
pub open spec fn decimal_text(t: Seq<u8>) -> bool {
    match find_byte(t, 0, 46) {
        Some(k) => {
            &&& 0 < k
            &&& k + 1 < t.len()
            &&& all_digits(t.subrange(0, k as int))
            &&& all_digits(t.subrange(k + 1int, t.len() as int))
        },
        None => false,
    }
}

/// The whole seconds of a decimal text fit in a `u64`.
pub open spec fn decimal_secs_fit(t: Seq<u8>) -> bool {
    digits_value(t.subrange(0, find_byte(t, 0, 46).unwrap() as int)) <= u64::MAX
}

/// The seconds and nanoseconds a decimal text stands for.
pub open spec fn decimal_time(t: Seq<u8>) -> (u64, u32) {
    let k = find_byte(t, 0, 46).unwrap();
    (digits_value(t.subrange(0, k as int)) as u64, nanos_of(t.subrange(k + 1int, t.len() as int)) as u32)
}

/// No byte before the one `find_byte` finds is the byte looked for.
proof fn lemma_find_byte_first(b: Seq<u8>, from: nat, x: u8)
    ensures
        find_byte(b, from, x) matches Some(i) ==> forall|j: int| from <= j < i ==> b[j] != x,
    decreases b.len() - from,
{
    if from < b.len() && b[from as int] != x {
        lemma_find_byte_first(b, from + 1, x);
    }
}

/// `find_byte` finds `x` at `to` when no byte from `from` up to `to` is `x`.
proof fn lemma_find_byte_at(b: Seq<u8>, from: nat, to: nat, x: u8)
    requires
        from <= to < b.len(),
        b[to as int] == x,
        forall|j: int| from <= j < to ==> b[j] != x,
    ensures
        find_byte(b, from, x) == Some(to),
    decreases to - from,
{
    if from < to {
        lemma_find_byte_at(b, from + 1, to, x);
    }
}

/// The run of digits from `from` ends at `to` when every byte up to `to` is a digit and the
/// byte at `to`, if any, is not.
proof fn lemma_digit_run(b: Seq<u8>, from: nat, to: nat)
    requires
        from <= to <= b.len(),
        forall|j: int| from <= j < to ==> is_digit(#[trigger] b[j]),
        to < b.len() ==> !is_digit(b[to as int]),
    ensures
        digit_run_end(b, from) == to,
    decreases to - from,
{
    if from < to {
        lemma_digit_run(b, from + 1, to);
    }
}

/// Bytes below 128 are valid UTF-8.
proof fn lemma_ascii_valid_utf8(s: Seq<u8>)
    requires
        forall|i: int| 0 <= i < s.len() ==> #[trigger] s[i] < 128,
    ensures
        valid_utf8(s),
    decreases s.len(),
{
    if s.len() > 0 {
        let x = s[0];
        assert((x & 0x7f) as u32 <= 0x7f) by (bit_vector);
        let rest = s.subrange(1, s.len() as int);
        assert forall|i: int| 0 <= i < rest.len() implies #[trigger] rest[i] < 128 by {
            assert(rest[i] == s[i + 1]);
        }
        lemma_ascii_valid_utf8(rest);
    }
}

/// A decimal text standing in `b` at `from`, followed by a byte that is not a digit, reads as
/// its seconds and nanoseconds.
proof fn lemma_fract_sec_of(b: Seq<u8>, from: nat, t: Seq<u8>)
    requires
        from + t.len() < b.len(),
        b.subrange(from as int, (from + t.len()) as int) == t,
        decimal_text(t),
        decimal_secs_fit(t),
        !is_digit(b[(from + t.len()) as int]),
    ensures
        fract_sec(b, from) == Some((decimal_time(t).0, decimal_time(t).1, from + t.len())),
{
    let k = find_byte(t, 0, 46).unwrap();
    lemma_find_byte_bounds(t, 0, 46);
    lemma_find_byte_first(t, 0, 46);
    assert forall|j: int| from <= j < from + k implies b[j] != 46 by {
        assert(b[j] == t[j - from]);
        assert(t.subrange(0, k as int)[j - from] == t[j - from]);
    }
    assert(b[(from + k) as int] == t[k as int]);
    lemma_find_byte_at(b, from, from + k, 46);
    let ip = b.subrange(from as int, (from + k) as int);
    assert(ip =~= t.subrange(0, k as int));
    assert(is_digit(t.subrange(0, k as int)[0]));
    assert(ip[0] != 43);
    let fp = t.subrange(k + 1int, t.len() as int);
    assert forall|j: int| from + k + 1 <= j < from + t.len() implies is_digit(#[trigger] b[j]) by {
        assert(b[j] == t[j - from]);
        assert(fp[j - from - k - 1] == t[j - from]);
    }
    lemma_digit_run(b, from + k + 1, from + t.len());
    assert(b.subrange(from + k + 1int, (from + t.len()) as int) =~= fp);
}

/// A decimal text standing in `b` at `from`, followed by a comma, is a float ending there.
proof fn lemma_float_end_of(b: Seq<u8>, from: nat, t: Seq<u8>)
    requires
        from + t.len() < b.len(),
        b.subrange(from as int, (from + t.len()) as int) == t,
        decimal_text(t),
        b[(from + t.len()) as int] == 44,
    ensures
        float_end(b, from) == Some(from + t.len()),
{
    let k = find_byte(t, 0, 46).unwrap();
    lemma_find_byte_bounds(t, 0, 46);
    assert(is_digit(t.subrange(0, k as int)[0]));
    assert(b[from as int] == t[0]);
    assert forall|j: int| from <= j < from + k implies is_digit(#[trigger] b[j]) by {
        assert(b[j] == t[j - from]);
        assert(t.subrange(0, k as int)[j - from] == t[j - from]);
    }
    assert(b[(from + k) as int] == t[k as int]);
    lemma_digit_run(b, from, from + k);
    let fp = t.subrange(k + 1int, t.len() as int);
    assert forall|j: int| from + k + 1 <= j < from + t.len() implies is_digit(#[trigger] b[j]) by {
        assert(b[j] == t[j - from]);
        assert(fp[j - from - k - 1] == t[j - from]);
    }
    lemma_digit_run(b, from + k + 1, from + t.len());
}

/// The `Tag=<tag>,` part of an interval line, empty without a tag.
pub open spec fn line_head(tag: Option<Seq<u8>>) -> Seq<u8> {
    match tag {
        Some(t) => tag_prefix() + t + seq![44u8],
        None => Seq::empty(),
    }
}

/// Where the parts of an interval line stand.
proof fn lemma_line_layout(
    tag: Option<Seq<u8>>,
    start: Seq<u8>,
    duration: Seq<u8>,
    max: Seq<u8>,
    encoded: Seq<u8>,
)
    ensures
        ({
            let line = interval_line_text(tag, start, duration, max, encoded);
            let t0 = line_head(tag).len();
            let c1 = t0 + start.len();
            let c2 = c1 + 1 + duration.len();
            let p3 = c2 + 1 + max.len();
            let nl = p3 + 1 + encoded.len();
            &&& line.len() == nl + 1
            &&& line.subrange(0, t0 as int) == line_head(tag)
            &&& line.subrange(t0 as int, c1 as int) == start
            &&& line[c1 as int] == 44
            &&& line.subrange(c1 + 1int, c2 as int) == duration
            &&& line[c2 as int] == 44
            &&& line.subrange(c2 + 1int, p3 as int) == max
            &&& line[p3 as int] == 44
            &&& line.subrange(p3 + 1int, nl as int) == encoded
            &&& line[nl as int] == 10
            &&& t0 > 0 ==> line[0] == 84
            &&& t0 == 0 && start.len() > 0 ==> line[0] == start[0]
        }),
{
    let line = interval_line_text(tag, start, duration, max, encoded);
    let head = line_head(tag);
    assert(line =~= head + start + seq![44u8] + duration + seq![44u8] + max + seq![44u8] + encoded
        + seq![10u8]);
    let t0 = head.len();
    let c1 = t0 + start.len();
    let c2 = c1 + 1 + duration.len();
    let p3 = c2 + 1 + max.len();
    let nl = p3 + 1 + encoded.len();
    assert(line.subrange(0, t0 as int) =~= head);
    assert(line.subrange(t0 as int, c1 as int) =~= start);
    assert(line.subrange(c1 + 1int, c2 as int) =~= duration);
    assert(line.subrange(c2 + 1int, p3 as int) =~= max);
    assert(line.subrange(p3 + 1int, nl as int) =~= encoded);
    if t0 > 0 {
        assert(line[0] == head[0]);
    }
}

/// The tag part of a written interval line.
proof fn lemma_line_tag_part(tag: Option<Seq<u8>>, line: Seq<u8>)
    requires
        tag matches Some(t) ==> valid_utf8(t) && forall|i: int| 0 <= i < t.len() ==> t[i] != 44,
        line.len() > line_head(tag).len(),
        line.subrange(0, line_head(tag).len() as int) == line_head(tag),
        tag is None ==> is_digit(line[0]),
    ensures
        tag_part(line, 0) == Some(
            (
                match tag {
                    Some(t) => Some((4nat, t.len() + 4)),
                    None => None,
                },
                line_head(tag).len(),
            ),
        ),
{
    match tag {
        Some(t) => {
            let head = line_head(tag);
            assert(head.subrange(0, 4) =~= tag_prefix());
            assert(line.subrange(0, 4) =~= tag_prefix()) by {
                assert forall|j: int| 0 <= j < 4 implies line[j] == tag_prefix()[j] by {
                    assert(line.subrange(0, head.len() as int)[j] == line[j]);
                }
            }
            assert forall|j: int| 4 <= j < 4 + t.len() implies line[j] != 44 by {
                assert(line.subrange(0, head.len() as int)[j] == line[j]);
                assert(head[j] == t[j - 4]);
            }
            assert(line[4 + t.len() as int] == 44) by {
                assert(line.subrange(0, head.len() as int)[4 + t.len() as int] == line[4 + t.len() as int]);
            }
            lemma_find_byte_at(line, 4, 4 + t.len(), 44);
            assert(line.subrange(4, 4 + t.len() as int) =~= t) by {
                assert forall|j: int| 0 <= j < t.len() implies line.subrange(4, 4 + t.len() as int)[j] == t[j] by {
                    assert(line.subrange(0, head.len() as int)[j + 4] == line[j + 4]);
                    assert(head[j + 4] == t[j]);
                }
            }
        },
        None => {
            if has_prefix(line, 0, tag_prefix()) {
                assert(line.subrange(0, 4)[0] == line[0]);
            }
        },
    }
}

/// The interval part of a written interval line, after its tag part.
proof fn lemma_line_interval(
    tag: Option<Seq<u8>>,
    start: Seq<u8>,
    duration: Seq<u8>,
    max: Seq<u8>,
    encoded: Seq<u8>,
)
    requires
        tag matches Some(t) ==> valid_utf8(t) && forall|i: int| 0 <= i < t.len() ==> t[i] != 44,
        decimal_text(start),
        decimal_secs_fit(start),
        decimal_text(duration),
        decimal_secs_fit(duration),
        decimal_text(max),
        forall|i: int| 0 <= i < encoded.len() ==> base64_symbol(#[trigger] encoded[i]),
    ensures
        ({
            let line = interval_line_text(tag, start, duration, max, encoded);
            let p3: nat = line_head(tag).len() + start.len() + duration.len() + max.len() + 2;
            interval_hist_spec(line, 0) == Some(
                (
                    EntryModel::Interval(
                        match tag {
                            Some(t) => Some((4nat, t.len() + 4)),
                            None => None,
                        },
                        decimal_time(start),
                        decimal_time(duration),
                        ((p3 - max.len()) as nat, p3),
                        (p3 + 1, p3 + 1 + encoded.len()),
                    ),
                    line.len(),
                ),
            )
        }),
{
    let line = interval_line_text(tag, start, duration, max, encoded);
    lemma_line_layout(tag, start, duration, max, encoded);
    let t0 = line_head(tag).len();
    let c1 = t0 + start.len();
    let c2 = c1 + 1 + duration.len();
    let p3 = c2 + 1 + max.len();
    let nl = p3 + 1 + encoded.len();
    let k0 = find_byte(start, 0, 46).unwrap();
    lemma_find_byte_bounds(start, 0, 46);
    assert(is_digit(start.subrange(0, k0 as int)[0]));
    lemma_line_tag_part(tag, line);
    lemma_fract_sec_of(line, t0, start);
    lemma_fract_sec_of(line, c1 + 1, duration);
    lemma_float_end_of(line, c2 + 1, max);
    assert forall|j: int| p3 + 1 <= j < nl implies line[j] != 10 by {
        assert(line.subrange(p3 + 1int, nl as int)[j - p3 - 1] == line[j]);
        assert(base64_symbol(encoded[j - p3 - 1]));
    }
    lemma_find_byte_at(line, p3 + 1, nl, 10);
    assert forall|i: int| 0 <= i < encoded.len() implies #[trigger] encoded[i] < 128 by {
        assert(base64_symbol(encoded[i]));
    }
    lemma_ascii_valid_utf8(encoded);
}

/// A line that does not start with `#` is no timestamp header.
proof fn lemma_not_timestamp_line(line: Seq<u8>)
    requires
        line.len() > 0,
        line[0] != 35,
    ensures
        timestamp_line(line, 0, start_time_prefix()) is None,
        timestamp_line(line, 0, base_time_prefix()) is None,
{
    if has_prefix(line, 0, start_time_prefix()) {
        assert(line.subrange(0, 13)[0] == line[0]);
    }
    if has_prefix(line, 0, base_time_prefix()) {
        assert(line.subrange(0, 12)[0] == line[0]);
    }
}

/// Reading back a written interval line: the line `write_interval_line` writes, for a tag that
/// is valid UTF-8 without commas, decimal texts for the start and the duration (whose whole
/// seconds fit in a `u64`) and for the maximum, and base64 text, is read as one interval entry
/// taking the whole line, with that tag, start, duration, maximum text and encoded text.
pub proof fn lemma_interval_line_reads_back(
    tag: Option<Seq<u8>>,
    start: Seq<u8>,
    duration: Seq<u8>,
    max: Seq<u8>,
    encoded: Seq<u8>,
)
    requires
        tag matches Some(t) ==> valid_utf8(t) && forall|i: int| 0 <= i < t.len() ==> t[i] != 44,
        decimal_text(start),
        decimal_secs_fit(start),
        decimal_text(duration),
        decimal_secs_fit(duration),
        decimal_text(max),
        forall|i: int| 0 <= i < encoded.len() ==> base64_symbol(#[trigger] encoded[i]),
    ensures
        ({
            let line = interval_line_text(tag, start, duration, max, encoded);
            let p3: nat = line_head(tag).len() + start.len() + duration.len() + max.len() + 2;
            log_entry_spec(line, 0) == Some(
                (
                    EntryModel::Interval(
                        match tag {
                            Some(t) => Some((4nat, t.len() + 4)),
                            None => None,
                        },
                        decimal_time(start),
                        decimal_time(duration),
                        ((p3 - max.len()) as nat, p3),
                        (p3 + 1, p3 + 1 + encoded.len()),
                    ),
                    line.len(),
                ),
            )
        }),
{
    let line = interval_line_text(tag, start, duration, max, encoded);
    lemma_line_layout(tag, start, duration, max, encoded);
    lemma_line_interval(tag, start, duration, max, encoded);
    let k0 = find_byte(start, 0, 46).unwrap();
    lemma_find_byte_bounds(start, 0, 46);
    assert(start.subrange(0, k0 as int)[0] == start[0]);
    assert(line[0] != 35);
    lemma_not_timestamp_line(line);
    reveal(log_entry_spec);
}

} // verus!
