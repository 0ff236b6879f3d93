use hdrsample::{Counter, Histogram};

/// The rank a quantile asks for: the count that the quantile of the total reaches, rounded
/// up, and at least 1.
fn rank_for<T: Counter>(h: &Histogram<T>, quantile: f64) -> u64 {
    let quantile = if quantile > 1.0 { 1.0 } else { quantile };
    let mut count_at_quantile = (quantile * h.count() as f64).ceil() as u64;
    if count_at_quantile == 0 {
        count_at_quantile = 1;
    }
    count_at_quantile
}

/// The value at a quantile, through the library's scan.
fn value_at_quantile<T: Counter>(h: &Histogram<T>, quantile: f64) -> u64 {
    h.value_at_rank(rank_for(h, quantile), quantile == 0.0)
}

/// A plain linear prefix-sum scan over the counts, as the correctness oracle.
fn linear_reference<T: Counter + Into<u64>>(h: &Histogram<T>, quantile: f64) -> u64 {
    let count_at_quantile = rank_for(h, quantile);
    let mut total: u64 = 0;
    for i in 0..h.len() {
        total += h.count_at_index(i).unwrap().into();
        if total >= count_at_quantile {
            let value_at_index = h.value_for(i);
            return if quantile == 0.0 {
                h.lowest_equivalent(value_at_index)
            } else {
                h.highest_equivalent(value_at_index)
            };
        }
    }
    0
}

/// Deterministic xorshift so the test needs no external rand dependency.
fn xorshift(state: &mut u64) -> u64 {
    *state ^= *state << 13;
    *state ^= *state >> 7;
    *state ^= *state << 17;
    *state
}

fn assert_parity<T: Counter + Into<u64>>(h: &Histogram<T>) {
    // Fine sweep including both edges; the interior points land at assorted
    // cumulative-count boundaries.
    let mut q = 0.0;
    while q <= 1.0 {
        assert_eq!(
            value_at_quantile(h, q),
            linear_reference(h, q),
            "scan != linear at quantile {}",
            q
        );
        q += 0.0013;
    }
    for &q in &[0.0, 1.0] {
        assert_eq!(value_at_quantile(h, q), linear_reference(h, q));
    }
}

#[test]
fn chunked_scan_matches_linear_all_counter_widths() {
    let mut state: u64 = 0x9E37_79B9_7F4A_7C15;
    let configs = [
        (1u64, 100_000u64, 0u8),
        (1, 100, 1),
        (1, 1000, 2),
        (1, 3_600_000_000, 3),
        (1000, 100_000_000, 3),
    ];

    for &(low, high, sig) in &configs {
        // Every counter width.
        let mut h8 = Histogram::<u8>::new_with_bounds(low, high, sig).unwrap();
        let mut h16 = Histogram::<u16>::new_with_bounds(low, high, sig).unwrap();
        let mut h32 = Histogram::<u32>::new_with_bounds(low, high, sig).unwrap();
        let mut h64 = Histogram::<u64>::new_with_bounds(low, high, sig).unwrap();
        for _ in 0..4000 {
            let v = low + xorshift(&mut state) % (high - low + 1);
            // saturating_record keeps small counter types from overflowing while
            // still populating clusters/gaps across the counts.
            h8.saturating_record(v);
            h16.saturating_record(v);
            h32.saturating_record(v);
            h64.saturating_record(v);
        }
        assert_parity(&h8);
        assert_parity(&h16);
        assert_parity(&h32);
        assert_parity(&h64);
    }
}

#[test]
fn chunked_scan_crossing_in_tail() {
    // A sig=0 histogram has sub_bucket_half_count == 1, giving a bin count that is not a
    // multiple of 8.
    let high = 100_000u64;
    let mut h = Histogram::<u64>::new_with_bounds(1, high, 0).unwrap();
    let n = h.len();
    assert_ne!(n % 8, 0, "sig=0 geometry should leave a non-empty tail");
    h.record(1).unwrap();
    h.record(high).unwrap();
    // The top value's index lands in the tail region [ (n/8)*8, n ).
    assert!(h.index_for(high) >= (n / 8) * 8, "crossing element is not in the tail");

    for &q in &[0.0, 0.5, 1.0] {
        assert_eq!(value_at_quantile(&h, q), linear_reference(&h, q));
    }
}
