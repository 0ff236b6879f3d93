use hdrsample::iterators::{HistogramIterator, PickyIterator};
use hdrsample::{AdditionError, CreationError, Histogram, SubtractionError};

fn histo64(low: u64, high: u64, sigfig: u8) -> Histogram<u64> {
    Histogram::<u64>::new_with_bounds(low, high, sigfig).unwrap()
}

fn verify_max(hist: &Histogram<u64>) -> bool {
    if let Some(mx) = hist
        .iter_recorded()
        .iter()
        .map(|v| v.value())
        .map(|v| hist.highest_equivalent(v))
        .last()
    {
        hist.max() == mx
    } else {
        hist.max() == 0
    }
}

fn assert_min_max_count(h: &Histogram<u64>) {
    let mut min = None;
    let mut max = None;
    let mut total: u64 = 0;
    for i in 0..h.len() {
        let value = h.value_for(i);
        let count = h.count_at(value).unwrap();
        if count == 0 {
            continue;
        }

        min = Some(std::cmp::min(min.unwrap_or(u64::max_value()), value));
        max = Some(std::cmp::max(max.unwrap_or(0), value));
        total = total.saturating_add(count);
    }

    let min = min.map(|m| h.lowest_equivalent(m)).unwrap_or(0);
    let max = max.map(|m| h.highest_equivalent(m)).unwrap_or(0);

    assert_eq!(min, h.min());
    assert_eq!(max, h.max());
    assert_eq!(total, h.count());
}

const TRACKABLE_MAX: u64 = 3600 * 1000 * 1000;
// Store up to 2 * 10^3 in single-unit precision. Can be 5 at most.
const SIGFIG: u8 = 3;
const TEST_VALUE_LEVEL: u64 = 4;

#[test]
fn unit_magnitude_0_index_calculations() {
    let h = histo64(1_u64, 1_u64 << 32, 3);
    assert_eq!(2048, h.sub_bucket_count());
    assert_eq!(0, h.unit_magnitude());
    // sub_bucket_count = 2^11, so 2^11 << 22 is > the max of 2^32 for 23 buckets total
    assert_eq!(23, h.buckets());

    // first half of first bucket
    assert_eq!(0, h.bucket_for(3));
    assert_eq!(3, h.sub_bucket_for(3, 0));

    // second half of first bucket
    assert_eq!(0, h.bucket_for(1024 + 3));
    assert_eq!(1024 + 3, h.sub_bucket_for(1024 + 3, 0));

    // second bucket (top half)
    assert_eq!(1, h.bucket_for(2048 + 3 * 2));
    // counting by 2s, starting at halfway through the bucket
    assert_eq!(1024 + 3, h.sub_bucket_for(2048 + 3 * 2, 1));

    // third bucket (top half)
    assert_eq!(2, h.bucket_for((2048 << 1) + 3 * 4));
    // counting by 4s, starting at halfway through the bucket
    assert_eq!(1024 + 3, h.sub_bucket_for((2048 << 1) + 3 * 4, 2));

    // past last bucket -- not near u64::max_value(), so should still calculate ok.
    assert_eq!(23, h.bucket_for((2048_u64 << 22) + 3 * (1 << 23)));
    assert_eq!(1024 + 3, h.sub_bucket_for((2048_u64 << 22) + 3 * (1 << 23), 23));
}

#[test]
fn unit_magnitude_4_index_calculations() {
    let h = histo64(1_u64 << 12, 1_u64 << 32, 3);
    assert_eq!(2048, h.sub_bucket_count());
    assert_eq!(12, h.unit_magnitude());
    // sub_bucket_count = 2^11. With unit magnitude shift, it's 2^23. 2^23 << 10 is > the max of
    // 2^32 for 11 buckets total
    assert_eq!(11, h.buckets());
    let unit = 1_u64 << 12;

    // below lowest value
    assert_eq!(0, h.bucket_for(3));
    assert_eq!(0, h.sub_bucket_for(3, 0));

    // first half of first bucket
    assert_eq!(0, h.bucket_for(3 * unit));
    assert_eq!(3, h.sub_bucket_for(3 * unit, 0));

    // second half of first bucket
    // sub_bucket_half_count's worth of units, plus 3 more
    assert_eq!(0, h.bucket_for(unit * (1024 + 3)));
    assert_eq!(1024 + 3, h.sub_bucket_for(unit * (1024 + 3), 0));

    // second bucket (top half), bucket scale = unit << 1.
    // Middle of bucket is (sub_bucket_half_count = 2^10) of bucket scale, = unit << 11.
    // Add on 3 of bucket scale.
    assert_eq!(1, h.bucket_for((unit << 11) + 3 * (unit << 1)));
    assert_eq!(1024 + 3, h.sub_bucket_for((unit << 11) + 3 * (unit << 1), 1));

    // third bucket (top half), bucket scale = unit << 2.
    // Middle of bucket is (sub_bucket_half_count = 2^10) of bucket scale, = unit << 12.
    // Add on 3 of bucket scale.
    assert_eq!(2, h.bucket_for((unit << 12) + 3 * (unit << 2)));
    assert_eq!(1024 + 3, h.sub_bucket_for((unit << 12) + 3 * (unit << 2), 2));

    // past last bucket -- not near u64::max_value(), so should still calculate ok.
    assert_eq!(11, h.bucket_for((unit << 21) + 3 * (unit << 11)));
    assert_eq!(1024 + 3, h.sub_bucket_for((unit << 21) + 3 * (unit << 11), 11));
}

#[test]
fn unit_magnitude_52_sub_bucket_magnitude_11_index_calculations() {
    // maximum unit magnitude for this precision
    let h = histo64(1_u64 << 52, u64::max_value(), 3);
    assert_eq!(2048, h.sub_bucket_count());
    assert_eq!(52, h.unit_magnitude());
    // sub_bucket_count = 2^11. With unit magnitude shift, it's 2^63. 1 more bucket to (almost)
    // reach 2^64.
    assert_eq!(2, h.buckets());
    assert_eq!(1, h.leading_zero_count_base());
    let unit = 1_u64 << 52;

    // below lowest value
    assert_eq!(0, h.bucket_for(3));
    assert_eq!(0, h.sub_bucket_for(3, 0));

    // first half of first bucket
    assert_eq!(0, h.bucket_for(3 * unit));
    assert_eq!(3, h.sub_bucket_for(3 * unit, 0));

    // second half of first bucket
    // sub_bucket_half_count's worth of units, plus 3 more
    assert_eq!(0, h.bucket_for(unit * (1024 + 3)));
    assert_eq!(1024 + 3, h.sub_bucket_for(unit * (1024 + 3), 0));

    // end of second half
    assert_eq!(0, h.bucket_for(unit * 1024 + 1023 * unit));
    assert_eq!(1024 + 1023, h.sub_bucket_for(unit * 1024 + 1023 * unit, 0));

    // second bucket (top half), bucket scale = unit << 1.
    // Middle of bucket is (sub_bucket_half_count = 2^10) of bucket scale, = unit << 11.
    // Add on 3 of bucket scale.
    assert_eq!(1, h.bucket_for((unit << 11) + 3 * (unit << 1)));
    assert_eq!(1024 + 3, h.sub_bucket_for((unit << 11) + 3 * (unit << 1), 1));

    // upper half of second bucket, last slot
    assert_eq!(1, h.bucket_for(u64::max_value()));
    assert_eq!(1024 + 1023, h.sub_bucket_for(u64::max_value(), 1));
}

#[test]
fn unit_magnitude_53_sub_bucket_magnitude_11_throws() {
    assert_eq!(
        CreationError::CannotRepresentSigFigBeyondLow,
        Histogram::<u64>::new_with_bounds(1_u64 << 53, 1_u64 << 63, 3).unwrap_err()
    );
}

#[test]
fn unit_magnitude_55_sub_bucket_magnitude_8_ok() {
    let h = histo64(1_u64 << 55, 1_u64 << 63, 2);
    assert_eq!(256, h.sub_bucket_count());
    assert_eq!(55, h.unit_magnitude());
    // sub_bucket_count = 2^8. With unit magnitude shift, it's 2^63.
    assert_eq!(2, h.buckets());

    // below lowest value
    assert_eq!(0, h.bucket_for(3));
    assert_eq!(0, h.sub_bucket_for(3, 0));

    // upper half of second bucket, last slot
    assert_eq!(1, h.bucket_for(u64::max_value()));
    assert_eq!(128 + 127, h.sub_bucket_for(u64::max_value(), 1));
}

#[test]
fn unit_magnitude_62_sub_bucket_magnitude_1_ok() {
    let h = histo64(1_u64 << 62, 1_u64 << 63, 0);
    assert_eq!(2, h.sub_bucket_count());
    assert_eq!(62, h.unit_magnitude());
    // sub_bucket_count = 2^1. With unit magnitude shift, it's 2^63.
    assert_eq!(2, h.buckets());

    // below lowest value
    assert_eq!(0, h.bucket_for(3));
    assert_eq!(0, h.sub_bucket_for(3, 0));

    // upper half of second bucket, last slot
    assert_eq!(1, h.bucket_for(u64::max_value()));
    assert_eq!(1, h.sub_bucket_for(u64::max_value(), 1));
}

#[test]
fn new_err_high_not_double_low() {
    let res = Histogram::<u64>::new_with_bounds(10, 15, 0);
    assert_eq!(
        "highest trackable value must be >= 2 * lowest discernible value",
        res.unwrap_err().message()
    );
}

#[test]
fn creation_errors() {
    assert_eq!(CreationError::LowIsZero, Histogram::<u64>::new_with_bounds(0, 15, 0).unwrap_err());
    assert_eq!(
        CreationError::LowExceedsMax,
        Histogram::<u64>::new_with_bounds(u64::max_value() / 2 + 1, u64::max_value(), 0).unwrap_err()
    );
    assert_eq!(CreationError::SigFigExceedsMax, Histogram::<u64>::new_with_bounds(1, 15, 6).unwrap_err());
}

#[test]
fn construction_arg_ranges() {
    assert!(Histogram::<u64>::new_with_max(1, SIGFIG).is_err());
    assert!(Histogram::<u64>::new_with_max(TRACKABLE_MAX, 6).is_err());
}

#[test]
fn empty_histogram() {
    let h = Histogram::<u64>::new(SIGFIG).unwrap();
    assert_eq!(h.min(), 0);
    assert_eq!(h.max(), 0);
    assert!(verify_max(&h));
}

#[test]
fn construction_arg_gets() {
    let h = Histogram::<u64>::new_with_max(TRACKABLE_MAX, SIGFIG).unwrap();
    assert_eq!(h.low(), 1);
    assert_eq!(h.high(), TRACKABLE_MAX);
    assert_eq!(h.sigfig(), SIGFIG);

    let h = Histogram::<u64>::new_with_bounds(1000, TRACKABLE_MAX, SIGFIG).unwrap();
    assert_eq!(h.low(), 1000);
}

#[test]
fn record() {
    let mut h = Histogram::<u64>::new_with_max(TRACKABLE_MAX, SIGFIG).unwrap();
    h.record(TEST_VALUE_LEVEL).unwrap();
    assert_eq!(h.count_at(TEST_VALUE_LEVEL), Ok(1));
    assert_eq!(h.count(), 1);
    assert!(verify_max(&h));
}

#[test]
fn record_past_trackable_max() {
    let mut h = Histogram::<u64>::new_with_max(TRACKABLE_MAX, SIGFIG).unwrap();
    assert!(h.record(3 * TRACKABLE_MAX).is_err());
}

#[test]
fn record_in_interval() {
    let mut h = Histogram::<u64>::new_with_max(TRACKABLE_MAX, SIGFIG).unwrap();
    h.record_correct(TEST_VALUE_LEVEL, TEST_VALUE_LEVEL / 4).unwrap();
    let mut r = Histogram::<u64>::new_with_max(TRACKABLE_MAX, SIGFIG).unwrap();
    r.record(TEST_VALUE_LEVEL).unwrap();

    // The data will include corrected samples:
    assert_eq!(h.count_at((TEST_VALUE_LEVEL * 1) / 4), Ok(1));
    assert_eq!(h.count_at((TEST_VALUE_LEVEL * 2) / 4), Ok(1));
    assert_eq!(h.count_at((TEST_VALUE_LEVEL * 3) / 4), Ok(1));
    assert_eq!(h.count_at((TEST_VALUE_LEVEL * 4) / 4), Ok(1));
    assert_eq!(h.count(), 4);
    // But the raw data will not:
    assert_eq!(r.count_at((TEST_VALUE_LEVEL * 1) / 4), Ok(0));
    assert_eq!(r.count_at((TEST_VALUE_LEVEL * 2) / 4), Ok(0));
    assert_eq!(r.count_at((TEST_VALUE_LEVEL * 3) / 4), Ok(0));
    assert_eq!(r.count_at((TEST_VALUE_LEVEL * 4) / 4), Ok(1));
    assert_eq!(r.count(), 1);

    assert!(verify_max(&h));
}

#[test]
fn reset() {
    let mut h = Histogram::<u64>::new_with_max(TRACKABLE_MAX, SIGFIG).unwrap();
    h.record(TEST_VALUE_LEVEL).unwrap();
    h.reset();

    assert_eq!(h.count_at(TEST_VALUE_LEVEL), Ok(0));
    assert_eq!(h.count(), 0);
    assert!(verify_max(&h));
}

#[test]
fn add() {
    let mut h1 = Histogram::<u64>::new_with_max(TRACKABLE_MAX, SIGFIG).unwrap();
    let mut h2 = Histogram::<u64>::new_with_max(TRACKABLE_MAX, SIGFIG).unwrap();

    h1.record(TEST_VALUE_LEVEL).unwrap();
    h1.record(1000 * TEST_VALUE_LEVEL).unwrap();
    h2.record(TEST_VALUE_LEVEL).unwrap();
    h2.record(1000 * TEST_VALUE_LEVEL).unwrap();
    h1.add(&h2).unwrap();

    assert_eq!(h1.count_at(TEST_VALUE_LEVEL), Ok(2));
    assert_eq!(h1.count_at(1000 * TEST_VALUE_LEVEL), Ok(2));
    assert_eq!(h1.count(), 4);

    let mut big = Histogram::<u64>::new_with_max(2 * TRACKABLE_MAX, SIGFIG).unwrap();
    big.record(TEST_VALUE_LEVEL).unwrap();
    big.record(1000 * TEST_VALUE_LEVEL).unwrap();
    big.record(2 * TRACKABLE_MAX).unwrap();

    // Adding the smaller histogram to the bigger one should work:
    big.add(&h1).unwrap();
    assert_eq!(big.count_at(TEST_VALUE_LEVEL), Ok(3));
    assert_eq!(big.count_at(1000 * TEST_VALUE_LEVEL), Ok(3));
    assert_eq!(big.count_at(2 * TRACKABLE_MAX), Ok(1)); // overflow smaller hist...
    assert_eq!(big.count(), 7);

    // But trying to add a larger histogram into a smaller one should throw an AIOOB:
    assert!(h1.add(&big).is_err());

    assert!(verify_max(&h1));
    assert!(verify_max(&h2));
    assert!(verify_max(&big));
}

#[test]
fn subtract_after_add() {
    let mut h1 = Histogram::<u64>::new_with_max(TRACKABLE_MAX, SIGFIG).unwrap();
    let mut h2 = Histogram::<u64>::new_with_max(TRACKABLE_MAX, SIGFIG).unwrap();

    h1.record(TEST_VALUE_LEVEL).unwrap();
    h1.record(1000 * TEST_VALUE_LEVEL).unwrap();
    h2.record(TEST_VALUE_LEVEL).unwrap();
    h2.record(1000 * TEST_VALUE_LEVEL).unwrap();

    h1.add(&h2).unwrap();
    assert_eq!(h1.count_at(TEST_VALUE_LEVEL), Ok(2));
    assert_eq!(h1.count_at(1000 * TEST_VALUE_LEVEL), Ok(2));
    assert_eq!(h1.count(), 4);

    h1.add(&h2).unwrap();
    assert_eq!(h1.count_at(TEST_VALUE_LEVEL), Ok(3));
    assert_eq!(h1.count_at(1000 * TEST_VALUE_LEVEL), Ok(3));
    assert_eq!(h1.count(), 6);

    h1.subtract(&h2).unwrap();
    assert_eq!(h1.count_at(TEST_VALUE_LEVEL), Ok(2));
    assert_eq!(h1.count_at(1000 * TEST_VALUE_LEVEL), Ok(2));
    assert_eq!(h1.count(), 4);

    assert_min_max_count(&h1);
    assert_min_max_count(&h2);
}

#[test]
fn subtract_to_zero_counts() {
    let mut h1 = Histogram::<u64>::new_with_max(TRACKABLE_MAX, SIGFIG).unwrap();

    h1.record(TEST_VALUE_LEVEL).unwrap();
    h1.record(1000 * TEST_VALUE_LEVEL).unwrap();

    assert_eq!(h1.count_at(TEST_VALUE_LEVEL), Ok(1));
    assert_eq!(h1.count_at(1000 * TEST_VALUE_LEVEL), Ok(1));
    assert_eq!(h1.count(), 2);

    let clone = h1.clone();
    h1.subtract(&clone).unwrap();
    assert_eq!(h1.count_at(TEST_VALUE_LEVEL), Ok(0));
    assert_eq!(h1.count_at(1000 * TEST_VALUE_LEVEL), Ok(0));
    assert_eq!(h1.count(), 0);

    assert_min_max_count(&h1);
}

#[test]
fn subtract_to_negative_counts_error() {
    let mut h1 = Histogram::<u64>::new_with_max(TRACKABLE_MAX, SIGFIG).unwrap();
    let mut h2 = Histogram::<u64>::new_with_max(TRACKABLE_MAX, SIGFIG).unwrap();

    h1.record(TEST_VALUE_LEVEL).unwrap();
    h1.record(1000 * TEST_VALUE_LEVEL).unwrap();
    h2.record_n(TEST_VALUE_LEVEL, 2).unwrap();
    h2.record_n(1000 * TEST_VALUE_LEVEL, 2).unwrap();

    assert_eq!(
        SubtractionError::SubtrahendCountExceedsMinuendCount,
        h1.subtract(&h2).unwrap_err()
    );

    assert_min_max_count(&h1);
    assert_min_max_count(&h2);
}

#[test]
fn subtract_subtrahend_values_outside_minuend_range_error() {
    let mut h1 = Histogram::<u64>::new_with_max(TRACKABLE_MAX, SIGFIG).unwrap();

    h1.record(TEST_VALUE_LEVEL).unwrap();
    h1.record(1000 * TEST_VALUE_LEVEL).unwrap();

    let mut big = Histogram::<u64>::new_with_max(2 * TRACKABLE_MAX, SIGFIG).unwrap();
    big.record(TEST_VALUE_LEVEL).unwrap();
    big.record(1000 * TEST_VALUE_LEVEL).unwrap();
    big.record(2 * TRACKABLE_MAX).unwrap();

    assert_eq!(
        SubtractionError::SubtrahendValuesExceedMinuendRange,
        h1.subtract(&big).unwrap_err()
    );

    assert_min_max_count(&h1);
    assert_min_max_count(&big);
}

#[test]
fn subtract_values_inside_minuend_range_works() {
    let mut h1 = Histogram::<u64>::new_with_max(TRACKABLE_MAX, SIGFIG).unwrap();

    h1.record(TEST_VALUE_LEVEL).unwrap();
    h1.record(1000 * TEST_VALUE_LEVEL).unwrap();

    let mut big = Histogram::<u64>::new_with_max(2 * TRACKABLE_MAX, SIGFIG).unwrap();
    big.record(TEST_VALUE_LEVEL).unwrap();
    big.record(1000 * TEST_VALUE_LEVEL).unwrap();
    big.record(2 * TRACKABLE_MAX).unwrap();

    let big2 = big.clone();
    big.add(&big2).unwrap();
    big.add(&big2).unwrap();

    assert_eq!(big.count_at(TEST_VALUE_LEVEL), Ok(3));
    assert_eq!(big.count_at(1000 * TEST_VALUE_LEVEL), Ok(3));
    assert_eq!(big.count_at(2 * TRACKABLE_MAX), Ok(3)); // overflow smaller hist...
    assert_eq!(big.count(), 9);

    // Subtracting the smaller histogram from the bigger one should work:
    big.subtract(&h1).unwrap();
    assert_eq!(big.count_at(TEST_VALUE_LEVEL), Ok(2));
    assert_eq!(big.count_at(1000 * TEST_VALUE_LEVEL), Ok(2));
    assert_eq!(big.count_at(2 * TRACKABLE_MAX), Ok(3)); // overflow smaller hist...
    assert_eq!(big.count(), 7);

    assert_min_max_count(&h1);
    assert_min_max_count(&big);
}

#[test]
fn subtract_values_strictly_inside_minuend_range_yields_same_min_max_no_restat() {
    let mut h1 = Histogram::<u64>::new_with_max(TRACKABLE_MAX, SIGFIG).unwrap();
    let mut h2 = Histogram::<u64>::new_with_max(TRACKABLE_MAX, SIGFIG).unwrap();

    h1.record(1).unwrap();
    h1.record(10).unwrap();
    h1.record(100).unwrap();
    h1.record(1000).unwrap();

    h2.record(10).unwrap();
    h2.record(100).unwrap();

    // will not require a restat
    h1.subtract(&h2).unwrap();

    assert_eq!(1, h1.min());
    assert_eq!(1000, h1.max());
    assert_eq!(2, h1.count());

    assert_min_max_count(&h1);
    assert_min_max_count(&h2);
}

#[test]
fn subtract_values_at_extent_of_minuend_zero_count_range_recalculates_min_max() {
    let mut h1 = Histogram::<u64>::new_with_max(TRACKABLE_MAX, SIGFIG).unwrap();
    let mut h2 = Histogram::<u64>::new_with_max(TRACKABLE_MAX, SIGFIG).unwrap();

    h1.record(1).unwrap();
    h1.record(10).unwrap();
    h1.record(100).unwrap();
    h1.record(1000).unwrap();

    h2.record(1).unwrap();
    h2.record(1000).unwrap();

    // will trigger a restat because min/max values are having counts subtracted
    h1.subtract(&h2).unwrap();

    assert_eq!(10, h1.min());
    assert_eq!(100, h1.max());

    assert_min_max_count(&h1);
    assert_min_max_count(&h2);
}

#[test]
fn subtract_values_at_extent_of_minuend_nonzero_count_range_recalculates_same_min_max() {
    let mut h1 = Histogram::<u64>::new_with_max(TRACKABLE_MAX, SIGFIG).unwrap();
    let mut h2 = Histogram::<u64>::new_with_max(TRACKABLE_MAX, SIGFIG).unwrap();

    h1.record_n(1, 2).unwrap();
    h1.record_n(10, 2).unwrap();
    h1.record_n(100, 2).unwrap();
    h1.record_n(1000, 2).unwrap();

    h2.record(1).unwrap();
    h2.record(1000).unwrap();

    // will trigger a restat because min/max values are having counts subtracted
    h1.subtract(&h2).unwrap();

    assert_eq!(1, h1.min());
    assert_eq!(1000, h1.max());

    assert_min_max_count(&h1);
    assert_min_max_count(&h2);
}

#[test]
fn subtract_values_within_bucket_precision_of_of_minuend_min_recalculates_min_max() {
    let mut h1 = Histogram::<u64>::new_with_max(u64::max_value(), 3).unwrap();
    let mut h2 = Histogram::<u64>::new_with_max(u64::max_value(), 5).unwrap();

    // sub bucket size is 2 above 2048 with 3 sigfits
    h1.record(3000).unwrap();
    h1.record(3100).unwrap();
    h1.record(3200).unwrap();
    h1.record(3300).unwrap();

    // h2 has 5 sigfits, so bucket size is 1 still
    h2.record(3001).unwrap();

    // will trigger a restat because min/max values are having counts subtracted
    h1.subtract(&h2).unwrap();

    assert_eq!(3100, h1.min());
    assert_eq!(3301, h1.max());

    assert_min_max_count(&h1);
    assert_min_max_count(&h2);
}

#[test]
fn subtract_values_at_minuend_min_recalculates_min_max() {
    let mut h1 = Histogram::<u64>::new_with_max(u64::max_value(), 3).unwrap();
    let mut h2 = Histogram::<u64>::new_with_max(u64::max_value(), 5).unwrap();

    // sub bucket size is 2 above 2048 with 3 sigfits
    h1.record(3000).unwrap();
    h1.record(3100).unwrap();
    h1.record(3200).unwrap();
    h1.record(3300).unwrap();

    // h2 has 5 sigfits, so bucket size is 1 still
    h2.record(3000).unwrap();

    // will trigger a restat because min/max values are having counts subtracted
    h1.subtract(&h2).unwrap();

    assert_eq!(3100, h1.min());
    assert_eq!(3301, h1.max());

    assert_min_max_count(&h1);
    assert_min_max_count(&h2);
}

#[test]
fn subtract_values_within_bucket_precision_of_of_minuend_max_recalculates_min_max() {
    let mut h1 = Histogram::<u64>::new_with_max(u64::max_value(), 3).unwrap();
    let mut h2 = Histogram::<u64>::new_with_max(u64::max_value(), 5).unwrap();

    // sub bucket size is 2 above 2048 with 3 sigfits
    h1.record(3000).unwrap();
    h1.record(3100).unwrap();
    h1.record(3200).unwrap();
    h1.record(3300).unwrap();

    // h2 has 5 sigfits, so bucket size is 1 still
    h2.record(3301).unwrap();

    // will trigger a restat because min/max values are having counts subtracted
    h1.subtract(&h2).unwrap();

    assert_eq!(3000, h1.min());
    assert_eq!(3201, h1.max());

    assert_min_max_count(&h1);
    assert_min_max_count(&h2);
}

#[test]
fn subtract_values_at_minuend_max_recalculates_min_max() {
    let mut h1 = Histogram::<u64>::new_with_max(u64::max_value(), 3).unwrap();
    let mut h2 = Histogram::<u64>::new_with_max(u64::max_value(), 5).unwrap();

    // sub bucket size is 2 above 2048 with 3 sigfits
    h1.record(3000).unwrap();
    h1.record(3100).unwrap();
    h1.record(3200).unwrap();
    h1.record(3300).unwrap();

    // h2 has 5 sigfits, so bucket size is 1 still
    h2.record(3300).unwrap();

    // will trigger a restat because min/max values are having counts subtracted
    h1.subtract(&h2).unwrap();

    assert_eq!(3000, h1.min());
    assert_eq!(3201, h1.max());

    assert_min_max_count(&h1);
    assert_min_max_count(&h2);
}

#[test]
fn subtract_values_minuend_saturated_total_recalculates_saturated() {
    let mut h1 = Histogram::<u64>::new_with_max(u64::max_value(), 3).unwrap();
    let mut h2 = Histogram::<u64>::new_with_max(u64::max_value(), 3).unwrap();

    h1.record_n(1, u64::max_value()).unwrap();
    h1.record_n(10, u64::max_value()).unwrap();
    h1.record_n(100, u64::max_value()).unwrap();
    h1.record_n(1000, u64::max_value()).unwrap();

    h2.record(10).unwrap();
    h2.record(100).unwrap();

    // will trigger a restat - total count is saturated
    h1.subtract(&h2).unwrap();

    // min, max haven't changed
    assert_eq!(1, h1.min());
    assert_eq!(1000, h1.max());
    // still saturated
    assert_eq!(u64::max_value(), h1.count());

    assert_min_max_count(&h1);
    assert_min_max_count(&h2);
}

#[test]
fn subtract_values_minuend_saturated_total_recalculates_not_saturated() {
    let mut h1 = Histogram::<u64>::new_with_max(u64::max_value(), 3).unwrap();
    let mut h2 = Histogram::<u64>::new_with_max(u64::max_value(), 3).unwrap();

    // 3 of these is just under u64::max_value()
    let chunk = (u64::max_value() / 16) * 5;

    h1.record_n(1, chunk).unwrap();
    h1.record_n(10, chunk).unwrap();
    h1.record_n(100, chunk).unwrap();
    h1.record_n(1000, chunk).unwrap();

    h2.record_n(10, chunk).unwrap();

    // will trigger a restat - total count is saturated
    h1.subtract(&h2).unwrap();

    // min, max haven't changed
    assert_eq!(1, h1.min());
    assert_eq!(1000, h1.max());
    // not saturated
    assert_eq!(u64::max_value() / 16 * 15, h1.count());

    assert_min_max_count(&h1);
    assert_min_max_count(&h2);
}

#[test]
fn equivalent_range() {
    let h = Histogram::<u64>::new_with_max(TRACKABLE_MAX, SIGFIG).unwrap();
    assert_eq!(h.equivalent_range(1), 1);
    assert_eq!(h.equivalent_range(2500), 2);
    assert_eq!(h.equivalent_range(8191), 4);
    assert_eq!(h.equivalent_range(8192), 8);
    assert_eq!(h.equivalent_range(10000), 8);
}

#[test]
fn scaled_equivalent_range() {
    let h = Histogram::<u64>::new_with_bounds(1024, TRACKABLE_MAX, SIGFIG).unwrap();
    assert_eq!(h.equivalent_range(1 * 1024), 1 * 1024);
    assert_eq!(h.equivalent_range(2500 * 1024), 2 * 1024);
    assert_eq!(h.equivalent_range(8191 * 1024), 4 * 1024);
    assert_eq!(h.equivalent_range(8192 * 1024), 8 * 1024);
    assert_eq!(h.equivalent_range(10000 * 1024), 8 * 1024);
}

#[test]
fn lowest_equivalent() {
    let h = Histogram::<u64>::new_with_max(TRACKABLE_MAX, SIGFIG).unwrap();
    assert_eq!(h.lowest_equivalent(10007), 10000);
    assert_eq!(h.lowest_equivalent(10009), 10008);
}

#[test]
fn scaled_lowest_equivalent() {
    let h = Histogram::<u64>::new_with_bounds(1024, TRACKABLE_MAX, SIGFIG).unwrap();
    assert_eq!(h.lowest_equivalent(10007 * 1024), 10000 * 1024);
    assert_eq!(h.lowest_equivalent(10009 * 1024), 10008 * 1024);
}

#[test]
fn highest_equivalent() {
    let h = Histogram::<u64>::new_with_max(TRACKABLE_MAX, SIGFIG).unwrap();
    assert_eq!(h.highest_equivalent(8180), 8183);
    assert_eq!(h.highest_equivalent(8191), 8191);
    assert_eq!(h.highest_equivalent(8193), 8199);
    assert_eq!(h.highest_equivalent(9995), 9999);
    assert_eq!(h.highest_equivalent(10007), 10007);
    assert_eq!(h.highest_equivalent(10008), 10015);
}

#[test]
fn scaled_highest_equivalent() {
    let h = Histogram::<u64>::new_with_bounds(1024, TRACKABLE_MAX, SIGFIG).unwrap();
    assert_eq!(h.highest_equivalent(8180 * 1024), 8183 * 1024 + 1023);
    assert_eq!(h.highest_equivalent(8191 * 1024), 8191 * 1024 + 1023);
    assert_eq!(h.highest_equivalent(8193 * 1024), 8199 * 1024 + 1023);
    assert_eq!(h.highest_equivalent(9995 * 1024), 9999 * 1024 + 1023);
    assert_eq!(h.highest_equivalent(10007 * 1024), 10007 * 1024 + 1023);
    assert_eq!(h.highest_equivalent(10008 * 1024), 10015 * 1024 + 1023);
}

#[test]
fn median_equivalent() {
    let h = Histogram::<u64>::new_with_max(TRACKABLE_MAX, SIGFIG).unwrap();
    assert_eq!(h.median_equivalent(4), 4);
    assert_eq!(h.median_equivalent(5), 5);
    assert_eq!(h.median_equivalent(4000), 4001);
    assert_eq!(h.median_equivalent(8000), 8002);
    assert_eq!(h.median_equivalent(10007), 10004);
}

#[test]
fn median_equivalent_doesnt_panic_at_extremes() {
    let h = Histogram::<u64>::new_with_max(u64::max_value(), 3).unwrap();
    let _ = h.median_equivalent(u64::max_value());
    let _ = h.median_equivalent(u64::max_value() - 1);
    let _ = h.median_equivalent(0);
    let _ = h.median_equivalent(1);
}

#[test]
fn scaled_median_equivalent() {
    let h = Histogram::<u64>::new_with_bounds(1024, TRACKABLE_MAX, SIGFIG).unwrap();
    assert_eq!(h.median_equivalent(1024 * 4), 1024 * 4 + 512);
    assert_eq!(h.median_equivalent(1024 * 5), 1024 * 5 + 512);
    assert_eq!(h.median_equivalent(1024 * 4000), 1024 * 4001);
    assert_eq!(h.median_equivalent(1024 * 8000), 1024 * 8002);
    assert_eq!(h.median_equivalent(1024 * 10007), 1024 * 10004);
}

fn are_equal(actual: &Histogram<u64>, expected: &Histogram<u64>) {
    assert!(actual.equals(expected));
    assert_eq!(actual.count_at(TEST_VALUE_LEVEL), expected.count_at(TEST_VALUE_LEVEL));
    assert_eq!(
        actual.count_at(10 * TEST_VALUE_LEVEL),
        expected.count_at(10 * TEST_VALUE_LEVEL)
    );
    assert_eq!(actual.count(), expected.count());
    assert!(verify_max(expected));
    assert!(verify_max(actual));
}

#[test]
fn clone() {
    let mut h = Histogram::<u64>::new_with_max(TRACKABLE_MAX, SIGFIG).unwrap();
    h.record(TEST_VALUE_LEVEL).unwrap();
    h.record(10 * TEST_VALUE_LEVEL).unwrap();

    let max = h.high();
    h.record_correct(max - 1, 31000).unwrap();

    are_equal(&h.clone(), &h);
}

#[test]
fn scaled_clone() {
    let mut h = Histogram::<u64>::new_with_bounds(1000, TRACKABLE_MAX, SIGFIG).unwrap();
    h.record(TEST_VALUE_LEVEL).unwrap();
    h.record(10 * TEST_VALUE_LEVEL).unwrap();

    let max = h.high();
    h.record_correct(max - 1, 31000).unwrap();

    are_equal(&h.clone(), &h);
}

#[test]
fn set_to() {
    let mut h1 = Histogram::<u64>::new_with_max(TRACKABLE_MAX, SIGFIG).unwrap();
    let mut h2 = Histogram::<u64>::new_with_max(TRACKABLE_MAX, SIGFIG).unwrap();
    h1.record(TEST_VALUE_LEVEL).unwrap();
    h1.record(10 * TEST_VALUE_LEVEL).unwrap();

    let max = h1.high();
    h1.record_correct(max - 1, 31000).unwrap();

    h2.set_to(&h1).unwrap();
    are_equal(&h1, &h2);

    h1.record(20 * TEST_VALUE_LEVEL).unwrap();

    h2.set_to(&h1).unwrap();
    are_equal(&h1, &h2);
}

#[test]
fn scaled_set_to() {
    let mut h1 = Histogram::<u64>::new_with_bounds(1000, TRACKABLE_MAX, SIGFIG).unwrap();
    let mut h2 = Histogram::<u64>::new_with_bounds(1000, TRACKABLE_MAX, SIGFIG).unwrap();
    h1.record(TEST_VALUE_LEVEL).unwrap();
    h1.record(10 * TEST_VALUE_LEVEL).unwrap();

    let max = h1.high();
    h1.record_correct(max - 1, 31000).unwrap();

    h2.set_to(&h1).unwrap();
    are_equal(&h1, &h2);

    h1.record(20 * TEST_VALUE_LEVEL).unwrap();

    h2.set_to(&h1).unwrap();
    are_equal(&h1, &h2);
}

fn xorshift(state: &mut u64) -> u64 {
    *state ^= *state << 13;
    *state ^= *state >> 7;
    *state ^= *state << 17;
    *state
}

#[test]
fn random_write_full_value_range_precision_5_no_panic() {
    let mut h = Histogram::<u64>::new_with_bounds(1, u64::max_value(), 5).unwrap();
    let mut state: u64 = 0x0123_4567_89ab_cdef;
    for _ in 0..1_000_000 {
        let mut r = xorshift(&mut state);
        if r == 0 {
            r = 1;
        }
        h.record(r).unwrap();
    }
}

#[test]
fn random_write_full_value_range_precision_0_no_panic() {
    let mut h = Histogram::<u64>::new_with_bounds(1, u64::max_value(), 0).unwrap();
    let mut state: u64 = 0x0fed_cba9_8765_4321;
    for _ in 0..1_000_000 {
        let mut r = xorshift(&mut state);
        if r == 0 {
            r = 1;
        }
        h.record(r).unwrap();
    }
}

#[test]
fn random_write_middle_of_value_range_precision_3_no_panic() {
    let low = 1_000;
    let high = 1_000_000_000;
    let mut h = Histogram::<u64>::new_with_bounds(low, high, 3).unwrap();
    let mut state: u64 = 0x1357_9bdf_2468_ace0;
    for _ in 0..1_000_000 {
        h.record(low + xorshift(&mut state) % (high - low + 1)).unwrap();
    }
}

#[test]
fn value_count_overflow_from_record_saturates_u16() {
    let mut h = Histogram::<u16>::new_with_max(TRACKABLE_MAX, 2).unwrap();

    h.record_n(3, u16::max_value() - 1).unwrap();
    h.record_n(3, u16::max_value() - 1).unwrap();

    // individual count has saturated
    assert_eq!(u16::max_value(), h.count_at(3).unwrap());
    // total is a u64 though
    assert_eq!((u16::max_value() - 1) as u64 * 2, h.count());
}

#[test]
fn value_count_overflow_from_record_saturates_u64() {
    let mut h = Histogram::<u64>::new_with_bounds(1, u64::max_value(), 3).unwrap();

    h.record_n(1, u64::max_value() - 1).unwrap();
    h.record_n(1, u64::max_value() - 1).unwrap();

    assert_eq!(u64::max_value(), h.count_at(1).unwrap());
    assert_eq!(u64::max_value(), h.count());
}

#[test]
fn value_count_overflow_from_record_autoresize_doesnt_panic_saturates() {
    let mut h = Histogram::<u64>::new_with_bounds(1, 10000, 3).unwrap();
    h.auto(true);

    h.record_n(1, u64::max_value() - 1).unwrap();
    h.record_n(1, u64::max_value() - 1).unwrap();

    // forces resize
    h.record_n(1_000_000_000, u64::max_value() - 1).unwrap();
    h.record_n(1_000_000_000, u64::max_value() - 1).unwrap();

    assert_eq!(u64::max_value(), h.count_at(1).unwrap());
    assert_eq!(u64::max_value(), h.count_at(1_000_000_000).unwrap());
    assert_eq!(u64::max_value(), h.count());
}

#[test]
fn value_count_overflow_from_add_same_dimensions_saturates() {
    let mut h = Histogram::<u64>::new_with_bounds(1, u64::max_value(), 3).unwrap();
    let mut h2 = Histogram::<u64>::new_with_bounds(1, u64::max_value(), 3).unwrap();

    h.record_n(1, u64::max_value() - 1).unwrap();
    h2.record_n(1, u64::max_value() - 1).unwrap();

    h.add(&h2).unwrap();
    assert_eq!(u64::max_value(), h.count_at(1).unwrap());
    assert_eq!(u64::max_value(), h.count());
}

#[test]
fn value_count_overflow_from_add_different_precision_saturates() {
    let mut h = Histogram::<u64>::new_with_bounds(1, u64::max_value(), 3).unwrap();
    // different precision
    let mut h2 = Histogram::<u64>::new_with_bounds(1, u64::max_value(), 4).unwrap();

    h.record_n(1, u64::max_value() - 1).unwrap();
    h2.record_n(1, u64::max_value() - 1).unwrap();

    h.add(&h2).unwrap();
    assert_eq!(u64::max_value(), h.count_at(1).unwrap());
    assert_eq!(u64::max_value(), h.count());
}

#[test]
fn value_count_overflow_from_add_with_resize_to_same_dimensions_saturates() {
    let mut h = Histogram::<u64>::new_with_bounds(1, 10_000, 3).unwrap();
    h.auto(true);
    let mut h2 = Histogram::<u64>::new_with_bounds(1, 10_000_000_000, 3).unwrap();

    h.record_n(1, u64::max_value() - 1).unwrap();
    h2.record_n(1, u64::max_value() - 1).unwrap();
    // recording at value == h2 max should trigger h to resize to the same dimensions when added
    h2.record_n(10_000_000_000, u64::max_value() - 1).unwrap();

    h.add(&h2).unwrap();
    assert_eq!(u64::max_value(), h.count_at(1).unwrap());
    assert_eq!(u64::max_value(), h.count());
}

#[test]
fn total_count_overflow_from_record_saturates() {
    let mut h = Histogram::<u64>::new_with_bounds(1, u64::max_value(), 3).unwrap();

    h.record_n(1, u64::max_value() - 1).unwrap();
    h.record_n(10, u64::max_value() - 1).unwrap();

    assert_eq!(u64::max_value() - 1, h.count_at(1).unwrap());
    assert_eq!(u64::max_value() - 1, h.count_at(10).unwrap());
    assert_eq!(u64::max_value(), h.count());
}

#[test]
fn total_count_overflow_from_add_same_dimensions_saturates_calculating_other_addend_total() {
    let mut h = Histogram::<u64>::new_with_bounds(1, u64::max_value(), 3).unwrap();
    let mut h2 = Histogram::<u64>::new_with_bounds(1, u64::max_value(), 3).unwrap();

    h.record_n(1, u64::max_value() - 10).unwrap();
    h2.record_n(10, u64::max_value() - 1).unwrap();
    h2.record_n(20, 10).unwrap();

    // just h2's total would overflow

    h.add(&h2).unwrap();
    assert_eq!(u64::max_value() - 10, h.count_at(1).unwrap());
    assert_eq!(10, h.count_at(20).unwrap());

    // if accumulating total count for h2 had overflowed, we would see max_value - 1000 + 9 here
    assert_eq!(u64::max_value(), h.count());
}

#[test]
fn total_count_overflow_from_add_same_dimensions_saturates_when_added_to_orig_total_count() {
    let mut h = Histogram::<u64>::new_with_bounds(1, u64::max_value(), 3).unwrap();
    let mut h2 = Histogram::<u64>::new_with_bounds(1, u64::max_value(), 3).unwrap();

    h.record_n(1, u64::max_value() - 10).unwrap();
    h2.record_n(10, 9).unwrap();
    h2.record_n(20, 9).unwrap();

    // h2's total wouldn't overflow, but it would when added to h1

    h.add(&h2).unwrap();
    assert_eq!(u64::max_value() - 10, h.count_at(1).unwrap());
    assert_eq!(9, h.count_at(20).unwrap());
    assert_eq!(u64::max_value(), h.count());
}

#[test]
fn total_count_overflow_from_add_different_precision_saturates() {
    let mut h = Histogram::<u64>::new_with_bounds(1, u64::max_value(), 3).unwrap();
    // different precision
    let mut h2 = Histogram::<u64>::new_with_bounds(1, u64::max_value(), 4).unwrap();

    h.record_n(1, u64::max_value() - 1).unwrap();

    h2.record_n(20, u64::max_value() - 1).unwrap();

    h.add(&h2).unwrap();
    assert_eq!(u64::max_value() - 1, h.count_at(1).unwrap());
    assert_eq!(u64::max_value() - 1, h.count_at(20).unwrap());
    assert_eq!(u64::max_value(), h.count());
}

#[test]
fn total_count_overflow_from_add_with_resize_saturates() {
    let mut h = Histogram::<u64>::new_with_bounds(1, 10_000, 3).unwrap();
    h.auto(true);
    let mut h2 = Histogram::<u64>::new_with_bounds(1, 10_000_000_000, 3).unwrap();

    h.record_n(1, u64::max_value() - 1).unwrap();
    h2.record_n(1, u64::max_value() - 1).unwrap();
    h2.record_n(10_000_000_000, u64::max_value() - 1).unwrap();

    h.add(&h2).unwrap();
    assert_eq!(u64::max_value(), h.count_at(1).unwrap());
    assert_eq!(u64::max_value(), h.count());
}

#[test]
fn subtract_underflow_guarded_by_per_value_count_check() {
    let mut h = Histogram::<u64>::new_with_bounds(1, u64::max_value(), 3).unwrap();
    let mut h2 = Histogram::<u64>::new_with_bounds(1, u64::max_value(), 3).unwrap();

    h.record_n(1, 1).unwrap();
    h2.record_n(1, 100).unwrap();

    assert_eq!(
        SubtractionError::SubtrahendCountExceedsMinuendCount,
        h.subtract(&h2).unwrap_err()
    );
}

#[test]
fn histogram_autosizing_edges() {
    let mut histogram = Histogram::<u64>::new(3).unwrap();
    histogram.record((1u64 << 62) - 1).unwrap();
    assert_eq!(histogram.buckets(), 52);
    assert_eq!(histogram.len(), 54272);
    histogram.record(u64::max_value()).unwrap();
    assert_eq!(histogram.buckets(), 54);
    assert_eq!(histogram.len(), 56320);
}

#[test]
fn histogram_autosizing() {
    let mut histogram = Histogram::<u64>::new(3).unwrap();
    for i in 0..63 {
        histogram.record(1u64 << i).unwrap();
    }
    assert_eq!(histogram.buckets(), 53);
    assert_eq!(histogram.len(), 55296);
}

#[test]
fn autosizing_add() {
    let mut histogram1 = Histogram::<u64>::new(2).unwrap();
    let mut histogram2 = Histogram::<u64>::new(2).unwrap();

    histogram1.record(1000u64).unwrap();
    histogram1.record(1000000000u64).unwrap();

    histogram2.add(&histogram1).unwrap();
    assert!(histogram2.equivalent(histogram2.max(), 1000000000u64));
}

#[test]
fn autosizing_across_continuous_range() {
    let mut histogram = Histogram::<u64>::new(2).unwrap();

    for i in 0..10_000_000u64 {
        histogram.record(i).unwrap();
    }
}

const EINTERVAL: u64 = 10000; /* 10 msec expected EINTERVAL */

fn load_raw_and_corrected() -> (Histogram<u64>, Histogram<u64>) {
    let mut hist = Histogram::new_with_max(TRACKABLE_MAX, SIGFIG).unwrap();
    let mut raw = Histogram::new_with_max(TRACKABLE_MAX, SIGFIG).unwrap();
    for _ in 0..10000 {
        hist.record_correct(1000, EINTERVAL).unwrap();
        raw.record(1000).unwrap();
    }
    hist.record_correct(100000000, EINTERVAL).unwrap();
    raw.record(100000000).unwrap();
    (hist, raw)
}

#[test]
fn total_count() {
    let (hist, raw) = load_raw_and_corrected();

    assert_eq!(raw.count(), 10001);
    assert_eq!(hist.count(), 20000);
}

#[test]
fn get_max_value() {
    let (hist, _) = load_raw_and_corrected();

    assert!(hist.equivalent(hist.max(), 100000000));
}

#[test]
fn get_min_value() {
    let (hist, _) = load_raw_and_corrected();

    assert!(hist.equivalent(hist.min(), 1000));
}

#[test]
fn count_between() {
    let (hist, raw) = load_raw_and_corrected();
    assert_eq!(raw.count_between(1000, 1000), Ok(10000));
    assert_eq!(raw.count_between(5000, 150000000), Ok(1));
    assert_eq!(hist.count_between(5000, 150000000), Ok(10000));
}

#[test]
fn count_at() {
    let (hist, raw) = load_raw_and_corrected();
    assert_eq!(raw.count_between(10000, 10010), Ok(0));
    assert_eq!(hist.count_between(10000, 10010), Ok(1));
    assert_eq!(raw.count_at(1000), Ok(10000));
    assert_eq!(hist.count_at(1000), Ok(10000));
}

#[test]
fn clone_correct_matches_record_correct() {
    let (hist, raw) = load_raw_and_corrected();
    let post = raw.clone_correct(EINTERVAL);
    assert_eq!(hist.count(), post.count());
    assert!(hist.equivalent(hist.max(), post.max()));
}

#[test]
fn value_duplication() {
    let (hist, _) = load_raw_and_corrected();
    let histogram1 = hist.clone();

    let mut num = 0;
    let mut ranges = Vec::with_capacity(histogram1.len());
    let mut counts = Vec::with_capacity(histogram1.len());
    for v in histogram1.iter_all() {
        if v.count_since_last_iteration() > 0 {
            ranges.push(v.value());
            counts.push(v.count_since_last_iteration());
        }
        num += 1;
    }
    assert_eq!(num, histogram1.len());

    let mut histogram2 = Histogram::new_with_max(TRACKABLE_MAX, SIGFIG).unwrap();
    for i in 0..ranges.len() {
        histogram2.record_n(ranges[i], counts[i]).unwrap();
    }

    assert!(histogram1.equals(&histogram2), "histograms should be equal after re-recording");
}

#[test]
fn equals_compares_settings_totals_and_counts() {
    let mut a = histo64(1, 100_000, 3);
    let mut b = histo64(1, 100_000, 3);
    assert!(a.equals(&b));
    a.record(500).unwrap();
    assert!(!a.equals(&b));
    b.record(500).unwrap();
    assert!(a.equals(&b));
    let c = histo64(2, 100_000, 3);
    assert!(!c.equals(&b));
}

#[test]
fn add_correct_and_set_to_corrected() {
    let mut src = histo64(1, 100_000, 3);
    src.record(100).unwrap();
    let mut dst = histo64(1, 100_000, 3);
    dst.add_correct(&src, 25).unwrap();
    // 100, then 75, 50, 25 filled in
    assert_eq!(4, dst.count());
    assert_eq!(Ok(1), dst.count_at(25));
    let mut other = histo64(1, 100_000, 3);
    other.record(7).unwrap();
    other.set_to_corrected(&src, 25).unwrap();
    assert_eq!(4, other.count());
    assert_eq!(Ok(0), other.count_at(7));
}

#[test]
fn saturating_record_clamps_to_high() {
    let mut h = Histogram::<u8>::new_with_bounds(1, 1000, 2).unwrap();
    for _ in 0..300 {
        h.saturating_record(5000);
    }
    assert_eq!(255, h.count_at(1000).unwrap());
    assert_eq!(300, h.count());
}

#[test]
fn iter_recorded_non_saturated_total_count() {
    let mut h = Histogram::<u64>::new_with_bounds(1, u64::max_value(), 3).unwrap();

    h.record(1).unwrap();
    h.record(1_000).unwrap();
    h.record(1_000_000).unwrap();

    let expected = vec![1, 1_000, h.highest_equivalent(1_000_000)];
    assert_eq!(
        expected,
        h.iter_recorded().iter().map(|iv| iv.value()).collect::<Vec<u64>>()
    );
}

#[test]
fn iter_recorded_saturated_total_count() {
    let mut h = Histogram::<u64>::new_with_bounds(1, u64::max_value(), 3).unwrap();

    h.record_n(1, u64::max_value()).unwrap();
    h.record_n(1_000, u64::max_value()).unwrap();
    h.record_n(1_000_000, u64::max_value()).unwrap();

    let expected = vec![1, 1_000, h.highest_equivalent(1_000_000)];
    assert_eq!(
        expected,
        h.iter_recorded().iter().map(|iv| iv.value()).collect::<Vec<u64>>()
    );
}

#[test]
fn iter_all_values_all_buckets() {
    let mut h = histo64(1, 8191, 3);

    h.record(1).unwrap();
    h.record(2).unwrap();
    // first in top half
    h.record(1024).unwrap();
    // first in 2nd bucket
    h.record(2048).unwrap();
    // first in 3rd
    h.record(4096).unwrap();
    // smallest value in last sub bucket of third
    h.record(8192 - 4).unwrap();

    let iter_values: Vec<(u64, u64)> =
        h.iter_all().iter().map(|v| (v.value(), v.count_at_value())).collect();

    // 4096 distinct expressible values
    assert_eq!(2048 + 2 * 1024, iter_values.len());

    // value to expected count
    let expected = vec![(1, 1), (2, 1), (1024, 1), (2048 + 1, 1), (4096 + 3, 1), (8192 - 1, 1)];

    let nonzero_count =
        iter_values.iter().filter(|v| v.1 != 0).map(|&v| v).collect::<Vec<(u64, u64)>>();

    assert_eq!(expected, nonzero_count);
}

#[test]
fn iter_all_values_all_buckets_unit_magnitude_2() {
    let mut h = histo64(4, 16384 - 1, 3);

    h.record(4).unwrap();
    // first in top half
    h.record(4096).unwrap();
    // first in second bucket
    h.record(8192).unwrap();
    // smallest value in last sub bucket of second
    h.record(16384 - 8).unwrap();

    let iter_values: Vec<(u64, u64)> =
        h.iter_all().iter().map(|v| (v.value(), v.count_at_value())).collect();

    // magnitude 2 means 2nd bucket is scale of 8 = 2 * 2^2
    assert_eq!(2048 + 1024, iter_values.len());

    // value to expected count
    let expected = vec![(4 + 3, 1), (4096 + 3, 1), (8192 + 7, 1), (16384 - 1, 1)];

    let nonzero_count =
        iter_values.iter().filter(|v| v.1 != 0).map(|&v| v).collect::<Vec<(u64, u64)>>();

    assert_eq!(expected, nonzero_count);
}

#[test]
fn iter_recorded_values_all_buckets() {
    let mut h = histo64(1, 8191, 3);

    h.record(1).unwrap();
    h.record(2).unwrap();
    // first in top half
    h.record(1024).unwrap();
    // first in 2nd bucket
    h.record(2048).unwrap();
    // first in 3rd
    h.record(4096).unwrap();
    // smallest value in last sub bucket of third
    h.record(8192 - 4).unwrap();

    let iter_values: Vec<(u64, u64)> =
        h.iter_recorded().iter().map(|v| (v.value(), v.count_at_value())).collect();

    let expected = vec![(1, 1), (2, 1), (1024, 1), (2048 + 1, 1), (4096 + 3, 1), (8192 - 1, 1)];

    assert_eq!(expected, iter_values);
}

#[test]
fn iter_recorded_values_all_buckets_unit_magnitude_2() {
    let mut h = histo64(4, 16384 - 1, 3);

    h.record(4).unwrap();
    // first in top half
    h.record(4096).unwrap();
    // first in second bucket
    h.record(8192).unwrap();
    // smallest value in last sub bucket of second
    h.record(16384 - 8).unwrap();

    let iter_values: Vec<(u64, u64)> =
        h.iter_recorded().iter().map(|v| (v.value(), v.count_at_value())).collect();

    let expected = vec![(4 + 3, 1), (4096 + 3, 1), (8192 + 7, 1), (16384 - 1, 1)];

    assert_eq!(expected, iter_values);
}

#[test]
fn value_at_rank_and_count_at_or_below() {
    let mut h = histo64(1, 100_000, 3);
    h.record(1).unwrap();
    h.record(2).unwrap();
    h.record_n(2, 3).unwrap();
    // rank 0 is read as 1
    assert_eq!(1, h.value_at_rank(0, false));
    assert_eq!(1, h.value_at_rank(1, false));
    assert_eq!(2, h.value_at_rank(2, false));
    assert_eq!(2, h.value_at_rank(5, false));
    // beyond the total
    assert_eq!(0, h.value_at_rank(6, false));
    h.record(5000).unwrap();
    assert_eq!(h.highest_equivalent(5000), h.value_at_rank(6, false));
    assert_eq!(h.lowest_equivalent(5000), h.value_at_rank(6, true));
    assert_eq!(1, h.count_at_or_below(1));
    assert_eq!(5, h.count_at_or_below(4999));
    assert_eq!(6, h.count_at_or_below(u64::max_value()));
}

#[test]
fn iter_linear_count_since_last_iteration_saturates() {
    let mut h = Histogram::<u64>::new_with_bounds(1, u64::max_value(), 3).unwrap();

    h.record_n(1, u64::max_value()).unwrap();
    h.record_n(4, u64::max_value() - 1).unwrap();
    h.record_n(5, u64::max_value() - 1).unwrap();
    h.record_n(6, 100).unwrap();
    h.record_n(7, 200).unwrap();
    h.record_n(10, 400).unwrap();

    let expected = vec![
        // 0-1 has 1's max value
        (1, u64::max_value()),
        // 2-3 has nothing
        (3, 0),
        // 4-5 has 2x (max - 1), should saturate
        (5, u64::max_value()),
        // 6-7 shouldn't be saturated from 4-5
        (7, 300),
        // 8-9 has nothing
        (9, 0),
        // 10-11 has just 10's count
        (11, 400),
    ];

    // step in 2s to test count accumulation for each step
    assert_eq!(
        expected,
        h.iter_linear(2)
            .iter()
            .map(|iv| (iv.value(), iv.count_since_last_iteration()))
            .collect::<Vec<(u64, u64)>>()
    );
}

fn record_bucket_edges(h: &mut Histogram<u64>) {
    h.record(1).unwrap();
    h.record(2047).unwrap();
    // bucket size 2
    h.record(2048).unwrap();
    h.record(2049).unwrap();
    h.record(4095).unwrap();
    // bucket size 4
    h.record(4096).unwrap();
    h.record(4097).unwrap();
    h.record(4098).unwrap();
    h.record(4099).unwrap();
    // 2nd bucket in size 4
    h.record(4100).unwrap();
}

#[test]
fn iter_linear_visits_buckets_wider_than_step_size_multiple_times() {
    let mut h = Histogram::<u64>::new_with_bounds(1, u64::max_value(), 3).unwrap();
    record_bucket_edges(&mut h);

    let iter_values = h
        .iter_linear(1)
        .iter()
        .map(|iv| (iv.value(), iv.count_since_last_iteration()))
        .collect::<Vec<(u64, u64)>>();

    // bucket size 1
    assert_eq!((0, 0), iter_values[0]);
    assert_eq!((1, 1), iter_values[1]);
    assert_eq!((2046, 0), iter_values[2046]);
    assert_eq!((2047, 1), iter_values[2047]);
    // bucket size 2
    assert_eq!((2048, 2), iter_values[2048]);
    assert_eq!((2049, 0), iter_values[2049]);
    assert_eq!((2050, 0), iter_values[2050]);
    assert_eq!((2051, 0), iter_values[2051]);
    assert_eq!((4094, 1), iter_values[4094]);
    assert_eq!((4095, 0), iter_values[4095]);
    // bucket size 4
    assert_eq!((4096, 4), iter_values[4096]);
    assert_eq!((4097, 0), iter_values[4097]);
    assert_eq!((4098, 0), iter_values[4098]);
    assert_eq!((4099, 0), iter_values[4099]);
    // also size 4, last bucket
    assert_eq!((4100, 1), iter_values[4100]);
    assert_eq!((4101, 0), iter_values[4101]);
    assert_eq!((4102, 0), iter_values[4102]);
    assert_eq!((4103, 0), iter_values[4103]);

    assert_eq!(4104, iter_values.len());
}

#[test]
fn iter_linear_visits_buckets_once_when_step_size_equals_bucket_size() {
    let mut h = Histogram::<u64>::new_with_bounds(1, u64::max_value(), 3).unwrap();
    record_bucket_edges(&mut h);

    let iter_values = h
        .iter_linear(4)
        .iter()
        .map(|iv| (iv.value(), iv.count_since_last_iteration()))
        .collect::<Vec<(u64, u64)>>();

    // bucket size 1
    assert_eq!((3, 1), iter_values[0]);
    assert_eq!((2047, 1), iter_values[511]);
    // bucket size 2
    assert_eq!((2051, 2), iter_values[512]);
    assert_eq!((4095, 1), iter_values[1023]);
    // bucket size 4
    assert_eq!((4099, 4), iter_values[1024]);
    // also size 4, last bucket
    assert_eq!((4103, 1), iter_values[1025]);

    assert_eq!(1026, iter_values.len());
}

#[test]
fn iter_linear_bucket_values_size_8_all_buckets() {
    // two buckets: 32 sub-buckets with scale 1, 16 with scale 2
    let mut h = histo64(1, 63, 1);

    assert_eq!(48, h.len());

    h.record(3).unwrap();
    h.record(4).unwrap();
    h.record(7).unwrap();

    // top half of first bucket
    h.record(24).unwrap();
    h.record(25).unwrap();

    h.record(61).unwrap();
    // stored in same sub bucket as last value
    h.record(62).unwrap();
    // in last sub bucket of 2nd bucket
    h.record(63).unwrap();

    let iter_values: Vec<(u64, u64, u64)> = h
        .iter_linear(8)
        .iter()
        .map(|v| (v.value(), v.count_since_last_iteration(), v.count_at_value()))
        .collect();

    let expected = vec![
        (7, 3, 1),
        (15, 0, 0),
        (23, 0, 0),
        (31, 2, 0),
        (39, 0, 0),
        (47, 0, 0),
        (55, 0, 0),
        (63, 3, 2),
    ];

    assert_eq!(expected, iter_values);
}

#[test]
fn linear_iter_steps() {
    let mut histogram = Histogram::<u64>::new(2).unwrap();
    histogram.record(193).unwrap();
    histogram.record(0).unwrap();
    histogram.record(1).unwrap();
    histogram.record(64).unwrap();
    histogram.record(128).unwrap();
    assert_eq!(histogram.iter_linear(64).len(), 4);
}

#[test]
fn linear_iter() {
    let (hist, raw) = load_raw_and_corrected();

    // Iterate raw data using linear buckets of 100 msec each.
    let mut num = 0;
    for (i, v) in raw.iter_linear(100000).iter().enumerate() {
        match i {
            // Raw Linear 100 msec bucket # 0 added a count of 10000
            0 => assert_eq!(v.count_since_last_iteration(), 10000),
            // Raw Linear 100 msec bucket # 999 added a count of 1
            999 => assert_eq!(v.count_since_last_iteration(), 1),
            // Remaining raw Linear 100 msec buckets add a count of 0
            _ => assert_eq!(v.count_since_last_iteration(), 0),
        }
        num += 1;
    }
    assert_eq!(num, 1000);

    num = 0;
    let mut total_added_counts = 0;
    // Iterate data using linear buckets of 10 msec each.
    for (i, v) in hist.iter_linear(10000).iter().enumerate() {
        if i == 0 {
            assert_eq!(v.count_since_last_iteration(), 10000);
        }
        total_added_counts += v.count_since_last_iteration();
        num += 1;
    }
    // There should be 10000 linear buckets of size 10000 usec between 0 and 100 sec.
    assert_eq!(num, 10000);
    assert_eq!(total_added_counts, 20000);

    num = 0;
    total_added_counts = 0;
    // Iterate data using linear buckets of 1 msec each.
    for (i, v) in hist.iter_linear(1000).iter().enumerate() {
        if i == 1 {
            assert_eq!(v.count_since_last_iteration(), 10000);
        }
        total_added_counts += v.count_since_last_iteration();
        num += 1
    }
    // The last populated bin at 100 seconds is wider than the 1 msec step, so the iteration
    // runs to the end of that bin.
    assert_eq!(num, 100007);
    assert_eq!(total_added_counts, 20000);
}

/// Picks each bin with a count once, and goes `extra` bins past the maximum.
struct NonZeroOnce<'a> {
    hist: &'a Histogram<u64>,
    last: Option<usize>,
    extra: usize,
}

impl<'a> PickyIterator<u64> for NonZeroOnce<'a> {
    fn pick(&mut self, index: usize, _: u64) -> bool {
        if self.last == Some(index) {
            return false;
        }
        if self.hist.count_at_index(index).unwrap() != 0 || self.extra_mode() {
            self.last = Some(index);
            true
        } else {
            false
        }
    }

    fn more(&mut self, _: usize) -> bool {
        if self.extra > 0 {
            self.extra -= 1;
            true
        } else {
            false
        }
    }
}

impl<'a> NonZeroOnce<'a> {
    fn extra_mode(&self) -> bool {
        self.last.map_or(false, |i| i >= self.hist.index_for(self.hist.max()))
    }
}

fn run_picker(h: &Histogram<u64>, extra: usize) -> Vec<(u64, u64, u64, u64)> {
    let mut it = HistogramIterator::new(h, NonZeroOnce { hist: h, last: None, extra });
    let mut out = Vec::new();
    while let Some(v) = it.next() {
        out.push((v.value(), v.count_at_value(), v.count_since_last_iteration(), v.total_count_to_index()));
    }
    // an ended iteration stays ended
    assert!(it.next().is_none());
    out
}

#[test]
fn picky_iteration_reports_picked_bins() {
    let mut h = histo64(1, 100_000, 3);
    h.record(1).unwrap();
    h.record(3).unwrap();
    h.record_n(1000, 2).unwrap();
    h.record(5000).unwrap();

    let steps = run_picker(&h, 0);
    assert_eq!(
        steps,
        vec![
            (1, 1, 1, 1),
            (3, 1, 1, 2),
            (1000, 2, 2, 4),
            (h.highest_equivalent(5000), 1, 1, 5),
        ]
    );
    // the picker's steps agree with the recorded iteration
    let recorded: Vec<(u64, u64, u64, u64)> = h
        .iter_recorded()
        .iter()
        .map(|v| (v.value(), v.count_at_value(), v.count_since_last_iteration(), v.total_count_to_index()))
        .collect();
    assert_eq!(steps, recorded);
}

#[test]
fn picky_iteration_goes_on_past_the_maximum_while_asked() {
    let mut h = histo64(1, 100_000, 3);
    h.record(2).unwrap();
    h.record(4).unwrap();

    let steps = run_picker(&h, 2);
    // past the bin of the maximum the picker is asked twice whether to go on: once at that
    // bin again, once at the next, where it reports an empty step
    assert_eq!(steps, vec![(2, 1, 1, 1), (4, 1, 1, 2), (5, 0, 0, 2)]);
}

#[test]
fn picky_iteration_of_empty_histogram_is_empty() {
    let h = histo64(1, 100_000, 3);
    assert!(run_picker(&h, 0).is_empty());
}

#[test]
fn add_beyond_range_without_auto_resize_fails() {
    let mut small = histo64(1, 1000, 3);
    small.record(5).unwrap();
    let mut big = histo64(1, 100_000, 3);
    big.record(50_000).unwrap();
    assert_eq!(Err(AdditionError::OtherAddendValuesExceedRange), small.add(&big));
    // nothing changed
    assert_eq!(1, small.count());
    assert_eq!(1, small.count_at(5).unwrap());
    // with auto-resize the sum goes through
    small.auto(true);
    small.add(&big).unwrap();
    assert_eq!(2, small.count());
    assert_eq!(1, small.count_at(50_000).unwrap());
}

#[test]
fn high_less_than_twice_low_is_refused() {
    assert!(matches!(
        Histogram::<u64>::new_with_bounds(10, 19, 3),
        Err(CreationError::HighLessThanTwiceLow)
    ));
    assert!(Histogram::<u64>::new_with_bounds(10, 20, 3).is_ok());
}

#[test]
fn equivalent_values_share_a_bin_within_precision() {
    let h = histo64(1, u64::max_value(), 3);
    for &v in &[0u64, 1, 2047, 2048, 10_007, 1_000_000, u64::max_value() / 3, u64::max_value()] {
        let lo = h.lowest_equivalent(v);
        let hi = h.highest_equivalent(v);
        assert!(lo <= v && v <= hi);
        assert!(h.equivalent(lo, v) && h.equivalent(hi, v));
        assert_eq!(h.index_for(lo), h.index_for(v));
        assert_eq!(h.value_for(h.index_for(v)), lo);
        // three significant digits: the bin is at most a thousandth of the value wide
        if v >= 1000 {
            assert!(h.equivalent_range(v) * 1000 <= v);
        } else {
            assert_eq!(1, h.equivalent_range(v));
        }
    }
}

#[test]
fn record_reads_back() {
    let mut h = histo64(1, 100_000, 3);
    h.record_n(5000, 3).unwrap();
    let before = h.count_at(5001).unwrap();
    h.record(5000).unwrap();
    // 5000 and 5001 share a bin at this precision
    assert!(h.equivalent(5000, 5001));
    assert_eq!(before + 1, h.count_at(5001).unwrap());
    assert_eq!(0, h.count_at(6000).unwrap());
    assert_eq!(4, h.count());
}

#[test]
fn subtract_undoes_add_without_saturation() {
    let mut a = histo64(1, 100_000, 3);
    a.record(7).unwrap();
    a.record_n(900, 4).unwrap();
    let mut b = histo64(1, 100_000, 3);
    b.record(7).unwrap();
    b.record_n(90_000, 2).unwrap();
    let orig = a.clone();
    a.add(&b).unwrap();
    a.subtract(&b).unwrap();
    for i in 0..a.len() {
        assert_eq!(orig.count_at_index(i), a.count_at_index(i));
    }
    assert_eq!(orig.count(), a.count());
}

#[test]
fn rank_reaches_its_bin() {
    let mut h = histo64(1, 100_000, 3);
    h.record_n(10, 3).unwrap();
    h.record_n(20_000, 2).unwrap();
    for rank in 1..=5u64 {
        let v = h.value_at_rank(rank, false);
        assert!(h.count_at_or_below(v) >= rank);
        let low = h.value_at_rank(rank, true);
        assert!(h.equivalent(low, v));
    }
    // a rank beyond the total is reached nowhere
    assert_eq!(0, h.value_at_rank(6, false));
}

#[test]
fn iter_recorded() {
    let (hist, raw) = load_raw_and_corrected();

    // Iterate raw data by stepping through every value that has a count recorded:
    let mut num = 0;
    for (i, v) in raw.iter_recorded().iter().enumerate() {
        match i {
            // Raw recorded value bucket # 0 added a count of 10000
            0 => assert_eq!(v.count_since_last_iteration(), 10000),
            // Remaining recorded value buckets add a count of 1
            _ => assert_eq!(v.count_since_last_iteration(), 1),
        }
        num += 1;
    }
    assert_eq!(num, 2);

    num = 0;
    let mut total_added_counts = 0;
    for (i, v) in hist.iter_recorded().iter().enumerate() {
        if i == 0 {
            assert_eq!(v.count_since_last_iteration(), 10000);
        }

        // The count in a recorded iterator value should never be zero
        assert!(v.count_at_value() != 0);
        // The count in a recorded iterator value should exactly match the amount added since the
        // last iteration
        assert_eq!(v.count_at_value(), v.count_since_last_iteration());

        total_added_counts += v.count_since_last_iteration();
        num += 1;
    }
    assert!(num > 0);
    assert_eq!(total_added_counts, 20000);
}

#[test]
fn iter_all() {
    let (hist, raw) = load_raw_and_corrected();

    let mut num = 0;
    for (i, v) in raw.iter_all().iter().enumerate() {
        if i == 1000 {
            assert_eq!(v.count_since_last_iteration(), 10000);
        } else if hist.equivalent(v.value(), 100000000) {
            assert_eq!(v.count_since_last_iteration(), 1);
        } else {
            assert_eq!(v.count_since_last_iteration(), 0);
        }
        num += 1;
    }
    assert_eq!(num, hist.len());

    num = 0;
    let mut total_added_counts = 0;
    for (i, v) in hist.iter_all().iter().enumerate() {
        if i == 1000 {
            assert_eq!(v.count_since_last_iteration(), 10000);
        }

        // The count in iter_all buckets should exactly match the amount added since the last iteration
        assert_eq!(v.count_at_value(), v.count_since_last_iteration());
        total_added_counts += v.count_since_last_iteration();
        // value_for(index) should be equivalent to the value iterated to
        assert!(hist.equivalent(hist.value_for(i), v.value()));
        num += 1;
    }
    assert_eq!(num, hist.len());
    assert_eq!(total_added_counts, 20000);
}

#[test]
fn iterations_report_a_histogram_of_zeros() {
    let mut h = histo64(1, 1000, 3);
    h.record_n(0, 3).unwrap();
    let steps: Vec<(u64, u64, u64, u64)> = h
        .iter_recorded()
        .iter()
        .map(|v| (v.value(), v.count_at_value(), v.count_since_last_iteration(), v.total_count_to_index()))
        .collect();
    assert_eq!(vec![(0, 3, 3, 3)], steps);

    let linear: Vec<(u64, u64, u64)> = h
        .iter_linear(1)
        .iter()
        .map(|v| (v.value(), v.count_since_last_iteration(), v.total_count_to_index()))
        .collect();
    assert_eq!(vec![(0, 3, 3)], linear);

    let all = h.iter_all();
    assert_eq!(h.len(), all.len());
    assert_eq!(3, all[0].count_since_last_iteration());
    assert_eq!(3, all[1].total_count_to_index());

    assert_eq!(vec![(0, 3, 3, 3)], run_picker(&h, 0));
}

#[test]
fn iterations_of_an_empty_histogram() {
    let h = histo64(1, 1000, 3);
    assert!(h.iter_recorded().is_empty());
    let all = h.iter_all();
    assert_eq!(h.len(), all.len());
    assert!(all.iter().all(|v| v.count_since_last_iteration() == 0 && v.total_count_to_index() == 0));
}

#[test]
fn iter_linear_over_the_full_range_with_no_significant_digits() {
    let mut h = Histogram::<u64>::new_with_max(u64::max_value(), 0).unwrap();
    assert_eq!(65, h.len());
    h.record(5).unwrap();
    h.record(1 << 40).unwrap();
    let steps = h.iter_linear(1 << 60);
    assert!(!steps.is_empty());
    // levels go up by the step
    for (k, v) in steps.iter().enumerate() {
        assert_eq!((k as u128 + 1) * (1u128 << 60) - 1, v.value() as u128);
    }
    let added: u64 = steps.iter().map(|v| v.count_since_last_iteration()).sum();
    assert_eq!(2, added);
    assert_eq!(2, steps.last().unwrap().total_count_to_index());
}

#[test]
fn picky_iteration_step_by_step() {
    let mut h = histo64(1, 100_000, 3);
    h.record_n(3, 2).unwrap();
    h.record(7).unwrap();
    let mut it = HistogramIterator::new(&h, NonZeroOnce { hist: &h, last: None, extra: 0 });
    // bin 0: counted, not picked, moves on
    it.count_bin();
    assert!(it.answer_pick(false).is_none());
    it.count_bin();
    assert!(it.answer_pick(false).is_none());
    it.count_bin();
    assert!(it.answer_pick(false).is_none());
    // bin 3: counted and picked
    it.count_bin();
    let v = it.answer_pick(true).unwrap();
    assert_eq!((3, 2, 2, 2), (v.value(), v.count_at_value(), v.count_since_last_iteration(), v.total_count_to_index()));
    // the bin is offered again: this picker had not been asked, so it picks it, with nothing
    // added since the step before
    let v = it.next().unwrap();
    assert_eq!((3, 2, 0, 2), (v.value(), v.count_at_value(), v.count_since_last_iteration(), v.total_count_to_index()));
    // then on to the bin of 7 and no further
    let v = it.next().unwrap();
    assert_eq!((7, 1, 1, 3), (v.value(), v.count_at_value(), v.count_since_last_iteration(), v.total_count_to_index()));
    assert!(it.next().is_none());
    assert!(it.next().is_none());
}

#[test]
fn add_keeps_larger_max_and_smaller_min() {
    let mut a = Histogram::<u64>::new_with_bounds(1, 100_000, 3).unwrap();
    let mut b = Histogram::<u64>::new_with_bounds(1, 100_000, 3).unwrap();
    a.record(10).unwrap();
    a.record(1000).unwrap();
    b.record(5).unwrap();
    b.record(5000).unwrap();
    let (a_max, a_min) = (a.max(), a.min_nz());
    let (b_max, b_min) = (b.max(), b.min_nz());
    let mut ab = a.clone();
    ab.add(&b).unwrap();
    assert_eq!(ab.max(), a_max.max(b_max));
    assert_eq!(ab.min_nz(), a_min.min(b_min));
    let mut ba = b.clone();
    ba.add(&a).unwrap();
    assert_eq!(ba.max(), ab.max());
    assert_eq!(ba.min_nz(), ab.min_nz());
    assert_eq!(ba.count(), ab.count());
}

#[test]
fn set_to_takes_source_extremes() {
    let mut h = Histogram::<u64>::new_with_bounds(1, 100_000, 3).unwrap();
    h.record(1).unwrap();
    h.record(90_000).unwrap();
    let mut src = Histogram::<u64>::new_with_bounds(1, 100_000, 3).unwrap();
    src.record(300).unwrap();
    src.record(4000).unwrap();
    h.set_to(&src).unwrap();
    assert_eq!(h.max(), src.max());
    assert_eq!(h.min_nz(), src.min_nz());
    assert_eq!(h.count(), src.count());
    assert!(h.equals(&src));
}

#[test]
fn record_n_correct_is_record_n_in_turn() {
    let mut corrected = histo64(1, 100_000, 3);
    corrected.record(5).unwrap();
    let mut in_turn = corrected.clone();
    corrected.record_n_correct(1000, 3, 300).unwrap();
    // 1000 / 300 = 3 corrected values: 1000, 700, 400
    for v in [1000u64, 700, 400] {
        in_turn.record_n(v, 3).unwrap();
    }
    assert!(corrected.equals(&in_turn));
    assert_eq!(10, corrected.count());
    assert_eq!(corrected.max(), in_turn.max());
    assert_eq!(corrected.min_nz(), in_turn.min_nz());
    for v in [5u64, 400, 700, 1000] {
        assert_eq!(corrected.count_at(v), in_turn.count_at(v));
    }
}

#[test]
fn subtract_after_add_restores_count_min_and_max() {
    let mut a = histo64(1, 1_000_000, 3);
    a.record(500).unwrap();
    a.record_n(20_000, 3).unwrap();
    let mut b = histo64(1, 1_000_000, 3);
    b.record(7).unwrap();
    b.record(900_000).unwrap();
    let orig = a.clone();
    a.add(&b).unwrap();
    assert_eq!(a.max(), b.max());
    assert_eq!(a.min_nz(), b.min_nz());
    a.subtract(&b).unwrap();
    assert!(a.equals(&orig));
    assert_eq!(orig.count(), a.count());
    assert_eq!(orig.max(), a.max());
    assert_eq!(orig.min_nz(), a.min_nz());
    assert_eq!(a.highest_equivalent(20_000), a.max());
    assert_eq!(a.lowest_equivalent(500), a.min_nz());
}

#[test]
fn index_reads_the_count_of_a_bin() {
    let mut h = histo64(1, 100_000, 3);
    h.record_n(1234, 5).unwrap();
    let i = h.index_for(1234);
    assert_eq!(5, h[i]);
    assert_eq!(0, h[i + 1]);
    assert_eq!(h.count_at_index(i), Some(h[i]));
}
