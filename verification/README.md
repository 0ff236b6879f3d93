# hdrsample

A High Dynamic Range (HDR) histogram: it records counts of integer values over a large,
configurable range while keeping a configurable number of significant decimal digits of
precision for every value. The library is written in Verus, and every function in `src/`
carries a contract that Verus proves.

## Layout

- `src/counter.rs` — the `Counter` trait for the integer types a histogram counts in.
- `src/math.rs` — the value-to-bin arithmetic (buckets, sub-buckets, bit lengths) as spec
  functions, with the lemmas about them.
- `src/histogram.rs` — `Histogram`: creation, recording (plain, clamped, corrected for
  coordinated omission), adding, subtracting, resizing, the value/bin mapping and the
  statistics that are integers. Laws: equivalent values share a bin, the precision kept for
  each value, reading back a record, adding commutes and keeps the extremes, setting to a
  source copies it, correcting is recording each corrected value in turn, recomputing the
  statistics from the counts keeps them, and subtracting undoes adding, statistics included.
- `src/iterators.rs` — iterations over the bins (recorded, all, linear steps, and a generic
  one whose steps a `PickyIterator` picks, with a record of every call made to the picker),
  ranks and counts at or below a value. Law: the value at a rank lies in the first bin where
  the running total reaches it.
- `src/serialization.rs` — the V2 binary format and its DEFLATE-compressed form: varints,
  zig-zag, counts encoding, serializing and deserializing. Laws: varint and zig-zag round
  trips, a varint's value in closed form, and deserializing what was serialized gives back
  the histogram, its statistics included.
- `src/interval_log.rs` — the interval log text format: a byte grammar as spec functions,
  parsers and an iterator over log entries, and the writer of interval lines. Law: a written
  interval line reads back as the entry it was written from.
- `app/` — what stays outside the verified library: floating-point statistics and
  iterations (means, deviations, quantiles, percentile and logarithmic steps), reading and
  writing through `std::io`, the interval log writer's headers and timestamps, and
  recording from several threads.
- `tests/` — the tests of the library.

The outside crates `byteorder` (big-endian integers), `flate2` (zlib) and `base64` are
called from `src/` through small trusted wrappers whose contracts state what those crates
document.
