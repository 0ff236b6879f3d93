use byteorder::{BigEndian, ReadBytesExt};
use hdrsample::serialization::{
    counts_array_max_encoded_size, encode_counts, frame_compressed, varint_read, varint_write, zig_zag_decode,
    zig_zag_encode, DeserializeError, Deserializer, V2DeflateSerializeError, V2DeflateSerializer, V2SerializeError,
    V2Serializer, V2_COMPRESSED_COOKIE, V2_COOKIE, V2_HEADER_SIZE,
};
use hdrsample::Histogram;

fn histo64(low: u64, high: u64, sigfig: u8) -> Histogram<u64> {
    Histogram::<u64>::new_with_bounds(low, high, sigfig).unwrap()
}

/// The varint at `pos` in `buf`: its value and the position after it.
fn read_at(buf: &[u8], pos: usize) -> (u64, usize) {
    let (v, n) = varint_read(&buf[pos..]).unwrap();
    (v, pos + n)
}

#[test]
fn serialize_all_zeros() {
    let h = histo64(1, 2047, 3);
    let mut s = V2Serializer::new();
    let mut vec = Vec::new();

    let bytes_written = s.serialize(&h, &mut vec).unwrap();
    assert_eq!(V2_HEADER_SIZE + 1, bytes_written);

    let mut reader = vec.as_slice();

    assert_eq!(V2_COOKIE, reader.read_u32::<BigEndian>().unwrap());
    // payload length
    assert_eq!(1, reader.read_u32::<BigEndian>().unwrap());
    // normalizing offset
    assert_eq!(0, reader.read_u32::<BigEndian>().unwrap());
    // num digits
    assert_eq!(3, reader.read_u32::<BigEndian>().unwrap());
    // lowest
    assert_eq!(1, reader.read_u64::<BigEndian>().unwrap());
    // highest
    assert_eq!(2047, reader.read_u64::<BigEndian>().unwrap());
    // conversion ratio
    assert_eq!(1.0, reader.read_f64::<BigEndian>().unwrap());
}

#[test]
fn serialize_roundtrip_all_zeros() {
    let orig = histo64(1, 2047, 3);
    let mut s = V2Serializer::new();
    let mut vec = Vec::new();

    let bytes_written = s.serialize(&orig, &mut vec).unwrap();
    assert_eq!(V2_HEADER_SIZE + 1, bytes_written);

    let mut d = Deserializer::new();
    let deser: Histogram<u64> = d.deserialize(&vec).unwrap();

    assert_eq!(orig.high(), deser.high());
    assert_eq!(orig.low(), deser.low());
    assert_eq!(orig.sigfig(), deser.sigfig());
    assert_eq!(orig.buckets(), deser.buckets());
    assert_eq!(orig.sub_bucket_count(), deser.sub_bucket_count());
    assert_eq!(orig.sub_bucket_half_count(), deser.sub_bucket_half_count());
    assert_eq!(orig.sub_bucket_half_count_magnitude(), deser.sub_bucket_half_count_magnitude());
    assert_eq!(orig.sub_bucket_mask(), deser.sub_bucket_mask());
    assert_eq!(orig.leading_zero_count_base(), deser.leading_zero_count_base());
    assert_eq!(orig.unit_magnitude(), deser.unit_magnitude());
    assert_eq!(orig.unit_magnitude_mask(), deser.unit_magnitude_mask());
    assert_eq!(orig.max(), deser.max());

    // never saw a value, so min never gets set
    assert_eq!(u64::max_value(), deser.min_nz());

    assert_eq!(orig.count(), deser.count());
    assert_eq!(orig.len(), deser.len());
    for i in 0..orig.len() {
        assert_eq!(orig.count_at_index(i), deser.count_at_index(i));
    }
}

fn assert_deserialized_histogram_matches_orig(orig: &Histogram<u64>, deser: &Histogram<u64>) {
    assert_eq!(orig.high(), deser.high());
    assert_eq!(orig.low(), deser.low());
    assert_eq!(orig.sigfig(), deser.sigfig());
    assert_eq!(orig.buckets(), deser.buckets());
    assert_eq!(orig.sub_bucket_count(), deser.sub_bucket_count());
    assert_eq!(orig.sub_bucket_half_count(), deser.sub_bucket_half_count());
    assert_eq!(orig.sub_bucket_half_count_magnitude(), deser.sub_bucket_half_count_magnitude());
    assert_eq!(orig.sub_bucket_mask(), deser.sub_bucket_mask());
    assert_eq!(orig.leading_zero_count_base(), deser.leading_zero_count_base());
    assert_eq!(orig.unit_magnitude(), deser.unit_magnitude());
    assert_eq!(orig.unit_magnitude_mask(), deser.unit_magnitude_mask());
    // in buckets past the first, the extremes can only match up to the bucket's precision
    assert_eq!(orig.highest_equivalent(orig.max()), deser.max());
    assert_eq!(orig.lowest_equivalent(orig.min_nz()), deser.min_nz());
    assert_eq!(orig.len(), deser.len());
    let mut total: u64 = 0;
    for i in 0..orig.len() {
        assert_eq!(orig.count_at_index(i), deser.count_at_index(i));
        total = total.saturating_add(deser.count_at_index(i).unwrap());
    }
    assert!(orig.count() >= deser.count());
    assert_eq!(total, deser.count());
}

#[test]
fn serialize_roundtrip_1_count_for_every_value_1_bucket() {
    let mut h = histo64(1, 2047, 3);
    assert_eq!(1, h.buckets());
    assert_eq!(10, h.sub_bucket_half_count_magnitude());

    for v in 0..2048 {
        h.record(v).unwrap();
    }

    let mut s = V2Serializer::new();
    let mut vec = Vec::new();

    let bytes_written = s.serialize(&h, &mut vec).unwrap();
    assert_eq!(V2_HEADER_SIZE + 2048, bytes_written);

    let mut d = Deserializer::new();
    let h2: Histogram<u64> = d.deserialize(&vec).unwrap();

    assert_deserialized_histogram_matches_orig(&h, &h2);
}

#[test]
fn serialize_roundtrip_1_count_for_every_value_2_buckets() {
    let mut h = histo64(1, 4095, 3);
    assert_eq!(2, h.buckets());
    assert_eq!(2048 + 1024, h.len());

    for v in 0..4095 {
        h.record(v).unwrap();
    }

    let mut s = V2Serializer::new();
    let mut vec = Vec::new();

    let bytes_written = s.serialize(&h, &mut vec).unwrap();
    assert_eq!(V2_HEADER_SIZE + 2048 + 1024, bytes_written);

    let mut d = Deserializer::new();
    let h2: Histogram<u64> = d.deserialize(&vec).unwrap();

    assert_deserialized_histogram_matches_orig(&h, &h2);
}

#[test]
fn encode_counts_all_zeros() {
    let h = histo64(1, u64::max_value(), 3);
    let counts_len = h.len();
    let mut vec = vec![0; counts_array_max_encoded_size(counts_len).unwrap()];

    // because max is 0, it doesn't bother traversing the rest of the counts array

    let encoded_len = encode_counts(&h, &mut vec[..]).unwrap();
    assert_eq!(1, encoded_len);
    assert_eq!(0, vec[0]);

    let (v, _) = read_at(&vec, 0);
    assert_eq!(0, zig_zag_decode(v));
}

#[test]
fn encode_counts_last_count_incremented() {
    let mut h = histo64(1, 2047, 3);
    let counts_len = h.len();
    let mut vec = vec![0; counts_array_max_encoded_size(counts_len).unwrap()];

    assert_eq!(1, h.buckets());
    assert_eq!(2048, counts_len);

    // last in first (and only) bucket
    h.record(2047).unwrap();
    let encoded_len = encode_counts(&h, &mut vec[..]).unwrap();
    assert_eq!(3, encoded_len);

    // 2047 zeroes. 2047 is 11 bits, so 2 7-byte chunks.
    let (v, pos) = read_at(&vec, 0);
    assert_eq!(-2047, zig_zag_decode(v));
    assert_eq!(2, pos);

    // then a 1
    let (v, pos) = read_at(&vec, pos);
    assert_eq!(1, zig_zag_decode(v));
    assert_eq!(3, pos);
}

#[test]
fn encode_counts_first_count_incremented() {
    let mut h = histo64(1, 2047, 3);
    let counts_len = h.len();
    let mut vec = vec![0; counts_array_max_encoded_size(counts_len).unwrap()];

    assert_eq!(1, h.buckets());
    assert_eq!(2048, counts_len);

    // first position
    h.record(0).unwrap();
    let encoded_len = encode_counts(&h, &mut vec[..]).unwrap();

    assert_eq!(1, encoded_len);

    // zero position has a 1
    let (v, pos) = read_at(&vec, 0);
    assert_eq!(1, zig_zag_decode(v));
    assert_eq!(1, pos);

    // max is 1, so rest isn't set
}

#[test]
fn encode_counts_first_and_last_count_incremented() {
    let mut h = histo64(1, 2047, 3);
    let counts_len = h.len();
    let mut vec = vec![0; counts_array_max_encoded_size(counts_len).unwrap()];

    assert_eq!(1, h.buckets());
    assert_eq!(2048, counts_len);

    // first position
    h.record(0).unwrap();
    // last position in first (and only) bucket
    h.record(2047).unwrap();
    let encoded_len = encode_counts(&h, &mut vec[..]).unwrap();

    assert_eq!(4, encoded_len);

    // zero position has a 1
    let (v, pos) = read_at(&vec, 0);
    assert_eq!(1, zig_zag_decode(v));
    assert_eq!(1, pos);

    // 2046 zeroes, then a 1.
    let (v, pos) = read_at(&vec, pos);
    assert_eq!(-2046, zig_zag_decode(v));
    assert_eq!(3, pos);

    let (v, pos) = read_at(&vec, pos);
    assert_eq!(1, zig_zag_decode(v));
    assert_eq!(4, pos);
}

#[test]
fn encode_counts_count_too_big() {
    let mut h = histo64(1, 2047, 3);
    let mut vec = vec![0; counts_array_max_encoded_size(h.len()).unwrap()];

    // first position
    h.record_n(0, i64::max_value() as u64 + 1).unwrap();
    assert_eq!(V2SerializeError::CountNotSerializable, encode_counts(&h, &mut vec[..]).unwrap_err());
}

#[test]
fn varint_write_3_bit_value() {
    let mut buf = [0; 9];
    let length = varint_write(6, &mut buf[..]);
    assert_eq!(1, length);
    assert_eq!(0x6, buf[0]);
}

#[test]
fn varint_write_7_bit_value() {
    let mut buf = [0; 9];
    let length = varint_write(127, &mut buf[..]);
    assert_eq!(1, length);
    assert_eq!(0x7F, buf[0]);
}

#[test]
fn varint_write_9_bit_value() {
    let mut buf = [0; 9];
    let length = varint_write(256, &mut buf[..]);
    assert_eq!(2, length);
    // marker high bit w/ 0's, then 9th bit (2nd bit of 2nd 7-bit group)
    assert_eq!(vec![0x80, 0x02].as_slice(), &buf[0..length]);
}

#[test]
fn varint_write_u64_max() {
    let mut buf = [0; 9];
    let length = varint_write(u64::max_value(), &mut buf[..]);
    assert_eq!(9, length);
    assert_eq!(vec![0xFF; 9].as_slice(), &buf[..]);
}

#[test]
fn varint_read_u64_max() {
    let input = vec![0xFF; 9];
    assert_eq!(u64::max_value(), varint_read(&input).unwrap().0);
}

#[test]
fn varint_read_u64_zero() {
    let input = vec![0x00; 9];
    assert_eq!(0, varint_read(&input).unwrap().0);
}

/// Smallest number in our varint encoding that takes the given number of bytes
fn smallest_number_in_n_byte_varint(byte_length: usize) -> u64 {
    assert!(byte_length <= 9 && byte_length >= 1);

    match byte_length {
        1 => 0,
        // one greater than the largest of the previous length
        _ => largest_number_in_n_byte_varint(byte_length - 1) + 1,
    }
}

/// Largest number in our varint encoding that takes the given number of bytes
fn largest_number_in_n_byte_varint(byte_length: usize) -> u64 {
    assert!(byte_length <= 9 && byte_length >= 1);

    match byte_length {
        9 => u64::max_value(),
        _ => largest_number_in_7_bit_chunk(byte_length - 1),
    }
}

/// The largest in the set of numbers that have at least 1 bit set in the n'th chunk of 7 bits.
fn largest_number_in_7_bit_chunk(chunk_index: usize) -> u64 {
    // Our 9-byte varints do different encoding in the last byte, so we don't handle them here
    assert!(chunk_index <= 7);

    // 1 in every bit below the lowest bit in this chunk
    let lower_bits = match chunk_index {
        0 => 0,
        _ => largest_number_in_7_bit_chunk(chunk_index - 1),
    };

    // 1 in every bit in this chunk
    let this_chunk = 0x7F_u64 << (chunk_index * 7);

    lower_bits | this_chunk
}

/// Deterministic xorshift, for spreading values over a range.
fn xorshift(state: &mut u64) -> u64 {
    *state ^= *state << 13;
    *state ^= *state >> 7;
    *state ^= *state << 17;
    *state
}

fn do_varint_write_read_roundtrip(byte_length: usize) {
    let smallest = smallest_number_in_n_byte_varint(byte_length);
    let largest = largest_number_in_n_byte_varint(byte_length);
    let mut state: u64 = 0x9E37_79B9_7F4A_7C15 ^ byte_length as u64;
    let span = largest - smallest;
    let mut values = vec![smallest, largest];
    for _ in 0..100_000 {
        let r = xorshift(&mut state);
        values.push(if span == u64::max_value() { r } else { smallest + r % (span + 1) });
    }
    let mut buf = [0; 9];
    for v in values {
        for i in 0..buf.len() {
            buf[i] = 0;
        }
        let bytes_written = varint_write(v, &mut buf[..]);
        assert_eq!(byte_length, bytes_written);
        assert_eq!((v, bytes_written), varint_read(&buf[..bytes_written]).unwrap());
        // make sure the other bytes are all still 0
        assert_eq!(vec![0; 9 - bytes_written].as_slice(), &buf[bytes_written..]);
    }
}
#[test]
fn varint_write_read_roundtrip_rand_1_byte() {
    do_varint_write_read_roundtrip(1);
}

#[test]
fn varint_write_read_roundtrip_rand_2_byte() {
    do_varint_write_read_roundtrip(2);
}

#[test]
fn varint_write_read_roundtrip_rand_3_byte() {
    do_varint_write_read_roundtrip(3);
}

#[test]
fn varint_write_read_roundtrip_rand_4_byte() {
    do_varint_write_read_roundtrip(4);
}

#[test]
fn varint_write_read_roundtrip_rand_5_byte() {
    do_varint_write_read_roundtrip(5);
}

#[test]
fn varint_write_read_roundtrip_rand_6_byte() {
    do_varint_write_read_roundtrip(6);
}

#[test]
fn varint_write_read_roundtrip_rand_7_byte() {
    do_varint_write_read_roundtrip(7);
}

#[test]
fn varint_write_read_roundtrip_rand_8_byte() {
    do_varint_write_read_roundtrip(8);
}

#[test]
fn varint_write_read_roundtrip_rand_9_byte() {
    do_varint_write_read_roundtrip(9);
}

#[test]
fn varint_write_read_slice_roundtrip_rand_1_byte() {
    do_varint_write_read_roundtrip(1);
}

#[test]
fn varint_write_read_slice_roundtrip_rand_2_byte() {
    do_varint_write_read_roundtrip(2);
}

#[test]
fn varint_write_read_slice_roundtrip_rand_3_byte() {
    do_varint_write_read_roundtrip(3);
}

#[test]
fn varint_write_read_slice_roundtrip_rand_4_byte() {
    do_varint_write_read_roundtrip(4);
}

#[test]
fn varint_write_read_slice_roundtrip_rand_5_byte() {
    do_varint_write_read_roundtrip(5);
}

#[test]
fn varint_write_read_slice_roundtrip_rand_6_byte() {
    do_varint_write_read_roundtrip(6);
}

#[test]
fn varint_write_read_slice_roundtrip_rand_7_byte() {
    do_varint_write_read_roundtrip(7);
}

#[test]
fn varint_write_read_slice_roundtrip_rand_8_byte() {
    do_varint_write_read_roundtrip(8);
}

#[test]
fn varint_write_read_slice_roundtrip_rand_9_byte() {
    do_varint_write_read_roundtrip(9);
}

#[test]
fn zig_zag_roundtrip_random() {
    let mut state: u64 = 0x2545_F491_4F6C_DD1D;
    for _ in 0..1_000_000 {
        let r = xorshift(&mut state) as i64;
        let encoded = zig_zag_encode(r);
        let decoded = zig_zag_decode(encoded);

        assert_eq!(r, decoded);
    }
}


#[test]
fn varint_read_truncated_is_none() {
    // a continuation bit with nothing after it
    assert_eq!(None, varint_read(&[0x80]));
    assert_eq!(None, varint_read(&[]));
    assert_eq!(None, varint_read(&[0xFF; 8]));
}

#[test]
fn zig_zag_encode_0() {
    assert_eq!(0, zig_zag_encode(0));
}

#[test]
fn zig_zag_encode_neg_1() {
    assert_eq!(1, zig_zag_encode(-1));
}

#[test]
fn zig_zag_encode_1() {
    assert_eq!(2, zig_zag_encode(1));
}

#[test]
fn zig_zag_decode_0() {
    assert_eq!(0, zig_zag_decode(0));
}

#[test]
fn zig_zag_decode_1() {
    assert_eq!(-1, zig_zag_decode(1));
}

#[test]
fn zig_zag_decode_2() {
    assert_eq!(1, zig_zag_decode(2));
}

#[test]
fn zig_zag_encode_i64_max() {
    assert_eq!(u64::max_value() - 1, zig_zag_encode(i64::max_value()));
}

#[test]
fn zig_zag_encode_i64_min() {
    assert_eq!(u64::max_value(), zig_zag_encode(i64::min_value()));
}

#[test]
fn zig_zag_decode_u64_max_to_i64_min() {
    assert_eq!(i64::min_value(), zig_zag_decode(u64::max_value()))
}

#[test]
fn zig_zag_decode_u64_max_penultimate_to_i64_max() {
    assert_eq!(i64::max_value(), zig_zag_decode(u64::max_value() - 1))
}

#[test]
fn zig_zag_roundtrip_spread() {
    let mut state: u64 = 0x1234_5678_9abc_def1;
    for _ in 0..100_000 {
        let r = xorshift(&mut state) as i64;
        assert_eq!(r, zig_zag_decode(zig_zag_encode(r)));
    }
}

#[test]
fn largest_number_in_7_bit_chunk_correct() {
    // 8 chunks (indices 0-7) of 7 bits gets you to 56 bits. Last byte in varint is handled
    // differently, so we don't test that here.
    for i in 0..8 {
        let largest = largest_number_in_7_bit_chunk(i);
        assert_eq!((i as u32 + 1) * 7, largest.count_ones());

        assert_eq!(64 - ((i as u32) + 1) * 7, largest.leading_zeros());
        // any larger and it will be in the next chunk
        assert_eq!(largest.leading_zeros() - 1, (largest + 1).leading_zeros());
    }
}

fn roundtrip_random<T: hdrsample::Counter + std::fmt::Debug + PartialEq>(
    make: fn(u64) -> T,
    max_count: u64,
    to_u64: fn(T) -> u64,
) {
    roundtrip_random_with(make, max_count, to_u64, false);
}

fn roundtrip_random_with<T: hdrsample::Counter + std::fmt::Debug + PartialEq>(
    make: fn(u64) -> T,
    max_count: u64,
    to_u64: fn(T) -> u64,
    compress: bool,
) {
    let mut state: u64 = 0xDEAD_BEEF_CAFE_F00D;
    for _ in 0..100 {
        let mut h = Histogram::<T>::new_with_bounds(1, u64::max_value(), 3).unwrap();
        for _ in 0..1000 {
            let len = (xorshift(&mut state) % 9 + 1) as usize;
            let lo = smallest_number_in_n_byte_varint(len);
            let hi = largest_number_in_n_byte_varint(len);
            let r = xorshift(&mut state);
            let value = if hi - lo == u64::max_value() { r } else { lo + r % (hi - lo + 1) };
            let count = 1 + xorshift(&mut state) % max_count;
            let existing = to_u64(h.count_at(value).unwrap());
            let room = max_count - existing.min(max_count);
            let c = count.min(room);
            if c > 0 {
                h.record_n(value, make(c)).unwrap();
            }
        }
        let mut vec = Vec::new();
        let written = if compress {
            V2DeflateSerializer::new().serialize(&h, &mut vec).unwrap()
        } else {
            V2Serializer::new().serialize(&h, &mut vec).unwrap()
        };
        assert_eq!(written, vec.len());
        let h2: Histogram<T> = Deserializer::new().deserialize(&vec).unwrap();
        assert_eq!(h.low(), h2.low());
        assert_eq!(h.high(), h2.high());
        assert_eq!(h.sigfig(), h2.sigfig());
        assert_eq!(h.len(), h2.len());
        assert_eq!(h.max(), h2.max());
        assert_eq!(h.min_nz(), h2.min_nz());
        for i in 0..h.len() {
            assert_eq!(h.count_at_index(i), h2.count_at_index(i));
        }
    }
}

#[test]
fn serialize_roundtrip_random_v2_u64() {
    roundtrip_random::<u64>(|c| c, i64::max_value() as u64, |c| c);
}

#[test]
fn serialize_roundtrip_random_v2_u32() {
    roundtrip_random::<u32>(|c| c as u32, u32::max_value() as u64, |c| c as u64);
}

#[test]
fn serialize_roundtrip_random_v2_u16() {
    roundtrip_random::<u16>(|c| c as u16, u16::max_value() as u64, |c| c as u64);
}

#[test]
fn serialize_roundtrip_random_v2_u8() {
    roundtrip_random::<u8>(|c| c as u8, u8::max_value() as u64, |c| c as u64);
}

#[test]
fn deflate_serialize_starts_with_compressed_cookie_and_length() {
    let mut h = histo64(1, 100_000, 3);
    for v in 1..1000 {
        h.record(v).unwrap();
    }
    let mut out = Vec::new();
    let written = V2DeflateSerializer::new().serialize(&h, &mut out).unwrap();
    assert_eq!(written, out.len());
    let mut reader = out.as_slice();
    assert_eq!(V2_COMPRESSED_COOKIE, reader.read_u32::<BigEndian>().unwrap());
    let len = reader.read_u32::<BigEndian>().unwrap() as usize;
    assert_eq!(written - 8, len);
    // zlib header byte for the default window size
    assert_eq!(0x78, out[8]);
    // the compressed payload is not just the uncompressed bytes
    let mut plain = Vec::new();
    V2Serializer::new().serialize(&h, &mut plain).unwrap();
    assert_ne!(&plain[..], &out[8..]);
}

#[test]
fn deflate_serialize_count_too_big() {
    let mut h = histo64(1, 2047, 3);
    h.record_n(0, i64::max_value() as u64 + 1).unwrap();
    let mut out = Vec::new();
    assert_eq!(
        Err(V2DeflateSerializeError::InternalSerializationError(
            V2SerializeError::CountNotSerializable
        )),
        V2DeflateSerializer::new().serialize(&h, &mut out)
    );
    assert!(out.is_empty());
}

#[test]
fn deserialize_errors() {
    let mut h = histo64(1, 2047, 3);
    h.record(5).unwrap();
    let mut good = Vec::new();
    V2Serializer::new().serialize(&h, &mut good).unwrap();
    let mut d = Deserializer::new();

    // too short for the cookie
    assert_eq!(DeserializeError::UnexpectedEof, d.deserialize::<u64>(&good[..3]).unwrap_err());

    // wrong cookie
    let mut bad = good.clone();
    bad[3] ^= 1;
    assert_eq!(DeserializeError::InvalidCookie, d.deserialize::<u64>(&bad).unwrap_err());

    // normalizing offset set
    let mut bad = good.clone();
    bad[11] = 1;
    assert_eq!(DeserializeError::UnsupportedFeature, d.deserialize::<u64>(&bad).unwrap_err());

    // too many significant digits
    let mut bad = good.clone();
    bad[14] = 1;
    assert_eq!(DeserializeError::InvalidParameters, d.deserialize::<u64>(&bad).unwrap_err());
    let mut bad = good.clone();
    bad[15] = 6;
    assert_eq!(DeserializeError::InvalidParameters, d.deserialize::<u64>(&bad).unwrap_err());

    // ratio other than 1.0
    let mut bad = good.clone();
    bad[39] = 1;
    assert_eq!(DeserializeError::UnsupportedFeature, d.deserialize::<u64>(&bad).unwrap_err());

    // payload cut short
    assert_eq!(
        DeserializeError::UnexpectedEof,
        d.deserialize::<u64>(&good[..good.len() - 1]).unwrap_err()
    );

    // a count too big for u8
    let mut big = histo64(1, 2047, 3);
    big.record_n(5, 300).unwrap();
    let mut bytes = Vec::new();
    V2Serializer::new().serialize(&big, &mut bytes).unwrap();
    assert_eq!(DeserializeError::UnsuitableCounterType, d.deserialize::<u8>(&bytes).unwrap_err());
    assert_eq!(300, d.deserialize::<u16>(&bytes).unwrap().count_at(5).unwrap());
}

#[test]
fn deserialize_encoded_array_too_long() {
    // header for a 2048-bin histogram whose payload skips 2048 bins, then has a count
    let h = histo64(1, 2047, 3);
    let mut bytes = Vec::new();
    V2Serializer::new().serialize(&h, &mut bytes).unwrap();
    bytes.truncate(V2_HEADER_SIZE);
    let mut payload = [0u8; 9];
    let n = varint_write(zig_zag_encode(-2048), &mut payload[..]);
    let mut p = payload[..n].to_vec();
    p.push(2); // zig-zag of 1
    bytes[7] = p.len() as u8;
    bytes.extend_from_slice(&p);
    assert_eq!(
        DeserializeError::EncodedArrayTooLong,
        Deserializer::new().deserialize::<u64>(&bytes).unwrap_err()
    );
}

#[test]
fn total_count_overflow_from_deserialize_saturates() {
    let mut h = Histogram::<u64>::new_with_bounds(1, u64::max_value(), 3).unwrap();

    // can't go bigger than i64 max because it will be serialized
    h.record_n(1, i64::max_value() as u64).unwrap();
    h.record_n(1000, i64::max_value() as u64).unwrap();
    h.record_n(1000_000, i64::max_value() as u64).unwrap();
    assert_eq!(u64::max_value(), h.count());

    let mut vec = Vec::new();

    V2Serializer::new().serialize(&h, &mut vec).unwrap();
    let deser_h: Histogram<u64> = Deserializer::new().deserialize(&vec).unwrap();
    assert_eq!(u64::max_value(), deser_h.count());
}

#[test]
fn compressed_frame_has_cookie_length_and_stream() {
    let mut out = vec![9u8];
    let n = frame_compressed(&[1, 2, 3], &mut out);
    assert_eq!(n, 11);
    let mut expected = vec![9u8];
    expected.extend_from_slice(&V2_COMPRESSED_COOKIE.to_be_bytes());
    expected.extend_from_slice(&[0, 0, 0, 3, 1, 2, 3]);
    assert_eq!(expected, out);
}

#[test]
fn serialize_roundtrip_random_v2_deflate_u64() {
    roundtrip_random_with::<u64>(|c| c, i64::max_value() as u64, |c| c, true);
}

#[test]
fn serialize_roundtrip_random_v2_deflate_u32() {
    roundtrip_random_with::<u32>(|c| c as u32, u32::max_value() as u64, |c| c as u64, true);
}

#[test]
fn serialize_roundtrip_random_v2_deflate_u16() {
    roundtrip_random_with::<u16>(|c| c as u16, u16::max_value() as u64, |c| c as u64, true);
}

#[test]
fn serialize_roundtrip_random_v2_deflate_u8() {
    roundtrip_random_with::<u8>(|c| c as u8, u8::max_value() as u64, |c| c as u64, true);
}

#[test]
fn deserialize_compressed_errors() {
    let mut h = histo64(1, 2047, 3);
    h.record(5).unwrap();
    let mut good = Vec::new();
    V2DeflateSerializer::new().serialize(&h, &mut good).unwrap();
    let mut d = Deserializer::new();

    // the compressed cookie without a length
    assert_eq!(DeserializeError::UnexpectedEof, d.deserialize::<u64>(&good[..6]).unwrap_err());
    // a stream that does not inflate
    let mut bad = good.clone();
    for b in bad[8..].iter_mut() {
        *b = 0xFF;
    }
    assert_eq!(DeserializeError::IoError, d.deserialize::<u64>(&bad).unwrap_err());
    // a stream that inflates to something other than a V2 histogram
    let mut other = Vec::new();
    frame_compressed(&[0x78, 0x9c, 0x03, 0x00, 0x00, 0x00, 0x00, 0x01], &mut other);
    assert_eq!(DeserializeError::UnexpectedEof, d.deserialize::<u64>(&other).unwrap_err());
    // the whole frame reads back
    let h2: Histogram<u64> = d.deserialize(&good).unwrap();
    assert_eq!(1, h2.count_at(5).unwrap());
    assert_eq!(1, h2.count());
}

#[test]
fn varint_value_is_sum_of_seven_bit_chunks() {
    // 0x85 & 0x7f = 5, then 0x03 at 7 bits up: 5 + 3 * 128
    assert_eq!(Some((5 + 3 * 128, 2)), varint_read(&[0x85, 0x03, 0xff]));
    // eight bytes with the high bit set, then a ninth byte taken whole at 56 bits up
    let bytes = [0x81, 0x80, 0x80, 0x80, 0x80, 0x80, 0x80, 0x80, 0x02];
    assert_eq!(Some((1 + (2u64 << 56), 9)), varint_read(&bytes));
    // the bytes run out before a byte with the high bit clear
    assert_eq!(None, varint_read(&[0x80, 0x80]));
}

#[test]
fn deserialized_histogram_keeps_count_max_and_min() {
    let mut h = Histogram::<u64>::new_with_bounds(10, 1_000_000, 3).unwrap();
    h.record_n(25, 4).unwrap();
    h.record_n(3_000, 2).unwrap();
    h.record(654_321).unwrap();
    let mut vec = Vec::new();
    V2Serializer::new().serialize(&h, &mut vec).unwrap();
    let d: Histogram<u64> = Deserializer::new().deserialize(&vec).unwrap();
    assert_eq!(h.count(), d.count());
    assert_eq!(7, d.count());
    assert_eq!(h.max(), d.max());
    assert_eq!(h.min_nz(), d.min_nz());
    assert_eq!(h.highest_equivalent(654_321), d.max());
    assert_eq!(h.lowest_equivalent(25), d.min_nz());
}
