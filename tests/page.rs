use std::io::Read;

use page_encoder::bitmap::{encode_bool, encode_hybrid, pack_range, write_uleb128};
use page_encoder::compression::{create_codec, Codec, Compression};
use page_encoder::error::Error;
use page_encoder::native::PhysicalType;
use page_encoder::page::{array_to_page_v1, ColumnDescriptor, Encoding, WriteOptions};
use page_encoder::statistics::{compute_statistics, serialize_statistics};
use page_encoder::values::unzip_option;

fn descriptor(physical_type: PhysicalType) -> ColumnDescriptor {
    ColumnDescriptor {
        physical_type,
        path: vec!["root".to_string(), "value".to_string()],
        max_def_level: 1,
        max_rep_level: 0,
    }
}

fn options(write_statistics: bool, compression: Compression) -> WriteOptions {
    WriteOptions { write_statistics, compression }
}

/// Reads `n` flags back from an encoded bitmap buffer of run-length and
/// bit-packed runs; returns the flags and the bytes the buffer took.
fn decode_bitmap(buf: &[u8], n: usize) -> (Vec<bool>, usize) {
    let len = u32::from_le_bytes([buf[0], buf[1], buf[2], buf[3]]) as usize;
    let end = 4 + len;
    let mut pos = 4;
    let mut flags = Vec::new();
    while pos < end {
        let mut header: u64 = 0;
        let mut shift = 0;
        loop {
            let b = buf[pos];
            pos += 1;
            header |= ((b & 0x7f) as u64) << shift;
            shift += 7;
            if b < 128 {
                break;
            }
        }
        if header & 1 == 0 {
            let value = buf[pos];
            pos += 1;
            assert!(value <= 1);
            flags.extend(std::iter::repeat(value == 1).take((header >> 1) as usize));
        } else {
            let groups = (header >> 1) as usize;
            for i in 0..groups * 8 {
                flags.push((buf[pos + i / 8] >> (i % 8)) & 1 == 1);
            }
            pos += groups;
        }
    }
    assert_eq!(pos, end, "length prefix");
    assert!(flags.len() >= n);
    flags.truncate(n);
    (flags, end)
}

fn snappy_decompress(data: &[u8]) -> Vec<u8> {
    snap::raw::Decoder::new().decompress_vec(data).unwrap()
}

fn gzip_decompress(data: &[u8]) -> Vec<u8> {
    let mut out = Vec::new();
    flate2::read::GzDecoder::new(data).read_to_end(&mut out).unwrap();
    out
}

#[test]
fn scenario_three_values_one_null() {
    let column = vec![Some(1i32), None, Some(3i32)];
    let (values, validity) = unzip_option(&column).unwrap();
    assert_eq!(values, vec![1, 0, 0, 0, 3, 0, 0, 0]);
    assert_eq!(validity, vec![2, 0, 0, 0, 3, 0b101]);
    assert_eq!(decode_bitmap(&validity, 3).0, vec![true, false, true]);

    let page = array_to_page_v1(
        &column,
        &options(true, Compression::Uncompressed),
        &descriptor(PhysicalType::Int32),
    )
    .unwrap();
    assert_eq!(page.buffer, vec![2, 0, 0, 0, 3, 0b101, 1, 0, 0, 0, 3, 0, 0, 0]);
    assert_eq!(page.uncompressed_page_size, 14);
    assert_eq!(page.compression, Compression::Uncompressed);
    assert_eq!(page.header.num_values, 3);
    assert_eq!(page.header.encoding, Encoding::Plain);
    assert_eq!(page.header.definition_level_encoding, Encoding::Rle);
    assert_eq!(page.header.repetition_level_encoding, Encoding::Rle);
    assert_eq!(page.descriptor, descriptor(PhysicalType::Int32));
    assert_eq!(page.descriptor.path, vec!["root".to_string(), "value".to_string()]);
    assert!(page.dictionary_page.is_none());
    let stats = page.header.statistics.unwrap();
    assert_eq!(stats.physical_type, PhysicalType::Int32);
    assert_eq!(stats.null_count, Some(1));
    assert_eq!(stats.distinct_count, None);
    assert_eq!(stats.min_value, Some(vec![1, 0, 0, 0]));
    assert_eq!(stats.max_value, Some(vec![3, 0, 0, 0]));
}

#[test]
fn scenario_empty_column() {
    let column: Vec<Option<i32>> = vec![];
    let (values, validity) = unzip_option(&column).unwrap();
    assert!(values.is_empty());
    assert_eq!(validity, vec![0, 0, 0, 0]);
    assert_eq!(decode_bitmap(&validity, 0), (vec![], 4));

    let stats = compute_statistics(&column);
    assert_eq!(stats.null_count, Some(0));
    assert_eq!(stats.min_value, None);
    assert_eq!(stats.max_value, None);

    let page = array_to_page_v1(
        &column,
        &options(true, Compression::Uncompressed),
        &descriptor(PhysicalType::Int32),
    )
    .unwrap();
    assert_eq!(page.header.num_values, 0);
    assert_eq!(page.uncompressed_page_size, 4);
    assert_eq!(page.buffer, vec![0, 0, 0, 0]);
    let block = page.header.statistics.unwrap();
    assert_eq!(block.null_count, Some(0));
    assert_eq!(block.min_value, None);
    assert_eq!(block.max_value, None);
}

#[test]
fn scenario_all_null_without_statistics() {
    let column: Vec<Option<i32>> = vec![None, None];
    let page = array_to_page_v1(
        &column,
        &options(false, Compression::Uncompressed),
        &descriptor(PhysicalType::Int32),
    )
    .unwrap();
    assert!(page.header.statistics.is_none());
    assert_eq!(page.buffer, vec![2, 0, 0, 0, 3, 0]);
    assert_eq!(page.header.num_values, 2);
}

#[test]
fn scenario_unsupported_compression() {
    let column = vec![Some(1i32), None];
    for c in [Compression::Lzo, Compression::Brotli, Compression::Lz4, Compression::Zstd] {
        let r = array_to_page_v1(&column, &options(true, c), &descriptor(PhysicalType::Int32));
        assert_eq!(r.unwrap_err(), Error::Compression(c));
        assert_eq!(create_codec(&c), Err(Error::Compression(c)));
    }
    assert_eq!(create_codec(&Compression::Uncompressed), Ok(None));
    assert_eq!(create_codec(&Compression::Snappy), Ok(Some(Codec::Snappy)));
    assert_eq!(create_codec(&Compression::Gzip), Ok(Some(Codec::Gzip)));
}

#[test]
fn all_null_statistics_have_no_extremes() {
    let column: Vec<Option<i64>> = vec![None, None, None];
    let stats = compute_statistics(&column);
    assert_eq!(stats.null_count, Some(3));
    assert_eq!(stats.min_value, None);
    assert_eq!(stats.max_value, None);
}

#[test]
fn statistics_find_true_extremes() {
    let column = vec![Some(5i64), Some(-7), None, Some(42), Some(0), None];
    let stats = compute_statistics(&column);
    assert_eq!(stats.null_count, Some(2));
    assert_eq!(stats.min_value, Some(-7));
    assert_eq!(stats.max_value, Some(42));
    let block = serialize_statistics(&stats);
    assert_eq!(block.physical_type, PhysicalType::Int64);
    assert_eq!(block.min_value, Some((-7i64).to_le_bytes().to_vec()));
    assert_eq!(block.max_value, Some(42i64.to_le_bytes().to_vec()));
}

#[test]
fn statistics_of_extreme_integers() {
    let column = vec![Some(i32::MAX), Some(i32::MIN), Some(i32::MIN), Some(i32::MAX)];
    let stats = compute_statistics(&column);
    assert_eq!(stats.null_count, Some(0));
    assert_eq!(stats.min_value, Some(i32::MIN));
    assert_eq!(stats.max_value, Some(i32::MAX));
}

#[test]
fn null_count_is_length_minus_present() {
    let column: Vec<Option<i32>> = (0..37).map(|i| if i % 3 == 0 { None } else { Some(i) }).collect();
    let present = column.iter().flatten().count();
    let stats = compute_statistics(&column);
    assert_eq!(stats.null_count, Some((column.len() - present) as i64));
    assert_eq!(stats.null_count, Some(13));
}

#[test]
fn bitmap_round_trips_many_patterns() {
    for n in 0..70usize {
        let column: Vec<Option<i32>> =
            (0..n).map(|i| if (i * 7 + n) % 5 < 2 { None } else { Some(i as i32) }).collect();
        check_round_trip(&column);
        let column: Vec<Option<i32>> =
            (0..n).map(|i| if (i / (n % 13 + 1)) % 2 == 0 { None } else { Some(i as i32) }).collect();
        check_round_trip(&column);
    }
}

fn check_round_trip(column: &[Option<i32>]) {
    let n = column.len();
    let (values, validity) = unzip_option(column).unwrap();
    let (flags, used) = decode_bitmap(&validity, n);
    assert_eq!(used, validity.len());
    let expected: Vec<bool> = column.iter().map(|v| v.is_some()).collect();
    assert_eq!(flags, expected);
    let expected_values: Vec<u8> = column.iter().flatten().flat_map(|v| v.to_le_bytes()).collect();
    assert_eq!(values, expected_values);
}

#[test]
fn bitmap_of_long_column_has_two_byte_header() {
    let bits: Vec<bool> = (0..1000).map(|i| i % 2 == 0).collect();
    let buf = encode_bool(&bits).unwrap();
    // 125 groups: header 251, written as 0xfb 0x01
    assert_eq!(&buf[0..6], &[127, 0, 0, 0, 0xfb, 0x01]);
    assert_eq!(buf.len(), 4 + 2 + 125);
    assert!(buf[6..].iter().all(|b| *b == 0x55));
    assert_eq!(decode_bitmap(&buf, 1000).0, bits);
}

#[test]
fn uleb128_values() {
    let mut out = vec![9u8];
    write_uleb128(&mut out, 300);
    assert_eq!(out, vec![9, 0xac, 0x02]);
    let mut out = Vec::new();
    write_uleb128(&mut out, 127);
    write_uleb128(&mut out, 128);
    write_uleb128(&mut out, u64::MAX);
    assert_eq!(
        out,
        vec![127, 0x80, 0x01, 0xff, 0xff, 0xff, 0xff, 0xff, 0xff, 0xff, 0xff, 0xff, 0x01]
    );
}

#[test]
fn pack_range_clears_padding() {
    assert_eq!(pack_range(&vec![true; 9], 0, 9), vec![0xff, 0x01]);
    assert_eq!(pack_range(&vec![false, true, true], 0, 3), vec![0b110]);
    assert_eq!(pack_range(&vec![true, false, true, true], 1, 4), vec![0b110]);
    assert_eq!(pack_range(&vec![true], 1, 1), Vec::<u8>::new());
}

#[test]
fn long_runs_are_run_length_encoded() {
    let mut bits = vec![true; 20];
    bits.extend([false, true, false]);
    bits.extend([false; 16]);
    let buf = encode_bool(&bits).unwrap();
    assert_eq!(buf, vec![6, 0, 0, 0, 40, 1, 3, 0b10, 22, 0]);
    assert_eq!(decode_bitmap(&buf, bits.len()).0, bits);
}

#[test]
fn all_present_column_is_one_run() {
    let column: Vec<Option<i32>> = (0..1000).map(Some).collect();
    let (_, validity) = unzip_option(&column).unwrap();
    // run of 1000: header 2000 = 0xd0 0x0f, then the flag
    assert_eq!(validity, vec![3, 0, 0, 0, 0xd0, 0x0f, 1]);
    assert_eq!(encode_hybrid(&vec![false; 8]), vec![16, 0]);
    assert_eq!(encode_hybrid(&vec![false; 7]), vec![3, 0]);
}

#[test]
fn snappy_page_keeps_uncompressed_size() {
    let column: Vec<Option<i32>> = (0..200).map(|i| if i % 4 == 0 { None } else { Some(i % 10) }).collect();
    let plain = array_to_page_v1(
        &column,
        &options(false, Compression::Uncompressed),
        &descriptor(PhysicalType::Int32),
    )
    .unwrap();
    let page = array_to_page_v1(
        &column,
        &options(false, Compression::Snappy),
        &descriptor(PhysicalType::Int32),
    )
    .unwrap();
    assert_eq!(page.compression, Compression::Snappy);
    assert_eq!(page.uncompressed_page_size, plain.buffer.len());
    assert_ne!(page.buffer, plain.buffer);
    assert_ne!(page.buffer.len(), page.uncompressed_page_size);
    assert_eq!(snappy_decompress(&page.buffer), plain.buffer);
}

#[test]
fn gzip_page_keeps_uncompressed_size() {
    let column: Vec<Option<i64>> = (0..300).map(|i| if i % 3 == 0 { None } else { Some(i / 7) }).collect();
    let plain = array_to_page_v1(
        &column,
        &options(true, Compression::Uncompressed),
        &descriptor(PhysicalType::Int64),
    )
    .unwrap();
    let page = array_to_page_v1(
        &column,
        &options(true, Compression::Gzip),
        &descriptor(PhysicalType::Int64),
    )
    .unwrap();
    assert_eq!(page.uncompressed_page_size, plain.buffer.len());
    assert_ne!(page.buffer, plain.buffer);
    assert_eq!(gzip_decompress(&page.buffer), plain.buffer);
    let stats = page.header.statistics.unwrap();
    assert_eq!(stats.null_count, Some(100));
    assert_eq!(stats.min_value, Some(0i64.to_le_bytes().to_vec()));
    assert_eq!(stats.max_value, Some((299i64 / 7).to_le_bytes().to_vec()));
}

#[test]
fn codec_compress_appends() {
    let input = vec![7u8; 64];
    let mut out = vec![1u8, 2];
    Codec::Snappy.compress(&input, &mut out).unwrap();
    assert_eq!(&out[0..2], &[1, 2]);
    assert_eq!(snappy_decompress(&out[2..]), input);
    assert_eq!(Codec::Gzip.algorithm(), Compression::Gzip);
}

#[test]
fn pipeline_is_idempotent() {
    let column = vec![Some(10i32), None, Some(-4), Some(10), None, Some(99)];
    for c in [Compression::Uncompressed, Compression::Snappy, Compression::Gzip] {
        let o = options(true, c);
        let d = descriptor(PhysicalType::Int32);
        let a = array_to_page_v1(&column, &o, &d).unwrap();
        let b = array_to_page_v1(&column, &o, &d).unwrap();
        assert_eq!(a.buffer, b.buffer);
        assert_eq!(a.uncompressed_page_size, b.uncompressed_page_size);
        assert_eq!(a.header.statistics.unwrap().max_value, Some(vec![99, 0, 0, 0]));
    }
}

#[test]
fn negative_values_are_twos_complement() {
    let column = vec![Some(-1i32), Some(-256i32)];
    let (values, validity) = unzip_option(&column).unwrap();
    assert_eq!(values, vec![0xff, 0xff, 0xff, 0xff, 0x00, 0xff, 0xff, 0xff]);
    assert_eq!(validity, vec![2, 0, 0, 0, 3, 0b11]);
}

#[test]
fn value_buffer_is_count_times_width() {
    let column = vec![Some(1i64), None, Some(2), Some(3), None];
    let (values, _) = unzip_option(&column).unwrap();
    assert_eq!(values.len(), 3 * 8);
    let column = vec![None, Some(7i32), Some(8), None];
    let (values, _) = unzip_option(&column).unwrap();
    assert_eq!(values.len(), 2 * 4);
}

#[test]
fn descriptor_duplicate_keeps_every_field() {
    let d = ColumnDescriptor {
        physical_type: PhysicalType::Int64,
        path: vec!["a".to_string(), "b".to_string(), "c".to_string()],
        max_def_level: 2,
        max_rep_level: 1,
    };
    assert_eq!(d.duplicate(), d);
    let page = array_to_page_v1(&[Some(5i64)], &options(false, Compression::Gzip), &d).unwrap();
    assert_eq!(page.descriptor, d);
    assert!(page.dictionary_page.is_none());
}
