//! Whole-stream compression round-trips and wire-format scenarios.

use redux::bitio::{BitRead, BitReader, BitWrite, BitWriter};
use redux::model::{AdaptiveLinearModel, AdaptiveTreeModel, Parameters};

fn roundtrip_tree(data: &Vec<u8>, symbol: usize, frequency: usize, code: usize) -> (u64, u64) {
    let p1 = Parameters::new(symbol, frequency, code).unwrap();
    let p2 = Parameters::new(symbol, frequency, code).unwrap();
    let mut compressed: Vec<u8> = Vec::new();
    let (i, o) = redux::compress(data, &mut compressed, AdaptiveTreeModel::new(p1)).unwrap();
    assert_eq!(i as usize, data.len());
    assert_eq!(o as usize, compressed.len());
    let mut decompressed: Vec<u8> = Vec::new();
    redux::decompress(&compressed, &mut decompressed, AdaptiveTreeModel::new(p2)).unwrap();
    assert_eq!(*data, decompressed);
    (i, o)
}

fn roundtrip_linear(data: &Vec<u8>, symbol: usize, frequency: usize, code: usize) -> (u64, u64) {
    let p1 = Parameters::new(symbol, frequency, code).unwrap();
    let p2 = Parameters::new(symbol, frequency, code).unwrap();
    let mut compressed: Vec<u8> = Vec::new();
    let (i, o) = redux::compress(data, &mut compressed, AdaptiveLinearModel::new(p1)).unwrap();
    let mut decompressed: Vec<u8> = Vec::new();
    redux::decompress(&compressed, &mut decompressed, AdaptiveLinearModel::new(p2)).unwrap();
    assert_eq!(*data, decompressed);
    (i, o)
}

#[test]
fn roundtrip_empty_input() {
    let data: Vec<u8> = Vec::new();
    let (i, o) = roundtrip_tree(&data, 8, 14, 16);
    assert_eq!(0, i);
    // the output still carries the EOF codeword
    assert!(o > 0);
    let (i2, o2) = roundtrip_linear(&data, 8, 14, 16);
    assert_eq!(0, i2);
    assert!(o2 > 0);
}

#[test]
fn roundtrip_small_input() {
    let data = vec![0x72u8, 0x65u8, 0x64u8, 0x75u8, 0x78u8];
    let (i, _o) = roundtrip_tree(&data, 8, 14, 16);
    assert_eq!(5, i);
    roundtrip_linear(&data, 8, 14, 16);
    roundtrip_tree(&data, 8, 30, 32);
}

#[test]
fn compressed_length_is_deterministic() {
    let data = vec![0x72u8, 0x65u8, 0x64u8, 0x75u8, 0x78u8];
    let p1 = Parameters::new(8, 14, 16).unwrap();
    let p2 = Parameters::new(8, 14, 16).unwrap();
    let mut first: Vec<u8> = Vec::new();
    let mut second: Vec<u8> = Vec::new();
    redux::compress(&data, &mut first, AdaptiveTreeModel::new(p1)).unwrap();
    redux::compress(&data, &mut second, AdaptiveTreeModel::new(p2)).unwrap();
    assert_eq!(first, second);
}

#[test]
fn roundtrip_repeated_byte_compresses_well() {
    let data = vec![0x00u8; 1024];
    let (i, o) = roundtrip_tree(&data, 8, 14, 16);
    assert_eq!(1024, i);
    // the adapted model strongly favors the repeated byte
    assert!(o * 4 <= i);
    let (_i2, o2) = roundtrip_linear(&data, 8, 14, 16);
    assert_eq!(o, o2);
}

#[test]
fn models_produce_identical_streams() {
    let data = vec![3u8, 1u8, 4u8, 1u8, 5u8, 9u8, 2u8, 6u8, 5u8, 3u8, 5u8, 8u8, 9u8, 7u8, 9u8];
    let mut with_tree: Vec<u8> = Vec::new();
    let mut with_linear: Vec<u8> = Vec::new();
    let pt = Parameters::new(8, 14, 16).unwrap();
    let pl = Parameters::new(8, 14, 16).unwrap();
    redux::compress(&data, &mut with_tree, AdaptiveTreeModel::new(pt)).unwrap();
    redux::compress(&data, &mut with_linear, AdaptiveLinearModel::new(pl)).unwrap();
    assert_eq!(with_tree, with_linear);
    // a stream built by one model decodes under the other
    let pd = Parameters::new(8, 14, 16).unwrap();
    let mut decompressed: Vec<u8> = Vec::new();
    redux::decompress(&with_tree, &mut decompressed, AdaptiveLinearModel::new(pd)).unwrap();
    assert_eq!(data, decompressed);
}

#[test]
fn roundtrip_all_byte_values() {
    let mut data: Vec<u8> = Vec::new();
    for b in 0..=255u8 {
        data.push(b);
        data.push(b);
    }
    roundtrip_tree(&data, 8, 14, 16);
    roundtrip_linear(&data, 8, 14, 16);
}

#[test]
fn bit_writer_packs_msb_first() {
    let mut writer = BitWriter::new();
    writer.write_bits(0b1, 1).unwrap();
    writer.write_bits(0b010101, 6).unwrap();
    writer.write_bits(0b0, 1).unwrap();
    writer.flush_bits().unwrap();
    assert_eq!(vec![0b10101010u8], writer.into_bytes());
}

#[test]
fn bit_writer_pads_with_zeros() {
    let mut writer = BitWriter::new();
    writer.write_bits(0b1, 1).unwrap();
    writer.flush_bits().unwrap();
    assert_eq!(vec![0b10000000u8], writer.into_bytes());
}

#[test]
fn flush_is_idempotent() {
    let mut writer = BitWriter::new();
    writer.write_bits(0b101, 3).unwrap();
    writer.flush_bits().unwrap();
    let count = writer.get_count();
    writer.flush_bits().unwrap();
    assert_eq!(count, writer.get_count());
    assert_eq!(vec![0b10100000u8], writer.into_bytes());
}

#[test]
fn write_bits_rejects_oversized_values() {
    let mut writer = BitWriter::new();
    assert!(writer.write_bits(0b100, 2).is_err());
    assert!(writer.write_bits(usize::MAX, usize::BITS as usize + 1).is_err());
    assert!(writer.write_bits(0b11, 2).is_ok());
}

#[test]
fn zero_width_writes_and_reads() {
    let mut writer = BitWriter::new();
    // a zero-width write carries no bits, and only the zero value fits in it
    assert!(writer.write_bits(0, 0).is_ok());
    assert!(writer.write_bits(1, 0).is_err());
    assert!(writer.write_bits(0b11, 2).is_ok());
    writer.flush_bits().unwrap();
    assert_eq!(vec![0b11000000u8], writer.into_bytes());

    let mut reader = BitReader::new(vec![0xFFu8]);
    assert_eq!(Ok(0usize), reader.read_bits(0));
    assert_eq!(Ok(0b1111usize), reader.read_bits(4));
}

#[test]
fn decompress_arbitrary_bytes_terminates() {
    // decoding corrupt input must end in a clean result, never a crash
    for len in 0..48usize {
        let mut data: Vec<u8> = Vec::new();
        for _k in 0..len {
            data.push(rand::random::<u8>());
        }
        let mut out1: Vec<u8> = Vec::new();
        let p1 = Parameters::new(8, 14, 16).unwrap();
        let r1 = redux::decompress(&data, &mut out1, AdaptiveTreeModel::new(p1));
        let mut out2: Vec<u8> = Vec::new();
        let p2 = Parameters::new(8, 14, 16).unwrap();
        let r2 = redux::decompress(&data, &mut out2, AdaptiveLinearModel::new(p2));
        // the two models agree even on corrupt input
        assert_eq!(r1.is_ok(), r2.is_ok());
        assert_eq!(out1, out2);
    }
}
