use flate2::read::ZlibDecoder;
use pdfx::deflate::adler::adler32;
use pdfx::deflate::bits::{reverse_bits, BitWriter};
use pdfx::deflate::compress;
use pdfx::deflate::encode::compress_zlib;
use pdfx::deflate::huffman::{build_lengths, encode_code_lengths, HuffTable};
use pdfx::deflate::lz77::{
    distance_base, distance_code, distance_extra, length_base, length_code, length_extra, parse, Token,
};
use std::io::Read;

fn inflate(bytes: &[u8]) -> Vec<u8> {
    let mut dec = ZlibDecoder::new(bytes);
    let mut out = Vec::new();
    dec.read_to_end(&mut out).expect("zlib decode");
    out
}

/// Undo a token stream the way an inflater does.
fn expand(tokens: &[Token]) -> Vec<u8> {
    let mut out: Vec<u8> = Vec::new();
    for t in tokens {
        match *t {
            Token::Literal(b) => out.push(b),
            Token::Match { length, distance } => {
                for _ in 0..length {
                    let b = out[out.len() - distance as usize];
                    out.push(b);
                }
            }
        }
    }
    out
}

#[test]
fn empty_is_one() {
    assert_eq!(adler32(&[]), 1);
}

#[test]
fn wikipedia_example() {
    assert_eq!(adler32(b"Wikipedia"), 0x11E6_0398);
}

#[test]
fn packs_lsb_first() {
    let mut w = BitWriter::new();
    w.write_bits(0b1, 1);
    w.write_bits(0b10, 2);
    w.write_bits(0b011, 3);
    w.align_byte();
    assert_eq!(w.buf, vec![0b0001_1101]);
}

#[test]
fn empty_roundtrip() {
    let out = compress(&[]);
    assert_eq!(inflate(&out), b"");
}

#[test]
fn short_literal_roundtrip() {
    let src = b"hello pdfx";
    assert_eq!(inflate(&compress(src)), src);
}

#[test]
fn repeated_bytes_roundtrip() {
    let src = vec![0xABu8; 4096];
    let out = compress(&src);
    assert!(out.len() < src.len());
    assert_eq!(inflate(&out), src);
}

#[test]
fn lorem_roundtrip() {
    let src = b"the quick brown fox jumps over the lazy dog. ".repeat(200);
    let out = compress(&src);
    assert!(out.len() < src.len() / 2);
    assert_eq!(inflate(&out), src.as_slice());
}

#[test]
fn binary_noise_roundtrip() {
    let src: Vec<u8> = (0u32..10_000)
        .map(|i| (i.wrapping_mul(1_103_515_245) >> 16) as u8)
        .collect();
    assert_eq!(inflate(&compress(&src)), src);
}

const SOURCE_TEXT: &str = "//! DEFLATE (RFC 1951) in a zlib wrapper (RFC 1950).\n\
pub mod adler;\npub mod bits;\npub mod encode;\npub mod huffman;\npub mod lz77;\n\
pub fn compress(data: &[u8]) -> Vec<u8> {\n    encode::compress_zlib(data)\n}\n\
#[cfg(test)]\nmod tests {\n    use super::*;\n    use flate2::read::ZlibDecoder;\n    use std::io::Read;\n\
    fn inflate(bytes: &[u8]) -> Vec<u8> {\n        let mut dec = ZlibDecoder::new(bytes);\n\
        let mut out = Vec::new();\n        dec.read_to_end(&mut out).expect(\"zlib decode\");\n        out\n    }\n\
    #[test]\n    fn empty_roundtrip() {\n        let out = compress(&[]);\n        assert_eq!(inflate(&out), b\"\");\n    }\n\
    #[test]\n    fn short_literal_roundtrip() {\n        let src = b\"hello pdfx\";\n\
        assert_eq!(inflate(&compress(src)), src);\n    }\n}\n";

#[test]
fn beats_identity_on_text() {
    let src = SOURCE_TEXT.as_bytes();
    let out = compress(src);
    assert!(out.len() < src.len());
    assert_eq!(inflate(&out), src);
}

#[test]
fn zlib_frame_header_and_checksum() {
    let src = b"abcabcabcabcabc-frame";
    let out = compress_zlib(src);
    assert_eq!(out[0], 0x78);
    assert_eq!(((out[0] as u32) << 8 | out[1] as u32) % 31, 0);
    let n = out.len();
    let tail = u32::from_be_bytes([out[n - 4], out[n - 3], out[n - 2], out[n - 1]]);
    assert_eq!(tail, adler32(src));
    assert_eq!(compress(src), out);
}

#[test]
fn adler_of_single_bytes() {
    assert_eq!(adler32(b"a"), 0x0062_0062);
    assert_eq!(adler32(b"abc"), 0x024D_0127);
}

#[test]
fn adler_long_input_wraps_modulus() {
    let data = vec![0xFFu8; 100_000];
    let mut a: u64 = 1;
    let mut b: u64 = 0;
    for &x in &data {
        a = (a + x as u64) % 65521;
        b = (b + a) % 65521;
    }
    assert_eq!(adler32(&data) as u64, (b << 16) | a);
}

#[test]
fn huffman_codes_are_reversed_on_write() {
    let mut w = BitWriter::new();
    w.write_huffman(0b110, 3);
    w.align_byte();
    assert_eq!(w.buf, vec![0b0000_0011]);
    assert_eq!(reverse_bits(0b110, 3), 0b011);
    assert_eq!(reverse_bits(0b1, 8), 0b1000_0000);
}

#[test]
fn finish_flushes_partial_byte() {
    let mut w = BitWriter::new();
    w.write_bits(0xABC, 12);
    let out = w.finish();
    assert_eq!(out, vec![0xBC, 0x0A]);
}

#[test]
fn canonical_codes_from_lengths() {
    // RFC 1951 section 3.2.2 example: lengths (3, 3, 3, 3, 3, 2, 4, 4).
    let t = HuffTable::from_lengths(&[3, 3, 3, 3, 3, 2, 4, 4]);
    assert_eq!(t.codes, vec![0b010, 0b011, 0b100, 0b101, 0b110, 0b00, 0b1110, 0b1111]);
    assert_eq!(t.lengths, vec![3, 3, 3, 3, 3, 2, 4, 4]);
}

#[test]
fn build_lengths_respects_limit_and_kraft() {
    let freqs: Vec<u32> = (0..40u32).map(|i| 1 + i * i * i).collect();
    let lengths = build_lengths(&freqs, 7);
    assert_eq!(lengths.len(), freqs.len());
    let mut kraft = 0u64;
    for &l in &lengths {
        assert!(l >= 1 && l <= 7);
        kraft += 1u64 << (7 - l);
    }
    assert!(kraft <= 1u64 << 7);
}

#[test]
fn build_lengths_zero_and_single_symbol() {
    assert_eq!(build_lengths(&[0, 0, 0], 15), vec![1, 1, 0]);
    assert_eq!(build_lengths(&[0, 5, 0], 15), vec![1, 1, 0]);
    assert_eq!(build_lengths(&[7, 0, 0], 15), vec![1, 1, 0]);
}

#[test]
fn code_length_runs() {
    let out = encode_code_lengths(&[0; 20]);
    assert_eq!(out, vec![(18, 7, 9)]);
    let out = encode_code_lengths(&[8, 8, 8, 8, 8, 8, 8]);
    assert_eq!(out, vec![(8, 0, 0), (16, 2, 3)]);
    let out = encode_code_lengths(&[8, 8, 8]);
    assert_eq!(out, vec![(8, 0, 0), (8, 0, 0), (8, 0, 0)]);
    let out = encode_code_lengths(&[0, 0, 5]);
    assert_eq!(out, vec![(0, 0, 0), (0, 0, 0), (5, 0, 0)]);
}

#[test]
fn length_and_distance_codes() {
    assert_eq!(length_code(3), (257, 0));
    assert_eq!(length_code(10), (264, 0));
    assert_eq!(length_code(11), (265, 1));
    assert_eq!(length_code(12), (265, 1));
    assert_eq!(length_code(20), (269, 2));
    assert_eq!(length_code(258), (285, 0));
    assert_eq!(length_base(265), 11);
    assert_eq!(length_extra(265), 1);
    assert_eq!(length_extra(285), 0);
    assert_eq!(distance_code(1), (0, 0));
    assert_eq!(distance_code(5), (4, 1));
    assert_eq!(distance_code(6), (4, 1));
    assert_eq!(distance_code(32768), (29, 13));
    assert_eq!(distance_base(29), 24577);
    assert_eq!(distance_extra(29), 13);
}

#[test]
fn parse_expands_back_to_input() {
    let src = b"abracadabra abracadabra abracadabra".to_vec();
    let tokens = parse(&src);
    assert_eq!(expand(&tokens), src);
    assert!(tokens.iter().any(|t| matches!(t, Token::Match { .. })));
    let noise: Vec<u8> = (0u32..3000).map(|i| (i.wrapping_mul(2_654_435_761) >> 13) as u8).collect();
    assert_eq!(expand(&parse(&noise)), noise);
}

#[test]
fn parse_of_empty_is_empty() {
    assert!(parse(&[]).is_empty());
}

#[test]
fn code_length_runs_are_the_expected_items() {
    let mut lengths = vec![8u8, 8, 8, 8];
    lengths.extend(std::iter::repeat(0u8).take(11));
    lengths.extend([3u8, 3]);
    assert_eq!(
        pdfx::deflate::huffman::encode_code_lengths(&lengths),
        vec![(8, 0, 0), (16, 2, 0), (18, 7, 0), (3, 0, 0), (3, 0, 0)]
    );
    assert_eq!(pdfx::deflate::huffman::encode_code_lengths(&[0, 0, 5]), vec![(0, 0, 0), (0, 0, 0), (5, 0, 0)]);
    assert_eq!(pdfx::deflate::huffman::encode_code_lengths(&[0, 0, 0, 4, 4, 4]), vec![(17, 3, 0), (4, 0, 0), (4, 0, 0), (4, 0, 0)]);
}

#[test]
fn build_lengths_with_many_unused_symbols() {
    // a table far past 65536 entries with few used symbols
    let mut freqs = vec![0u32; 70000];
    freqs[5] = 3;
    freqs[69999] = 1;
    freqs[300] = 2;
    let l = pdfx::deflate::huffman::build_lengths(&freqs, 15);
    assert_eq!(l.len(), 70000);
    assert_eq!(l[5], 1);
    assert_eq!(l[300], 2);
    assert_eq!(l[69999], 2);
    assert_eq!(l.iter().filter(|&&x| x != 0).count(), 3);
}

#[test]
fn capped_fibonacci_lengths() {
    let l = pdfx::deflate::huffman::build_lengths(&[1, 1, 2, 3, 5, 8, 13, 21, 34], 7);
    assert_eq!(l, vec![7, 7, 7, 6, 5, 4, 3, 2, 2]);
    let kraft: u32 = l.iter().map(|&x| 1u32 << (7 - x)).sum();
    assert!(kraft <= 128);
    // uncapped, the same frequencies give the plain Huffman depths
    let l = pdfx::deflate::huffman::build_lengths(&[1, 1, 2, 3, 5, 8, 13, 21, 34], 15);
    assert_eq!(l, vec![8, 8, 7, 6, 5, 4, 3, 2, 1]);
}

#[test]
fn run_of_writes_packs_into_bytes() {
    let mut w = BitWriter::new();
    w.write_bits(0b101, 3);
    w.write_bits(0xABCD, 16);
    w.write_bits(1, 1);
    let out = w.finish();
    assert_eq!(out.len(), (20 + 7) / 8);
    assert_eq!(out, vec![0x6d, 0x5e, 0x0d]);
}
