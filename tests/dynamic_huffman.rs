use flate2::read::DeflateDecoder;
use gzip::bits::{Bits, ShortBits};
use gzip::dynamic_huffman::dynamic_huffman;
use std::io::Read;

fn deflate(data: &[u8]) -> Vec<u8> {
    let bits = dynamic_huffman(data, Bits::new());
    let (mut out, bits) = bits.drain_bytes();
    let (last, rest) = last_block(bits).drain_bytes();
    out.extend(last);
    if let Some(b) = rest.last() {
        out.push(b);
    }
    out
}

fn last_block(bits: Bits) -> Bits {
    let mut out = bits;
    out.add(&[true, true, false]);
    out.append(&ShortBits::code(0, 7));
    out
}

#[test]
fn dynamic_huffman_literal_tests() {
    let cases = [
        "foobar",
        "foobar123foobar4foobar4xyz",
        "0123456789_0123456789",
        "this is a",
    ];
    for input in cases.into_iter() {
        let data = input.as_bytes().to_vec();
        let result = deflate(&data);
        let mut inflator = DeflateDecoder::new(&result[..]);
        let mut s = String::new();
        if let Err(e) = inflator.read_to_string(&mut s) {
            panic!("{e:#?}")
        }

        assert_eq!(input, s);
    }
}

#[test]
fn dynamic_huffman_repeat_tests() {
    let three_times = (5..=10).chain([15, 25, 50]).map(|l| (l, 3));
    let thousand_times = (1..=4).map(|l| (l, 1000));
    for (l, r) in three_times.chain(thousand_times) {
        let value = "abcdefghijklmnopqrstuvwxyzABCDEFGHIJKLMNOPQRSTUVWXYZ"[..l].repeat(r);
        let data = value.as_bytes().to_vec();
        let result = deflate(&data);
        let mut inflator = DeflateDecoder::new(&result[..]);
        let mut s = String::new();
        if let Err(e) = inflator.read_to_string(&mut s) {
            panic!("error: {e:#?}, length: {l}, repeat: {r}")
        }

        if data.len() < 20 {
            assert_eq!(value, s);
        } else {
            let actual_omitted = &s[..20];
            assert_eq!(
                value, s,
                "length: {l}, repeat: {r}, actual: {actual_omitted}..."
            );
        }
    }
}

#[test]
fn dynamic_huffman_distance_tests() {
    let ds = (3..=15).into_iter().chain([
        16, 17, 19, 24, 32, 33, 50, 64, 65, 90, 128, 200, 400, 800, 1000,
    ]);
    for d in ds {
        let value = format!("abc{}abc{}abc", "-".repeat(d - 3), "-".repeat(d - 3));
        let data = value.as_bytes().to_vec();
        let result = deflate(&data);
        let mut inflator = DeflateDecoder::new(&result[..]);
        let mut s = String::new();
        if let Err(e) = inflator.read_to_string(&mut s) {
            panic!("{e:#?}")
        }

        assert_eq!(value, s, "distance: {d}");
    }
}

#[test]
fn huffman_256_bytes() {
    let data = (0..255u8).collect::<Vec<_>>();
    let result = deflate(&data);
    let mut deflater = DeflateDecoder::new(&result[..]);
    let mut buf = Vec::new();
    if let Err(e) = deflater.read_to_end(&mut buf) {
        panic!("{e:#?}")
    }
    assert_eq!(&data, &buf);
}

#[test]
fn dynamic_huffman_repeated_3_chars_shrinks() {
    let data = "abc".repeat(1000).as_bytes().to_vec();
    let result = deflate(&data);
    assert!(result.len() < data.len());
    let mut deflater = DeflateDecoder::new(&result[..]);
    let mut buf = Vec::new();
    if let Err(e) = deflater.read_to_end(&mut buf) {
        panic!("{e:#?}")
    }
    assert_eq!(&data, &buf);
}

#[test]
fn block_header_starts_with_dynamic_type() {
    let bits = dynamic_huffman(b"x", Bits::new());
    let (bytes, _) = bits.drain_bytes();
    // Not the last block (0), then block type 2 written low bit first (0, 1).
    assert_eq!(bytes[0] & 0b111, 0b100);
    // 286 literal/length codes and 30 distance codes.
    assert_eq!((bytes[0] >> 3) & 0b11111, 29);
    assert_eq!(bytes[1] & 0b11111, 29);
}
