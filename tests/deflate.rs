use flate2::read::DeflateDecoder;
use gzip::bits::Bits;
use gzip::deflate::{deflate_bytes, deflate_chunk, deflate_finish};
use std::io::Read;

fn inflate(data: &[u8]) -> Vec<u8> {
    let mut d = DeflateDecoder::new(data);
    let mut buf = Vec::new();
    if let Err(e) = d.read_to_end(&mut buf) {
        panic!("{e:#?}")
    }
    buf
}

fn deflate_buf(input: &[u8]) -> Vec<u8> {
    deflate_bytes(input, 1024)
}

#[test]
fn read_deflate() {
    let data = "foobar".as_bytes().to_vec();
    let result = deflate_buf(&data);
    let mut deflater = DeflateDecoder::new(&result[..]);
    let mut s = String::new();
    if let Err(e) = deflater.read_to_string(&mut s) {
        panic!("{e:#?}")
    }

    assert_eq!("foobar", s);
}

#[test]
fn read_deflate_256_bytes() {
    let data = (0..255u8).collect::<Vec<_>>();
    let result = deflate_buf(&data);
    let mut deflater = DeflateDecoder::new(&result[..]);
    let mut buf = Vec::new();
    if let Err(e) = deflater.read_to_end(&mut buf) {
        panic!("{e:#?}")
    }

    assert_eq!(&data, &buf);
}

#[test]
fn round_trip_edge_inputs() {
    let all: Vec<u8> = (0..=255u8).collect();
    let mut pseudo_random = Vec::new();
    let mut x: u32 = 12345;
    for _ in 0..5000 {
        x = x.wrapping_mul(1103515245).wrapping_add(12345);
        pseudo_random.push((x >> 16) as u8);
    }
    let inputs: Vec<Vec<u8>> = vec![
        Vec::new(),
        vec![0],
        vec![255],
        all,
        vec![9u8; 70000],
        pseudo_random,
        "abc".repeat(1000).into_bytes(),
    ];
    for input in inputs.iter() {
        assert_eq!(&inflate(&deflate_buf(input)), input);
    }
}

#[test]
fn all_byte_values_round_trip() {
    let data: Vec<u8> = (0..=255u8).collect();
    assert_eq!(data.len(), 256);
    assert_eq!(inflate(&deflate_buf(&data)), data);
}

#[test]
fn compressing_twice_gives_the_same_bytes() {
    let data = "foobar123foobar4foobar4xyz".repeat(50).into_bytes();
    assert_eq!(deflate_buf(&data), deflate_buf(&data));
    assert_eq!(deflate_bytes(&data, 8), deflate_bytes(&data, 8));
}

#[test]
fn repeated_abc_shrinks() {
    let data = "abc".repeat(1000).into_bytes();
    let out = deflate_buf(&data);
    assert!(out.len() < data.len());
    assert!(out.len() < 3000);
    assert_eq!(inflate(&out), data);
}

#[test]
fn chunk_sizes_give_the_same_content() {
    let data = "foobar123foo1234foobar the quick brown fox".repeat(40).into_bytes();
    for buf_size in [1usize, 4, 8, 1024, 100000] {
        assert_eq!(inflate(&deflate_bytes(&data, buf_size)), data, "buf_size {buf_size}");
    }
}

#[test]
fn chunks_by_hand_match_the_whole() {
    let data = "foobar".repeat(20).into_bytes();
    let mut out = Vec::new();
    let mut bits = Bits::new();
    for chunk in data.chunks(7) {
        let (bytes, rest) = deflate_chunk(chunk, bits);
        out.extend(bytes);
        bits = rest;
    }
    out.extend(deflate_finish(bits));
    assert_eq!(inflate(&out), data);
}

#[test]
fn empty_stream_is_one_last_dynamic_block() {
    let out = deflate_finish(Bits::new());
    // The last-block flag, then block type 2 written low bit first (0, 1).
    assert_eq!(out[0] & 0b111, 0b101);
    assert_eq!(inflate(&out), Vec::<u8>::new());
    assert_eq!(deflate_bytes(&[], 4), out);
}
