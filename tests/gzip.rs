use flate2::read::GzDecoder;
use gzip::crc::Crc;
use gzip::gzip::{gzip_bytes, header, Checksum};
use std::io::Read;

fn gzip_buf(input: &[u8], buf_size: usize) -> Vec<u8> {
    gzip_bytes(input, 0, buf_size)
}

#[test]
fn read_gzip() {
    let buf_sizes = [1024, 4, 8];
    let inputs = ["foobar", "foobar123foo1234foobar"];
    for buf_size in buf_sizes.into_iter() {
        for input in inputs.into_iter() {
            let data = input.as_bytes().to_vec();
            let result = gzip_buf(&data, buf_size);
            let mut gunzipper = GzDecoder::new(&result[..]);
            let mut s = String::new();
            if let Err(e) = gunzipper.read_to_string(&mut s) {
                panic!("input: {input}: {e:#?}")
            }

            assert_eq!(input, s);
        }
    }
}

#[test]
fn gzip_literal_tests() {
    let cases = [
        "foobar",
        "foobar123foobar4foobar4xyz",
        "0123456789_0123456789",
        "this is a",
    ];
    for input in cases.into_iter() {
        let data = input.as_bytes().to_vec();
        let result = gzip_buf(&data, 10_000);
        let mut gunzipper = GzDecoder::new(&result[..]);
        let mut s = String::new();
        if let Err(e) = gunzipper.read_to_string(&mut s) {
            panic!("{e:#?}")
        }

        assert_eq!(input, s);
    }
}

#[test]
fn gzip_repeat_tests() {
    let three_times = (5..=10).chain([15, 25, 50]).map(|l| (l, 3));
    let thousand_times = (1..=4).map(|l| (l, 1000));
    for (l, r) in three_times.chain(thousand_times) {
        let value = "abcdefghijklmnopqrstuvwxyzABCDEFGHIJKLMNOPQRSTUVWXYZ"[..l].repeat(r);
        let data = value.as_bytes().to_vec();
        let result = gzip_buf(&data, 10_000);
        let mut gunzipper = GzDecoder::new(&result[..]);
        let mut s = String::new();
        if let Err(e) = gunzipper.read_to_string(&mut s) {
            panic!("error: {e:#?}, length: {l}, repeat: {r}")
        }

        if data.len() < 20 {
            assert_eq!(value, s);
        } else {
            let actual_omitted = &s[..20];
            assert_eq!(
                value, s,
                "length: {l}, repeat: {r}, actual: {actual_omitted}..."
            );
        }
    }
}

#[test]
fn header_bytes() {
    assert_eq!(
        header(0x1234_5678),
        vec![0x1f, 0x8b, 0x08, 0, 0x78, 0x56, 0x34, 0x12, 0, 0xff]
    );
    assert_eq!(
        header(0),
        vec![0x1f, 0x8b, 0x08, 0, 0, 0, 0, 0, 0, 0xff]
    );
}

#[test]
fn crc32_check_value() {
    let crc = Crc::new().append(b"123456789");
    assert_eq!(crc.get(), 0xCBF4_3926u32.to_le_bytes());
    assert_eq!(Crc::new().get(), [0, 0, 0, 0]);
}

#[test]
fn checksum_counts_size_and_crc_across_reads() {
    let mut c = Checksum::new();
    c.update(b"12345");
    c.update(b"6789");
    assert_eq!(c.crc_bytes(), 0xCBF4_3926u32.to_le_bytes());
    assert_eq!(c.isize_bytes(), [9, 0, 0, 0]);
}

#[test]
fn trailer_holds_crc_and_size() {
    let data = b"hello hello hello".to_vec();
    let out = gzip_buf(&data, 8);
    let n = out.len();
    assert_eq!(out[n - 4..], [17, 0, 0, 0]);
    let crc = Crc::new().append(&data).get();
    assert_eq!(out[n - 8..n - 4], crc);
}
