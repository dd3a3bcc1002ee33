use gzip::bits::{Bits, ShortBits};

#[test]
fn append_short_bits_into_bits() {
    let mut bits = Bits::new();
    bits.append(&ShortBits::data(0x12_34, 2 * 8));
    let (bytes, _) = bits.drain_bytes();

    assert_eq!(vec![0x34, 0x12], bytes);

    let mut bits = Bits::new();
    bits.append(&ShortBits::data(0x06_34_12, 2 * 8 + 4));
    bits.append(&ShortBits::data(0x07_85, 8 + 4));
    let (bytes, _) = bits.drain_bytes();

    assert_eq!(vec![0x12, 0x34, 0x56, 0x78], bytes);

    let mut bits = Bits::new();
    bits.append(&ShortBits::data(0x_03_21, 8 + 4));
    bits.append(&ShortBits::data(0x_04, 4));
    bits.append(&ShortBits::data(0x_05, 4));
    bits.append(&ShortBits::data(0x_06, 4));
    bits.append(&ShortBits::data(0x_07, 4));
    bits.append(&ShortBits::data(0x_08, 4));
    let (bytes, _) = bits.drain_bytes();

    assert_eq!(vec![0x21, 0x43, 0x65, 0x87], bytes);

    let mut bits = Bits::new();
    bits.append(&ShortBits::data(0b_0101, 4));
    bits.append(&ShortBits::data(0b_111, 3));
    bits.append(&ShortBits::data(0b_000, 3));
    bits.append(&ShortBits::data(0b_001101, 6));
    bits.append(&ShortBits::data(0b_10101, 5));
    bits.append(&ShortBits::data(0b_11, 2));
    bits.append(&ShortBits::data(0b_1100, 2));
    let (bytes, _) = bits.drain_bytes();

    assert_eq!(vec![0b0_111_0101, 0b001101_00, 0b0_11_10101], bytes);
}

#[test]
fn code_is_written_most_significant_bit_first() {
    let c = ShortBits::code(0b110, 3);
    assert_eq!(c.size, 3);
    assert_eq!(c.body, 0b011);
    let mut bits = Bits::new();
    bits.append(&c);
    bits.append(&ShortBits::code(0b10110, 5));
    let (bytes, _) = bits.drain_bytes();
    assert_eq!(vec![0b0110_1011], bytes);
}

#[test]
fn concat_and_trim_keep_low_bits() {
    let a = ShortBits::data(0xff_05, 4);
    assert_eq!(a.trim().body, 0x5);
    let b = ShortBits::data(0b11, 2);
    let c = a.concat(&b);
    assert_eq!(c.size, 6);
    assert_eq!(c.body, 0b11_0101);
    let z = ShortBits::zero().concat(&b);
    assert_eq!(z.body, 0b11);
    assert_eq!(z.size, 2);
}

#[test]
fn extend_joins_streams_mid_byte() {
    let mut head = Bits::new();
    head.add(&[true, false, true]);
    let mut tail = Bits::new();
    tail.append(&ShortBits::data(0b1100_1111_0000_1, 13));
    head.extend(&tail);
    let (bytes, rest) = head.drain_bytes();
    assert_eq!(vec![0b0000_1101, 0b1100_1111], bytes);
    assert_eq!(rest.last(), None);
}

#[test]
fn last_pads_with_zero_bits() {
    let mut bits = Bits::new();
    bits.add(&[true, true, false, true]);
    assert_eq!(bits.last(), Some(0b1011));
    assert_eq!(Bits::new().last(), None);
}
