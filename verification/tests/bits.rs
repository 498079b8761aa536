use ben::bitpack::{BitPacker, BitUnpacker};
use ben::bitstream::{push_u32_be, read_u32_be};
use ben::encode::{bit_width, field_widths};

#[test]
fn bit_width_counts_binary_digits() {
    assert_eq!(bit_width(0), 0);
    assert_eq!(bit_width(1), 1);
    assert_eq!(bit_width(2), 2);
    assert_eq!(bit_width(3), 2);
    assert_eq!(bit_width(4), 3);
    assert_eq!(bit_width(255), 8);
    assert_eq!(bit_width(256), 9);
    assert_eq!(bit_width(32767), 15);
    assert_eq!(bit_width(32768), 16);
    assert_eq!(bit_width(65535), 16);
}

#[test]
fn bit_width_is_the_least_that_holds() {
    for x in [1u16, 2, 5, 17, 100, 1000, 4095, 4096, 40000, 65535] {
        let w = bit_width(x) as u32;
        assert!((x as u32) < (1u32 << w));
        assert!((x as u32) >= (1u32 << (w - 1)));
    }
}

#[test]
fn widths_of_small_runs() {
    assert_eq!(field_widths(&vec![(1, 3), (2, 3)]), (2, 2));
}

#[test]
fn widths_clamp_value_zero_to_one_bit() {
    assert_eq!(field_widths(&vec![(0, 1)]), (1, 1));
    assert_eq!(field_widths(&vec![(0, 9)]), (1, 4));
}

#[test]
fn widths_of_no_runs() {
    assert_eq!(field_widths(&Vec::new()), (1, 0));
}

#[test]
fn widths_of_full_range() {
    assert_eq!(field_widths(&vec![(65535, 65535), (1, 1)]), (16, 16));
    assert_eq!(field_widths(&vec![(0, 3), (5, 2), (1000, 4), (3, 1)]), (10, 3));
}

#[test]
fn packer_starts_empty() {
    let packer = BitPacker::new();
    assert_eq!(packer.flush(), Vec::<u8>::new());
}

#[test]
fn packer_pads_last_byte_with_zeros() {
    let mut packer = BitPacker::new();
    packer.push(5, 3);
    packer.push(1, 1);
    assert_eq!(packer.flush(), vec![0b1011_0000]);
}

#[test]
fn packer_carries_bits_across_bytes() {
    let mut packer = BitPacker::new();
    packer.push(0b101, 3);
    packer.push(0xFFFF, 16);
    packer.push(0, 1);
    packer.push(0b11, 2);
    // 101 1111111111111111 0 11 + 2 bits of padding
    assert_eq!(packer.flush(), vec![0b1011_1111, 0b1111_1111, 0b1110_1100]);
}

#[test]
fn packer_whole_bytes_need_no_padding() {
    let mut packer = BitPacker::new();
    packer.push(0xAB, 8);
    packer.push(0xCDEF, 16);
    assert_eq!(packer.flush(), vec![0xAB, 0xCD, 0xEF]);
}

#[test]
fn packer_field_of_no_bits_changes_nothing() {
    let mut packer = BitPacker::new();
    packer.push(1, 1);
    packer.push(0, 0);
    packer.push(1, 1);
    assert_eq!(packer.flush(), vec![0b1100_0000]);
}

#[test]
fn unpacker_reads_fields_in_order() {
    let data = [0b1011_0000u8];
    let mut unpacker = BitUnpacker::new(&data);
    assert_eq!(unpacker.take(3), Some(5));
    assert_eq!(unpacker.take(1), Some(1));
    assert_eq!(unpacker.take(4), Some(0));
    assert_eq!(unpacker.take(1), None);
    assert_eq!(unpacker.take(0), Some(0));
}

#[test]
fn unpacker_refuses_more_bits_than_are_left() {
    let data = [0xFFu8, 0x00];
    let mut unpacker = BitUnpacker::new(&data);
    assert_eq!(unpacker.take(12), Some(0xFF0));
    assert_eq!(unpacker.take(5), None);
    assert_eq!(unpacker.take(4), Some(0));
    assert_eq!(unpacker.take(1), None);
}

#[test]
fn unpacker_on_no_bytes() {
    let data: [u8; 0] = [];
    let mut unpacker = BitUnpacker::new(&data);
    assert_eq!(unpacker.take(1), None);
}

#[test]
fn unpacker_undoes_packer() {
    let fields: Vec<(u16, u8)> = vec![
        (1, 1),
        (0, 3),
        (65535, 16),
        (300, 9),
        (0, 0),
        (77, 7),
        (1, 2),
        (12345, 14),
        (2, 2),
    ];
    let mut packer = BitPacker::new();
    for (bits, width) in fields.iter() {
        packer.push(*bits, *width);
    }
    let bytes = packer.flush();
    let total: usize = fields.iter().map(|f| f.1 as usize).sum();
    assert_eq!(bytes.len(), (total + 7) / 8);
    let mut unpacker = BitUnpacker::new(&bytes);
    for (bits, width) in fields.iter() {
        assert_eq!(unpacker.take(*width), Some(*bits));
    }
}

#[test]
fn big_endian_word_bytes() {
    let mut out: Vec<u8> = vec![9];
    push_u32_be(&mut out, 0x0102_0304);
    push_u32_be(&mut out, 1);
    assert_eq!(out, vec![9, 1, 2, 3, 4, 0, 0, 0, 1]);
    assert_eq!(read_u32_be(&out, 1), 0x0102_0304);
    assert_eq!(read_u32_be(&out, 5), 1);
    assert_eq!(read_u32_be(&out, 0), 0x0901_0203);
}
