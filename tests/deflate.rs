use png_inflate::bits::Bits;
use png_inflate::deflate::{decode_fixed_huffman_code, deflate_immediate, inflate, DynamicHuffmanCodes, InflateError};
use png_inflate::u4mod::u4;

#[test]
fn bits_one_byte() {
    let mut dut = Bits::new(vec![0b11010110]);
    assert!(false == dut.next().unwrap());
    assert!(true == dut.next().unwrap());
    assert!(true == dut.next().unwrap());
    assert!(false == dut.next().unwrap());
    assert!(true == dut.next().unwrap());
    assert!(false == dut.next().unwrap());
    assert!(true == dut.next().unwrap());
    assert!(true == dut.next().unwrap());
    assert!(dut.next().is_none());

    let mut dut = Bits::new(vec![0b11010110]);
    assert!(0b0110 == dut.read_n(u4::_4).unwrap());
    assert!(0b1011 == dut.read_n(u4::_4).unwrap());
    assert!(dut.next().is_none());
}

#[test]
fn one_byte_rev() {
    let mut dut = Bits::new(vec![0b11010110]);
    assert!(0b0110 == dut.read_n_rev(u4::_4).unwrap());
    assert!(0b1101 == dut.read_n_rev(u4::_4).unwrap());
    assert!(dut.next().is_none());
}

#[test]
fn read_past_end_is_none() {
    let mut dut = Bits::new(vec![0xFF]);
    assert!(dut.read_n(u4::_9).is_none());
    let mut dut = Bits::new(vec![0xFF, 0x01]);
    dut.read_n(u4::_3).unwrap();
    dut.discard_til_byte_boundary();
    assert_eq!(Some(0x01), dut.next_byte());
    assert_eq!(None, dut.next_byte());
}

#[test]
fn hit_every_output() {
    let mut res: [bool; 288] = [false; 288];
    for i in u16::MIN..u16::MAX {
        let mut bits = Bits::new(vec![((i >> 8) & 0xFF) as u8, (i & 0xFF) as u8]);
        res[usize::from(decode_fixed_huffman_code(&mut bits).unwrap())] = true;
    }
    for (index, result_item_was_hit) in res.iter().enumerate() {
        assert!(result_item_was_hit, "i = {}", index);
    }
}

fn assert_decode(expected: u16, dut: &DynamicHuffmanCodes, huffman_code: u8) {
    assert_eq!(expected, dut.decode(&mut Bits::new(vec![huffman_code])).unwrap());
}

#[test]
fn two_constant_length() {
    let dut = DynamicHuffmanCodes::from_lengths(&[u4::_1, u4::_1]);
    assert_decode(0, &dut, 0b0u8);
    assert_decode(1, &dut, 0b1u8);
}

#[test]
fn four_constant_length() {
    let dut = DynamicHuffmanCodes::from_lengths(&[u4::_2, u4::_2, u4::_2, u4::_2]);
    assert_decode(0, &dut, 0b00u8);
    assert_decode(1, &dut, 0b10u8);
    assert_decode(2, &dut, 0b01u8);
    assert_decode(3, &dut, 0b11u8);
}

#[test]
fn four_constant_delta() {
    let dut = DynamicHuffmanCodes::from_lengths(&[u4::_1, u4::_2, u4::_3, u4::_4]);
    assert_decode(0, &dut, 0b0000u8);
    assert_decode(1, &dut, 0b0001u8);
    assert_decode(2, &dut, 0b0011u8);
    assert_decode(3, &dut, 0b0111u8);
}

#[test]
fn provided_sample() {
    let dut = DynamicHuffmanCodes::from_lengths(&[u4::_3, u4::_3, u4::_3, u4::_3, u4::_3, u4::_2, u4::_4, u4::_4]);
    assert_decode(5, &dut, 0b0000u8);
    assert_decode(0, &dut, 0b0010u8);
    assert_decode(1, &dut, 0b0110u8);
    assert_decode(2, &dut, 0b0001u8);
    assert_decode(3, &dut, 0b0101u8);
    assert_decode(4, &dut, 0b0011u8);
    assert_decode(6, &dut, 0b0111u8);
    assert_decode(7, &dut, 0b1111u8);
}

#[test]
fn empty_table_matches_nothing() {
    let dut = DynamicHuffmanCodes::from_lengths(&[u4::_0, u4::_0]);
    assert_eq!(Err(InflateError::InvalidCode), dut.decode(&mut Bits::new(vec![0])));
}

#[test]
fn immediate_mode() {
    let exp: [u8; 10] = [1, 2, 3, 4, 5, 6, 7, 8, 9, 10];
    let dut: [u8; 15] = [1, 10, 0, !10, 0xFF, 1, 2, 3, 4, 5, 6, 7, 8, 9, 10];
    let res = inflate(&dut).unwrap();
    assert!(exp == res.as_slice(), "{:?}", res);
}

#[test]
fn one_zero() {
    let exp: [u8; 1] = [0];
    let dut: [u8; 3] = [0x63, 0x00, 0x00];
    let res = inflate(&dut).unwrap();
    assert!(exp == res.as_slice(), "{:?}", res);
}

#[test]
fn four_zero() {
    let exp: [u8; 4] = [0; 4];
    let dut: [u8; 4] = [0x63, 0x00, 0x02, 0x00];
    let res = inflate(&dut).unwrap();
    assert!(exp == res.as_slice(), "{:?}", res);
}

#[test]
fn abcde_times_five() {
    let exp: [u8; 25] = [
        0x61, 0x62, 0x63, 0x64, 0x65, 0x61, 0x62, 0x63, 0x64, 0x65, 0x61, 0x62, 0x63, 0x64, 0x65, 0x61, 0x62,
        0x63, 0x64, 0x65, 0x61, 0x62, 0x63, 0x64, 0x65,
    ];
    let dut: [u8; 9] = [0x4b, 0x4c, 0x4a, 0x4e, 0x49, 0xc5, 0x46, 0x00, 0x00];
    let res = inflate(&dut).unwrap();
    assert!(exp == res.as_slice(), "{:?}", res);
}

#[test]
fn black_square_4x4() {
    let exp: [u8; 68] = [
        0, 0, 0, 0, 255, 0, 0, 0, 255, 0, 0, 0, 255, 0, 0, 0, 255, 0, 0, 0, 0, 255, 0, 0, 0, 255, 0, 0, 0, 255, 0,
        0, 0, 255, 0, 0, 0, 0, 255, 0, 0, 0, 255, 0, 0, 0, 255, 0, 0, 0, 255, 0, 0, 0, 0, 255, 0, 0, 0, 255, 0, 0,
        0, 255, 0, 0, 0, 255,
    ];
    let dut: [u8; 21] = [
        0x9d, 0xc8, 0xb1, 0x0d, 0x00, 0x00, 0x00, 0x82, 0x30, 0xff, 0x7f, 0x5a, 0x1d, 0x99, 0x21, 0x61, 0x69,
        0x5e, 0xb9, 0x80, 0x01,
    ];
    let res = inflate(&dut).unwrap();
    assert_eq!(exp.len(), res.len(), "LENGTH");
    assert!(exp.iter().zip(res.iter()).all(|(a, b)| a == b));
}

fn stored_prefix(header: [u8; 5]) -> Vec<u8> {
    header.iter().cloned().chain(0..=255).collect()
}

#[test]
fn immediate() {
    let exp: Vec<u8> = (0..=255).collect();
    let dut = stored_prefix([1, 0, 1, 0xFF, 0xFE]);
    let res = inflate(&dut).unwrap();
    assert_eq!(exp.len(), res.len(), "LENGTH");
    assert!(exp.iter().zip(res.iter()).all(|(a, b)| a == b));
}

#[test]
fn fixed_coded_l003d1() {
    let exp: Vec<u8> = (0..=255).chain([255, 255, 255].iter().cloned()).collect();
    let dut: Vec<u8> = stored_prefix([0, 0, 1, 0xFF, 0xFE])
        .into_iter()
        .chain([0b00000_011, 0b0_00000_10, 0b000000].iter().cloned())
        .collect();
    let res = inflate(&dut).unwrap();
    assert_eq!(exp.len(), res.len(), "LENGTH");
    assert!(exp.iter().zip(res.iter()).all(|(a, b)| a == b));
}

#[test]
fn fixed_coded_l010d1() {
    let exp: Vec<u8> = (0..=255).chain(std::iter::repeat(255).take(10)).collect();
    let dut: Vec<u8> = stored_prefix([0, 0, 1, 0xFF, 0xFE])
        .into_iter()
        .chain([0b01000_011, 0b0_00000_00, 0b000000].iter().cloned())
        .collect();
    let res = inflate(&dut).unwrap();
    assert_eq!(exp.len(), res.len(), "LENGTH");
    assert!(exp.iter().zip(res.iter()).all(|(a, b)| a == b));
}

#[test]
fn fixed_coded_l257d1() {
    let exp: Vec<u8> = (0..=255).chain(std::iter::repeat(255).take(257)).collect();
    let dut: Vec<u8> = stored_prefix([0, 0, 1, 0xFF, 0xFE])
        .into_iter()
        .chain([0b00011_011, 0b_11110_001, 0, 0].iter().cloned())
        .collect();
    let res = inflate(&dut).unwrap();
    assert_eq!(exp.len(), res.len(), "LENGTH");
    assert!(exp.iter().zip(res.iter()).all(|(a, b)| a == b));
}

#[test]
fn fixed_coded_l258d1() {
    let exp: Vec<u8> = (0..=255).chain(std::iter::repeat(255).take(258)).collect();
    let dut: Vec<u8> = stored_prefix([0, 0, 1, 0xFF, 0xFE])
        .into_iter()
        .chain([0b00011_011, 0b_00000_101, 0].iter().cloned())
        .collect();
    let res = inflate(&dut).unwrap();
    assert_eq!(exp.len(), res.len(), "LENGTH");
    assert!(exp.iter().zip(res.iter()).all(|(a, b)| a == b));
}

#[test]
fn fixed_coded_l003d4() {
    let exp: Vec<u8> = (0..=255).chain([252, 253, 254].iter().cloned()).collect();
    let dut: Vec<u8> = stored_prefix([0, 0, 1, 0xFF, 0xFE])
        .into_iter()
        .chain([0b00000_011, 0b0_11000_10, 0b000000].iter().cloned())
        .collect();
    let res = inflate(&dut).unwrap();
    assert_eq!(exp.len(), res.len(), "LENGTH");
    assert!(exp.iter().zip(res.iter()).all(|(a, b)| a == b));
}

#[test]
fn fixed_coded_l003d97() {
    let exp: Vec<u8> = (0..=255).chain([159, 160, 161].iter().cloned()).collect();
    let dut: Vec<u8> = stored_prefix([0, 0, 1, 0xFF, 0xFE])
        .into_iter()
        .chain([0b00000_011, 0b0_10110_10, 0, 0].iter().cloned())
        .collect();
    let res = inflate(&dut).unwrap();
    assert_eq!(exp.len(), res.len(), "LENGTH");
    assert!(exp.iter().zip(res.iter()).all(|(a, b)| a == b));
}

#[test]
fn fixed_coded_l003d128() {
    let exp: Vec<u8> = (0..=255).chain([128, 129, 130].iter().cloned()).collect();
    let dut: Vec<u8> = stored_prefix([0, 0, 1, 0xFF, 0xFE])
        .into_iter()
        .chain([0b00000_011, 0b1_10110_10, 0b0000_1111, 0].iter().cloned())
        .collect();
    let res = inflate(&dut).unwrap();
    assert_eq!(exp.len(), res.len(), "LENGTH");
    assert!(exp.iter().zip(res.iter()).all(|(a, b)| a == b));
}

#[test]
fn fixed_codes_l003d24577() {
    let base: Vec<u8> = std::iter::repeat(5)
        .take(16)
        .chain(std::iter::repeat(80).take(3))
        .chain(std::iter::repeat(120).take(24574))
        .collect();
    let exp: Vec<u8> = base.iter().cloned().chain(std::iter::repeat(80).take(3)).collect();
    let dut: Vec<u8> = [0, 0x11, 0x60, 0xEE, 0x9F]
        .iter()
        .cloned()
        .chain(base)
        .chain([0b00000_011, 0b0_10111_10, 0, 0, 0].iter().cloned())
        .collect();
    let res = inflate(&dut).unwrap();
    assert_eq!(exp.len(), res.len(), "LENGTH");
    assert!(exp.iter().zip(res.iter()).all(|(a, b)| a == b));
}

#[test]
fn fixed_codes_l003d32768() {
    let base: Vec<u8> = std::iter::repeat(5)
        .take(16)
        .chain(std::iter::repeat(80).take(3))
        .chain(std::iter::repeat(120).take(32768 - 3))
        .collect();
    let exp: Vec<u8> = base.iter().cloned().chain(std::iter::repeat(80).take(3)).collect();
    let dut: Vec<u8> = [0, 0x10, 0x80, 0xEF, 0x7F]
        .iter()
        .cloned()
        .chain(base)
        .chain([0b00000_011, 0b1_10111_10, 0b11111111, 0b1111, 0].iter().cloned())
        .collect();
    let res = inflate(&dut).unwrap();
    assert_eq!(exp.len(), res.len(), "LENGTH");
    assert!(exp.iter().zip(res.iter()).all(|(a, b)| a == b));
}

#[test]
fn reserved_block_type_is_rejected() {
    assert_eq!(Err(InflateError::InvalidBtype), inflate(&[0x07]));
}

#[test]
fn stored_length_mismatch_is_rejected() {
    assert_eq!(Err(InflateError::NonCompressedLengthInvalid), inflate(&[1, 10, 0, 0, 0]));
}

#[test]
fn truncated_stream_is_rejected() {
    assert_eq!(Err(InflateError::UnexpectedEof), inflate(&[]));
    assert_eq!(Err(InflateError::UnexpectedEof), inflate(&[1, 10, 0, !10, 0xFF, 1, 2]));
    assert_eq!(Err(InflateError::UnexpectedEof), inflate(&[0x63]));
}

#[test]
fn distance_before_start_is_rejected() {
    // fixed block: length 3, distance 1, with no output yet
    assert_eq!(Err(InflateError::InvalidDistance), inflate(&[0x03, 0x02, 0x00]));
}

#[test]
fn repeat_without_previous_length_is_rejected() {
    // dynamic block: HLIT=0, HDIST=0, HCLEN=0 (four lengths: 16, 17, 18, 0),
    // code-length code giving symbol 16 the only code, which comes first
    // bits: final 1, type 2 (01), HLIT 00000, HDIST 00000, HCLEN 0000,
    // lengths 16:1 17:0 18:0 0:0, then code '0' for symbol 16
    let res = inflate(&[0b0000_0101, 0b0000_0000, 0b0000_0010, 0b0000_0000, 0, 0]);
    assert_eq!(Err(InflateError::InvalidCodeLengths), res);
}

#[test]
fn stored_blocks_of_empty_input() {
    assert_eq!(vec![1, 0, 0, 0xFF, 0xFF], deflate_immediate(&[]));
}

#[test]
fn stored_blocks_split_at_65535() {
    let data: Vec<u8> = (0..70000u32).map(|i| (i % 251) as u8).collect();
    let out = deflate_immediate(&data);
    assert_eq!(data.len() + 10, out.len());
    assert_eq!(&out[0..5], &[0, 0xFF, 0xFF, 0, 0]);
    assert_eq!(&out[65540..65545], &[1, 0x71, 0x11, 0x8E, 0xEE]);
    assert_eq!(data, inflate(&out).unwrap());
}
