use png_inflate::u4mod::{u4, ZeroToRangeIter};
use png_inflate::zlib::{adler32, deflate_immediate, inflate, CompressionLevel, Header, InflateError};

#[test]
fn mod_default() {
    let exp: u16 = 0x6881;
    let dut: Header = Header::new(u4::_6, CompressionLevel::Slow);
    let res = dut.write();
    assert!(exp == res, "{:x} != {:x}", exp, res);

    let exp: Result<Header, InflateError> = Ok(Header::new(u4::_6, CompressionLevel::Slow));
    let dut: u16 = 0x6881;
    let res = Header::read(dut);
    assert!(exp == res, "{:?} != {:?}", exp, res);
}

#[test]
fn mod_fastest() {
    let exp: u16 = 0x7801;
    let dut: Header = Header::new(u4::_7, CompressionLevel::Fastest);
    let res = dut.write();
    assert!(exp == res, "{:x} != {:x}", exp, res);

    let exp: Result<Header, InflateError> = Ok(Header::new(u4::_7, CompressionLevel::Fastest));
    let dut: u16 = 0x7801;
    let res = Header::read(dut);
    assert!(exp == res, "{:?} != {:?}", exp, res);
}

#[test]
fn invalid_checksum_fails() {
    let exp: Result<Header, InflateError> = Err(InflateError::ChecksumMismatchHeader);
    let dut: u16 = 0x6882;
    let res = Header::read(dut);
    assert!(exp == res, "{:?} != {:?}", exp, res);
}

#[test]
fn has_dict_fails() {
    let exp: Result<Header, InflateError> = Err(InflateError::HasPresetDictionary);
    let dut: u16 = 0x68A0;
    let res = Header::read(dut);
    assert!(exp == res, "{:?} != {:?}", exp, res);
}

#[test]
fn method_not_deflate_fails() {
    // the method is the low nibble of the first byte
    let exp: Result<Header, InflateError> = Err(InflateError::UnknownCompressionMethod(5));
    let dut: u16 = 0x6599;
    let res = Header::read(dut);
    assert!(exp == res, "{:?} != {:?}", exp, res);
}

#[test]
fn window_size_of_header() {
    assert_eq!(32768, Header::new(u4::_7, CompressionLevel::Fastest).window_size());
    assert_eq!(256, Header::new(u4::_0, CompressionLevel::Fastest).window_size());
}

#[test]
fn wikipedia() {
    let exp = 0x11E60398;
    let data = b"Wikipedia";
    let res = adler32(data);
    assert_eq!(exp, res);
}

#[test]
fn zero_x1() {
    let exp = 0x00010001;
    let data = [0u8; 1];
    let res = adler32(&data);
    assert_eq!(exp, res);
}

#[test]
fn zero_x65536() {
    let exp = 0x000F0001;
    let data = [0u8; 65536];
    let res = adler32(&data);
    assert_eq!(exp, res, "{:x} {:x}", exp, res);
}

#[test]
fn stored_stream_of_wikipedia() {
    let out = deflate_immediate(b"Wikipedia");
    let mut exp = vec![0x78, 0x01, 1, 9, 0, 0xF6, 0xFF];
    exp.extend_from_slice(b"Wikipedia");
    exp.extend_from_slice(&[0x11, 0xE6, 0x03, 0x98]);
    assert_eq!(exp, out);
}

#[test]
fn round_trip_through_stored_stream() {
    for len in [0usize, 1, 9, 65535, 65536, 140000] {
        let data: Vec<u8> = (0..len).map(|i| (i * 7 % 256) as u8).collect();
        assert_eq!(data, inflate(&deflate_immediate(&data)).unwrap());
    }
}

#[test]
fn inflates_fixed_huffman_stream() {
    let mut dut = vec![0x78, 0x9C, 0x4b, 0x4c, 0x4a, 0x4e, 0x49, 0xc5, 0x46, 0x00, 0x00];
    let exp: Vec<u8> = b"abcde".iter().cloned().cycle().take(25).collect();
    dut.extend_from_slice(&adler32(&exp).to_be_bytes());
    assert_eq!(exp, inflate(&dut).unwrap());
}

#[test]
fn zlib_errors() {
    assert_eq!(Err(InflateError::UnexpectedEof), inflate(&[0x78]));
    assert_eq!(Err(InflateError::ChecksumMismatchHeader), inflate(&[0x78, 0x02, 1, 0, 0, 0xFF, 0xFF, 0, 0, 0, 1]));
    assert_eq!(Err(InflateError::UnknownCompressionMethod(9)), inflate(&[0x79, 0x18]));
    assert_eq!(Err(InflateError::HasPresetDictionary), inflate(&[0x78, 0x20]));
    assert_eq!(
        Err(InflateError::ChecksumMismatch { given: 2, calculated: 1 }),
        inflate(&[0x78, 0x01, 1, 0, 0, 0xFF, 0xFF, 0, 0, 0, 2])
    );
    assert_eq!(Err(InflateError::UnexpectedEof), inflate(&[0x78, 0x01, 1, 0, 0, 0xFF, 0xFF, 0, 0, 0]));
    assert_eq!(Err(InflateError::DeflateInvalidBtype), inflate(&[0x78, 0x01, 0x07]));
    assert_eq!(Err(InflateError::DeflateNonCompressedLengthInvalid), inflate(&[0x78, 0x01, 1, 0, 0, 0, 0]));
}

#[test]
fn u4_arithmetic() {
    assert_eq!(u4::_F, u4::truncate(0xAF));
    assert_eq!(0x8000, u4::_F.nth_bit());
    assert_eq!(1, u4::_0.nth_bit());
    assert_eq!((u4::_A, u4::_5), u4::split(0xA5));
    assert_eq!(0x78, u4::concat(u4::_7, u4::_8));
    let mut it = ZeroToRangeIter::new(u4::_3);
    assert_eq!(Some(u4::_0), it.next());
    assert_eq!(Some(u4::_1), it.next());
    assert_eq!(Some(u4::_2), it.next());
    assert_eq!(None, it.next());
}
