use png_inflate::png;
use png_inflate::png::{read, Chunk};
use png_inflate::rewrite::{concat_idats, deflate_chunks, rewrite_png, ConcatinateIdats, Error, RewriteError};
use png_inflate::zlib;

#[test]
fn concatinates_conecutive_idats() {
    let data = [
        Chunk { typ: *b"IDAT", data: b"12345".to_vec() },
        Chunk { typ: *b"IDAT", data: b"6789A".to_vec() },
    ];
    let mut dut = ConcatinateIdats::new(data.to_vec());
    assert_eq!(Chunk { typ: *b"IDAT", data: b"123456789A".to_vec() }, dut.next().unwrap());
    assert!(dut.next().is_none());
}

#[test]
fn does_not_merge_consecutive_nonidats() {
    let data = [
        Chunk { typ: *b"iTXt", data: b"12345".to_vec() },
        Chunk { typ: *b"iTXt", data: b"6789A".to_vec() },
    ];
    let mut dut = ConcatinateIdats::new(data.to_vec());
    assert_eq!(Chunk { typ: *b"iTXt", data: b"12345".to_vec() }, dut.next().unwrap());
    assert_eq!(Chunk { typ: *b"iTXt", data: b"6789A".to_vec() }, dut.next().unwrap());
    assert!(dut.next().is_none());
}

#[test]
fn does_not_merge_disparate_chunks() {
    let data = [
        Chunk { typ: *b"IDAT", data: b"12345".to_vec() },
        Chunk { typ: *b"iTXt", data: b"6789A".to_vec() },
    ];
    let mut dut = ConcatinateIdats::new(data.to_vec());
    assert_eq!(Chunk { typ: *b"IDAT", data: b"12345".to_vec() }, dut.next().unwrap());
    assert_eq!(Chunk { typ: *b"iTXt", data: b"6789A".to_vec() }, dut.next().unwrap());
    assert!(dut.next().is_none());
}

#[test]
fn merges_each_run_separately() {
    let data = vec![
        Chunk { typ: *b"IDAT", data: b"1".to_vec() },
        Chunk { typ: *b"IDAT", data: b"2".to_vec() },
        Chunk { typ: *b"tEXt", data: b"x".to_vec() },
        Chunk { typ: *b"IDAT", data: b"3".to_vec() },
        Chunk { typ: *b"IDAT", data: b"4".to_vec() },
        Chunk { typ: *b"IDAT", data: b"5".to_vec() },
    ];
    let exp = vec![
        Chunk { typ: *b"IDAT", data: b"12".to_vec() },
        Chunk { typ: *b"tEXt", data: b"x".to_vec() },
        Chunk { typ: *b"IDAT", data: b"345".to_vec() },
    ];
    assert_eq!(exp, concat_idats(&data));
}

/// A fixed-Huffman ZLIB stream of "abcde" five times.
fn abcde_stream() -> Vec<u8> {
    let mut s = vec![0x78, 0x9C, 0x4b, 0x4c, 0x4a, 0x4e, 0x49, 0xc5, 0x46, 0x00, 0x00];
    let text: Vec<u8> = b"abcde".iter().cloned().cycle().take(25).collect();
    s.extend_from_slice(&zlib::adler32(&text).to_be_bytes());
    s
}

fn ihdr() -> Chunk {
    Chunk { typ: *b"IHDR", data: vec![0, 0, 0, 1, 0, 0, 0, 1, 8, 0, 0, 0, 0] }
}

#[test]
fn idat_is_stored_again() {
    let res = deflate_chunks(Chunk { typ: *b"IDAT", data: abcde_stream() }, false, false).unwrap();
    let text: Vec<u8> = b"abcde".iter().cloned().cycle().take(25).collect();
    assert_eq!(*b"IDAT", res.typ);
    assert_eq!(zlib::deflate_immediate(&text), res.data);
}

#[test]
fn ztxt_is_stored_again() {
    let mut data = b"Comment\0\0".to_vec();
    data.extend_from_slice(&abcde_stream());
    let res = deflate_chunks(Chunk { typ: *b"zTXt", data }, false, false).unwrap();
    let text: Vec<u8> = b"abcde".iter().cloned().cycle().take(25).collect();
    let mut exp = b"Comment\0\0".to_vec();
    exp.extend_from_slice(&zlib::deflate_immediate(&text));
    assert_eq!(exp, res.data);
}

#[test]
fn itxt_compressed_is_stored_again() {
    let mut data = b"Title\0\x05\0en\0Titel\0".to_vec();
    data.extend_from_slice(&abcde_stream());
    let res = deflate_chunks(Chunk { typ: *b"iTXt", data }, false, false).unwrap();
    let text: Vec<u8> = b"abcde".iter().cloned().cycle().take(25).collect();
    let mut exp = b"Title\0\x01\0en\0Titel\0".to_vec();
    exp.extend_from_slice(&zlib::deflate_immediate(&text));
    assert_eq!(exp, res.data);
}

#[test]
fn itxt_uncompressed_passes_through() {
    let data = b"Title\0\0\x07en\0Titel\0hello".to_vec();
    let res = deflate_chunks(Chunk { typ: *b"iTXt", data: data.clone() }, false, false).unwrap();
    assert_eq!(data, res.data);
}

#[test]
fn text_method_must_be_zero() {
    let mut data = b"Comment\0\x01".to_vec();
    data.extend_from_slice(&abcde_stream());
    assert!(matches!(
        deflate_chunks(Chunk { typ: *b"zTXt", data }, false, false),
        Err(Error::UnsupportedCompressionMethod)
    ));
}

#[test]
fn ihdr_compression_method_must_be_zero() {
    let mut c = ihdr();
    assert!(deflate_chunks(c.clone(), false, false).is_ok());
    c.data[10] = 1;
    assert!(matches!(deflate_chunks(c, false, false), Err(Error::UnsupportedCompressionMethod)));
}

#[test]
fn plain_chunks_pass_through() {
    let c = Chunk { typ: *b"tEXt", data: b"Comment\0hello".to_vec() };
    assert_eq!(c, deflate_chunks(c.clone(), false, false).unwrap());
    let c = Chunk { typ: *b"prVt", data: vec![1, 2, 3] };
    assert_eq!(c, deflate_chunks(c.clone(), false, false).unwrap());
}

#[test]
fn unsafe_chunks_need_a_flag() {
    let c = Chunk { typ: *b"prVT", data: vec![1, 2, 3] };
    assert!(matches!(deflate_chunks(c.clone(), false, false), Err(Error::CannotCopySafely(t)) if t == *b"prVT"));
    assert_eq!(c, deflate_chunks(c.clone(), true, false).unwrap());
    let a = Chunk { typ: *b"acTL", data: vec![0, 0, 0, 1, 0, 0, 0, 0] };
    assert!(matches!(deflate_chunks(a.clone(), false, false), Err(Error::CannotCopySafely(_))));
    assert_eq!(a, deflate_chunks(a.clone(), false, true).unwrap());
}

#[test]
fn fdat_is_stored_again_with_apng() {
    let mut data = vec![0, 0, 0, 7];
    data.extend_from_slice(&abcde_stream());
    let c = Chunk { typ: *b"fdAT", data };
    assert!(matches!(deflate_chunks(c.clone(), false, false), Err(Error::CannotCopySafely(_))));
    assert_eq!(c, deflate_chunks(c.clone(), true, false).unwrap());
    let text: Vec<u8> = b"abcde".iter().cloned().cycle().take(25).collect();
    let mut exp = vec![0, 0, 0, 7];
    exp.extend_from_slice(&zlib::deflate_immediate(&text));
    assert_eq!(exp, deflate_chunks(c, false, true).unwrap().data);
}

#[test]
fn broken_stream_is_reported() {
    let c = Chunk { typ: *b"IDAT", data: vec![0x78, 0x01, 0x07] };
    assert!(matches!(
        deflate_chunks(c, false, false),
        Err(Error::Zlib(zlib::InflateError::DeflateInvalidBtype))
    ));
}

fn sample_png() -> Vec<u8> {
    let s = abcde_stream();
    let (a, b) = s.split_at(6);
    png::write(&vec![
        ihdr(),
        Chunk { typ: *b"tEXt", data: b"Comment\0hello".to_vec() },
        Chunk { typ: *b"IDAT", data: a.to_vec() },
        Chunk { typ: *b"IDAT", data: b.to_vec() },
        Chunk { typ: *b"IEND", data: vec![] },
    ])
}

#[test]
fn rewrite_is_idempotent() {
    let once = rewrite_png(&sample_png(), false, false).unwrap();
    let twice = rewrite_png(&once, false, false).unwrap();
    assert_eq!(once, twice);
    let chunks = read(&once).unwrap();
    assert_eq!(4, chunks.len());
    let text: Vec<u8> = b"abcde".iter().cloned().cycle().take(25).collect();
    assert_eq!(text, zlib::inflate(&chunks[2].data).unwrap());
}

#[test]
fn rewrite_reports_errors() {
    let mut bad = sample_png();
    bad[0] = 0;
    assert!(matches!(rewrite_png(&bad, false, false), Err(RewriteError::Read(_))));
    let mut bad = sample_png();
    let n = bad.len();
    bad[n - 1] ^= 1;
    assert!(matches!(rewrite_png(&bad, false, false), Err(RewriteError::Read(_))));
    let bad = png::write(&vec![ihdr(), Chunk { typ: *b"IDAT", data: vec![0x78, 0x01, 0x07] }]);
    assert!(matches!(rewrite_png(&bad, false, false), Err(RewriteError::Transform(Error::Zlib(_)))));
}
