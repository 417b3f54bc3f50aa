use png_inflate::png;
use png_inflate::png::{calculate_crc, read, Chunk, ChunkReadError, ReadError};

#[test]
fn png_nul() {
    let val: [u8; 0] = [];
    let exp: u32 = 0;
    let res = calculate_crc(&val);
    assert!(exp == res, "{:x} != {:x}", exp, res);
}

#[test]
fn png_iend() {
    let val: [u8; 4] = [0x49, 0x45, 0x4e, 0x44];
    let exp: u32 = 0xae426082;
    let res = calculate_crc(&val);
    assert!(exp == res, "{:x} != {:x}", exp, res);
}

#[test]
fn png_ihdr_1() {
    let val: [u8; 17] = [
        0x49, 0x48, 0x44, 0x52, 0x00, 0x00, 0x01, 0x2c, 0x00, 0x00, 0x00, 0x96, 0x02, 0x03, 0x00, 0x00, 0x00,
    ];
    let exp: u32 = 0x19355d41;
    let res = calculate_crc(&val);
    assert!(exp == res, "{:x} != {:x}", exp, res);
}

#[test]
fn mod_nul() {
    let val: [u8; 0] = [];
    let exp: u32 = 0;
    let res = calculate_crc(&val);
    assert!(exp == res, "{:x} != {:x}", exp, res);
}

#[test]
fn mod_iend() {
    let val: [u8; 4] = [0x49, 0x45, 0x4e, 0x44];
    let exp: u32 = 0xae426082;
    let res = calculate_crc(&val);
    assert!(exp == res, "{:x} != {:x}", exp, res);
}

#[test]
fn mod_ihdr_1() {
    let val: [u8; 17] = [
        0x49, 0x48, 0x44, 0x52, 0x00, 0x00, 0x01, 0x2c, 0x00, 0x00, 0x00, 0x96, 0x02, 0x03, 0x00, 0x00, 0x00,
    ];
    let exp: u32 = 0x19355d41;
    let res = calculate_crc(&val);
    assert!(exp == res, "{:x} != {:x}", exp, res);
}

fn assert_chunk_err_eof(e: Result<Option<(Chunk, usize)>, ChunkReadError>) {
    match e {
        Err(ChunkReadError::UnexpectedEof) => {},
        Err(_) => panic!("Was error, but was not EOF"),
        Ok(_) => panic!("Was not error"),
    }
}

#[test]
fn exact_size() {
    let exp = Chunk { typ: *b"ABCD", data: vec![61, 62, 63, 64] };
    let dut: &[u8] = &[0, 0, 0, 4, 0x41, 0x42, 0x43, 0x44, 61, 62, 63, 64, 0x75, 0x88, 0x7C, 0x4B];
    let (res, used) = Chunk::read(dut).unwrap().unwrap();
    assert!(exp == res);
    assert!(dut.len() - used == 0);
}

#[test]
fn reads_only_the_amount_needed() {
    let exp = Chunk { typ: *b"ABCD", data: vec![61, 62, 63, 64] };
    let dut: &[u8] = &[0, 0, 0, 4, 0x41, 0x42, 0x43, 0x44, 61, 62, 63, 64, 0x75, 0x88, 0x7C, 0x4B, 11, 22, 33, 44, 55];
    let (res, used) = Chunk::read(dut).unwrap().unwrap();
    assert!(exp == res);
    assert!(dut.len() - used == 5);
}

#[test]
fn errors_if_unexpected_eof_crc() {
    let dut: &[u8] = &[0, 0, 0, 4, 0x41, 0x42, 0x43, 0x44, 61, 62, 63, 64, 0x75, 0x88];
    assert_chunk_err_eof(Chunk::read(dut));
}

#[test]
fn errors_if_unexpected_eof_data() {
    let dut: &[u8] = &[0, 0, 0, 4, 0x41, 0x42, 0x43, 0x44, 61, 62];
    assert_chunk_err_eof(Chunk::read(dut));
}

#[test]
fn errors_if_unexpected_eof_typ() {
    let dut: &[u8] = &[0, 0, 0, 4, 0x41, 0x42];
    assert_chunk_err_eof(Chunk::read(dut));
}

#[test]
fn errors_if_unexpected_eof_size() {
    let dut: &[u8] = &[0];
    assert_chunk_err_eof(Chunk::read(dut));
}

#[test]
fn reports_valid_eof() {
    let dut: &[u8] = &[];
    let res = Chunk::read(dut).unwrap();
    assert!(res.is_none());
    assert!(dut.len() == 0);
}

#[test]
fn invalid_typ_is_rejected() {
    let dut: &[u8] = &[0, 0, 0, 0, 0x41, 0x42, 0x31, 0x44, 0, 0, 0, 0];
    match Chunk::read(dut) {
        Err(ChunkReadError::InvalidTyp(t)) => assert_eq!(*b"AB1D", t),
        _ => panic!("expected InvalidTyp"),
    }
}

#[test]
fn crc_mismatch_is_rejected() {
    let dut: &[u8] = &[0, 0, 0, 4, 0x41, 0x42, 0x43, 0x44, 61, 62, 63, 64, 0x75, 0x88, 0x7C, 0x4C];
    match Chunk::read(dut) {
        Err(ChunkReadError::CrcMismatch { stated, calculated }) => {
            assert_eq!(0x75887C4C, stated);
            assert_eq!(0x75887C4B, calculated);
        },
        _ => panic!("expected CrcMismatch"),
    }
}

fn assert_is_err_eof(e: Result<Vec<Chunk>, ReadError>) {
    match e {
        Err(ReadError::UnexpectedEof) => {},
        Err(_) => panic!("Was error, but was not EOF"),
        Ok(_) => panic!("Was not error"),
    }
}

fn assert_is_err_magic(e: Result<Vec<Chunk>, ReadError>) {
    match e {
        Err(ReadError::MagicMismatch(_)) => {},
        Err(_) => panic!("Was error, but was not MagicMismatch"),
        Ok(_) => panic!("Was not error"),
    }
}

#[test]
fn normal_case() {
    let exp = vec![
        Chunk { typ: *b"FIRS", data: vec![] },
        Chunk { typ: *b"SECO", data: vec![] },
        Chunk { typ: *b"THIR", data: vec![] },
    ];
    let dut: &[u8] = &[
        137, b'P', b'N', b'G', b'\r', b'\n', 26, b'\n', 0, 0, 0, 0, b'F', b'I', b'R', b'S', 0x9A, 0x9F, 0x51, 0x2A,
        0, 0, 0, 0, b'S', b'E', b'C', b'O', 0xB3, 0x9A, 0x70, 0xBC, 0, 0, 0, 0, b'T', b'H', b'I', b'R', 0xBF, 0x7C,
        0x5F, 0x05,
    ];
    let res = read(dut).unwrap();
    assert!(exp == res);
    assert_eq!(dut.to_vec(), png::write(&res));
}

#[test]
fn does_not_treat_iend_specially() {
    let exp = vec![
        Chunk { typ: *b"FIRS", data: vec![] },
        Chunk { typ: *b"IEND", data: vec![] },
        Chunk { typ: *b"THIR", data: vec![] },
    ];
    let dut: &[u8] = &[
        137, b'P', b'N', b'G', b'\r', b'\n', 26, b'\n', 0, 0, 0, 0, b'F', b'I', b'R', b'S', 0x9A, 0x9F, 0x51, 0x2A,
        0, 0, 0, 0, b'I', b'E', b'N', b'D', 0xAE, 0x42, 0x60, 0x82, 0, 0, 0, 0, b'T', b'H', b'I', b'R', 0xBF, 0x7C,
        0x5F, 0x05,
    ];
    let res = read(dut).unwrap();
    assert!(exp == res);
}

#[test]
fn incomplete_chunk_1() {
    let dut: &[u8] = &[137, b'P', b'N', b'G', b'\r', b'\n', 26, b'\n', 0];
    assert_is_err_eof(read(dut));
}

#[test]
fn incomplete_chunk_2() {
    let dut: &[u8] = &[137, b'P', b'N', b'G', b'\r', b'\n', 26, b'\n', 0, 0];
    assert_is_err_eof(read(dut));
}

#[test]
fn incorrect_magic() {
    let dut: &[u8] = &[138, b'M', b'N', b'G', b'\r', b'\n', 26, b'\n'];
    assert_is_err_magic(read(dut));
}

#[test]
fn short_magic_is_eof() {
    let dut: &[u8] = &[137, b'P', b'N'];
    assert_is_err_eof(read(dut));
}

#[test]
fn tru() {
    let exp: bool = true;
    let res = Chunk { typ: *b"IDAt", data: vec![] }.safe_to_copy();
    assert!(exp == res);
}

#[test]
fn fals() {
    let exp: bool = false;
    let res = Chunk { typ: *b"IDAT", data: vec![] }.safe_to_copy();
    assert!(exp == res);
}

#[test]
fn chunk_write_bytes() {
    let mut out = Vec::new();
    Chunk { typ: *b"ABCD", data: vec![61, 62, 63, 64] }.write(&mut out);
    assert_eq!(vec![0, 0, 0, 4, 0x41, 0x42, 0x43, 0x44, 61, 62, 63, 64, 0x75, 0x88, 0x7C, 0x4B], out);
}
