//! The ZLIB format (RFC 1950): a two-byte header, a DEFLATE stream and an
//! Adler-32 checksum of the uncompressed data.
use vstd::prelude::*;
use crate::u4mod::u4;
use crate::bits::{Bits, align_up, lemma_align_facts};
use crate::deflate;
use crate::deflate::{inflate_from, stored_blocks};

verus! {

/// A hint of the effort spent compressing a stream.
#[derive(Copy, Clone, PartialEq, Eq, Debug, Structural)]
pub enum CompressionLevel {
    Fastest,
    Fast,
    Slow,
    Slowest,
}

impl CompressionLevel {
    pub open spec fn val(self) -> nat {
        match self {
            CompressionLevel::Fastest => 0,
            CompressionLevel::Fast => 1,
            CompressionLevel::Slow => 2,
            CompressionLevel::Slowest => 3,
        }
    }

    /// The level for the two-bit value `v`.
    pub fn from_bits(v: u8) -> (r: CompressionLevel)
        requires
            v < 4,
        ensures
            r.val() == v,
    {
        if v == 0 {
            CompressionLevel::Fastest
        } else if v == 1 {
            CompressionLevel::Fast
        } else if v == 2 {
            CompressionLevel::Slow
        } else {
            CompressionLevel::Slowest
        }
    }

    /// The level as it stands in the header's second byte (bits 6 and 7).
    pub fn to_byte(self) -> (r: u8)
        ensures
            r as nat == self.val() * 64,
    {
        match self {
            CompressionLevel::Fastest => 0,
            CompressionLevel::Fast => 64,
            CompressionLevel::Slow => 128,
            CompressionLevel::Slowest => 192,
        }
    }
}

/// An error that can occur while inflating a ZLIB stream.
#[derive(Copy, Clone, PartialEq, Eq, Debug, Structural)]
pub enum InflateError {
    /// The input ended inside the stream.
    UnexpectedEof,
    /// The header, read as a big-endian number, is not a multiple of 31.
    ChecksumMismatchHeader,
    /// The header names a compression method other than 8 (DEFLATE).
    UnknownCompressionMethod(u8),
    /// The header asks for a preset dictionary.
    HasPresetDictionary,
    /// The Adler-32 checksum of the output differs from the one in the stream.
    ChecksumMismatch { given: u32, calculated: u32 },
    /// A stored block's length and its complement disagree.
    DeflateNonCompressedLengthInvalid,
    /// A block has the reserved type 3.
    DeflateInvalidBtype,
    /// The bits match no code, or a code that stands for no valid symbol.
    DeflateInvalidCode,
    /// A back reference reaches before the start of the output.
    DeflateInvalidDistance,
    /// The code lengths repeat a previous length where there is none.
    DeflateInvalidCodeLengths,
}

/// The ZLIB error for an error of the DEFLATE decoder.
pub open spec fn from_deflate_spec(e: deflate::InflateError) -> InflateError {
    match e {
        deflate::InflateError::UnexpectedEof => InflateError::UnexpectedEof,
        deflate::InflateError::NonCompressedLengthInvalid => InflateError::DeflateNonCompressedLengthInvalid,
        deflate::InflateError::InvalidBtype => InflateError::DeflateInvalidBtype,
        deflate::InflateError::InvalidCode => InflateError::DeflateInvalidCode,
        deflate::InflateError::InvalidDistance => InflateError::DeflateInvalidDistance,
        deflate::InflateError::InvalidCodeLengths => InflateError::DeflateInvalidCodeLengths,
    }
}

impl InflateError {
    /// The ZLIB error for an error of the DEFLATE decoder.
    pub fn from_deflate(e: deflate::InflateError) -> (r: InflateError)
        ensures
            r == from_deflate_spec(e),
    {
        match e {
            deflate::InflateError::UnexpectedEof => InflateError::UnexpectedEof,
            deflate::InflateError::NonCompressedLengthInvalid => InflateError::DeflateNonCompressedLengthInvalid,
            deflate::InflateError::InvalidBtype => InflateError::DeflateInvalidBtype,
            deflate::InflateError::InvalidCode => InflateError::DeflateInvalidCode,
            deflate::InflateError::InvalidDistance => InflateError::DeflateInvalidDistance,
            deflate::InflateError::InvalidCodeLengths => InflateError::DeflateInvalidCodeLengths,
        }
    }
}

/// What is wrong with the header whose big-endian value is `val`, if anything.
pub open spec fn header_error(val: nat) -> Option<InflateError> {
    if val % 31 != 0 {
        Some(InflateError::ChecksumMismatchHeader)
    } else if (val / 256) % 16 != 8 {
        Some(InflateError::UnknownCompressionMethod(((val / 256) % 16) as u8))
    } else if ((val % 256) / 32) % 2 == 1 {
        Some(InflateError::HasPresetDictionary)
    } else {
        None
    }
}

/// The ZLIB header, for compression method 8 (DEFLATE) without a preset
/// dictionary.
#[derive(Copy, Clone, PartialEq, Eq, Debug, Structural)]
pub struct Header {
    pub window_size_exponent: u4,
    pub compression_level: CompressionLevel,
}

/// The header's value before the check bits are set.
pub open spec fn header_base(h: Header) -> nat {
    (h.window_size_exponent.val() * 16 + 8) * 256 + h.compression_level.val() * 64
}

impl Header {
    pub fn new(window_size_exponent: u4, compression_level: CompressionLevel) -> (r: Header)
        ensures
            r.window_size_exponent == window_size_exponent,
            r.compression_level == compression_level,
    {
        Header { window_size_exponent, compression_level }
    }

    /// The window size: `2 ^ (8 + window_size_exponent)`.
    pub fn window_size(&self) -> (r: u32)
        ensures
            r as nat == vstd::arithmetic::power2::pow2(8 + self.window_size_exponent.val()),
    {
        proof {
            vstd::arithmetic::power2::lemma2_to64();
            vstd::arithmetic::power2::lemma_pow2_adds(8, self.window_size_exponent.val());
        }
        256u32 * (self.window_size_exponent.nth_bit() as u32)
    }

    /// Reads the header whose big-endian value is `val`.
    pub fn read(val: u16) -> (r: Result<Header, InflateError>)
        ensures
            match header_error(val as nat) {
                Some(e) => r == Err::<Header, InflateError>(e),
                None => r is Ok && r->Ok_0.window_size_exponent.val() == val / 4096
                    && r->Ok_0.compression_level.val() == (val % 256) / 64,
            },
    {
        if val % 31 != 0 {
            return Err(InflateError::ChecksumMismatchHeader);
        }
        let b1 = (val / 256) as u8;
        let b2 = (val % 256) as u8;
        let (info, method) = u4::split(b1);
        if method.value() != 8 {
            return Err(InflateError::UnknownCompressionMethod(method.value()));
        }
        if (b2 / 32) % 2 == 1 {
            return Err(InflateError::HasPresetDictionary);
        }
        assert(b1 as nat / 16 == val / 4096) by (nonlinear_arith)
            requires b1 as nat == val as nat / 256;
        Ok(Header::new(info, CompressionLevel::from_bits(b2 / 64)))
    }

    /// The header as a big-endian number, with the check bits set so that it
    /// is a multiple of 31.
    pub fn write(&self) -> (r: u16)
        ensures
            r as nat == header_base(*self) + (31 - header_base(*self) % 31),
            r % 31 == 0,
    {
        let b1 = u4::concat(self.window_size_exponent, u4::_8);
        let b2 = self.compression_level.to_byte();
        let base: u16 = (b1 as u16) * 256 + (b2 as u16);
        let modulus = base % 31;
        assert(base as nat + (31 - modulus as nat) <= 65535);
        base + (31 - modulus)
    }
}

/// The two Adler-32 sums of `b`.
pub open spec fn adler_sums(b: Seq<u8>) -> (nat, nat)
    decreases b.len(),
{
    if b.len() == 0 {
        (1, 0)
    } else {
        let (s1, s2) = adler_sums(b.drop_last());
        let t1 = ((s1 + b.last()) % 65521) as nat;
        (t1, ((s2 + t1) % 65521) as nat)
    }
}

/// The Adler-32 checksum of `b`.
pub open spec fn adler32_spec(b: Seq<u8>) -> nat {
    adler_sums(b).1 * 65536 + adler_sums(b).0
}

/// Computes the Adler-32 checksum of `input`.
pub fn adler32(input: &[u8]) -> (r: u32)
    ensures
        r as nat == adler32_spec(input@),
{
    let mut s1: u32 = 1;
    let mut s2: u32 = 0;
    let mut i: usize = 0;
    while i < input.len()
        invariant
            i <= input@.len(),
            (s1 as nat, s2 as nat) == adler_sums(input@.subrange(0, i as int)),
            s1 < 65521,
            s2 < 65521,
        decreases input@.len() - i,
    {
        assert(input@.subrange(0, i + 1).drop_last() =~= input@.subrange(0, i as int));
        s1 = (s1 + input[i] as u32) % 65521;
        s2 = (s2 + s1) % 65521;
        i = i + 1;
    }
    assert(input@.subrange(0, i as int) =~= input@);
    assert(s2 as nat * 65536 + s1 as nat <= u32::MAX);
    s2 * 65536 + s1
}

/// The four big-endian bytes of `x`.
pub open spec fn be32_bytes(x: nat) -> Seq<u8> {
    seq![(x / 16777216 % 256) as u8, (x / 65536 % 256) as u8, (x / 256 % 256) as u8, (x % 256) as u8]
}

/// The big-endian number in bytes `q..q+4` of `d`.
pub open spec fn be32_at(d: Seq<u8>, q: int) -> nat {
    (d[q] * 16777216 + d[q + 1] * 65536 + d[q + 2] * 256 + d[q + 3]) as nat
}

/// What inflating the ZLIB stream `d` gives: its output, or the error.
/// Bytes after the checksum are not read.
pub open spec fn zlib_inflate_spec(d: Seq<u8>) -> Result<Seq<u8>, InflateError> {
    if d.len() < 2 {
        Err(InflateError::UnexpectedEof)
    } else {
        match header_error((d[0] * 256 + d[1]) as nat) {
            Some(e) => Err(e),
            None => match inflate_from(d, 16, Seq::empty()) {
                Err(e) => Err(from_deflate_spec(e)),
                Ok((out, p)) => {
                    let q = align_up(p) / 8;
                    if q + 4 > d.len() {
                        Err(InflateError::UnexpectedEof)
                    } else if be32_at(d, q) != adler32_spec(out) {
                        Err(InflateError::ChecksumMismatch { given: be32_at(d, q) as u32, calculated: adler32_spec(out) as u32 })
                    } else {
                        Ok(out)
                    }
                },
            },
        }
    }
}

/// The ZLIB stream that `deflate_immediate` makes of `b`: the header 0x7801
/// (method 8, 32 KiB window, fastest), stored blocks, the Adler-32 checksum.
pub open spec fn zlib_wrap(b: Seq<u8>) -> Seq<u8> {
    seq![0x78u8, 0x01u8] + stored_blocks(b) + be32_bytes(adler32_spec(b))
}

/// Decompresses a ZLIB stream.
pub fn inflate(r: &[u8]) -> (res: Result<Vec<u8>, InflateError>)
    ensures
        match zlib_inflate_spec(r@) {
            Ok(out) => res is Ok && res->Ok_0@ == out,
            Err(e) => res == Err::<Vec<u8>, InflateError>(e),
        },
{
    let mut bits = Bits::new(vstd::slice::slice_to_vec(r));
    let b0 = match bits.next_byte() {
        Some(b) => b,
        None => return Err(InflateError::UnexpectedEof),
    };
    let b1 = match bits.next_byte() {
        Some(b) => b,
        None => return Err(InflateError::UnexpectedEof),
    };
    let val: u16 = (b0 as u16) * 256 + (b1 as u16);
    assert((val as nat / 256) % 16 == b0 as nat % 16 && (val as nat % 256) == b1 as nat) by (nonlinear_arith)
        requires val as nat == b0 as nat * 256 + b1 as nat, b1 < 256;
    match Header::read(val) {
        Ok(_) => {},
        Err(e) => return Err(e),
    }
    let result = match deflate::inflate_bits(&mut bits) {
        Ok(v) => v,
        Err(e) => return Err(InflateError::from_deflate(e)),
    };
    let ghost q = align_up(bits.pos()) / 8;
    proof {
        bits.lemma_pos_bounds();
        lemma_align_facts(bits.pos());
    }
    bits.discard_til_byte_boundary();
    let c0 = match bits.next_byte() {
        Some(b) => b,
        None => return Err(InflateError::UnexpectedEof),
    };
    let c1 = match bits.next_byte() {
        Some(b) => b,
        None => return Err(InflateError::UnexpectedEof),
    };
    let c2 = match bits.next_byte() {
        Some(b) => b,
        None => return Err(InflateError::UnexpectedEof),
    };
    let c3 = match bits.next_byte() {
        Some(b) => b,
        None => return Err(InflateError::UnexpectedEof),
    };
    let given: u32 = (c0 as u32) * 16777216 + (c1 as u32) * 65536 + (c2 as u32) * 256 + (c3 as u32);
    let calculated = adler32(result.as_slice());
    if given != calculated {
        Err(InflateError::ChecksumMismatch { given, calculated })
    } else {
        Ok(result)
    }
}

/// Stores `r` in a ZLIB stream made only of stored DEFLATE blocks.
pub fn deflate_immediate(r: &[u8]) -> (res: Vec<u8>)
    ensures
        res@ == zlib_wrap(r@),
{
    let header = Header::new(u4::_7, CompressionLevel::Fastest).write();
    assert(header == 0x7801);
    let mut out: Vec<u8> = Vec::new();
    out.push((header / 256) as u8);
    out.push((header % 256) as u8);
    let body = deflate::deflate_immediate(r);
    let mut i: usize = 0;
    let ghost head = out@;
    while i < body.len()
        invariant
            i <= body@.len(),
            out@ == head + body@.subrange(0, i as int),
        decreases body@.len() - i,
    {
        out.push(body[i]);
        i = i + 1;
        assert(out@ =~= head + body@.subrange(0, i as int));
    }
    let check = adler32(r);
    out.push((check / 16777216 % 256) as u8);
    out.push((check / 65536 % 256) as u8);
    out.push((check / 256 % 256) as u8);
    out.push((check % 256) as u8);
    assert(body@.subrange(0, i as int) =~= body@);
    assert(out@ =~= zlib_wrap(r@));
    out
}

} // verus!

verus! {

pub proof fn lemma_adler_bounds(b: Seq<u8>)
    ensures
        adler_sums(b).0 < 65521,
        adler_sums(b).1 < 65521,
        adler32_spec(b) <= u32::MAX,
    decreases b.len(),
{
    if b.len() > 0 {
        lemma_adler_bounds(b.drop_last());
    }
}

proof fn lemma_be32_bits(x: u32)
    by (bit_vector)
    ensures
        (x / 16777216 % 256) * 16777216 + (x / 65536 % 256) * 65536 + (x / 256 % 256) * 256 + x % 256 == x,
{
}

/// Big-endian bytes read back give the number they were made of.
pub proof fn lemma_be32_round_trip(d: Seq<u8>, q: int, x: nat)
    requires
        x <= u32::MAX,
        0 <= q,
        q + 4 <= d.len(),
        d.subrange(q, q + 4) == be32_bytes(x),
    ensures
        be32_at(d, q) == x,
{
    let y = x as u32;
    lemma_be32_bits(y);
    assert(d[q] == d.subrange(q, q + 4)[0]);
    assert(d[q + 1] == d.subrange(q, q + 4)[1]);
    assert(d[q + 2] == d.subrange(q, q + 4)[2]);
    assert(d[q + 3] == d.subrange(q, q + 4)[3]);
}

/// Inflating what `deflate_immediate` made of `b` gives `b` back.
pub proof fn lemma_round_trip(b: Seq<u8>)
    ensures
        zlib_inflate_spec(zlib_wrap(b)) == Ok::<Seq<u8>, InflateError>(b),
{
    let d = zlib_wrap(b);
    let s = stored_blocks(b);
    let q: int = 2 + s.len() as int;
    assert(d.subrange(2, q) =~= s);
    deflate::lemma_stored_blocks_inflate(d, 2, b, Seq::empty());
    assert(Seq::<u8>::empty() + b =~= b);
    lemma_align_facts(8 * q);
    assert(align_up(8 * q) / 8 == q);
    assert(d[0] == 0x78u8 && d[1] == 0x01u8);
    assert(header_error((d[0] * 256 + d[1]) as nat) is None);
    lemma_adler_bounds(b);
    assert(d.subrange(q, q + 4) =~= be32_bytes(adler32_spec(b)));
    lemma_be32_round_trip(d, q, adler32_spec(b));
}

/// Inflating, storing and inflating again gives what the first inflating
/// gave: re-storing a stream keeps its content.
pub proof fn lemma_restore_keeps_content(s: Seq<u8>)
    requires
        zlib_inflate_spec(s) is Ok,
    ensures
        zlib_inflate_spec(zlib_wrap(zlib_inflate_spec(s)->Ok_0)) == zlib_inflate_spec(s),
{
    lemma_round_trip(zlib_inflate_spec(s)->Ok_0);
}

} // verus!
