//! Rewriting a PNG file so that every compressed stream in it is stored
//! uncompressed: the per-chunk policy, the merging of consecutive IDAT
//! chunks, and the whole-file pipeline.
use vstd::prelude::*;
use crate::png::{Chunk, ReadError, ReadFailure, chunks_view, read_spec, png_bytes, valid_typ, writable, chunk_bytes};
use crate::png;
use crate::zlib;
use crate::zlib::{zlib_inflate_spec, zlib_wrap};

verus! {

// ---------------------------------------------------------------------------
// Chunk types

/// `IHDR`
pub open spec fn ihdr() -> Seq<u8> { seq![0x49u8, 0x48, 0x44, 0x52] }
/// `IDAT`
pub open spec fn idat() -> Seq<u8> { seq![0x49u8, 0x44, 0x41, 0x54] }
/// `zTXt`
pub open spec fn ztxt() -> Seq<u8> { seq![0x7Au8, 0x54, 0x58, 0x74] }
/// `iCCP`
pub open spec fn iccp() -> Seq<u8> { seq![0x69u8, 0x43, 0x43, 0x50] }
/// `iTXt`
pub open spec fn itxt() -> Seq<u8> { seq![0x69u8, 0x54, 0x58, 0x74] }
/// `acTL`
pub open spec fn actl() -> Seq<u8> { seq![0x61u8, 0x63, 0x54, 0x4C] }
/// `fcTL`
pub open spec fn fctl() -> Seq<u8> { seq![0x66u8, 0x63, 0x54, 0x4C] }
/// `fdAT`
pub open spec fn fdat() -> Seq<u8> { seq![0x66u8, 0x64, 0x41, 0x54] }

/// The chunk types that hold no compressed data and do not depend on how
/// other chunks are compressed: PLTE, IEND, tRNS, cHRM, gAMA, sBIT, sRGB,
/// cICP, mDCV, cLLI, tEXt, bKGD, hIST, pHYs, sPLT, eXIf, tIME, oFFs, pCAL,
/// sCAL, gIFg, gIFx, sTER, gIFt.
pub open spec fn plain_types() -> Seq<Seq<u8>> {
    seq![
        seq![0x50u8, 0x4C, 0x54, 0x45], seq![0x49u8, 0x45, 0x4E, 0x44], seq![0x74u8, 0x52, 0x4E, 0x53],
        seq![0x63u8, 0x48, 0x52, 0x4D], seq![0x67u8, 0x41, 0x4D, 0x41], seq![0x73u8, 0x42, 0x49, 0x54],
        seq![0x73u8, 0x52, 0x47, 0x42], seq![0x63u8, 0x49, 0x43, 0x50], seq![0x6Du8, 0x44, 0x43, 0x56],
        seq![0x63u8, 0x4C, 0x4C, 0x49], seq![0x74u8, 0x45, 0x58, 0x74], seq![0x62u8, 0x4B, 0x47, 0x44],
        seq![0x68u8, 0x49, 0x53, 0x54], seq![0x70u8, 0x48, 0x59, 0x73], seq![0x73u8, 0x50, 0x4C, 0x54],
        seq![0x65u8, 0x58, 0x49, 0x66], seq![0x74u8, 0x49, 0x4D, 0x45], seq![0x6Fu8, 0x46, 0x46, 0x73],
        seq![0x70u8, 0x43, 0x41, 0x4C], seq![0x73u8, 0x43, 0x41, 0x4C], seq![0x67u8, 0x49, 0x46, 0x67],
        seq![0x67u8, 0x49, 0x46, 0x78], seq![0x73u8, 0x54, 0x45, 0x52], seq![0x67u8, 0x49, 0x46, 0x74],
    ]
}

/// A chunk type whose payload holds a ZLIB stream that the rewriter replaces.
pub open spec fn is_compression_aware(t: Seq<u8>, process_apng: bool) -> bool {
    t == idat() || t == ztxt() || t == iccp() || t == itxt() || (process_apng && t == fdat())
}

/// The safe-to-copy flag: bit 5 of the type's fourth byte.
pub open spec fn safe_to_copy_spec(t: Seq<u8>) -> bool {
    t[3] & 0x20 != 0
}

// ---------------------------------------------------------------------------
// The per-chunk policy

/// What went wrong rewriting a chunk.
pub enum RewriteFailure {
    CannotCopySafely(Seq<u8>),
    UnsupportedCompressionMethod,
    Zlib(zlib::InflateError),
}

/// An error that can occur while rewriting a chunk.
#[derive(Debug)]
pub enum Error {
    /// A chunk of an unknown type that is not safe to copy.
    CannotCopySafely([u8; 4]),
    /// IHDR or a text or profile chunk names a compression method other than 0.
    UnsupportedCompressionMethod,
    /// An embedded ZLIB stream could not be inflated.
    Zlib(zlib::InflateError),
}

impl Error {
    pub open spec fn failure(&self) -> RewriteFailure {
        match self {
            Error::CannotCopySafely(t) => RewriteFailure::CannotCopySafely(t@),
            Error::UnsupportedCompressionMethod => RewriteFailure::UnsupportedCompressionMethod,
            Error::Zlib(e) => RewriteFailure::Zlib(*e),
        }
    }
}

/// A ZLIB stream inflated and stored again with stored blocks only.
#[verifier::opaque]
pub open spec fn recompress_spec(v: Seq<u8>) -> Result<Seq<u8>, RewriteFailure> {
    match zlib_inflate_spec(v) {
        Ok(x) => Ok(zlib_wrap(x)),
        Err(e) => Err(RewriteFailure::Zlib(e)),
    }
}

/// The index of the first zero byte of `s` at or after `i`, or the length
/// of `s` if there is none.
pub open spec fn nul_from(s: Seq<u8>, i: int) -> int
    decreases s.len() - i,
{
    if i >= s.len() {
        s.len() as int
    } else if s[i] == 0 {
        i
    } else {
        nul_from(s, i + 1)
    }
}

/// The position after the terminator at `k`, where there is one.
pub open spec fn past(s: Seq<u8>, k: int) -> int {
    if k < s.len() { k + 1 } else { s.len() as int }
}

/// The new payload of an iTXt chunk whose compressed flag is set and whose
/// keyword ends at `k`: keyword, 0, flag 1, method 0, language, 0, translated
/// keyword, 0, and the text stored again.
pub open spec fn itxt_compressed(data: Seq<u8>, k: int) -> Result<Seq<u8>, RewriteFailure> {
    let l = nul_from(data, k + 3);
    let t = nul_from(data, past(data, l));
    match recompress_spec(data.subrange(past(data, t), data.len() as int)) {
        Ok(z) => Ok(data.subrange(0, k) + seq![0u8, 1, 0] + data.subrange(k + 3, l) + seq![0u8]
            + data.subrange(past(data, l), t) + seq![0u8] + z),
        Err(e) => Err(e),
    }
}

/// The new payload of a zTXt or iCCP chunk: keyword, 0, method 0, and the
/// stream stored again.
pub open spec fn ztxt_rewrite(data: Seq<u8>) -> Result<Seq<u8>, RewriteFailure> {
    let k = nul_from(data, 0);
    if k + 1 < data.len() && data[k + 1] == 0 {
        match recompress_spec(data.subrange(k + 2, data.len() as int)) {
            Ok(z) => Ok(data.subrange(0, k) + seq![0u8, 0u8] + z),
            Err(e) => Err(e),
        }
    } else {
        Err(RewriteFailure::UnsupportedCompressionMethod)
    }
}

/// The new payload of an iTXt chunk: unchanged if its text is not
/// compressed, else with the text stored again.
pub open spec fn itxt_rewrite(data: Seq<u8>) -> Result<Seq<u8>, RewriteFailure> {
    let k = nul_from(data, 0);
    if k + 1 < data.len() && data[k + 1] == 0 {
        Ok(data)
    } else if k + 2 < data.len() && data[k + 2] == 0 {
        itxt_compressed(data, k)
    } else {
        Err(RewriteFailure::UnsupportedCompressionMethod)
    }
}

/// The new payload of an fdAT chunk with APNG processing on: the sequence
/// number, then the stream stored again.
pub open spec fn fdat_rewrite(data: Seq<u8>) -> Result<Seq<u8>, RewriteFailure> {
    let s = if data.len() < 4 { data.len() as int } else { 4 };
    match recompress_spec(data.subrange(s, data.len() as int)) {
        Ok(z) => Ok(data.subrange(0, s) + z),
        Err(e) => Err(e),
    }
}

/// The new payload of a chunk of type `typ` and payload `data`.
pub open spec fn rewrite_chunk_spec(typ: Seq<u8>, data: Seq<u8>, ignore_unsafe_to_copy: bool, process_apng: bool) -> Result<Seq<u8>, RewriteFailure> {
    if typ == ihdr() {
        if data.len() > 10 && data[10] == 0 {
            Ok(data)
        } else {
            Err(RewriteFailure::UnsupportedCompressionMethod)
        }
    } else if typ == idat() {
        recompress_spec(data)
    } else if typ == ztxt() || typ == iccp() {
        ztxt_rewrite(data)
    } else if typ == itxt() {
        itxt_rewrite(data)
    } else if plain_types().contains(typ) {
        Ok(data)
    } else if typ == actl() || typ == fctl() {
        if ignore_unsafe_to_copy || process_apng {
            Ok(data)
        } else {
            Err(RewriteFailure::CannotCopySafely(typ))
        }
    } else if typ == fdat() {
        if process_apng {
            fdat_rewrite(data)
        } else if ignore_unsafe_to_copy {
            Ok(data)
        } else {
            Err(RewriteFailure::CannotCopySafely(typ))
        }
    } else if ignore_unsafe_to_copy || safe_to_copy_spec(typ) {
        Ok(data)
    } else {
        Err(RewriteFailure::CannotCopySafely(typ))
    }
}

/// Whether the four bytes of `t` are `a`, `b`, `c`, `d`.
fn typ_is(t: &[u8; 4], a: u8, b: u8, c: u8, d: u8) -> (r: bool)
    ensures
        r == (t@ == seq![a, b, c, d]),
{
    let r = t[0] == a && t[1] == b && t[2] == c && t[3] == d;
    if r {
        assert(t@ =~= seq![a, b, c, d]);
    } else {
        assert(t@ != seq![a, b, c, d]) by {
            if t@ == seq![a, b, c, d] {
                assert(t@[0] == a && t@[1] == b && t@[2] == c && t@[3] == d);
            }
        }
    }
    r
}

/// Entry `i` of `plain_types`.
fn plain_type(i: usize) -> (r: [u8; 4])
    requires
        i < 24,
    ensures
        r@ == plain_types()[i as int],
{
    let r: [u8; 4] = if i == 0 { [0x50, 0x4C, 0x54, 0x45] } else if i == 1 { [0x49, 0x45, 0x4E, 0x44] }
        else if i == 2 { [0x74, 0x52, 0x4E, 0x53] } else if i == 3 { [0x63, 0x48, 0x52, 0x4D] }
        else if i == 4 { [0x67, 0x41, 0x4D, 0x41] } else if i == 5 { [0x73, 0x42, 0x49, 0x54] }
        else if i == 6 { [0x73, 0x52, 0x47, 0x42] } else if i == 7 { [0x63, 0x49, 0x43, 0x50] }
        else if i == 8 { [0x6D, 0x44, 0x43, 0x56] } else if i == 9 { [0x63, 0x4C, 0x4C, 0x49] }
        else if i == 10 { [0x74, 0x45, 0x58, 0x74] } else if i == 11 { [0x62, 0x4B, 0x47, 0x44] }
        else if i == 12 { [0x68, 0x49, 0x53, 0x54] } else if i == 13 { [0x70, 0x48, 0x59, 0x73] }
        else if i == 14 { [0x73, 0x50, 0x4C, 0x54] } else if i == 15 { [0x65, 0x58, 0x49, 0x66] }
        else if i == 16 { [0x74, 0x49, 0x4D, 0x45] } else if i == 17 { [0x6F, 0x46, 0x46, 0x73] }
        else if i == 18 { [0x70, 0x43, 0x41, 0x4C] } else if i == 19 { [0x73, 0x43, 0x41, 0x4C] }
        else if i == 20 { [0x67, 0x49, 0x46, 0x67] } else if i == 21 { [0x67, 0x49, 0x46, 0x78] }
        else if i == 22 { [0x73, 0x54, 0x45, 0x52] } else { [0x67, 0x49, 0x46, 0x74] };
    assert(r@ =~= plain_types()[i as int]);
    r
}

/// Whether `t` is one of `plain_types`.
fn is_plain_type(t: &[u8; 4]) -> (r: bool)
    ensures
        r == plain_types().contains(t@),
{
    let mut i: usize = 0;
    while i < 24
        invariant
            i <= 24,
            forall|j: int| 0 <= j < i ==> plain_types()[j] != t@,
        decreases 24 - i,
    {
        let p = plain_type(i);
        if typ_is(t, p[0], p[1], p[2], p[3]) {
            assert(p@ =~= seq![p[0], p[1], p[2], p[3]]);
            assert(plain_types()[i as int] == t@);
            return true;
        }
        assert(p@ =~= seq![p[0], p[1], p[2], p[3]]);
        i = i + 1;
    }
    false
}

/// The index of the first zero byte of `s` at or after `i`, or `s.len()`.
fn find_nul(s: &[u8], i: usize) -> (r: usize)
    requires
        i <= s@.len(),
    ensures
        r as int == nul_from(s@, i as int),
        i <= r <= s@.len(),
{
    let mut k = i;
    while k < s.len() && s[k] != 0
        invariant
            i <= k <= s@.len(),
            nul_from(s@, k as int) == nul_from(s@, i as int),
        decreases s@.len() - k,
    {
        k = k + 1;
    }
    k
}

/// Copies `s[a..b]` into a new vector.
fn copy_range(s: &[u8], a: usize, b: usize) -> (r: Vec<u8>)
    requires
        a <= b <= s@.len(),
    ensures
        r@ == s@.subrange(a as int, b as int),
{
    let mut r: Vec<u8> = Vec::new();
    let mut k = a;
    while k < b
        invariant
            a <= k <= b <= s@.len(),
            r@ == s@.subrange(a as int, k as int),
        decreases b - k,
    {
        r.push(s[k]);
        k = k + 1;
        assert(r@ =~= s@.subrange(a as int, k as int));
    }
    r
}

/// Appends all of `b` to `out`.
fn append(out: &mut Vec<u8>, b: &[u8])
    ensures
        final(out)@ == old(out)@ + b@,
{
    let mut i: usize = 0;
    while i < b.len()
        invariant
            i <= b@.len(),
            out@ == old(out)@ + b@.subrange(0, i as int),
        decreases b@.len() - i,
    {
        out.push(b[i]);
        i = i + 1;
        assert(out@ =~= old(out)@ + b@.subrange(0, i as int));
    }
    assert(b@.subrange(0, i as int) =~= b@);
}

/// Inflates the ZLIB stream `v` and stores it again with stored blocks only.
fn recompress(v: &[u8]) -> (r: Result<Vec<u8>, Error>)
    ensures
        match recompress_spec(v@) {
            Ok(z) => r is Ok && r->Ok_0@ == z,
            Err(e) => r is Err && r->Err_0.failure() == e,
        },
{
    proof {
        reveal(recompress_spec);
    }
    match zlib::inflate(v) {
        Ok(x) => Ok(zlib::deflate_immediate(x.as_slice())),
        Err(e) => Err(Error::Zlib(e)),
    }
}

/// Rewrites an iTXt payload whose compressed flag is set and whose keyword
/// ends at `k`.
fn rewrite_itxt_compressed(data: &[u8], k: usize) -> (r: Result<Vec<u8>, Error>)
    requires
        k + 2 < data@.len(),
    ensures
        match itxt_compressed(data@, k as int) {
            Ok(z) => r is Ok && r->Ok_0@ == z,
            Err(e) => r is Err && r->Err_0.failure() == e,
        },
{
    let n = data.len();
    let l = find_nul(data, k + 3);
    let after_l = if l < n { l + 1 } else { n };
    let t = find_nul(data, after_l);
    let after_t = if t < n { t + 1 } else { n };
    let value = copy_range(data, after_t, n);
    let z = match recompress(value.as_slice()) {
        Ok(z) => z,
        Err(e) => return Err(e),
    };
    let mut out = copy_range(data, 0, k);
    out.push(0);
    out.push(1);
    out.push(0);
    let language = copy_range(data, k + 3, l);
    append(&mut out, language.as_slice());
    out.push(0);
    let translated = copy_range(data, after_l, t);
    append(&mut out, translated.as_slice());
    out.push(0);
    append(&mut out, z.as_slice());
    assert(out@ =~= data@.subrange(0, k as int) + seq![0u8, 1, 0] + data@.subrange(k + 3, l as int) + seq![0u8]
        + data@.subrange(after_l as int, t as int) + seq![0u8] + z@);
    Ok(out)
}

/// Rewrites a zTXt or iCCP payload.
fn rewrite_ztxt(data: &[u8]) -> (r: Result<Vec<u8>, Error>)
    ensures
        match ztxt_rewrite(data@) {
            Ok(z) => r is Ok && r->Ok_0@ == z,
            Err(e) => r is Err && r->Err_0.failure() == e,
        },
{
    let n = data.len();
    let k = find_nul(data, 0);
    if n - k > 1 && data[k + 1] == 0 {
        let value = copy_range(data, k + 2, n);
        let z = match recompress(value.as_slice()) {
            Ok(z) => z,
            Err(e) => return Err(e),
        };
        let mut out = copy_range(data, 0, k);
        out.push(0);
        out.push(0);
        append(&mut out, z.as_slice());
        assert(out@ =~= data@.subrange(0, k as int) + seq![0u8, 0u8] + z@);
        Ok(out)
    } else {
        Err(Error::UnsupportedCompressionMethod)
    }
}

/// Rewrites an iTXt payload.
fn rewrite_itxt(data: &[u8]) -> (r: Result<Option<Vec<u8>>, Error>)
    ensures
        match itxt_rewrite(data@) {
            Ok(z) => r is Ok && match r->Ok_0 {
                None => z == data@,
                Some(v) => v@ == z,
            },
            Err(e) => r is Err && r->Err_0.failure() == e,
        },
{
    let n = data.len();
    let k = find_nul(data, 0);
    if n - k > 1 && data[k + 1] == 0 {
        Ok(None)
    } else if n - k > 2 && data[k + 2] == 0 {
        match rewrite_itxt_compressed(data, k) {
            Ok(d) => Ok(Some(d)),
            Err(e) => Err(e),
        }
    } else {
        Err(Error::UnsupportedCompressionMethod)
    }
}

/// Rewrites an fdAT payload.
fn rewrite_fdat(data: &[u8]) -> (r: Result<Vec<u8>, Error>)
    ensures
        match fdat_rewrite(data@) {
            Ok(z) => r is Ok && r->Ok_0@ == z,
            Err(e) => r is Err && r->Err_0.failure() == e,
        },
{
    let n = data.len();
    let s = if n < 4 { n } else { 4 };
    let value = copy_range(data, s, n);
    let z = match recompress(value.as_slice()) {
        Ok(z) => z,
        Err(e) => return Err(e),
    };
    let mut out = copy_range(data, 0, s);
    append(&mut out, z.as_slice());
    Ok(out)
}

/// Rewrites one chunk: re-stores the ZLIB streams of IDAT, zTXt, iCCP,
/// compressed iTXt and (with `process_apng`) fdAT chunks, passes the others
/// through, and refuses unknown chunks that are not safe to copy unless
/// `ignore_unsafe_to_copy` is set.
pub fn deflate_chunks(indata: Chunk, ignore_unsafe_to_copy: bool, process_apng: bool) -> (r: Result<Chunk, Error>)
    ensures
        match rewrite_chunk_spec(indata.typ@, indata.data@, ignore_unsafe_to_copy, process_apng) {
            Ok(d) => r is Ok && r->Ok_0.typ@ == indata.typ@ && r->Ok_0.data@ == d,
            Err(e) => r is Err && r->Err_0.failure() == e,
        },
{
    let typ = indata.typ;
    let n = indata.data.len();
    if typ_is(&typ, 0x49, 0x48, 0x44, 0x52) {
        // IHDR: byte 10 is the compression method, which must be 0
        if n > 10 && indata.data[10] == 0 {
            Ok(indata)
        } else {
            Err(Error::UnsupportedCompressionMethod)
        }
    } else if typ_is(&typ, 0x49, 0x44, 0x41, 0x54) {
        // IDAT: only compressed data
        match recompress(indata.data.as_slice()) {
            Ok(z) => Ok(Chunk { typ, data: z }),
            Err(e) => Err(e),
        }
    } else if typ_is(&typ, 0x7A, 0x54, 0x58, 0x74) || typ_is(&typ, 0x69, 0x43, 0x43, 0x50) {
        // zTXt, iCCP: keyword, 0, method, compressed data
        match rewrite_ztxt(indata.data.as_slice()) {
            Ok(d) => Ok(Chunk { typ, data: d }),
            Err(e) => Err(e),
        }
    } else if typ_is(&typ, 0x69, 0x54, 0x58, 0x74) {
        // iTXt: keyword, 0, compressed flag, method, language, 0,
        // translated keyword, 0, text
        match rewrite_itxt(indata.data.as_slice()) {
            Ok(None) => Ok(indata),
            Ok(Some(d)) => Ok(Chunk { typ, data: d }),
            Err(e) => Err(e),
        }
    } else if is_plain_type(&typ) {
        Ok(indata)
    } else if typ_is(&typ, 0x61, 0x63, 0x54, 0x4C) || typ_is(&typ, 0x66, 0x63, 0x54, 0x4C) {
        // acTL, fcTL: animation control, no compressed data
        if ignore_unsafe_to_copy || process_apng {
            Ok(indata)
        } else {
            Err(Error::CannotCopySafely(typ))
        }
    } else if typ_is(&typ, 0x66, 0x64, 0x41, 0x54) {
        // fdAT: a sequence number, then compressed data
        if process_apng {
            match rewrite_fdat(indata.data.as_slice()) {
                Ok(d) => Ok(Chunk { typ, data: d }),
                Err(e) => Err(e),
            }
        } else if ignore_unsafe_to_copy {
            Ok(indata)
        } else {
            Err(Error::CannotCopySafely(typ))
        }
    } else if ignore_unsafe_to_copy || indata.safe_to_copy() {
        Ok(indata)
    } else {
        Err(Error::CannotCopySafely(typ))
    }
}

} // verus!

verus! {

// ---------------------------------------------------------------------------
// Merging consecutive IDAT chunks

/// `cs` with every run of consecutive IDAT chunks merged into one IDAT chunk
/// whose payload is the concatenation of theirs; the other chunks stay as
/// they are, in order.
pub open spec fn coalesce(cs: Seq<(Seq<u8>, Seq<u8>)>) -> Seq<(Seq<u8>, Seq<u8>)>
    decreases cs.len(),
{
    if cs.len() == 0 {
        Seq::empty()
    } else {
        let r = coalesce(cs.drop_last());
        let c = cs.last();
        if c.0 == idat() && r.len() > 0 && r.last().0 == idat() {
            r.drop_last().push((idat(), r.last().1 + c.1))
        } else {
            r.push(c)
        }
    }
}

/// A copy of `c`.
fn copy_chunk(c: &Chunk) -> (r: Chunk)
    ensures
        r@ == c@,
{
    Chunk { typ: c.typ, data: copy_range(c.data.as_slice(), 0, c.data.len()) }
}

/// Merges every run of consecutive IDAT chunks into one.
pub fn concat_idats(chunks: &Vec<Chunk>) -> (r: Vec<Chunk>)
    ensures
        chunks_view(r@) == coalesce(chunks_view(chunks@)),
{
    let mut out: Vec<Chunk> = Vec::new();
    let mut i: usize = 0;
    while i < chunks.len()
        invariant
            i <= chunks@.len(),
            chunks_view(out@) == coalesce(chunks_view(chunks@.subrange(0, i as int))),
        decreases chunks@.len() - i,
    {
        let ghost before = chunks_view(out@);
        let ghost prefix = chunks_view(chunks@.subrange(0, i + 1));
        assert(prefix.drop_last() =~= chunks_view(chunks@.subrange(0, i as int)));
        assert(prefix.last() == chunks@[i as int]@);
        let c = copy_chunk(&chunks[i]);
        let n = out.len();
        let merge = typ_is(&c.typ, 0x49, 0x44, 0x41, 0x54) && n > 0 && typ_is(&out[n - 1].typ, 0x49, 0x44, 0x41, 0x54);
        if merge {
            assert(before.last() == out@[n - 1]@);
            let mut prev = out.pop().unwrap();
            let ghost prev_data = prev.data@;
            append(&mut prev.data, c.data.as_slice());
            out.push(prev);
            assert(chunks_view(out@) =~= before.drop_last().push((idat(), prev_data + c.data@)));
        } else {
            out.push(c);
            assert(chunks_view(out@) =~= before.push(c@));
        }
        i = i + 1;
    }
    assert(chunks@.subrange(0, i as int) =~= chunks@);
    out
}

/// Hands out chunks one at a time, each run of consecutive IDAT chunks
/// merged into one.
pub struct ConcatinateIdats {
    merged: Vec<Chunk>,
    pos: usize,
}

impl ConcatinateIdats {
    /// The chunks still to come.
    pub closed spec fn remaining(&self) -> Seq<(Seq<u8>, Seq<u8>)> {
        if self.pos <= self.merged@.len() {
            chunks_view(self.merged@).subrange(self.pos as int, self.merged@.len() as int)
        } else {
            Seq::empty()
        }
    }

    pub fn new(backing: Vec<Chunk>) -> (r: ConcatinateIdats)
        ensures
            r.remaining() == coalesce(chunks_view(backing@)),
    {
        let merged = concat_idats(&backing);
        let r = ConcatinateIdats { merged, pos: 0 };
        assert(r.remaining() =~= chunks_view(merged@));
        r
    }

    /// The next chunk, if any.
    pub fn next(&mut self) -> (r: Option<Chunk>)
        ensures
            old(self).remaining().len() == 0 ==> r is None && final(self).remaining() == old(self).remaining(),
            old(self).remaining().len() > 0 ==> r is Some && r->0@ == old(self).remaining()[0]
                && final(self).remaining() == old(self).remaining().drop_first(),
    {
        if self.pos >= self.merged.len() {
            return None;
        }
        let c = copy_chunk(&self.merged[self.pos]);
        self.pos = self.pos + 1;
        assert(self.remaining() =~= old(self).remaining().drop_first());
        Some(c)
    }
}

// ---------------------------------------------------------------------------
// The whole file

/// Rewriting each chunk in turn; the first error ends it.
pub open spec fn rewrite_all(cs: Seq<(Seq<u8>, Seq<u8>)>, ignore_unsafe_to_copy: bool, process_apng: bool) -> Result<Seq<(Seq<u8>, Seq<u8>)>, RewriteFailure>
    decreases cs.len(),
{
    if cs.len() == 0 {
        Ok(Seq::empty())
    } else {
        match rewrite_all(cs.drop_last(), ignore_unsafe_to_copy, process_apng) {
            Err(e) => Err(e),
            Ok(rs) => match rewrite_chunk_spec(cs.last().0, cs.last().1, ignore_unsafe_to_copy, process_apng) {
                Err(e) => Err(e),
                Ok(d) => Ok(rs.push((cs.last().0, d))),
            },
        }
    }
}

/// Every payload's length fits the 32-bit length field.
pub open spec fn lengths_fit(cs: Seq<(Seq<u8>, Seq<u8>)>) -> bool {
    forall|i: int| 0 <= i < cs.len() ==> (#[trigger] cs[i]).1.len() <= u32::MAX
}

/// An error in rewriting a prefix of the chunks is the error of the whole.
proof fn lemma_rewrite_all_prefix_err(cs: Seq<(Seq<u8>, Seq<u8>)>, i: nat, ignore_unsafe_to_copy: bool, process_apng: bool)
    requires
        i <= cs.len(),
        rewrite_all(cs.subrange(0, i as int), ignore_unsafe_to_copy, process_apng) is Err,
    ensures
        rewrite_all(cs, ignore_unsafe_to_copy, process_apng) == rewrite_all(cs.subrange(0, i as int), ignore_unsafe_to_copy, process_apng),
    decreases cs.len() - i,
{
    if i < cs.len() {
        let next = cs.subrange(0, i + 1int);
        assert(next.drop_last() =~= cs.subrange(0, i as int));
        lemma_rewrite_all_prefix_err(cs, i + 1, ignore_unsafe_to_copy, process_apng);
    } else {
        assert(cs.subrange(0, i as int) =~= cs);
    }
}

/// What went wrong rewriting a PNG file.
pub enum PngFailure {
    Read(ReadFailure),
    Transform(RewriteFailure),
    ChunkTooLarge,
}

/// An error that can occur while rewriting a PNG file.
#[derive(Debug)]
pub enum RewriteError {
    /// The input is not a well-formed PNG file.
    Read(ReadError),
    /// A chunk could not be rewritten.
    Transform(Error),
    /// A rewritten payload is too long for a chunk's 32-bit length field.
    ChunkTooLarge,
}

impl RewriteError {
    pub open spec fn failure(&self) -> PngFailure {
        match self {
            RewriteError::Read(e) => PngFailure::Read(e.failure()),
            RewriteError::Transform(e) => PngFailure::Transform(e.failure()),
            RewriteError::ChunkTooLarge => PngFailure::ChunkTooLarge,
        }
    }
}

/// What rewriting the PNG file `d` gives: read the chunks, merge consecutive
/// IDAT chunks, rewrite each chunk, write the chunks out.
pub open spec fn rewrite_spec(d: Seq<u8>, ignore_unsafe_to_copy: bool, process_apng: bool) -> Result<Seq<u8>, PngFailure> {
    match read_spec(d) {
        Err(e) => Err(PngFailure::Read(e)),
        Ok(cs) => match rewrite_all(coalesce(cs), ignore_unsafe_to_copy, process_apng) {
            Err(e) => Err(PngFailure::Transform(e)),
            Ok(rs) => if lengths_fit(rs) {
                Ok(png_bytes(rs))
            } else {
                Err(PngFailure::ChunkTooLarge)
            },
        },
    }
}

/// Rewrites the PNG file `input` so that every compressed stream in it is
/// stored uncompressed.
pub fn rewrite_png(input: &[u8], ignore_unsafe_to_copy: bool, process_apng: bool) -> (r: Result<Vec<u8>, RewriteError>)
    ensures
        match rewrite_spec(input@, ignore_unsafe_to_copy, process_apng) {
            Ok(out) => r is Ok && r->Ok_0@ == out,
            Err(e) => r is Err && r->Err_0.failure() == e,
        },
{
    let chunks = match png::read(input) {
        Ok(c) => c,
        Err(e) => return Err(RewriteError::Read(e)),
    };
    let merged = concat_idats(&chunks);
    let ghost ms = chunks_view(merged@);
    let ghost cs = chunks_view(chunks@);
    let mut out: Vec<Chunk> = Vec::new();
    let mut i: usize = 0;
    assert(ms.subrange(0, 0) =~= Seq::<(Seq<u8>, Seq<u8>)>::empty());
    assert(chunks_view(out@) =~= Seq::<(Seq<u8>, Seq<u8>)>::empty());
    while i < merged.len()
        invariant
            i <= merged@.len(),
            ms == chunks_view(merged@),
            read_spec(input@) == Ok::<Seq<(Seq<u8>, Seq<u8>)>, ReadFailure>(cs),
            ms == coalesce(cs),
            rewrite_all(ms.subrange(0, i as int), ignore_unsafe_to_copy, process_apng) == Ok::<Seq<(Seq<u8>, Seq<u8>)>, RewriteFailure>(chunks_view(out@)),
        decreases merged@.len() - i,
    {
        assert(ms.subrange(0, i + 1).drop_last() =~= ms.subrange(0, i as int));
        let c = copy_chunk(&merged[i]);
        match deflate_chunks(c, ignore_unsafe_to_copy, process_apng) {
            Ok(nc) => {
                let ghost before = chunks_view(out@);
                out.push(nc);
                assert(chunks_view(out@) =~= before.push(nc@));
            },
            Err(e) => {
                proof {
                    lemma_rewrite_all_prefix_err(ms, (i + 1) as nat, ignore_unsafe_to_copy, process_apng);
                }
                return Err(RewriteError::Transform(e));
            },
        }
        i = i + 1;
    }
    assert(ms.subrange(0, i as int) =~= ms);
    let mut j: usize = 0;
    while j < out.len()
        invariant
            j <= out@.len(),
            read_spec(input@) == Ok::<Seq<(Seq<u8>, Seq<u8>)>, ReadFailure>(cs),
            ms == coalesce(cs),
            rewrite_all(ms, ignore_unsafe_to_copy, process_apng) == Ok::<Seq<(Seq<u8>, Seq<u8>)>, RewriteFailure>(chunks_view(out@)),
            forall|k: int| 0 <= k < j ==> (#[trigger] out@[k]).data@.len() <= u32::MAX,
        decreases out@.len() - j,
    {
        if out[j].data.len() > u32::MAX as usize {
            assert(chunks_view(out@)[j as int].1.len() > u32::MAX);
            return Err(RewriteError::ChunkTooLarge);
        }
        j = j + 1;
    }
    assert(lengths_fit(chunks_view(out@)));
    Ok(png::write(&out))
}

} // verus!

verus! {

// ---------------------------------------------------------------------------
// Laws

/// A chunk whose type holds no stream that the rewriter replaces, and that
/// is not refused, comes out byte for byte as it went in: same type, same
/// payload, same CRC.
pub proof fn lemma_pass_through(typ: Seq<u8>, data: Seq<u8>, ignore_unsafe_to_copy: bool, process_apng: bool)
    requires
        !is_compression_aware(typ, process_apng),
        rewrite_chunk_spec(typ, data, ignore_unsafe_to_copy, process_apng) is Ok,
    ensures
        rewrite_chunk_spec(typ, data, ignore_unsafe_to_copy, process_apng) == Ok::<Seq<u8>, RewriteFailure>(data),
        chunk_bytes((typ, rewrite_chunk_spec(typ, data, ignore_unsafe_to_copy, process_apng)->Ok_0)) == chunk_bytes((typ, data)),
{
}

proof fn lemma_recompress_fixed(v: Seq<u8>)
    requires
        recompress_spec(v) is Ok,
    ensures
        recompress_spec(recompress_spec(v)->Ok_0) == recompress_spec(v),
        v.len() > 0,
{
    reveal(recompress_spec);
    zlib::lemma_round_trip(zlib_inflate_spec(v)->Ok_0);
}

proof fn lemma_nul_from(s: Seq<u8>, i: int)
    requires
        0 <= i <= s.len(),
    ensures
        i <= nul_from(s, i) <= s.len(),
        forall|j: int| i <= j < nul_from(s, i) ==> s[j] != 0,
        nul_from(s, i) < s.len() ==> s[nul_from(s, i)] == 0,
    decreases s.len() - i,
{
    if i < s.len() && s[i] != 0 {
        lemma_nul_from(s, i + 1);
    }
}

/// The first zero at or after `i` is at `k` when none comes before it.
proof fn lemma_nul_at(s: Seq<u8>, i: int, k: int)
    requires
        0 <= i <= k <= s.len(),
        forall|j: int| i <= j < k ==> s[j] != 0,
        k == s.len() || s[k] == 0,
    ensures
        nul_from(s, i) == k,
    decreases k - i,
{
    if i < k {
        lemma_nul_at(s, i + 1, k);
    }
}

proof fn lemma_ztxt_fixed(d1: Seq<u8>)
    requires
        ztxt_rewrite(d1) is Ok,
    ensures
        ztxt_rewrite(ztxt_rewrite(d1)->Ok_0) == ztxt_rewrite(d1),
{
    let k = nul_from(d1, 0);
    lemma_nul_from(d1, 0);
    let v = d1.subrange(k + 2, d1.len() as int);
    lemma_recompress_fixed(v);
    let z = recompress_spec(v)->Ok_0;
    let d2 = d1.subrange(0, k) + seq![0u8, 0u8] + z;
    assert forall|j: int| 0 <= j < k implies d2[j] != 0 by {
        assert(d2[j] == d1[j]);
    }
    assert(d2[k] == 0);
    lemma_nul_at(d2, 0, k);
    assert(d2.subrange(k + 2, d2.len() as int) =~= z);
    assert(d2.subrange(0, k) =~= d1.subrange(0, k));
}

proof fn lemma_itxt_fixed(d1: Seq<u8>)
    requires
        itxt_rewrite(d1) is Ok,
    ensures
        itxt_rewrite(itxt_rewrite(d1)->Ok_0) == itxt_rewrite(d1),
{
    let k = nul_from(d1, 0);
    lemma_nul_from(d1, 0);
    if k + 1 < d1.len() && d1[k + 1] == 0 {
    } else {
        let l = nul_from(d1, k + 3);
        lemma_nul_from(d1, k + 3);
        let pl = past(d1, l);
        let t = nul_from(d1, pl);
        lemma_nul_from(d1, pl);
        let pt = past(d1, t);
        let v = d1.subrange(pt, d1.len() as int);
        lemma_recompress_fixed(v);
        let z = recompress_spec(v)->Ok_0;
        let key = d1.subrange(0, k);
        let lang = d1.subrange(k + 3, l);
        let tk = d1.subrange(pl, t);
        let d2 = key + seq![0u8, 1, 0] + lang + seq![0u8] + tk + seq![0u8] + z;
        assert(d2 == itxt_rewrite(d1)->Ok_0);
        let l2 = k + 3 + lang.len();
        let t2 = l2 + 1 + tk.len();
        assert forall|j: int| 0 <= j < k implies d2[j] != 0 by {
            assert(d2[j] == d1[j]);
        }
        assert(d2[k] == 0);
        lemma_nul_at(d2, 0, k);
        assert(d2[k + 1] == 1);
        assert(d2[k + 2] == 0);
        assert forall|j: int| k + 3 <= j < l2 implies d2[j] != 0 by {
            assert(d2[j] == d1[j]);
        }
        assert(d2[l2] == 0);
        lemma_nul_at(d2, k + 3, l2);
        assert(past(d2, l2) == l2 + 1);
        assert forall|j: int| l2 + 1 <= j < t2 implies d2[j] != 0 by {
            assert(d2[j] == d1[pl + (j - l2 - 1)]);
        }
        assert(d2[t2] == 0);
        lemma_nul_at(d2, l2 + 1, t2);
        assert(past(d2, t2) == t2 + 1);
        assert(d2.subrange(t2 + 1, d2.len() as int) =~= z);
        assert(d2.subrange(0, k) =~= key);
        assert(d2.subrange(k + 3, l2) =~= lang);
        assert(d2.subrange(l2 + 1, t2) =~= tk);
    }
}

proof fn lemma_fdat_fixed(d1: Seq<u8>)
    requires
        fdat_rewrite(d1) is Ok,
    ensures
        fdat_rewrite(fdat_rewrite(d1)->Ok_0) == fdat_rewrite(d1),
{
    let s = if d1.len() < 4 { d1.len() as int } else { 4 };
    let v = d1.subrange(s, d1.len() as int);
    lemma_recompress_fixed(v);
    let z = recompress_spec(v)->Ok_0;
    if d1.len() < 4 {
        assert(v.len() == 0);
    }
    let d2 = d1.subrange(0, 4) + z;
    assert(d2.subrange(0, 4) =~= d1.subrange(0, 4));
    assert(d2.subrange(4, d2.len() as int) =~= z);
}

/// Rewriting a rewritten chunk changes nothing.
proof fn lemma_chunk_fixed(typ: Seq<u8>, d1: Seq<u8>, ignore_unsafe_to_copy: bool, process_apng: bool)
    requires
        rewrite_chunk_spec(typ, d1, ignore_unsafe_to_copy, process_apng) is Ok,
    ensures
        ({
            let d2 = rewrite_chunk_spec(typ, d1, ignore_unsafe_to_copy, process_apng)->Ok_0;
            rewrite_chunk_spec(typ, d2, ignore_unsafe_to_copy, process_apng) == Ok::<Seq<u8>, RewriteFailure>(d2)
        }),
{
    if typ == ihdr() {
    } else if typ == idat() {
        lemma_recompress_fixed(d1);
    } else if typ == ztxt() || typ == iccp() {
        lemma_ztxt_fixed(d1);
    } else if typ == itxt() {
        lemma_itxt_fixed(d1);
    } else if plain_types().contains(typ) {
    } else if typ == actl() || typ == fctl() {
    } else if typ == fdat() {
        if process_apng {
            lemma_fdat_fixed(d1);
        }
    }
}

/// No two consecutive chunks are both IDAT.
pub open spec fn idats_apart(cs: Seq<(Seq<u8>, Seq<u8>)>) -> bool {
    forall|i: int| 0 <= i < cs.len() - 1 ==> !(#[trigger] cs[i].0 == idat() && cs[i + 1].0 == idat())
}

proof fn lemma_coalesce_apart(cs: Seq<(Seq<u8>, Seq<u8>)>)
    requires
        forall|i: int| 0 <= i < cs.len() ==> valid_typ(#[trigger] cs[i].0),
    ensures
        idats_apart(coalesce(cs)),
        forall|i: int| 0 <= i < coalesce(cs).len() ==> valid_typ(#[trigger] coalesce(cs)[i].0),
    decreases cs.len(),
{
    if cs.len() > 0 {
        let init = cs.drop_last();
        assert forall|i: int| 0 <= i < init.len() implies valid_typ(#[trigger] init[i].0) by {
            assert(init[i] == cs[i]);
        }
        lemma_coalesce_apart(init);
        let r = coalesce(init);
        let c = cs.last();
        assert(valid_typ(c.0));
        assert(valid_typ(idat())) by {
            assert(forall|i: int| 0 <= i < 4 ==> crate::png::is_letter(#[trigger] idat()[i]));
        }
        let out = coalesce(cs);
        if c.0 == idat() && r.len() > 0 && r.last().0 == idat() {
            assert(out == r.drop_last().push((idat(), r.last().1 + c.1)));
            assert forall|i: int| 0 <= i < out.len() - 1 implies !(#[trigger] out[i].0 == idat() && out[i + 1].0 == idat()) by {
                if i + 1 < out.len() - 1 {
                    assert(out[i] == r[i] && out[i + 1] == r[i + 1]);
                } else {
                    assert(out[i] == r[i]);
                    assert(r[r.len() - 2].0 == idat() ==> r[r.len() - 1].0 != idat());
                }
            }
            assert forall|i: int| 0 <= i < out.len() implies valid_typ(#[trigger] out[i].0) by {
                if i < out.len() - 1 {
                    assert(out[i] == r[i]);
                }
            }
        } else {
            assert(out == r.push(c));
            assert forall|i: int| 0 <= i < out.len() - 1 implies !(#[trigger] out[i].0 == idat() && out[i + 1].0 == idat()) by {
                assert(out[i] == r[i]);
                if i + 1 < out.len() - 1 {
                    assert(out[i + 1] == r[i + 1]);
                }
            }
            assert forall|i: int| 0 <= i < out.len() implies valid_typ(#[trigger] out[i].0) by {
                if i < out.len() - 1 {
                    assert(out[i] == r[i]);
                }
            }
        }
    }
}

proof fn lemma_coalesce_fixed(cs: Seq<(Seq<u8>, Seq<u8>)>)
    requires
        idats_apart(cs),
    ensures
        coalesce(cs) == cs,
    decreases cs.len(),
{
    if cs.len() > 0 {
        let init = cs.drop_last();
        assert(idats_apart(init)) by {
            assert forall|i: int| 0 <= i < init.len() - 1 implies !(#[trigger] init[i].0 == idat() && init[i + 1].0 == idat()) by {
                assert(init[i] == cs[i] && init[i + 1] == cs[i + 1]);
            }
        }
        lemma_coalesce_fixed(init);
        if init.len() > 0 {
            assert(init.last() == cs[cs.len() - 2]);
        }
        assert(init.push(cs.last()) =~= cs);
    } else {
        assert(cs =~= Seq::<(Seq<u8>, Seq<u8>)>::empty());
    }
}

proof fn lemma_rewrite_all_ok(cs: Seq<(Seq<u8>, Seq<u8>)>, ignore_unsafe_to_copy: bool, process_apng: bool)
    requires
        rewrite_all(cs, ignore_unsafe_to_copy, process_apng) is Ok,
    ensures
        ({
            let rs = rewrite_all(cs, ignore_unsafe_to_copy, process_apng)->Ok_0;
            &&& rs.len() == cs.len()
            &&& forall|i: int| 0 <= i < cs.len() ==> (#[trigger] rs[i]).0 == cs[i].0
                && rewrite_chunk_spec(cs[i].0, cs[i].1, ignore_unsafe_to_copy, process_apng)
                    == Ok::<Seq<u8>, RewriteFailure>(rs[i].1)
        }),
    decreases cs.len(),
{
    if cs.len() > 0 {
        lemma_rewrite_all_ok(cs.drop_last(), ignore_unsafe_to_copy, process_apng);
        let rs = rewrite_all(cs, ignore_unsafe_to_copy, process_apng)->Ok_0;
        let init = rewrite_all(cs.drop_last(), ignore_unsafe_to_copy, process_apng)->Ok_0;
        assert forall|i: int| 0 <= i < cs.len() implies (#[trigger] rs[i]).0 == cs[i].0
            && rewrite_chunk_spec(cs[i].0, cs[i].1, ignore_unsafe_to_copy, process_apng)
                == Ok::<Seq<u8>, RewriteFailure>(rs[i].1) by {
            if i < cs.len() - 1 {
                assert(rs[i] == init[i]);
                assert(cs.drop_last()[i] == cs[i]);
            }
        }
    }
}

proof fn lemma_rewrite_all_fixed(rs: Seq<(Seq<u8>, Seq<u8>)>, ignore_unsafe_to_copy: bool, process_apng: bool)
    requires
        forall|i: int| 0 <= i < rs.len() ==> rewrite_chunk_spec((#[trigger] rs[i]).0, rs[i].1, ignore_unsafe_to_copy, process_apng)
            == Ok::<Seq<u8>, RewriteFailure>(rs[i].1),
    ensures
        rewrite_all(rs, ignore_unsafe_to_copy, process_apng) == Ok::<Seq<(Seq<u8>, Seq<u8>)>, RewriteFailure>(rs),
    decreases rs.len(),
{
    if rs.len() > 0 {
        let init = rs.drop_last();
        assert forall|i: int| 0 <= i < init.len() implies rewrite_chunk_spec((#[trigger] init[i]).0, init[i].1, ignore_unsafe_to_copy, process_apng)
            == Ok::<Seq<u8>, RewriteFailure>(init[i].1) by {
            assert(init[i] == rs[i]);
        }
        lemma_rewrite_all_fixed(init, ignore_unsafe_to_copy, process_apng);
        assert(rs[rs.len() - 1] == rs.last());
        assert(init.push((rs.last().0, rs.last().1)) =~= rs);
    } else {
        assert(rs =~= Seq::<(Seq<u8>, Seq<u8>)>::empty());
    }
}

/// Rewriting a rewritten file gives the same bytes again.
pub proof fn lemma_rewrite_idempotent(d: Seq<u8>, ignore_unsafe_to_copy: bool, process_apng: bool)
    requires
        rewrite_spec(d, ignore_unsafe_to_copy, process_apng) is Ok,
    ensures
        rewrite_spec(rewrite_spec(d, ignore_unsafe_to_copy, process_apng)->Ok_0, ignore_unsafe_to_copy, process_apng)
            == rewrite_spec(d, ignore_unsafe_to_copy, process_apng),
{
    let cs = read_spec(d)->Ok_0;
    crate::png::lemma_read_valid(d);
    let ms = coalesce(cs);
    lemma_coalesce_apart(cs);
    let rs = rewrite_all(ms, ignore_unsafe_to_copy, process_apng)->Ok_0;
    lemma_rewrite_all_ok(ms, ignore_unsafe_to_copy, process_apng);
    assert(writable(rs)) by {
        assert forall|i: int| 0 <= i < rs.len() implies valid_typ(#[trigger] rs[i].0) && rs[i].1.len() <= u32::MAX by {
            assert(rs[i].0 == ms[i].0);
        }
    }
    crate::png::lemma_write_then_read(rs);
    assert(idats_apart(rs)) by {
        assert forall|i: int| 0 <= i < rs.len() - 1 implies !(#[trigger] rs[i].0 == idat() && rs[i + 1].0 == idat()) by {
            assert(rs[i].0 == ms[i].0 && rs[i + 1].0 == ms[i + 1].0);
        }
    }
    lemma_coalesce_fixed(rs);
    assert forall|i: int| 0 <= i < rs.len() implies rewrite_chunk_spec((#[trigger] rs[i]).0, rs[i].1, ignore_unsafe_to_copy, process_apng)
        == Ok::<Seq<u8>, RewriteFailure>(rs[i].1) by {
        lemma_chunk_fixed(ms[i].0, ms[i].1, ignore_unsafe_to_copy, process_apng);
    }
    lemma_rewrite_all_fixed(rs, ignore_unsafe_to_copy, process_apng);
}

} // verus!

verus! {

/// A file that cannot be read (bad magic, bad chunk type, bad CRC, truncated)
/// or whose chunks cannot all be rewritten (a bad ZLIB header or checksum, a
/// malformed DEFLATE stream, an unsupported or unsafe chunk) gives an error,
/// and so no output.
pub proof fn lemma_bad_input_rejected(d: Seq<u8>, ignore_unsafe_to_copy: bool, process_apng: bool)
    requires
        read_spec(d) is Err
            || rewrite_all(coalesce(read_spec(d)->Ok_0), ignore_unsafe_to_copy, process_apng) is Err,
    ensures
        rewrite_spec(d, ignore_unsafe_to_copy, process_apng) is Err,
{
}

} // verus!
