//! PNG chunk framing: the magic header, and chunks of a length, a type, a
//! payload and a CRC-32.
use vstd::prelude::*;
use crate::zlib::{be32_at, be32_bytes, lemma_be32_round_trip};

verus! {

/// The PNG magic header.
pub open spec fn magic() -> Seq<u8> {
    seq![137u8, 80, 78, 71, 13, 10, 26, 10]
}

/// A chunk type byte is an ASCII letter.
pub open spec fn is_letter(c: u8) -> bool {
    (0x41 <= c && c <= 0x5A) || (0x61 <= c && c <= 0x7A)
}

/// A chunk type is four ASCII letters.
pub open spec fn valid_typ(t: Seq<u8>) -> bool {
    t.len() == 4 && forall|i: int| 0 <= i < 4 ==> is_letter(#[trigger] t[i])
}

// ---------------------------------------------------------------------------
// CRC-32 (IEEE polynomial, reflected)

/// One shift of the CRC register.
pub open spec fn crc_shift(c: u32) -> u32 {
    if c & 1 != 0 { 0xedb8_8320u32 ^ (c >> 1) } else { c >> 1 }
}

pub open spec fn crc_shifts(c: u32, k: nat) -> u32
    decreases k,
{
    if k == 0 { c } else { crc_shift(crc_shifts(c, (k - 1) as nat)) }
}

/// The CRC register after one more byte.
pub open spec fn crc_update(c: u32, b: u8) -> u32 {
    crc_shifts(c ^ (b as u32), 8)
}

/// The CRC register after the bytes of `s`, starting from all ones.
pub open spec fn crc_register(s: Seq<u8>) -> u32
    decreases s.len(),
{
    if s.len() == 0 { 0xffff_ffffu32 } else { crc_update(crc_register(s.drop_last()), s.last()) }
}

/// The CRC-32 of `s`: the register, with all bits inverted.
pub open spec fn crc32_spec(s: Seq<u8>) -> u32 {
    crc_register(s) ^ 0xffff_ffffu32
}

/// Feeds one byte to the CRC register.
fn update_crc(crc: u32, message: u8) -> (r: u32)
    ensures
        r == crc_update(crc, message),
{
    let mut c = crc ^ (message as u32);
    let mut k: u8 = 0;
    while k < 8
        invariant
            k <= 8,
            c == crc_shifts(crc ^ (message as u32), k as nat),
        decreases 8 - k,
    {
        c = if c & 1 != 0 { 0xedb8_8320u32 ^ (c >> 1) } else { c >> 1 };
        k = k + 1;
    }
    c
}

/// Computes the CRC-32 of `buffer`.
pub fn calculate_crc(buffer: &[u8]) -> (r: u32)
    ensures
        r == crc32_spec(buffer@),
{
    let mut c: u32 = 0xffff_ffff;
    let mut i: usize = 0;
    while i < buffer.len()
        invariant
            i <= buffer@.len(),
            c == crc_register(buffer@.subrange(0, i as int)),
        decreases buffer@.len() - i,
    {
        assert(buffer@.subrange(0, i + 1).drop_last() =~= buffer@.subrange(0, i as int));
        c = update_crc(c, buffer[i]);
        i = i + 1;
    }
    assert(buffer@.subrange(0, i as int) =~= buffer@);
    c ^ 0xffff_ffff
}

// ---------------------------------------------------------------------------
// Chunks

/// A PNG chunk.
#[derive(Clone, PartialEq, Eq, Debug)]
pub struct Chunk {
    pub typ: [u8; 4],
    pub data: Vec<u8>,
}

impl View for Chunk {
    type V = (Seq<u8>, Seq<u8>);

    open spec fn view(&self) -> (Seq<u8>, Seq<u8>) {
        (self.typ@, self.data@)
    }
}

/// The chunks of a sequence, as (type, payload) pairs.
pub open spec fn chunks_view(v: Seq<Chunk>) -> Seq<(Seq<u8>, Seq<u8>)> {
    Seq::new(v.len(), |i: int| v[i]@)
}

/// What went wrong reading a PNG file, with the byte sequences it names.
pub enum ReadFailure {
    UnexpectedEof,
    InvalidTyp(Seq<u8>),
    CrcMismatch(u32, u32),
    MagicMismatch(Seq<u8>),
}

/// An error that can occur when decoding a PNG chunk.
#[derive(Debug)]
pub enum ChunkReadError {
    /// The input ended inside the chunk.
    UnexpectedEof,
    /// The chunk's type is invalid (a byte was outside the range `A-Za-z`).
    InvalidTyp([u8; 4]),
    /// The calculated CRC did not match the given CRC.
    CrcMismatch { stated: u32, calculated: u32 },
}

impl ChunkReadError {
    pub open spec fn failure(&self) -> ReadFailure {
        match self {
            ChunkReadError::UnexpectedEof => ReadFailure::UnexpectedEof,
            ChunkReadError::InvalidTyp(t) => ReadFailure::InvalidTyp(t@),
            ChunkReadError::CrcMismatch { stated, calculated } => ReadFailure::CrcMismatch(*stated, *calculated),
        }
    }
}

/// An error that can occur when decoding a PNG file.
#[derive(Debug)]
pub enum ReadError {
    /// The input ended inside the magic header or inside a chunk.
    UnexpectedEof,
    /// A chunk's type is invalid (a byte was outside the range `A-Za-z`).
    InvalidTyp([u8; 4]),
    /// The calculated CRC did not match the given CRC.
    CrcMismatch { stated: u32, calculated: u32 },
    /// The given magic header didn't match the expected PNG header.
    MagicMismatch([u8; 8]),
}

impl ReadError {
    pub open spec fn failure(&self) -> ReadFailure {
        match self {
            ReadError::UnexpectedEof => ReadFailure::UnexpectedEof,
            ReadError::InvalidTyp(t) => ReadFailure::InvalidTyp(t@),
            ReadError::CrcMismatch { stated, calculated } => ReadFailure::CrcMismatch(*stated, *calculated),
            ReadError::MagicMismatch(m) => ReadFailure::MagicMismatch(m@),
        }
    }

    /// The file-level error for a chunk-level one.
    pub fn from_chunk_error(src: ChunkReadError) -> (r: ReadError)
        ensures
            r.failure() == src.failure(),
    {
        match src {
            ChunkReadError::UnexpectedEof => ReadError::UnexpectedEof,
            ChunkReadError::InvalidTyp(x) => ReadError::InvalidTyp(x),
            ChunkReadError::CrcMismatch { stated, calculated } => ReadError::CrcMismatch { stated, calculated },
        }
    }
}

/// Reading one chunk at byte `p` of `d`: `None` at the very end of the
/// input, else the chunk's type and payload and the position after it.
pub open spec fn read_chunk_spec(d: Seq<u8>, p: int) -> Result<Option<((Seq<u8>, Seq<u8>), int)>, ReadFailure> {
    if p >= d.len() {
        Ok(None)
    } else if p + 8 > d.len() {
        Err(ReadFailure::UnexpectedEof)
    } else if !valid_typ(d.subrange(p + 4, p + 8)) {
        Err(ReadFailure::InvalidTyp(d.subrange(p + 4, p + 8)))
    } else if p + 12 + be32_at(d, p) > d.len() {
        Err(ReadFailure::UnexpectedEof)
    } else {
        let len = be32_at(d, p);
        let typ = d.subrange(p + 4, p + 8);
        let data = d.subrange(p + 8, p + 8 + len);
        let stated = be32_at(d, p + 8 + len);
        if stated != crc32_spec(typ + data) {
            Err(ReadFailure::CrcMismatch(stated as u32, crc32_spec(typ + data)))
        } else {
            Ok(Some(((typ, data), p + 12 + len)))
        }
    }
}

/// Reading chunks from byte `p` of `d` until the input ends.
pub open spec fn read_chunks_spec(d: Seq<u8>, p: int) -> Result<Seq<(Seq<u8>, Seq<u8>)>, ReadFailure>
    decreases d.len() - p,
{
    match read_chunk_spec(d, p) {
        Err(e) => Err(e),
        Ok(None) => Ok(Seq::empty()),
        Ok(Some((c, p1))) => if p < p1 <= d.len() {
            match read_chunks_spec(d, p1) {
                Ok(rest) => Ok(seq![c] + rest),
                Err(e) => Err(e),
            }
        } else {
            Err(ReadFailure::UnexpectedEof)
        },
    }
}

/// Reading a PNG file: the magic header, then chunks until the input ends.
pub open spec fn read_spec(d: Seq<u8>) -> Result<Seq<(Seq<u8>, Seq<u8>)>, ReadFailure> {
    if d.len() < 8 {
        Err(ReadFailure::UnexpectedEof)
    } else if d.subrange(0, 8) != magic() {
        Err(ReadFailure::MagicMismatch(d.subrange(0, 8)))
    } else {
        read_chunks_spec(d, 8)
    }
}

/// The bytes of one chunk: length, type, payload, CRC-32 of type and payload.
pub open spec fn chunk_bytes(c: (Seq<u8>, Seq<u8>)) -> Seq<u8> {
    be32_bytes(c.1.len()) + c.0 + c.1 + be32_bytes(crc32_spec(c.0 + c.1) as nat)
}

pub open spec fn chunks_bytes(cs: Seq<(Seq<u8>, Seq<u8>)>) -> Seq<u8>
    decreases cs.len(),
{
    if cs.len() == 0 { Seq::empty() } else { chunks_bytes(cs.drop_last()) + chunk_bytes(cs.last()) }
}

/// The bytes of a PNG file made of the chunks `cs`.
pub open spec fn png_bytes(cs: Seq<(Seq<u8>, Seq<u8>)>) -> Seq<u8> {
    magic() + chunks_bytes(cs)
}

/// Appends the four big-endian bytes of `x`.
fn push_be32(out: &mut Vec<u8>, x: u32)
    ensures
        final(out)@ == old(out)@ + be32_bytes(x as nat),
{
    out.push((x / 16777216 % 256) as u8);
    out.push((x / 65536 % 256) as u8);
    out.push((x / 256 % 256) as u8);
    out.push((x % 256) as u8);
    assert(final(out)@ =~= old(out)@ + be32_bytes(x as nat));
}

/// Appends all of `b`.
fn push_all(out: &mut Vec<u8>, b: &[u8])
    ensures
        final(out)@ == old(out)@ + b@,
{
    let mut i: usize = 0;
    while i < b.len()
        invariant
            i <= b@.len(),
            out@ == old(out)@ + b@.subrange(0, i as int),
        decreases b@.len() - i,
    {
        out.push(b[i]);
        i = i + 1;
        assert(out@ =~= old(out)@ + b@.subrange(0, i as int));
    }
    assert(b@.subrange(0, i as int) =~= b@);
}

/// The big-endian number in `b[p..p+4]`.
fn be32_from(b: &[u8], p: usize) -> (r: u32)
    requires
        p + 4 <= b@.len(),
    ensures
        r as nat == be32_at(b@, p as int),
{
    (b[p] as u32) * 16777216 + (b[p + 1] as u32) * 65536 + (b[p + 2] as u32) * 256 + (b[p + 3] as u32)
}

impl Chunk {
    /// Reads the chunk that starts at byte `p` of `input`: `None` if `p` is the
    /// end of the input, else the chunk and the position after it.
    pub fn read_at(input: &[u8], p: usize) -> (r: Result<Option<(Chunk, usize)>, ChunkReadError>)
        requires
            p <= input@.len(),
        ensures
            match read_chunk_spec(input@, p as int) {
                Ok(None) => r matches Ok(None),
                Ok(Some((c, p1))) => r matches Ok(Some((ch, q))) && ch@ == c && q == p1,
                Err(e) => r is Err && r->Err_0.failure() == e,
            },
    {
        let n = input.len();
        if p >= n {
            return Ok(None);
        }
        if n - p < 8 {
            return Err(ChunkReadError::UnexpectedEof);
        }
        let typ: [u8; 4] = [input[p + 4], input[p + 5], input[p + 6], input[p + 7]];
        assert(typ@ =~= input@.subrange(p + 4, p + 8));
        let mut i: usize = 0;
        while i < 4
            invariant
                i <= 4,
                p < p + 8 <= input@.len(),
                typ@ == input@.subrange(p + 4, p + 8),
                forall|j: int| 0 <= j < i ==> is_letter(#[trigger] typ@[j]),
            decreases 4 - i,
        {
            let c = typ[i];
            if !((0x41 <= c && c <= 0x5A) || (0x61 <= c && c <= 0x7A)) {
                assert(!is_letter(typ@[i as int]));
                return Err(ChunkReadError::InvalidTyp(typ));
            }
            i = i + 1;
        }
        let len = be32_from(input, p);
        if (n - p - 8) < 4 || (n - p - 12) < len as usize {
            return Err(ChunkReadError::UnexpectedEof);
        }
        let start = p + 8;
        let end = start + len as usize;
        let mut data: Vec<u8> = Vec::new();
        let mut k = start;
        while k < end
            invariant
                start <= k <= end <= input@.len(),
                data@ == input@.subrange(start as int, k as int),
            decreases end - k,
        {
            data.push(input[k]);
            k = k + 1;
            assert(data@ =~= input@.subrange(start as int, k as int));
        }
        let stated = be32_from(input, end);
        let mut both: Vec<u8> = Vec::new();
        push_all(&mut both, typ.as_slice());
        push_all(&mut both, data.as_slice());
        let calculated = calculate_crc(both.as_slice());
        if stated != calculated {
            return Err(ChunkReadError::CrcMismatch { stated, calculated });
        }
        Ok(Some((Chunk { typ, data }, end + 4)))
    }

    /// Reads the chunk at the start of `input`: `None` if `input` is empty,
    /// else the chunk and the number of bytes it took.
    pub fn read(input: &[u8]) -> (r: Result<Option<(Chunk, usize)>, ChunkReadError>)
        ensures
            match read_chunk_spec(input@, 0) {
                Ok(None) => r matches Ok(None),
                Ok(Some((c, p1))) => r matches Ok(Some((ch, q))) && ch@ == c && q == p1,
                Err(e) => r is Err && r->Err_0.failure() == e,
            },
    {
        Chunk::read_at(input, 0)
    }

    /// Appends the chunk's bytes to `out`.
    pub fn write(&self, out: &mut Vec<u8>)
        requires
            self.data@.len() <= u32::MAX,
        ensures
            final(out)@ == old(out)@ + chunk_bytes(self@),
    {
        push_be32(out, self.data.len() as u32);
        push_all(out, self.typ.as_slice());
        push_all(out, self.data.as_slice());
        let mut both: Vec<u8> = Vec::new();
        push_all(&mut both, self.typ.as_slice());
        push_all(&mut both, self.data.as_slice());
        push_be32(out, calculate_crc(both.as_slice()));
        assert(final(out)@ =~= old(out)@ + chunk_bytes(self@));
    }

    /// Whether the chunk may be copied by an editor that does not know its
    /// type: bit 5 of the type's fourth byte is set.
    pub fn safe_to_copy(&self) -> (r: bool)
        ensures
            r == (self.typ@[3] & 0x20 != 0),
    {
        0 != (self.typ[3] & 0x20)
    }
}

/// Reads a PNG file: the magic header, then chunks until the input ends.
pub fn read(file: &[u8]) -> (r: Result<Vec<Chunk>, ReadError>)
    ensures
        match read_spec(file@) {
            Ok(cs) => r is Ok && chunks_view(r->Ok_0@) == cs,
            Err(e) => r is Err && r->Err_0.failure() == e,
        },
{
    let n = file.len();
    if n < 8 {
        return Err(ReadError::UnexpectedEof);
    }
    let m: [u8; 8] = [file[0], file[1], file[2], file[3], file[4], file[5], file[6], file[7]];
    assert(m@ =~= file@.subrange(0, 8));
    if !(m[0] == 137 && m[1] == 80 && m[2] == 78 && m[3] == 71 && m[4] == 13 && m[5] == 10 && m[6] == 26 && m[7] == 10) {
        assert(m@ != magic()) by {
            if m@ == magic() {
                assert(m@[0] == magic()[0] && m@[1] == magic()[1] && m@[2] == magic()[2] && m@[3] == magic()[3]);
                assert(m@[4] == magic()[4] && m@[5] == magic()[5] && m@[6] == magic()[6] && m@[7] == magic()[7]);
            }
        }
        return Err(ReadError::MagicMismatch(m));
    }
    assert(m@ =~= magic());
    let mut chunks: Vec<Chunk> = Vec::new();
    let mut p: usize = 8;
    loop
        invariant
            8 <= p <= n == file@.len(),
            read_spec(file@) == prepend(chunks_view(chunks@), read_chunks_spec(file@, p as int)),
        decreases n - p,
    {
        match Chunk::read_at(file, p) {
            Ok(Some((c, q))) => {
                proof {
                    lemma_prepend_push(chunks_view(chunks@), c@, read_chunks_spec(file@, q as int));
                }
                let ghost before = chunks@;
                chunks.push(c);
                assert(chunks_view(chunks@) =~= chunks_view(before).push(c@));
                p = q;
            },
            Ok(None) => {
                assert(chunks_view(chunks@) + Seq::empty() =~= chunks_view(chunks@));
                return Ok(chunks);
            },
            Err(e) => {
                return Err(ReadError::from_chunk_error(e));
            },
        }
    }
}

/// `acc` followed by what `r` read, or the error of `r`.
pub open spec fn prepend(acc: Seq<(Seq<u8>, Seq<u8>)>, r: Result<Seq<(Seq<u8>, Seq<u8>)>, ReadFailure>) -> Result<Seq<(Seq<u8>, Seq<u8>)>, ReadFailure> {
    match r {
        Ok(v) => Ok(acc + v),
        Err(e) => Err(e),
    }
}

proof fn lemma_prepend_push(acc: Seq<(Seq<u8>, Seq<u8>)>, c: (Seq<u8>, Seq<u8>), r: Result<Seq<(Seq<u8>, Seq<u8>)>, ReadFailure>)
    ensures
        prepend(acc, match r { Ok(rest) => Ok(seq![c] + rest), Err(e) => Err(e) }) == prepend(acc.push(c), r),
{
    match r {
        Ok(rest) => {
            assert(acc + (seq![c] + rest) =~= acc.push(c) + rest);
        },
        Err(e) => {},
    }
}

/// Writes a PNG file made of `chunks`.
pub fn write(chunks: &Vec<Chunk>) -> (r: Vec<u8>)
    requires
        forall|i: int| 0 <= i < chunks@.len() ==> (#[trigger] chunks@[i]).data@.len() <= u32::MAX,
    ensures
        r@ == png_bytes(chunks_view(chunks@)),
{
    let mut out: Vec<u8> = Vec::new();
    out.push(137);
    out.push(80);
    out.push(78);
    out.push(71);
    out.push(13);
    out.push(10);
    out.push(26);
    out.push(10);
    assert(out@ =~= magic());
    let mut i: usize = 0;
    while i < chunks.len()
        invariant
            i <= chunks@.len(),
            forall|j: int| 0 <= j < chunks@.len() ==> (#[trigger] chunks@[j]).data@.len() <= u32::MAX,
            out@ == png_bytes(chunks_view(chunks@.subrange(0, i as int))),
        decreases chunks@.len() - i,
    {
        chunks[i].write(&mut out);
        i = i + 1;
        assert(chunks_view(chunks@.subrange(0, i as int)).drop_last() =~= chunks_view(chunks@.subrange(0, i - 1)));
        assert(out@ =~= png_bytes(chunks_view(chunks@.subrange(0, i as int))));
    }
    assert(chunks@.subrange(0, i as int) =~= chunks@);
    out
}

} // verus!

verus! {

/// Every chunk that a successful read gives has a valid type.
pub proof fn lemma_read_chunks_valid(d: Seq<u8>, p: int)
    requires
        read_chunks_spec(d, p) is Ok,
    ensures
        forall|i: int| 0 <= i < read_chunks_spec(d, p)->Ok_0.len() ==> valid_typ(#[trigger] read_chunks_spec(d, p)->Ok_0[i].0),
    decreases d.len() - p,
{
    match read_chunk_spec(d, p) {
        Ok(Some((c, p1))) => {
            if p < p1 <= d.len() {
                lemma_read_chunks_valid(d, p1);
                let rest = read_chunks_spec(d, p1)->Ok_0;
                let all = read_chunks_spec(d, p)->Ok_0;
                assert(all == seq![c] + rest);
                assert forall|i: int| 0 <= i < all.len() implies valid_typ(#[trigger] all[i].0) by {
                    if i > 0 {
                        assert(all[i] == rest[i - 1]);
                    }
                }
            }
        },
        _ => {},
    }
}

pub proof fn lemma_read_valid(d: Seq<u8>)
    requires
        read_spec(d) is Ok,
    ensures
        forall|i: int| 0 <= i < read_spec(d)->Ok_0.len() ==> valid_typ(#[trigger] read_spec(d)->Ok_0[i].0),
{
    lemma_read_chunks_valid(d, 8);
}

/// The chunks can be written out front first.
proof fn lemma_chunks_bytes_front(cs: Seq<(Seq<u8>, Seq<u8>)>)
    requires
        cs.len() > 0,
    ensures
        chunks_bytes(cs) == chunk_bytes(cs[0]) + chunks_bytes(cs.drop_first()),
    decreases cs.len(),
{
    if cs.len() == 1 {
        assert(cs.drop_last() =~= Seq::<(Seq<u8>, Seq<u8>)>::empty());
        assert(cs.drop_first() =~= Seq::<(Seq<u8>, Seq<u8>)>::empty());
        assert(chunk_bytes(cs[0]) + Seq::<u8>::empty() =~= chunk_bytes(cs[0]));
        assert(Seq::<u8>::empty() + chunk_bytes(cs[0]) =~= chunk_bytes(cs[0]));
    } else {
        lemma_chunks_bytes_front(cs.drop_last());
        assert(cs.drop_last().drop_first() =~= cs.drop_first().drop_last());
        assert(cs.drop_last()[0] == cs[0]);
        assert(cs.drop_first().last() == cs.last());
        assert(chunks_bytes(cs) =~= chunk_bytes(cs[0]) + chunks_bytes(cs.drop_first()));
    }
}

/// Chunk types valid and payload lengths within 32 bits: what writing needs
/// for reading to give the chunks back.
pub open spec fn writable(cs: Seq<(Seq<u8>, Seq<u8>)>) -> bool {
    forall|i: int| 0 <= i < cs.len() ==> valid_typ(#[trigger] cs[i].0) && cs[i].1.len() <= u32::MAX
}

proof fn lemma_read_chunk_of_bytes(d: Seq<u8>, p: int, c: (Seq<u8>, Seq<u8>))
    requires
        0 <= p,
        valid_typ(c.0),
        c.1.len() <= u32::MAX,
        p + chunk_bytes(c).len() <= d.len(),
        d.subrange(p, p + chunk_bytes(c).len()) == chunk_bytes(c),
    ensures
        read_chunk_spec(d, p) == Ok::<Option<((Seq<u8>, Seq<u8>), int)>, ReadFailure>(Some((c, p + chunk_bytes(c).len()))),
{
    let cb = chunk_bytes(c);
    let n = c.1.len();
    let crc = crc32_spec(c.0 + c.1);
    assert(cb.len() == 12 + n);
    assert(d.subrange(p, p + 4) =~= be32_bytes(n)) by {
        assert forall|j: int| 0 <= j < 4 implies d.subrange(p, p + 4)[j] == be32_bytes(n)[j] by {
            assert(d.subrange(p, p + cb.len())[j] == cb[j]);
        }
    }
    lemma_be32_round_trip(d, p, n);
    assert(d.subrange(p + 4, p + 8) =~= c.0) by {
        assert forall|j: int| 0 <= j < 4 implies d.subrange(p + 4, p + 8)[j] == c.0[j] by {
            assert(d.subrange(p, p + cb.len())[4 + j] == cb[4 + j]);
        }
    }
    assert(d.subrange(p + 8, p + 8 + n) =~= c.1) by {
        assert forall|j: int| 0 <= j < n implies d.subrange(p + 8, p + 8 + n)[j] == c.1[j] by {
            assert(d.subrange(p, p + cb.len())[8 + j] == cb[8 + j]);
        }
    }
    assert(d.subrange(p + 8 + n, p + 12 + n) =~= be32_bytes(crc as nat)) by {
        assert forall|j: int| 0 <= j < 4 implies d.subrange(p + 8 + n, p + 12 + n)[j] == be32_bytes(crc as nat)[j] by {
            assert(d.subrange(p, p + cb.len())[8 + n + j] == cb[8 + n + j]);
        }
    }
    lemma_be32_round_trip(d, p + 8 + n, crc as nat);
}

proof fn lemma_read_chunks_of_bytes(d: Seq<u8>, p: int, cs: Seq<(Seq<u8>, Seq<u8>)>)
    requires
        0 <= p <= d.len(),
        writable(cs),
        d.subrange(p, d.len() as int) == chunks_bytes(cs),
    ensures
        read_chunks_spec(d, p) == Ok::<Seq<(Seq<u8>, Seq<u8>)>, ReadFailure>(cs),
    decreases cs.len(),
{
    if cs.len() == 0 {
        assert(d.subrange(p, d.len() as int).len() == 0);
        assert(cs =~= Seq::<(Seq<u8>, Seq<u8>)>::empty());
    } else {
        lemma_chunks_bytes_front(cs);
        let c = cs[0];
        let cb = chunk_bytes(c);
        let p1 = p + cb.len();
        let rest = cs.drop_first();
        assert(valid_typ(cs[0].0) && cs[0].1.len() <= u32::MAX);
        assert(chunks_bytes(cs).len() == d.len() - p);
        assert(chunks_bytes(cs) == cb + chunks_bytes(rest));
        assert(p1 <= d.len());
        assert(d.subrange(p, p1) =~= cb) by {
            assert forall|j: int| 0 <= j < cb.len() implies d.subrange(p, p1)[j] == cb[j] by {
                assert(d.subrange(p, d.len() as int)[j] == chunks_bytes(cs)[j]);
            }
        }
        lemma_read_chunk_of_bytes(d, p, c);
        assert(d.subrange(p1, d.len() as int) =~= chunks_bytes(rest)) by {
            assert forall|j: int| 0 <= j < chunks_bytes(rest).len() implies d.subrange(p1, d.len() as int)[j] == chunks_bytes(rest)[j] by {
                assert(d.subrange(p, d.len() as int)[cb.len() + j] == chunks_bytes(cs)[cb.len() + j]);
            }
        }
        assert(writable(rest)) by {
            assert forall|i: int| 0 <= i < rest.len() implies valid_typ(#[trigger] rest[i].0) && rest[i].1.len() <= u32::MAX by {
                assert(rest[i] == cs[i + 1]);
            }
        }
        lemma_read_chunks_of_bytes(d, p1, rest);
        assert(seq![c] + rest =~= cs);
    }
}

/// Reading what `write` made of chunks with valid types gives the chunks back.
pub proof fn lemma_write_then_read(cs: Seq<(Seq<u8>, Seq<u8>)>)
    requires
        writable(cs),
    ensures
        read_spec(png_bytes(cs)) == Ok::<Seq<(Seq<u8>, Seq<u8>)>, ReadFailure>(cs),
{
    let d = png_bytes(cs);
    assert(d.subrange(0, 8) =~= magic());
    assert(d.subrange(8, d.len() as int) =~= chunks_bytes(cs));
    lemma_read_chunks_of_bytes(d, 8, cs);
}

} // verus!
