//! DEFLATE (RFC 1951): a decoder for all three block types, and an encoder
//! that emits stored blocks only.
use vstd::prelude::*;
use vstd::arithmetic::power2::{pow2, lemma2_to64, lemma_pow2_pos, lemma_pow2_adds,
    lemma_pow2_strictly_increases};
use crate::u4mod::u4;
use crate::bits::{Bits, bit_at, msb_bits, lsb_bits, align_up, lemma_msb_bound, lemma_lsb_bound, lemma_align_facts};

verus! {

/// An error that can occur while inflating a stream.
#[derive(Copy, Clone, PartialEq, Eq, Debug, Structural)]
pub enum InflateError {
    /// The input ended inside the stream.
    UnexpectedEof,
    /// A stored block's length and its complement disagree.
    NonCompressedLengthInvalid,
    /// A block has the reserved type 3.
    InvalidBtype,
    /// The bits match no code of the table in use, or the code stands for no
    /// valid symbol.
    InvalidCode,
    /// A back reference reaches before the start of the output.
    InvalidDistance,
    /// The code lengths repeat a previous length where there is none.
    InvalidCodeLengths,
}

// ---------------------------------------------------------------------------
// Canonical Huffman codes

/// The symbols among the first `n` code lengths whose length is `k`, as
/// (length, symbol) pairs in symbol order.
pub open spec fn symbols_of_length(lens: Seq<nat>, k: nat, n: nat) -> Seq<(nat, nat)>
    decreases n,
{
    if n == 0 || n > lens.len() {
        Seq::empty()
    } else {
        let s = symbols_of_length(lens, k, (n - 1) as nat);
        if lens[n - 1] == k { s.push((k, (n - 1) as nat)) } else { s }
    }
}

/// The symbols with a code length from 1 to `k`, ordered by length and then
/// by symbol.
pub open spec fn canonical_order_upto(lens: Seq<nat>, k: nat) -> Seq<(nat, nat)>
    decreases k,
{
    if k == 0 {
        Seq::empty()
    } else {
        canonical_order_upto(lens, (k - 1) as nat) + symbols_of_length(lens, k, lens.len())
    }
}

/// The symbols that have a code, in the order in which canonical codes are
/// handed out: by code length, then by symbol.
pub open spec fn canonical_order(lens: Seq<nat>) -> Seq<(nat, nat)> {
    canonical_order_upto(lens, 15)
}

/// The canonical code of entry `i` of `e`: zero for the first, and for each
/// later entry the previous code plus one, shifted left by the growth in length.
pub open spec fn canonical_code(e: Seq<(nat, nat)>, i: nat) -> nat
    decreases i,
{
    if i == 0 {
        0
    } else {
        (canonical_code(e, (i - 1) as nat) + 1) * pow2((e[i as int].0 - e[i - 1].0) as nat)
    }
}

/// Decodes one symbol with the code whose entries are `e`, trying entries
/// from `i` on: the first (and so shortest) code that equals the next bits,
/// read most significant bit first, wins.
pub open spec fn huff_decode_from(e: Seq<(nat, nat)>, d: Seq<u8>, p: int, i: nat) -> Result<(nat, int), InflateError>
    decreases e.len() - i,
{
    if i >= e.len() {
        Err(InflateError::InvalidCode)
    } else if p + e[i as int].0 > 8 * d.len() {
        Err(InflateError::UnexpectedEof)
    } else if msb_bits(d, p, e[i as int].0) == canonical_code(e, i) {
        Ok((e[i as int].1, p + e[i as int].0))
    } else {
        huff_decode_from(e, d, p, i + 1)
    }
}

pub open spec fn huff_decode(e: Seq<(nat, nat)>, d: Seq<u8>, p: int) -> Result<(nat, int), InflateError> {
    huff_decode_from(e, d, p, 0)
}

/// The entries are ordered by length, and every length is from 1 to 15.
pub open spec fn sorted_lengths(e: Seq<(nat, nat)>) -> bool {
    &&& forall|i: int| 0 <= i < e.len() ==> 1 <= #[trigger] e[i].0 <= 15
    &&& forall|i: int, j: int| 0 <= i <= j < e.len() ==> #[trigger] e[i].0 <= #[trigger] e[j].0
}

pub proof fn lemma_symbols_of_length(lens: Seq<nat>, k: nat, n: nat)
    ensures
        forall|i: int| 0 <= i < symbols_of_length(lens, k, n).len() ==>
            (#[trigger] symbols_of_length(lens, k, n)[i]).0 == k
            && symbols_of_length(lens, k, n)[i].1 < n
            && symbols_of_length(lens, k, n)[i].1 < lens.len(),
        symbols_of_length(lens, k, n).len() <= n,
    decreases n,
{
    if n > 0 && n <= lens.len() {
        lemma_symbols_of_length(lens, k, (n - 1) as nat);
    }
}

pub proof fn lemma_canonical_order_upto(lens: Seq<nat>, k: nat)
    requires
        k <= 15,
    ensures
        sorted_lengths(canonical_order_upto(lens, k)),
        forall|i: int| 0 <= i < canonical_order_upto(lens, k).len() ==>
            (#[trigger] canonical_order_upto(lens, k)[i]).0 <= k
            && canonical_order_upto(lens, k)[i].1 < lens.len(),
        canonical_order_upto(lens, k).len() <= k * lens.len(),
    decreases k,
{
    if k > 0 {
        let a = canonical_order_upto(lens, (k - 1) as nat);
        let b = symbols_of_length(lens, k, lens.len());
        lemma_canonical_order_upto(lens, (k - 1) as nat);
        lemma_symbols_of_length(lens, k, lens.len());
        let c = a + b;
        assert forall|i: int| 0 <= i < c.len() implies (#[trigger] c[i]).0 <= k && 1 <= c[i].0 && c[i].1 < lens.len() by {
            if i < a.len() {
                assert(c[i] == a[i]);
            } else {
                assert(c[i] == b[i - a.len()]);
            }
        }
        assert forall|i: int, j: int| 0 <= i <= j < c.len() implies #[trigger] c[i].0 <= #[trigger] c[j].0 by {
            if j < a.len() {
                assert(c[i] == a[i] && c[j] == a[j]);
            } else if i < a.len() {
                assert(c[i] == a[i] && c[j] == b[j - a.len()]);
            } else {
                assert(c[i] == b[i - a.len()] && c[j] == b[j - a.len()]);
            }
        }
        assert(c.len() <= k * lens.len()) by (nonlinear_arith)
            requires c.len() == a.len() + b.len(), a.len() <= (k - 1) * lens.len(), b.len() <= lens.len();
    }
}

/// A bound on the size of canonical codes, which keeps them within 32 bits.
pub proof fn lemma_canonical_code_bound(e: Seq<(nat, nat)>, i: nat)
    requires
        sorted_lengths(e),
        i < e.len(),
    ensures
        canonical_code(e, i) < (i + 1) * pow2(e[i as int].0),
    decreases i,
{
    lemma_pow2_pos(e[i as int].0);
    if i == 0 {
        assert(canonical_code(e, i) == 0);
        assert((i + 1) * pow2(e[i as int].0) == pow2(e[i as int].0)) by (nonlinear_arith)
            requires i == 0;
    } else {
        let l0 = e[i - 1].0;
        let l1 = e[i as int].0;
        assert(l0 <= l1);
        let c0 = canonical_code(e, (i - 1) as nat);
        lemma_canonical_code_bound(e, (i - 1) as nat);
        lemma_pow2_adds(l0, (l1 - l0) as nat);
        let m = pow2((l1 - l0) as nat);
        assert(canonical_code(e, i) == (c0 + 1) * m);
        assert(c0 + 1 <= i * pow2(l0));
        assert((c0 + 1) * m <= i * pow2(l0) * m) by (nonlinear_arith)
            requires c0 + 1 <= i * pow2(l0), m >= 0;
        assert(i * pow2(l0) * m == i * pow2(l1)) by (nonlinear_arith)
            requires pow2(l0) * m == pow2(l1);
        assert(i * pow2(l1) < (i + 1) * pow2(l1)) by (nonlinear_arith)
            requires pow2(l1) > 0;
    }
}

// ---------------------------------------------------------------------------
// The fixed code, lengths and distances

/// Decodes one literal/length symbol of the fixed code: 7-bit codes for
/// 256..=279, 8-bit codes for 0..=143 and 280..=287, 9-bit codes for 144..=255.
pub open spec fn fixed_literal(d: Seq<u8>, p: int) -> Result<(nat, int), InflateError> {
    if p + 7 > 8 * d.len() {
        Err(InflateError::UnexpectedEof)
    } else if msb_bits(d, p, 7) < 24 {
        Ok(((256 + msb_bits(d, p, 7)) as nat, p + 7))
    } else if p + 8 > 8 * d.len() {
        Err(InflateError::UnexpectedEof)
    } else if msb_bits(d, p, 8) < 192 {
        Ok(((msb_bits(d, p, 8) - 48) as nat, p + 8))
    } else if msb_bits(d, p, 8) < 200 {
        Ok(((280 + msb_bits(d, p, 8) - 192) as nat, p + 8))
    } else if p + 9 > 8 * d.len() {
        Err(InflateError::UnexpectedEof)
    } else {
        Ok(((144 + msb_bits(d, p, 9) - 400) as nat, p + 9))
    }
}

/// The number of extra bits after length symbol `257 + k`.
pub open spec fn length_extra(k: nat) -> nat {
    if k < 8 || k == 28 { 0 } else { ((k - 4) / 4) as nat }
}

/// The number of extra bits after distance symbol `k`.
pub open spec fn distance_extra(k: nat) -> nat {
    if k < 4 { 0 } else { ((k - 2) / 2) as nat }
}

/// The smallest length of length symbol `257 + k`: 3 plus the ranges of
/// all the symbols before it.
pub open spec fn length_base(k: nat) -> nat
    decreases k,
{
    if k == 0 { 3 } else { length_base((k - 1) as nat) + pow2(length_extra((k - 1) as nat)) }
}

/// The smallest distance of distance symbol `k`: 1 plus the ranges of all
/// the symbols before it.
pub open spec fn distance_base(k: nat) -> nat
    decreases k,
{
    if k == 0 { 1 } else { distance_base((k - 1) as nat) + pow2(distance_extra((k - 1) as nat)) }
}

/// `out` followed by `len` bytes copied from `dist` bytes back, one at a
/// time, so that a copy longer than its distance repeats itself.
pub open spec fn back_copy(out: Seq<u8>, dist: nat, len: nat) -> Seq<u8> {
    out + Seq::new(len, |i: int| out[out.len() - dist + i % (dist as int)])
}

/// The code tables of a compressed block.
pub enum CodeTables {
    Fixed,
    Dynamic { lit: Seq<(nat, nat)>, dist: Seq<(nat, nat)> },
}

pub open spec fn decode_literal(t: CodeTables, d: Seq<u8>, p: int) -> Result<(nat, int), InflateError> {
    match t {
        CodeTables::Fixed => fixed_literal(d, p),
        CodeTables::Dynamic { lit, dist } => huff_decode(lit, d, p),
    }
}

pub open spec fn decode_distance(t: CodeTables, d: Seq<u8>, p: int) -> Result<(nat, int), InflateError> {
    match t {
        CodeTables::Fixed => if p + 5 > 8 * d.len() {
            Err(InflateError::UnexpectedEof)
        } else {
            Ok((msb_bits(d, p, 5), p + 5))
        },
        CodeTables::Dynamic { lit, dist } => huff_decode(dist, d, p),
    }
}

/// Expands length symbol `sym` (257..=285), read up to bit `p`: its extra
/// bits, the distance code and the distance's extra bits, then the copy.
pub open spec fn back_reference(t: CodeTables, d: Seq<u8>, p: int, sym: nat, out: Seq<u8>) -> Result<(Seq<u8>, int), InflateError> {
    let k = (sym - 257) as nat;
    let eb = length_extra(k);
    if p + eb > 8 * d.len() {
        Err(InflateError::UnexpectedEof)
    } else {
        let len = if sym == 285 { 258 } else { length_base(k) + lsb_bits(d, p, eb) };
        match decode_distance(t, d, p + eb) {
            Err(e) => Err(e),
            Ok((ds, p2)) => if ds >= 30 {
                Err(InflateError::InvalidCode)
            } else if p2 + distance_extra(ds) > 8 * d.len() {
                Err(InflateError::UnexpectedEof)
            } else {
                let dist = distance_base(ds) + lsb_bits(d, p2, distance_extra(ds));
                if dist > out.len() {
                    Err(InflateError::InvalidDistance)
                } else {
                    Ok((back_copy(out, dist, len as nat), p2 + distance_extra(ds)))
                }
            },
        }
    }
}

/// The symbols of a compressed block from bit `p` on, up to and including
/// the end-of-block symbol: the output and the position after the block.
pub open spec fn compressed_body(t: CodeTables, d: Seq<u8>, p: int, out: Seq<u8>) -> Result<(Seq<u8>, int), InflateError>
    decreases 8 * d.len() - p,
{
    match decode_literal(t, d, p) {
        Err(e) => Err(e),
        Ok((sym, p1)) => if sym == 256 {
            Ok((out, p1))
        } else if sym > 285 {
            Err(InflateError::InvalidCode)
        } else if sym < 256 {
            // each step consumes input
            if p < p1 <= 8 * d.len() {
                compressed_body(t, d, p1, out.push(sym as u8))
            } else {
                Err(InflateError::InvalidCode)
            }
        } else {
            match back_reference(t, d, p1, sym, out) {
                Err(e) => Err(e),
                Ok((out2, p2)) => if p < p2 <= 8 * d.len() {
                    compressed_body(t, d, p2, out2)
                } else {
                    Err(InflateError::InvalidCode)
                },
            }
        },
    }
}

/// A stored block whose header ended at bit `p`.
pub open spec fn stored_block(d: Seq<u8>, p: int, out: Seq<u8>) -> Result<(Seq<u8>, int), InflateError> {
    let q = align_up(p) / 8;
    if q + 4 > d.len() {
        Err(InflateError::UnexpectedEof)
    } else {
        let len = d[q] + 256 * d[q + 1];
        let nlen = d[q + 2] + 256 * d[q + 3];
        if nlen != 65535 - len {
            Err(InflateError::NonCompressedLengthInvalid)
        } else if q + 4 + len > d.len() {
            Err(InflateError::UnexpectedEof)
        } else {
            Ok((out + d.subrange(q + 4, q + 4 + len), 8 * (q + 4 + len)))
        }
    }
}

// ---------------------------------------------------------------------------
// Dynamic code tables

/// The order in which the code lengths of the code-length alphabet are stored.
pub open spec fn meta_order(i: nat) -> int {
    seq![16int, 17, 18, 0, 8, 7, 9, 6, 10, 5, 11, 4, 12, 3, 13, 2, 14, 1, 15][i as int]
}

/// The code lengths of the code-length alphabet after the first `count`
/// 3-bit values from bit `p` have been stored in `meta_order`.
pub open spec fn meta_lengths(d: Seq<u8>, p: int, count: nat) -> Seq<nat>
    decreases count,
{
    if count == 0 {
        Seq::new(19, |i: int| 0nat)
    } else {
        meta_lengths(d, p, (count - 1) as nat).update(meta_order((count - 1) as nat), lsb_bits(d, p + 3 * (count - 1), 3))
    }
}

/// Acts on code-length symbol `sym`, whose repeat count (if any) starts at
/// bit `p`: 0..=15 is a length, 16 repeats the previous length 3..=6 times,
/// 17 gives 3..=10 zeros and 18 gives 11..=138 zeros.
pub open spec fn meta_step(d: Seq<u8>, p: int, acc: Seq<nat>, sym: nat) -> Result<(Seq<nat>, int), InflateError> {
    if sym < 16 {
        Ok((acc.push(sym), p))
    } else if sym == 16 {
        if acc.len() == 0 {
            Err(InflateError::InvalidCodeLengths)
        } else if p + 2 > 8 * d.len() {
            Err(InflateError::UnexpectedEof)
        } else {
            Ok((acc + Seq::new(3 + lsb_bits(d, p, 2), |i: int| acc.last()), p + 2))
        }
    } else if sym == 17 {
        if p + 3 > 8 * d.len() {
            Err(InflateError::UnexpectedEof)
        } else {
            Ok((acc + Seq::new(3 + lsb_bits(d, p, 3), |i: int| 0nat), p + 3))
        }
    } else if sym == 18 {
        if p + 7 > 8 * d.len() {
            Err(InflateError::UnexpectedEof)
        } else {
            Ok((acc + Seq::new(11 + lsb_bits(d, p, 7), |i: int| 0nat), p + 7))
        }
    } else {
        Err(InflateError::InvalidCode)
    }
}

/// Reads code lengths with the code-length code `mt` until there are at
/// least `target` of them.
pub open spec fn code_lengths(mt: Seq<(nat, nat)>, d: Seq<u8>, p: int, target: nat, acc: Seq<nat>) -> Result<(Seq<nat>, int), InflateError>
    decreases 8 * d.len() - p,
{
    if acc.len() >= target {
        Ok((acc, p))
    } else {
        match huff_decode(mt, d, p) {
            Err(e) => Err(e),
            Ok((sym, p1)) => match meta_step(d, p1, acc, sym) {
                Err(e) => Err(e),
                Ok((acc2, p2)) => if p < p2 <= 8 * d.len() {
                    code_lengths(mt, d, p2, target, acc2)
                } else {
                    Err(InflateError::InvalidCode)
                },
            },
        }
    }
}

/// The header of a dynamic block from bit `p` on: the two code tables and
/// the position after them.
pub open spec fn dynamic_tables(d: Seq<u8>, p: int) -> Result<(CodeTables, int), InflateError> {
    if p + 14 > 8 * d.len() {
        Err(InflateError::UnexpectedEof)
    } else {
        let hlit = 257 + lsb_bits(d, p, 5);
        let hdist = 1 + lsb_bits(d, p + 5, 5);
        let hclen = 4 + lsb_bits(d, p + 10, 4);
        if p + 14 + 3 * hclen > 8 * d.len() {
            Err(InflateError::UnexpectedEof)
        } else {
            let mt = canonical_order(meta_lengths(d, p + 14, hclen as nat));
            match code_lengths(mt, d, p + 14 + 3 * hclen, hlit as nat, Seq::empty()) {
                Err(e) => Err(e),
                Ok((ll, p2)) => match code_lengths(mt, d, p2, hdist as nat, Seq::empty()) {
                    Err(e) => Err(e),
                    Ok((dl, p3)) => Ok((CodeTables::Dynamic { lit: canonical_order(ll), dist: canonical_order(dl) }, p3)),
                },
            }
        }
    }
}

// ---------------------------------------------------------------------------
// Blocks and streams

/// The body of a block of type `typ` whose header ended at bit `p`.
#[verifier::opaque]
pub open spec fn block_of_type(typ: nat, d: Seq<u8>, p: int, out: Seq<u8>) -> Result<(Seq<u8>, int), InflateError> {
    if typ == 0 {
        stored_block(d, p, out)
    } else if typ == 1 {
        compressed_body(CodeTables::Fixed, d, p, out)
    } else if typ == 2 {
        match dynamic_tables(d, p) {
            Err(e) => Err(e),
            Ok((t, p1)) => compressed_body(t, d, p1, out),
        }
    } else {
        Err(InflateError::InvalidBtype)
    }
}

/// Decodes the blocks from bit `p` on, until a block with the final flag
/// has been decoded: the output and the position after that block.
pub open spec fn inflate_from(d: Seq<u8>, p: int, out: Seq<u8>) -> Result<(Seq<u8>, int), InflateError>
    decreases 8 * d.len() - p,
{
    if p + 3 > 8 * d.len() {
        Err(InflateError::UnexpectedEof)
    } else {
        match block_of_type(lsb_bits(d, p + 1, 2), d, p + 3, out) {
            Err(e) => Err(e),
            Ok((out2, p2)) => if bit_at(d, p) {
                Ok((out2, p2))
            } else if p < p2 <= 8 * d.len() {
                inflate_from(d, p2, out2)
            } else {
                Err(InflateError::InvalidCode)
            },
        }
    }
}

/// The DEFLATE stream at the start of `d`: the output and the number of
/// bits that the stream takes.
pub open spec fn inflate_spec(d: Seq<u8>) -> Result<(Seq<u8>, int), InflateError> {
    inflate_from(d, 0, Seq::empty())
}

/// Entries of a Huffman code table.
#[derive(Debug)]
pub struct DynamicHuffmanCodeValue {
    /// the length of the code, in bits
    pub length: u4,
    /// the symbol that the code stands for
    pub value: u16,
    /// the code itself, most significant bit first
    pub code: u32,
}

/// A canonical Huffman code, built from the code length of each symbol.
#[derive(Debug)]
pub struct DynamicHuffmanCodes {
    backing: Vec<DynamicHuffmanCodeValue>,
}

impl DynamicHuffmanCodes {
    /// The (length, symbol) entries of the code, in canonical order.
    pub closed spec fn entries(&self) -> Seq<(nat, nat)> {
        entries_of(self.backing@)
    }

    pub closed spec fn wf(&self) -> bool {
        &&& sorted_lengths(self.entries())
        &&& self.backing@.len() <= 65536
        &&& forall|i: int| 0 <= i < self.backing@.len() ==>
            #[trigger] self.backing@[i].code as nat == canonical_code(self.entries(), i as nat)
    }

    /// Builds the canonical code for the code lengths `lengths`, symbol `i`
    /// having length `lengths[i]`; symbols of length zero get no code. At
    /// most 4096 lengths, which keeps every code within 32 bits (a DEFLATE
    /// block header gives at most 426).
    pub fn from_lengths(lengths: &[u4]) -> (r: DynamicHuffmanCodes)
        requires
            lengths@.len() <= 4096,
        ensures
            r.wf(),
            r.entries() == canonical_order(lengths_of(lengths@)),
    {
        let ghost lens = lengths_of(lengths@);
        let n = lengths.len();
        let mut backing: Vec<DynamicHuffmanCodeValue> = Vec::new();
        let mut k: u8 = 1;
        let mut prev_len: u8 = 0;
        let mut prev_code: u32 = 0;
        proof {
            lemma2_to64();
        }
        while k <= 15
            invariant
                1 <= k <= 16,
                n == lengths@.len(),
                n <= 4096,
                lens == lengths_of(lengths@),
                entries_of(backing@) == canonical_order_upto(lens, (k - 1) as nat),
                forall|i: int| 0 <= i < backing@.len() ==>
                    #[trigger] backing@[i].code as nat == canonical_code(entries_of(backing@), i as nat),
                backing@.len() > 0 ==> prev_len as nat == backing@.last().length.val()
                    && prev_code == backing@.last().code,
                pow2(15) == 32768,
            decreases 16 - k,
        {
            let mut s: usize = 0;
            let ghost before = canonical_order_upto(lens, (k - 1) as nat);
            proof {
                lemma_canonical_order_upto(lens, k as nat);
                lemma_canonical_order_upto(lens, (k - 1) as nat);
            }
            while s < n
                invariant
                    1 <= k <= 15,
                    n == lengths@.len(),
                    n <= 4096,
                    s <= n,
                    lens == lengths_of(lengths@),
                    before == canonical_order_upto(lens, (k - 1) as nat),
                    before.len() <= (k - 1) * n,
                    sorted_lengths(canonical_order_upto(lens, k as nat)),
                    canonical_order_upto(lens, k as nat).len() <= k * n,
                    lens.len() == n,
                    canonical_order_upto(lens, k as nat) == before + symbols_of_length(lens, k as nat, n as nat),
                    entries_of(backing@) == before + symbols_of_length(lens, k as nat, s as nat),
                    forall|i: int| 0 <= i < backing@.len() ==>
                        #[trigger] backing@[i].code as nat == canonical_code(entries_of(backing@), i as nat),
                    backing@.len() > 0 ==> prev_len as nat == backing@.last().length.val()
                        && prev_code == backing@.last().code,
                    pow2(15) == 32768,
                decreases n - s,
            {
                let l = lengths[s].value();
                if l == k {
                    let ghost e_old = entries_of(backing@);
                    proof {
                        lemma_append_entry(lens, k as nat, s as nat);
                    }
                    let code: u32 = if backing.len() == 0 {
                        0
                    } else {
                        let ghost idx = e_old.len() as int;
                        proof {
                            assert(e_old.last() == e_old[idx - 1]);
                            assert(backing@.last() == backing@[idx - 1]);
                            assert(prev_code == backing@[idx - 1].code);
                            assert(prev_code as nat == canonical_code(e_old, (idx - 1) as nat));
                        }
                        let w = u4::truncate(k - prev_len).nth_bit();
                        proof {
                            let e_new = e_old.push((k as nat, s as nat));
                            assert(canonical_code(e_new, idx as nat) == (prev_code as nat + 1) * (w as nat));
                            assert((prev_code as nat + 1) * (w as nat) < 15 * 4096 * 32768);
                            lemma_pow2_pos((k - prev_len) as nat);
                            assert(prev_code as nat <= (prev_code as nat + 1) * (w as nat)) by (nonlinear_arith)
                                requires w >= 1;
                        }
                        (prev_code + 1) * (w as u32)
                    };
                    backing.push(DynamicHuffmanCodeValue { length: u4::truncate(k), value: s as u16, code });
                    prev_len = k;
                    prev_code = code;
                    proof {
                        assert(entries_of(backing@) =~= e_old.push((k as nat, s as nat)));
                    }
                } else {
                    proof {
                        assert(before + symbols_of_length(lens, k as nat, (s + 1) as nat)
                            =~= before + symbols_of_length(lens, k as nat, s as nat));
                    }
                }
                s = s + 1;
            }
            k = k + 1;
        }
        proof {
            lemma_canonical_order_upto(lens, 15);
        }
        DynamicHuffmanCodes { backing }
    }
}

impl DynamicHuffmanCodes {
    /// Decodes one symbol from `bitreader`, reading the code most
    /// significant bit first.
    pub fn decode(&self, bitreader: &mut Bits) -> (r: Result<u16, InflateError>)
        requires
            self.wf(),
            old(bitreader).wf(),
        ensures
            final(bitreader).wf(),
            final(bitreader).data() == old(bitreader).data(),
        old(bitreader).pos() <= final(bitreader).pos(),
            match huff_decode(self.entries(), old(bitreader).data(), old(bitreader).pos()) {
                Ok((sym, p)) => sym < 65536 && r == Ok::<u16, InflateError>(sym as u16)
                    && final(bitreader).pos() == p && old(bitreader).pos() < p,
                Err(e) => r == Err::<u16, InflateError>(e),
            },
    {
        let ghost d = bitreader.data();
        let ghost p0 = bitreader.pos();
        let ghost e = self.entries();
        let n = self.backing.len();
        let mut i: usize = 0;
        let mut read_code: u32 = 0;
        let mut read_len: u8 = 0;
        proof {
            lemma2_to64();
            bitreader.lemma_pos_bounds();
        }
        while i < n
            invariant
                bitreader.wf(),
                bitreader.data() == d,
                d == old(bitreader).data(),
            old(bitreader).pos() <= bitreader.pos(),
                p0 == old(bitreader).pos(),
                e == self.entries(),
                self.wf(),
                n == self.backing@.len(),
                n == e.len(),
                i <= n,
                bitreader.pos() == p0 + read_len,
                read_code as nat == msb_bits(d, p0, read_len as nat),
                read_len <= 15,
                i < n ==> read_len <= e[i as int].0,
                p0 + read_len <= 8 * d.len(),
                huff_decode_from(e, d, p0, i as nat) == huff_decode(e, d, p0),
                pow2(15) == 32768,
            decreases n - i,
        {
            let len = self.backing[i].length.value();
            assert(len as nat == e[i as int].0);
            while read_len < len
                invariant
                    bitreader.wf(),
                    bitreader.data() == d,
                    d == old(bitreader).data(),
            old(bitreader).pos() <= bitreader.pos(),
                    p0 == old(bitreader).pos(),
                    e == self.entries(),
                    self.wf(),
                    n == e.len(),
                    i < n,
                    len as nat == e[i as int].0,
                    huff_decode_from(e, d, p0, i as nat) == huff_decode(e, d, p0),
                    bitreader.pos() == p0 + read_len,
                    read_code as nat == msb_bits(d, p0, read_len as nat),
                    read_len <= len,
                    len <= 15,
                    p0 + read_len <= 8 * d.len(),
                    pow2(15) == 32768,
                decreases len - read_len,
            {
                match bitreader.next() {
                    Some(b) => {
                        proof {
                            lemma_msb_bound(d, p0, read_len as nat);
                            lemma_pow2_strictly_increases(read_len as nat, 15);
                        }
                        read_code = read_code * 2 + if b { 1 } else { 0 };
                        read_len = read_len + 1;
                    },
                    None => {
                        return Err(InflateError::UnexpectedEof);
                    },
                }
            }
            if read_code == self.backing[i].code {
                assert(e[i as int].1 == self.backing@[i as int].value as nat);
                return Ok(self.backing[i].value);
            }
            i = i + 1;
            proof {
                if i < n {
                    assert(e[i - 1].0 <= e[i as int].0);
                }
            }
        }
        Err(InflateError::InvalidCode)
    }
}

/// Appending the next symbol of length `k` to the entries built so far.
proof fn lemma_append_entry(lens: Seq<nat>, k: nat, s: nat)
    requires
        1 <= k <= 15,
        s < lens.len() <= 4096,
        lens[s as int] == k,
    ensures
        ({
            let before = canonical_order_upto(lens, (k - 1) as nat);
            let e_old = before + symbols_of_length(lens, k, s);
            let e_new = e_old.push((k, s));
            &&& e_new == before + symbols_of_length(lens, k, s + 1)
            &&& e_old.len() == 0 ==> canonical_code(e_new, 0) == 0
            &&& e_old.len() > 0 ==> e_old.last().0 <= k
                && canonical_code(e_new, e_old.len()) == (canonical_code(e_old, (e_old.len() - 1) as nat) + 1)
                    * pow2((k - e_old.last().0) as nat)
            &&& canonical_code(e_new, e_old.len()) < 15 * 4096 * 32768
            &&& forall|i: nat| i < e_old.len() ==> #[trigger] canonical_code(e_new, i) == canonical_code(e_old, i)
        }),
{
    let before = canonical_order_upto(lens, (k - 1) as nat);
    let e_old = before + symbols_of_length(lens, k, s);
    let e_new = e_old.push((k, s));
    let full = canonical_order_upto(lens, k);
    lemma_append_entry_shape(lens, k, s);
    lemma_canonical_order_upto(lens, k);
    lemma_append_entry_codes(full, e_old, e_new, k, s, lens.len());
}

proof fn lemma_append_entry_shape(lens: Seq<nat>, k: nat, s: nat)
    requires
        1 <= k <= 15,
        s < lens.len(),
        lens[s as int] == k,
    ensures
        ({
            let before = canonical_order_upto(lens, (k - 1) as nat);
            let e_old = before + symbols_of_length(lens, k, s);
            let e_new = e_old.push((k, s));
            &&& e_new == before + symbols_of_length(lens, k, s + 1)
            &&& e_new == canonical_order_upto(lens, k).subrange(0, e_new.len() as int)
            &&& e_new.len() <= canonical_order_upto(lens, k).len()
        }),
{
    let before = canonical_order_upto(lens, (k - 1) as nat);
    let e_old = before + symbols_of_length(lens, k, s);
    let e_new = e_old.push((k, s));
    let full = canonical_order_upto(lens, k);
    let sa = symbols_of_length(lens, k, s + 1);
    let sb = symbols_of_length(lens, k, lens.len());
    lemma_prefix_of_symbols(lens, k, s + 1, lens.len());
    assert(e_new =~= before + sa);
    assert(full == before + sb);
    assert(e_new =~= full.subrange(0, e_new.len() as int));
}

proof fn lemma_append_entry_codes(full: Seq<(nat, nat)>, e_old: Seq<(nat, nat)>, e_new: Seq<(nat, nat)>, k: nat, s: nat, n: nat)
    requires
        1 <= k <= 15,
        n <= 4096,
        e_new == e_old.push((k, s)),
        e_new.len() <= full.len(),
        e_new == full.subrange(0, e_new.len() as int),
        sorted_lengths(full),
        full.len() <= k * n,
    ensures
        e_old.len() == 0 ==> canonical_code(e_new, 0) == 0,
        e_old.len() > 0 ==> e_old.last().0 <= k
            && canonical_code(e_new, e_old.len()) == (canonical_code(e_old, (e_old.len() - 1) as nat) + 1)
                * pow2((k - e_old.last().0) as nat),
        canonical_code(e_new, e_old.len()) < 15 * 4096 * 32768,
        forall|i: nat| i < e_old.len() ==> #[trigger] canonical_code(e_new, i) == canonical_code(e_old, i),
{
    let idx = e_old.len() as int;
    lemma_canonical_code_prefix(full, (idx + 1) as nat, idx as nat);
    lemma_canonical_code_bound(full, idx as nat);
    assert(full[idx] == e_new[idx]);
    lemma2_to64();
    if k < 15 {
        lemma_pow2_strictly_increases(k, 15);
    }
    assert(idx + 1 <= 15 * 4096) by (nonlinear_arith)
        requires idx < full.len(), full.len() <= k * n, k <= 15, n <= 4096;
    assert((idx + 1) * pow2(k) <= 15 * 4096 * 32768) by (nonlinear_arith)
        requires idx + 1 <= 15 * 4096, pow2(k) <= 32768;
    assert(e_old =~= e_new.subrange(0, idx));
    assert forall|i: nat| i < e_old.len() implies #[trigger] canonical_code(e_new, i) == canonical_code(e_old, i) by {
        lemma_canonical_code_prefix(e_new, idx as nat, i);
    }
    if idx > 0 {
        assert(full[idx - 1] == e_new[idx - 1]);
        assert(full[idx - 1].0 <= full[idx].0);
        lemma_canonical_code_prefix(e_new, idx as nat, (idx - 1) as nat);
    }
}

/// The (length, symbol) pairs of table entries.
pub open spec fn entries_of(v: Seq<DynamicHuffmanCodeValue>) -> Seq<(nat, nat)> {
    Seq::new(v.len(), |i: int| (v[i].length.val(), v[i].value as nat))
}

/// The code lengths as numbers.
pub open spec fn lengths_of(s: Seq<u4>) -> Seq<nat> {
    Seq::new(s.len(), |i: int| s[i].val())
}

proof fn lemma_prefix_of_symbols(lens: Seq<nat>, k: nat, m: nat, n: nat)
    requires
        m <= n <= lens.len(),
    ensures
        symbols_of_length(lens, k, m).len() <= symbols_of_length(lens, k, n).len(),
        symbols_of_length(lens, k, m) == symbols_of_length(lens, k, n).subrange(0, symbols_of_length(lens, k, m).len() as int),
    decreases n,
{
    let b = symbols_of_length(lens, k, n);
    let c = symbols_of_length(lens, k, m);
    if m < n {
        lemma_prefix_of_symbols(lens, k, m, (n - 1) as nat);
        let a = symbols_of_length(lens, k, (n - 1) as nat);
        assert(a =~= b.subrange(0, a.len() as int));
        assert(c =~= b.subrange(0, c.len() as int));
    } else {
        assert(c =~= b.subrange(0, c.len() as int));
    }
}

/// Canonical codes of a prefix agree with those of the whole.
proof fn lemma_canonical_code_prefix(e: Seq<(nat, nat)>, m: nat, i: nat)
    requires
        i < m <= e.len(),
    ensures
        canonical_code(e.subrange(0, m as int), i) == canonical_code(e, i),
    decreases i,
{
    if i > 0 {
        lemma_canonical_code_prefix(e, m, (i - 1) as nat);
    }
}

} // verus!

verus! {

/// Decodes one literal/length symbol of the fixed code, or `None` if the
/// input ends first.
pub fn decode_fixed_huffman_code(bitreader: &mut Bits) -> (r: Option<u16>)
    requires
        old(bitreader).wf(),
    ensures
        final(bitreader).wf(),
        final(bitreader).data() == old(bitreader).data(),
        old(bitreader).pos() <= final(bitreader).pos(),
        match fixed_literal(old(bitreader).data(), old(bitreader).pos()) {
            Ok((sym, p)) => sym < 288 && r == Some(sym as u16) && final(bitreader).pos() == p,
            Err(e) => r is None,
        },
{
    let ghost d = bitreader.data();
    let ghost p = bitreader.pos();
    proof {
        lemma_msb_bound(d, p, 7);
        lemma2_to64();
    }
    let v7 = match bitreader.read_n(u4::_7) {
        Some(v) => v,
        None => return None,
    };
    if v7 < 24 {
        return Some(256 + v7);
    }
    let b8: u16 = match bitreader.next() {
        Some(b) => if b { 1 } else { 0 },
        None => return None,
    };
    let v8 = v7 * 2 + b8;
    assert(v8 as nat == msb_bits(d, p, 8));
    if v8 < 192 {
        return Some(v8 - 48);
    }
    if v8 < 200 {
        return Some(280 + v8 - 192);
    }
    let b9: u16 = match bitreader.next() {
        Some(b) => if b { 1 } else { 0 },
        None => return None,
    };
    let v9 = v8 * 2 + b9;
    assert(v9 as nat == msb_bits(d, p, 9));
    Some(144 + v9 - 400)
}

proof fn lemma_pow2_le(x: nat, y: nat)
    requires
        x <= y,
    ensures
        pow2(x) <= pow2(y),
{
    if x < y {
        lemma_pow2_strictly_increases(x, y);
    }
}

/// The number of extra bits after length symbol `257 + k`.
fn length_extra_bits(k: u16) -> (r: u4)
    requires
        k < 29,
    ensures
        r.val() == length_extra(k as nat),
        r.val() <= 5,
{
    if k < 8 || k == 28 {
        u4::_0
    } else {
        u4::truncate(((k - 4) / 4) as u8)
    }
}

/// The number of extra bits after distance symbol `k`.
fn distance_extra_bits(k: u16) -> (r: u4)
    requires
        k < 30,
    ensures
        r.val() == distance_extra(k as nat),
        r.val() <= 13,
{
    if k < 4 {
        u4::_0
    } else {
        u4::truncate(((k - 2) / 2) as u8)
    }
}

/// The smallest length of length symbol `257 + k`.
fn length_base_of(k: u16) -> (r: u16)
    requires
        k < 29,
    ensures
        r as nat == length_base(k as nat),
        r as nat <= 3 + 32 * k,
{
    let mut s: u16 = 3;
    let mut i: u16 = 0;
    proof {
        lemma2_to64();
    }
    while i < k
        invariant
            i <= k < 29,
            s as nat == length_base(i as nat),
            s as nat <= 3 + 32 * i,
            pow2(5) == 32,
        decreases k - i,
    {
        let w = length_extra_bits(i).nth_bit();
        proof {
            lemma_pow2_le(length_extra(i as nat), 5);
        }
        s = s + w;
        i = i + 1;
    }
    s
}

/// The smallest distance of distance symbol `k`.
fn distance_base_of(k: u16) -> (r: u32)
    requires
        k < 30,
    ensures
        r as nat == distance_base(k as nat),
        r as nat <= 1 + 8192 * k,
        r >= 1,
{
    let mut s: u32 = 1;
    let mut i: u16 = 0;
    proof {
        lemma2_to64();
    }
    while i < k
        invariant
            i <= k < 30,
            s as nat == distance_base(i as nat),
            s as nat <= 1 + 8192 * i,
            s >= 1,
            pow2(13) == 8192,
        decreases k - i,
    {
        let w = distance_extra_bits(i).nth_bit();
        proof {
            lemma_pow2_le(distance_extra(i as nat), 13);
        }
        s = s + w as u32;
        i = i + 1;
    }
    s
}

/// Where the `i`-th stored code length of the code-length alphabet belongs.
fn meta_code_order(i: u16) -> (r: usize)
    requires
        i < 19,
    ensures
        r as int == meta_order(i as nat),
        r < 19,
{
    if i == 0 { 16 } else if i == 1 { 17 } else if i == 2 { 18 } else if i == 3 { 0 }
    else if i == 4 { 8 } else if i == 5 { 7 } else if i == 6 { 9 } else if i == 7 { 6 }
    else if i == 8 { 10 } else if i == 9 { 5 } else if i == 10 { 11 } else if i == 11 { 4 }
    else if i == 12 { 12 } else if i == 13 { 3 } else if i == 14 { 13 } else if i == 15 { 2 }
    else if i == 16 { 14 } else if i == 17 { 1 } else { 15 }
}

/// Appends `times` copies of `value` to `results`.
fn push_repeated(results: &mut Vec<u4>, value: u4, times: u16)
    ensures
        lengths_of(final(results)@) == lengths_of(old(results)@) + Seq::new(times as nat, |i: int| value.val()),
{
    let mut j: u16 = 0;
    while j < times
        invariant
            j <= times,
            lengths_of(results@) == lengths_of(old(results)@) + Seq::new(j as nat, |i: int| value.val()),
        decreases times - j,
    {
        let ghost before = results@;
        results.push(value);
        j = j + 1;
        assert(lengths_of(results@) =~= lengths_of(before).push(value.val()));
        assert(lengths_of(results@) =~= lengths_of(old(results)@) + Seq::new(j as nat, |i: int| value.val()));
    }
}

/// Appends to `results` what code-length symbol `code` stands for, reading
/// its repeat count from `bitreader` where it has one.
fn act_upon_meta_code(results: &mut Vec<u4>, bitreader: &mut Bits, code: u16) -> (r: Result<(), InflateError>)
    requires
        old(bitreader).wf(),
    ensures
        final(bitreader).wf(),
        final(bitreader).data() == old(bitreader).data(),
        old(bitreader).pos() <= final(bitreader).pos(),
        match meta_step(old(bitreader).data(), old(bitreader).pos(), lengths_of(old(results)@), code as nat) {
            Ok((acc, p)) => r is Ok && lengths_of(final(results)@) == acc && final(bitreader).pos() == p,
            Err(e) => r == Err::<(), InflateError>(e),
        },
{
    let ghost acc = lengths_of(results@);
    proof {
        lemma2_to64();
        lemma_lsb_bound(bitreader.data(), bitreader.pos(), 2);
        lemma_lsb_bound(bitreader.data(), bitreader.pos(), 3);
        lemma_lsb_bound(bitreader.data(), bitreader.pos(), 7);
    }
    if code < 16 {
        results.push(u4::truncate(code as u8));
        assert(lengths_of(results@) =~= acc.push(code as nat));
    } else if code == 16 {
        let n = results.len();
        if n == 0 {
            return Err(InflateError::InvalidCodeLengths);
        }
        let prev = results[n - 1];
        let times = match bitreader.read_n_rev(u4::_2) {
            Some(v) => 3 + v,
            None => return Err(InflateError::UnexpectedEof),
        };
        push_repeated(results, prev, times);
    } else if code == 17 {
        let times = match bitreader.read_n_rev(u4::_3) {
            Some(v) => 3 + v,
            None => return Err(InflateError::UnexpectedEof),
        };
        push_repeated(results, u4::_0, times);
    } else if code == 18 {
        let times = match bitreader.read_n_rev(u4::_7) {
            Some(v) => 11 + v,
            None => return Err(InflateError::UnexpectedEof),
        };
        push_repeated(results, u4::_0, times);
    } else {
        return Err(InflateError::InvalidCode);
    }
    Ok(())
}

} // verus!

verus! {

/// The code tables of a compressed block.
pub enum HuffmanTables {
    /// the fixed code of RFC 1951 section 3.2.6
    Fixed,
    /// literal/length and distance codes read from the block header
    Dynamic(DynamicHuffmanCodes, DynamicHuffmanCodes),
}

impl HuffmanTables {
    pub open spec fn tables(&self) -> CodeTables {
        match self {
            HuffmanTables::Fixed => CodeTables::Fixed,
            HuffmanTables::Dynamic(l, d) => CodeTables::Dynamic { lit: l.entries(), dist: d.entries() },
        }
    }

    pub open spec fn wf(&self) -> bool {
        match self {
            HuffmanTables::Fixed => true,
            HuffmanTables::Dynamic(l, d) => l.wf() && d.wf(),
        }
    }
}

/// Reads code lengths with the code-length code `meta` until there are at
/// least `target` of them.
fn read_code_lengths(meta: &DynamicHuffmanCodes, bitreader: &mut Bits, target: u16) -> (r: Result<Vec<u4>, InflateError>)
    requires
        meta.wf(),
        old(bitreader).wf(),
        target <= 288,
    ensures
        final(bitreader).wf(),
        final(bitreader).data() == old(bitreader).data(),
        old(bitreader).pos() <= final(bitreader).pos(),
        match code_lengths(meta.entries(), old(bitreader).data(), old(bitreader).pos(), target as nat, Seq::empty()) {
            Ok((acc, p)) => r is Ok && lengths_of(r->Ok_0@) == acc && final(bitreader).pos() == p
                && acc.len() <= target + 138,
            Err(e) => r == Err::<Vec<u4>, InflateError>(e),
        },
{
    let ghost d = bitreader.data();
    let ghost p0 = bitreader.pos();
    let ghost mt = meta.entries();
    let mut results: Vec<u4> = Vec::new();
    assert(lengths_of(results@) =~= Seq::empty());
    while results.len() < target as usize
        invariant
            meta.wf(),
            mt == meta.entries(),
            bitreader.wf(),
            bitreader.data() == d,
            d == old(bitreader).data(),
            old(bitreader).pos() <= bitreader.pos(),
            p0 == old(bitreader).pos(),
            target <= 288,
            results@.len() <= target + 138,
            code_lengths(mt, d, bitreader.pos(), target as nat, lengths_of(results@))
                == code_lengths(mt, d, p0, target as nat, Seq::empty()),
        decreases 8 * d.len() - bitreader.pos(),
    {
        proof {
            bitreader.lemma_pos_bounds();
        }
        let ghost p = bitreader.pos();
        let sym = match meta.decode(bitreader) {
            Ok(s) => s,
            Err(e) => return Err(e),
        };
        proof {
            let p1 = bitreader.pos();
            lemma_lsb_bound(d, p1, 2);
            lemma_lsb_bound(d, p1, 3);
            lemma_lsb_bound(d, p1, 7);
            lemma2_to64();
        }
        match act_upon_meta_code(&mut results, bitreader, sym) {
            Ok(()) => {},
            Err(e) => return Err(e),
        }
        proof {
            bitreader.lemma_pos_bounds();
        }
    }
    Ok(results)
}

/// Reads the header of a dynamic block: the code-length code, then the
/// literal/length and distance codes.
fn read_dynamic_tables(bitreader: &mut Bits) -> (r: Result<HuffmanTables, InflateError>)
    requires
        old(bitreader).wf(),
    ensures
        final(bitreader).wf(),
        final(bitreader).data() == old(bitreader).data(),
        old(bitreader).pos() <= final(bitreader).pos(),
        match dynamic_tables(old(bitreader).data(), old(bitreader).pos()) {
            Ok((t, p)) => r is Ok && r->Ok_0.wf() && r->Ok_0.tables() == t && final(bitreader).pos() == p,
            Err(e) => r == Err::<HuffmanTables, InflateError>(e),
        },
{
    let ghost d = bitreader.data();
    let ghost p = bitreader.pos();
    proof {
        lemma2_to64();
        lemma_lsb_bound(d, p, 5);
        lemma_lsb_bound(d, p + 5, 5);
        lemma_lsb_bound(d, p + 10, 4);
    }
    let hlit = match bitreader.read_n_rev(u4::_5) {
        Some(v) => v,
        None => return Err(InflateError::UnexpectedEof),
    };
    let hdist = match bitreader.read_n_rev(u4::_5) {
        Some(v) => v,
        None => return Err(InflateError::UnexpectedEof),
    };
    let hclen = match bitreader.read_n_rev(u4::_4) {
        Some(v) => v,
        None => return Err(InflateError::UnexpectedEof),
    };
    let count = 4 + hclen;
    let mut meta: Vec<u4> = Vec::new();
    let mut j: usize = 0;
    while j < 19
        invariant
            j <= 19,
            meta@.len() == j,
            forall|i: int| 0 <= i < j ==> meta@[i] == u4::_0,
        decreases 19 - j,
    {
        meta.push(u4::_0);
        j = j + 1;
    }
    assert(lengths_of(meta@) =~= meta_lengths(d, p + 14, 0));
    let mut x: u16 = 0;
    while x < count
        invariant
            bitreader.wf(),
            bitreader.data() == d,
            d == old(bitreader).data(),
            old(bitreader).pos() <= bitreader.pos(),
            p == old(bitreader).pos(),
            x <= count <= 19,
            count as nat == 4 + lsb_bits(d, p + 10, 4),
            meta@.len() == 19,
            lengths_of(meta@) == meta_lengths(d, p + 14, x as nat),
            bitreader.pos() == p + 14 + 3 * x,
        decreases count - x,
    {
        proof {
            lemma_lsb_bound(d, p + 14 + 3 * x, 3);
        }
        let v = match bitreader.read_n_rev(u4::_3) {
            Some(v) => v,
            None => return Err(InflateError::UnexpectedEof),
        };
        let ghost before = meta@;
        assert(v < 8) by {
            assert(pow2(3) == 8) by {
                lemma2_to64();
            }
        }
        let o = meta_code_order(x);
        meta.set(o, u4::truncate(v as u8));
        x = x + 1;
        assert(lengths_of(meta@) =~= lengths_of(before).update(o as int, v as nat));
    }
    proof {
        bitreader.lemma_pos_bounds();
    }
    let meta_codes = DynamicHuffmanCodes::from_lengths(meta.as_slice());
    let length_lengths = match read_code_lengths(&meta_codes, bitreader, 257 + hlit) {
        Ok(v) => v,
        Err(e) => return Err(e),
    };
    let distance_lengths = match read_code_lengths(&meta_codes, bitreader, 1 + hdist) {
        Ok(v) => v,
        Err(e) => return Err(e),
    };
    let lit = DynamicHuffmanCodes::from_lengths(length_lengths.as_slice());
    let dist = DynamicHuffmanCodes::from_lengths(distance_lengths.as_slice());
    Ok(HuffmanTables::Dynamic(lit, dist))
}

/// Decodes one literal/length symbol.
fn decode_literal_with(tables: &HuffmanTables, bitreader: &mut Bits) -> (r: Result<u16, InflateError>)
    requires
        tables.wf(),
        old(bitreader).wf(),
    ensures
        final(bitreader).wf(),
        final(bitreader).data() == old(bitreader).data(),
        old(bitreader).pos() <= final(bitreader).pos(),
        match decode_literal(tables.tables(), old(bitreader).data(), old(bitreader).pos()) {
            Ok((sym, p)) => sym < 65536 && r == Ok::<u16, InflateError>(sym as u16)
                && final(bitreader).pos() == p && old(bitreader).pos() < p,
            Err(e) => r == Err::<u16, InflateError>(e),
        },
{
    match tables {
        HuffmanTables::Fixed => match decode_fixed_huffman_code(bitreader) {
            Some(s) => Ok(s),
            None => Err(InflateError::UnexpectedEof),
        },
        HuffmanTables::Dynamic(lit, _) => lit.decode(bitreader),
    }
}

/// Decodes one distance symbol.
fn decode_distance_with(tables: &HuffmanTables, bitreader: &mut Bits) -> (r: Result<u16, InflateError>)
    requires
        tables.wf(),
        old(bitreader).wf(),
    ensures
        final(bitreader).wf(),
        final(bitreader).data() == old(bitreader).data(),
        old(bitreader).pos() <= final(bitreader).pos(),
        match decode_distance(tables.tables(), old(bitreader).data(), old(bitreader).pos()) {
            Ok((sym, p)) => sym < 65536 && r == Ok::<u16, InflateError>(sym as u16)
                && final(bitreader).pos() == p && old(bitreader).pos() < p,
            Err(e) => r == Err::<u16, InflateError>(e),
        },
{
    match tables {
        HuffmanTables::Fixed => {
            proof {
                lemma_msb_bound(bitreader.data(), bitreader.pos(), 5);
                lemma2_to64();
            }
            match bitreader.read_n(u4::_5) {
                Some(s) => Ok(s),
                None => Err(InflateError::UnexpectedEof),
            }
        },
        HuffmanTables::Dynamic(_, dist) => dist.decode(bitreader),
    }
}

} // verus!

verus! {

/// Appends `len` bytes copied from `dist` bytes back, one at a time.
fn copy_from_back(out: &mut Vec<u8>, dist: usize, len: u16)
    requires
        1 <= dist <= old(out)@.len(),
    ensures
        final(out)@ == back_copy(old(out)@, dist as nat, len as nat),
{
    let ghost out0 = out@;
    let n0 = out.len();
    let mut i: u16 = 0;
    while i < len
        invariant
            1 <= dist <= n0,
            n0 == out0.len(),
            i <= len,
            out@ == back_copy(out0, dist as nat, i as nat),
        decreases len - i,
    {
        let b = out[out.len() - dist];
        proof {
            let k = i as int;
            if k < dist {
                vstd::arithmetic::div_mod::lemma_small_mod(k as nat, dist as nat);
            } else {
                vstd::arithmetic::div_mod::lemma_mod_sub_multiples_vanish(k, dist as int);
                assert(out@[n0 + k - dist] == out0[n0 - dist + (k - dist) % (dist as int)]);
            }
            assert(b == out0[n0 - dist + k % (dist as int)]);
        }
        let ghost before = out@;
        out.push(b);
        i = i + 1;
        assert(out@ =~= back_copy(out0, dist as nat, i as nat));
    }
}

/// Expands length symbol `sym`: reads the extra length bits, the distance
/// and its extra bits, and appends the copy to `out`.
fn copy_back_reference(tables: &HuffmanTables, bitreader: &mut Bits, out: &mut Vec<u8>, sym: u16) -> (r: Result<(), InflateError>)
    requires
        tables.wf(),
        old(bitreader).wf(),
        257 <= sym <= 285,
    ensures
        final(bitreader).wf(),
        final(bitreader).data() == old(bitreader).data(),
        old(bitreader).pos() <= final(bitreader).pos(),
        match back_reference(tables.tables(), old(bitreader).data(), old(bitreader).pos(), sym as nat, old(out)@) {
            Ok((o, p)) => r is Ok && final(out)@ == o && final(bitreader).pos() == p && old(bitreader).pos() <= p,
            Err(e) => r == Err::<(), InflateError>(e),
        },
{
    let ghost d = bitreader.data();
    let ghost p = bitreader.pos();
    let k = sym - 257;
    let eb = length_extra_bits(k);
    proof {
        lemma_lsb_bound(d, p, eb.val());
        lemma_pow2_le(eb.val(), 5);
        lemma2_to64();
    }
    let extra = match bitreader.read_n_rev(eb) {
        Some(v) => v,
        None => return Err(InflateError::UnexpectedEof),
    };
    let len: u16 = if sym == 285 { 258 } else { length_base_of(k) + extra };
    let ds = match decode_distance_with(tables, bitreader) {
        Ok(v) => v,
        Err(e) => return Err(e),
    };
    if ds >= 30 {
        return Err(InflateError::InvalidCode);
    }
    let deb = distance_extra_bits(ds);
    proof {
        lemma_lsb_bound(d, bitreader.pos(), deb.val());
        lemma_pow2_le(deb.val(), 13);
    }
    let dextra = match bitreader.read_n_rev(deb) {
        Some(v) => v,
        None => return Err(InflateError::UnexpectedEof),
    };
    let dist: u32 = distance_base_of(ds) + dextra as u32;
    if dist as usize > out.len() {
        return Err(InflateError::InvalidDistance);
    }
    copy_from_back(out, dist as usize, len);
    Ok(())
}

/// Decodes one symbol of a compressed block and acts on it: `Ok(true)` at
/// the end-of-block symbol, `Ok(false)` after a literal or a copy.
fn inflate_symbol(tables: &HuffmanTables, bitreader: &mut Bits, out: &mut Vec<u8>) -> (r: Result<bool, InflateError>)
    requires
        tables.wf(),
        old(bitreader).wf(),
    ensures
        final(bitreader).wf(),
        final(bitreader).data() == old(bitreader).data(),
        old(bitreader).pos() <= final(bitreader).pos(),
        ({
            let whole = compressed_body(tables.tables(), old(bitreader).data(), old(bitreader).pos(), old(out)@);
            match r {
                Ok(true) => whole == Ok::<(Seq<u8>, int), InflateError>((final(out)@, final(bitreader).pos())),
                Ok(false) => whole == compressed_body(tables.tables(), final(bitreader).data(), final(bitreader).pos(), final(out)@)
                    && old(bitreader).pos() < final(bitreader).pos(),
                Err(e) => whole == Err::<(Seq<u8>, int), InflateError>(e),
            }
        }),
{
    proof {
        bitreader.lemma_pos_bounds();
    }
    let sym = match decode_literal_with(tables, bitreader) {
        Ok(s) => s,
        Err(e) => return Err(e),
    };
    if sym == 256 {
        return Ok(true);
    }
    if sym > 285 {
        return Err(InflateError::InvalidCode);
    }
    proof {
        bitreader.lemma_pos_bounds();
    }
    if sym < 256 {
        out.push(sym as u8);
    } else {
        match copy_back_reference(tables, bitreader, out, sym) {
            Ok(()) => {},
            Err(e) => return Err(e),
        }
        proof {
            bitreader.lemma_pos_bounds();
        }
    }
    Ok(false)
}

/// Decodes the symbols of a compressed block up to its end-of-block symbol,
/// appending the output to `out`.
fn inflate_compressed(tables: &HuffmanTables, bitreader: &mut Bits, out: &mut Vec<u8>) -> (r: Result<(), InflateError>)
    requires
        tables.wf(),
        old(bitreader).wf(),
    ensures
        final(bitreader).wf(),
        final(bitreader).data() == old(bitreader).data(),
        old(bitreader).pos() <= final(bitreader).pos(),
        match compressed_body(tables.tables(), old(bitreader).data(), old(bitreader).pos(), old(out)@) {
            Ok((o, p)) => r is Ok && final(out)@ == o && final(bitreader).pos() == p,
            Err(e) => r == Err::<(), InflateError>(e),
        },
{
    let ghost d = bitreader.data();
    let ghost t = tables.tables();
    let ghost whole = compressed_body(t, d, bitreader.pos(), out@);
    loop
        invariant
            tables.wf(),
            t == tables.tables(),
            bitreader.wf(),
            bitreader.data() == d,
            d == old(bitreader).data(),
            old(bitreader).pos() <= bitreader.pos(),
            whole == compressed_body(t, d, old(bitreader).pos(), old(out)@),
            compressed_body(t, d, bitreader.pos(), out@) == whole,
        decreases 8 * d.len() - bitreader.pos(),
    {
        proof {
            bitreader.lemma_pos_bounds();
        }
        match inflate_symbol(tables, bitreader, out) {
            Ok(true) => return Ok(()),
            Ok(false) => {},
            Err(e) => return Err(e),
        }
        proof {
            bitreader.lemma_pos_bounds();
        }
    }
}

/// Decodes a stored block: aligns to the next byte, reads the length and its
/// complement, and appends that many bytes to `out`.
fn inflate_stored(bitreader: &mut Bits, out: &mut Vec<u8>) -> (r: Result<(), InflateError>)
    requires
        old(bitreader).wf(),
    ensures
        final(bitreader).wf(),
        final(bitreader).data() == old(bitreader).data(),
        old(bitreader).pos() <= final(bitreader).pos(),
        match stored_block(old(bitreader).data(), old(bitreader).pos(), old(out)@) {
            Ok((o, p)) => r is Ok && final(out)@ == o && final(bitreader).pos() == p,
            Err(e) => r == Err::<(), InflateError>(e),
        },
{
    let ghost d = bitreader.data();
    let ghost out0 = out@;
    proof {
        bitreader.lemma_pos_bounds();
        lemma_align_facts(bitreader.pos());
    }
    bitreader.discard_til_byte_boundary();
    let ghost q = bitreader.pos() / 8;
    assert(bitreader.pos() == 8 * q);
    assert(q == align_up(old(bitreader).pos()) / 8);
    let l0 = match bitreader.next_byte() {
        Some(b) => b,
        None => return Err(InflateError::UnexpectedEof),
    };
    assert(bitreader.pos() == 8 * (q + 1));
    let l1 = match bitreader.next_byte() {
        Some(b) => b,
        None => return Err(InflateError::UnexpectedEof),
    };
    assert(bitreader.pos() == 8 * (q + 2));
    let n0 = match bitreader.next_byte() {
        Some(b) => b,
        None => return Err(InflateError::UnexpectedEof),
    };
    assert(bitreader.pos() == 8 * (q + 3));
    let n1 = match bitreader.next_byte() {
        Some(b) => b,
        None => return Err(InflateError::UnexpectedEof),
    };
    let len: u16 = l0 as u16 + 256 * (l1 as u16);
    let nlen: u16 = n0 as u16 + 256 * (n1 as u16);
    if nlen != 65535 - len {
        return Err(InflateError::NonCompressedLengthInvalid);
    }
    let mut i: u16 = 0;
    while i < len
        invariant
            bitreader.wf(),
            bitreader.data() == d,
            d == old(bitreader).data(),
            old(bitreader).pos() <= bitreader.pos(),
            out0 == old(out)@,
            q == align_up(old(bitreader).pos()) / 8,
            i <= len,
            0 <= q,
            q + 4 <= d.len(),
            d[q + 2] + 256 * d[q + 3] == 65535 - len,
            len == d[q] + 256 * d[q + 1],
            bitreader.pos() == 8 * (q + 4 + i),
            out@ == out0 + d.subrange(q + 4, q + 4 + i),
            forall|x: int| #[trigger] (8 * x) % 8 == 0,
            forall|x: int| #[trigger] (8 * x) / 8 == x,
        decreases len - i,
    {
        let b = match bitreader.next_byte() {
            Some(b) => b,
            None => return Err(InflateError::UnexpectedEof),
        };
        assert(b == d[q + 4 + i]);
        assert(q + 4 + i < d.len());
        assert(d.subrange(q + 4, q + 4 + i + 1) =~= d.subrange(q + 4, q + 4 + i).push(b));
        let ghost before = out@;
        out.push(b);
        i = i + 1;
        assert(bitreader.pos() == 8 * (q + 4 + i));
        assert(out@ =~= out0 + d.subrange(q + 4, q + 4 + i));
    }
    proof {
        bitreader.lemma_pos_bounds();
    }
    Ok(())
}

/// Decodes the body of a block of type `typ`, appending its output to `out`.
fn inflate_block_body(bitreader: &mut Bits, out: &mut Vec<u8>, typ: u16) -> (r: Result<(), InflateError>)
    requires
        old(bitreader).wf(),
    ensures
        final(bitreader).wf(),
        final(bitreader).data() == old(bitreader).data(),
        old(bitreader).pos() <= final(bitreader).pos(),
        match block_of_type(typ as nat, old(bitreader).data(), old(bitreader).pos(), old(out)@) {
            Ok((o, p)) => r is Ok && final(out)@ == o && final(bitreader).pos() == p,
            Err(e) => r == Err::<(), InflateError>(e),
        },
{
    proof {
        reveal(block_of_type);
    }
    if typ == 0 {
        inflate_stored(bitreader, out)
    } else if typ == 1 {
        inflate_compressed(&HuffmanTables::Fixed, bitreader, out)
    } else if typ == 2 {
        match read_dynamic_tables(bitreader) {
            Ok(t) => inflate_compressed(&t, bitreader, out),
            Err(e) => Err(e),
        }
    } else {
        Err(InflateError::InvalidBtype)
    }
}

/// Decodes one block, header included: `Ok(true)` if it was the final one.
fn inflate_block(bitreader: &mut Bits, out: &mut Vec<u8>) -> (r: Result<bool, InflateError>)
    requires
        old(bitreader).wf(),
    ensures
        final(bitreader).wf(),
        final(bitreader).data() == old(bitreader).data(),
        old(bitreader).pos() <= final(bitreader).pos(),
        ({
            let whole = inflate_from(old(bitreader).data(), old(bitreader).pos(), old(out)@);
            match r {
                Ok(true) => whole == Ok::<(Seq<u8>, int), InflateError>((final(out)@, final(bitreader).pos())),
                Ok(false) => whole == inflate_from(final(bitreader).data(), final(bitreader).pos(), final(out)@)
                    && old(bitreader).pos() < final(bitreader).pos(),
                Err(e) => whole == Err::<(Seq<u8>, int), InflateError>(e),
            }
        }),
{
    proof {
        bitreader.lemma_pos_bounds();
        lemma_lsb_bound(bitreader.data(), bitreader.pos() + 1, 2);
        lemma2_to64();
    }
    let last = match bitreader.next() {
        Some(b) => b,
        None => return Err(InflateError::UnexpectedEof),
    };
    let typ = match bitreader.read_n_rev(u4::_2) {
        Some(t) => t,
        None => return Err(InflateError::UnexpectedEof),
    };
    match inflate_block_body(bitreader, out, typ) {
        Ok(()) => {},
        Err(e) => return Err(e),
    }
    proof {
        bitreader.lemma_pos_bounds();
    }
    Ok(last)
}

/// Decodes DEFLATE blocks from `bitreader` until the block with the final
/// flag, leaving the reader just after it.
pub fn inflate_bits(bitreader: &mut Bits) -> (r: Result<Vec<u8>, InflateError>)
    requires
        old(bitreader).wf(),
    ensures
        final(bitreader).wf(),
        final(bitreader).data() == old(bitreader).data(),
        old(bitreader).pos() <= final(bitreader).pos(),
        match inflate_from(old(bitreader).data(), old(bitreader).pos(), Seq::empty()) {
            Ok((o, p)) => r is Ok && r->Ok_0@ == o && final(bitreader).pos() == p,
            Err(e) => r == Err::<Vec<u8>, InflateError>(e),
        },
{
    let ghost d = bitreader.data();
    let mut out: Vec<u8> = Vec::new();
    let ghost whole = inflate_from(d, bitreader.pos(), out@);
    loop
        invariant
            bitreader.wf(),
            bitreader.data() == d,
            d == old(bitreader).data(),
            old(bitreader).pos() <= bitreader.pos(),
            whole == inflate_from(d, old(bitreader).pos(), Seq::empty()),
            inflate_from(d, bitreader.pos(), out@) == whole,
        decreases 8 * d.len() - bitreader.pos(),
    {
        proof {
            bitreader.lemma_pos_bounds();
        }
        match inflate_block(bitreader, &mut out) {
            Ok(true) => return Ok(out),
            Ok(false) => {},
            Err(e) => return Err(e),
        }
        proof {
            bitreader.lemma_pos_bounds();
        }
    }
}

/// Decompresses the DEFLATE stream at the start of `input`.
pub fn inflate(input: &[u8]) -> (r: Result<Vec<u8>, InflateError>)
    ensures
        match inflate_spec(input@) {
            Ok((o, p)) => r is Ok && r->Ok_0@ == o,
            Err(e) => r == Err::<Vec<u8>, InflateError>(e),
        },
{
    let mut bitreader = Bits::new(vstd::slice::slice_to_vec(input));
    inflate_bits(&mut bitreader)
}

} // verus!

verus! {

/// The largest payload of one stored block.
pub const MAX_STORED: usize = 65535;

/// One stored block holding `c`: a header byte whose low bit is the final
/// flag (block type 0, padding to the byte boundary), the length and its
/// complement as little-endian 16-bit numbers, then the bytes themselves.
pub open spec fn stored_block_bytes(c: Seq<u8>, last: bool) -> Seq<u8> {
    seq![
        if last { 1u8 } else { 0u8 },
        (c.len() % 256) as u8,
        (c.len() / 256) as u8,
        ((65535 - c.len()) % 256) as u8,
        ((65535 - c.len()) / 256) as u8,
    ] + c
}

/// `b` as a sequence of stored blocks of at most 65535 bytes each, the last
/// one carrying the final flag; an empty input gives one empty final block.
pub open spec fn stored_blocks(b: Seq<u8>) -> Seq<u8>
    decreases b.len(),
{
    if b.len() <= 65535 {
        stored_block_bytes(b, true)
    } else {
        stored_block_bytes(b.subrange(0, 65535), false) + stored_blocks(b.subrange(65535, b.len() as int))
    }
}

/// Appends one stored block holding `input[start..end]` to `out`.
fn push_stored_block(out: &mut Vec<u8>, input: &[u8], start: usize, end: usize, last: bool)
    requires
        start <= end <= input@.len(),
        end - start <= 65535,
    ensures
        final(out)@ == old(out)@ + stored_block_bytes(input@.subrange(start as int, end as int), last),
{
    let len: u16 = (end - start) as u16;
    let nlen: u16 = 65535 - len;
    out.push(if last { 1u8 } else { 0u8 });
    out.push((len % 256) as u8);
    out.push((len / 256) as u8);
    out.push((nlen % 256) as u8);
    out.push((nlen / 256) as u8);
    let ghost head = out@;
    let mut i = start;
    while i < end
        invariant
            start <= i <= end <= input@.len(),
            out@ == head + input@.subrange(start as int, i as int),
        decreases end - i,
    {
        out.push(input[i]);
        i = i + 1;
        assert(out@ =~= head + input@.subrange(start as int, i as int));
    }
    assert(head =~= old(out)@ + seq![
        if last { 1u8 } else { 0u8 },
        (len % 256) as u8,
        (len / 256) as u8,
        (nlen % 256) as u8,
        (nlen / 256) as u8,
    ]);
    assert(out@ =~= old(out)@ + stored_block_bytes(input@.subrange(start as int, end as int), last));
}

/// Stores `input` in a DEFLATE stream made only of stored blocks.
pub fn deflate_immediate(input: &[u8]) -> (r: Vec<u8>)
    ensures
        r@ == stored_blocks(input@),
{
    let n = input.len();
    let mut out: Vec<u8> = Vec::new();
    let mut start: usize = 0;
    assert(input@.subrange(0, n as int) =~= input@);
    assert(out@ + stored_blocks(input@) =~= stored_blocks(input@));
    while n - start > MAX_STORED
        invariant
            start <= n == input@.len(),
            out@ + stored_blocks(input@.subrange(start as int, n as int)) == stored_blocks(input@),
        decreases n - start,
    {
        let ghost rest = input@.subrange(start as int, n as int);
        assert(rest.subrange(0, 65535) =~= input@.subrange(start as int, start + 65535));
        assert(rest.subrange(65535, rest.len() as int) =~= input@.subrange(start + 65535, n as int));
        push_stored_block(&mut out, input, start, start + MAX_STORED, false);
        start = start + MAX_STORED;
        assert(out@ + stored_blocks(input@.subrange(start as int, n as int)) =~= stored_blocks(input@));
    }
    push_stored_block(&mut out, input, start, n, true);
    out
}

} // verus!

verus! {

proof fn lemma_byte_bits(o: int, k: int)
    requires
        0 <= k < 8,
    ensures
        (8 * o + k) / 8 == o,
        (8 * o + k) % 8 == k,
{
    vstd::arithmetic::div_mod::lemma_fundamental_div_mod_converse(8 * o + k, 8, o, k);
}

/// Stored blocks decode to the bytes they hold: wherever `stored_blocks(b)`
/// stands in `d`, from byte `o` on, inflating from there appends `b`.
pub proof fn lemma_stored_blocks_inflate(d: Seq<u8>, o: int, b: Seq<u8>, out: Seq<u8>)
    requires
        0 <= o,
        o + stored_blocks(b).len() <= d.len(),
        d.subrange(o, o + stored_blocks(b).len()) == stored_blocks(b),
    ensures
        inflate_from(d, 8 * o, out) == Ok::<(Seq<u8>, int), InflateError>((out + b, 8 * (o + stored_blocks(b).len()))),
    decreases b.len(),
{
    let s = stored_blocks(b);
    let last = b.len() <= 65535;
    let c = if last { b } else { b.subrange(0, 65535) };
    let blk = stored_block_bytes(c, last);
    assert(s.subrange(0, blk.len() as int) =~= blk);
    assert forall|j: int| 0 <= j < blk.len() implies d[o + j] == #[trigger] blk[j] by {
        assert(d.subrange(o, o + s.len())[j] == s[j]);
    }
    lemma_byte_bits(o, 0);
    lemma_byte_bits(o, 1);
    lemma_byte_bits(o, 2);
    let h = d[o];
    assert(d[o] == blk[0]);
    assert(h == if last { 1u8 } else { 0u8 });
    assert((h >> 0u8) & 1u8 == (if last { 1u8 } else { 0u8 })) by (bit_vector)
        requires h == 0u8 || h == 1u8, last ==> h == 1u8, !last ==> h == 0u8;
    assert((h >> 1u8) & 1u8 == 0u8) by (bit_vector)
        requires h == 0u8 || h == 1u8;
    assert((h >> 2u8) & 1u8 == 0u8) by (bit_vector)
        requires h == 0u8 || h == 1u8;
    assert(bit_at(d, 8 * o) == last);
    assert(!bit_at(d, 8 * o + 1));
    assert(!bit_at(d, 8 * o + 2));
    assert(lsb_bits(d, 8 * o + 1, 2) == 0) by {
        reveal_with_fuel(lsb_bits, 3);
    }
    // the block body
    let p = 8 * o + 3;
    lemma_byte_bits(o, 3);
    assert(align_up(p) == 8 * (o + 1));
    lemma_byte_bits(o + 1, 0);
    let q = o + 1;
    let len = c.len();
    assert(d[q] + 256 * d[q + 1] == len) by {
        assert(d[o + 1] == blk[1]);
        assert(d[o + 2] == blk[2]);
    }
    assert(d[q + 2] + 256 * d[q + 3] == 65535 - len) by {
        assert(d[o + 3] == blk[3]);
        assert(d[o + 4] == blk[4]);
    }
    assert(d.subrange(q + 4, q + 4 + len) =~= c) by {
        assert forall|j: int| 0 <= j < len implies d.subrange(q + 4, q + 4 + len)[j] == c[j] by {
            assert(blk[5 + j] == c[j]);
        }
    }
    assert(stored_block(d, p, out) == Ok::<(Seq<u8>, int), InflateError>((out + c, 8 * (o + 5 + len))));
    assert(block_of_type(0, d, p, out) == stored_block(d, p, out)) by {
        reveal(block_of_type);
    }
    if last {
        assert(inflate_from(d, 8 * o, out) == Ok::<(Seq<u8>, int), InflateError>((out + c, 8 * (o + 5 + len))));
    } else {
        let rest = b.subrange(65535, b.len() as int);
        let o2 = o + 5 + 65535;
        assert(s == blk + stored_blocks(rest));
        assert(d.subrange(o2, o2 + stored_blocks(rest).len()) =~= stored_blocks(rest)) by {
            assert forall|j: int| 0 <= j < stored_blocks(rest).len() implies
                d.subrange(o2, o2 + stored_blocks(rest).len())[j] == stored_blocks(rest)[j] by {
                assert(d.subrange(o, o + s.len())[65540 + j] == s[65540 + j]);
            }
        }
        lemma_stored_blocks_inflate(d, o2, rest, out + c);
        assert(out + c + rest =~= out + b);
        assert(inflate_from(d, 8 * o, out) == inflate_from(d, 8 * o2, out + c));
    }
}

} // verus!
