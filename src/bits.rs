//! A reader over the bits of a byte sequence, least significant bit of each byte first.
use vstd::prelude::*;
use vstd::arithmetic::power2::{pow2, lemma_pow2_unfold, lemma2_to64, lemma_pow2_pos};
use crate::u4mod::u4;

verus! {

/// Bit `p` of `d`, counting from bit 0 of byte 0 and taking each byte
/// least significant bit first.
pub open spec fn bit_at(d: Seq<u8>, p: int) -> bool {
    (d[p / 8] >> ((p % 8) as u8)) & 1u8 == 1u8
}

/// The `n` bits of `d` from bit `p` on as a number, the first bit read
/// being the most significant.
pub open spec fn msb_bits(d: Seq<u8>, p: int, n: nat) -> nat
    decreases n,
{
    if n == 0 {
        0
    } else {
        2 * msb_bits(d, p, (n - 1) as nat) + if bit_at(d, p + n - 1) { 1nat } else { 0nat }
    }
}

/// The `n` bits of `d` from bit `p` on as a number, the first bit read
/// being the least significant.
pub open spec fn lsb_bits(d: Seq<u8>, p: int, n: nat) -> nat
    decreases n,
{
    if n == 0 {
        0
    } else {
        lsb_bits(d, p, (n - 1) as nat) + if bit_at(d, p + n - 1) { pow2((n - 1) as nat) } else { 0nat }
    }
}

/// Bit position `p` rounded up to the next byte boundary.
pub open spec fn align_up(p: int) -> int {
    if p % 8 == 0 { p } else { p - p % 8 + 8 }
}

pub proof fn lemma_align_facts(p: int)
    requires
        p >= 0,
    ensures
        align_up(p) % 8 == 0,
        align_up(p) == 8 * (align_up(p) / 8),
        p <= align_up(p) < p + 8,
        forall|x: int| #[trigger] (8 * x) % 8 == 0,
        forall|x: int| #[trigger] (8 * x) / 8 == x,
{
    assert forall|x: int| #[trigger] (8 * x) % 8 == 0 by {
        vstd::arithmetic::div_mod::lemma_mod_multiples_basic(x, 8);
    }
    assert forall|x: int| #[trigger] (8 * x) / 8 == x by {
        vstd::arithmetic::div_mod::lemma_div_multiples_vanish(x, 8);
    }
    vstd::arithmetic::div_mod::lemma_fundamental_div_mod(p, 8);
    if p % 8 != 0 {
        assert(align_up(p) == 8 * (p / 8 + 1));
    }
}

pub proof fn lemma_msb_bound(d: Seq<u8>, p: int, n: nat)
    ensures
        msb_bits(d, p, n) < pow2(n),
    decreases n,
{
    if n > 0 {
        lemma_msb_bound(d, p, (n - 1) as nat);
        lemma_pow2_unfold(n);
    } else {
        lemma_pow2_pos(0);
    }
}

pub proof fn lemma_lsb_bound(d: Seq<u8>, p: int, n: nat)
    ensures
        lsb_bits(d, p, n) < pow2(n),
    decreases n,
{
    if n > 0 {
        lemma_lsb_bound(d, p, (n - 1) as nat);
        lemma_pow2_unfold(n);
    } else {
        lemma_pow2_pos(0);
    }
}

/// Reads the bits of a byte sequence one at a time, least significant bit
/// of each byte first.
pub struct Bits {
    /// the source of bytes
    backing: Vec<u8>,
    /// the byte that bits are currently taken from
    byte: usize,
    /// how many bits of that byte have been read
    used: u8,
}

impl Bits {
    /// The whole byte sequence being read.
    pub closed spec fn data(&self) -> Seq<u8> {
        self.backing@
    }

    /// How many bits have been read so far.
    pub closed spec fn pos(&self) -> int {
        8 * self.byte as int + self.used as int
    }

    pub closed spec fn wf(&self) -> bool {
        &&& self.used < 8
        &&& self.byte <= self.backing@.len()
        &&& self.byte == self.backing@.len() ==> self.used == 0
    }

    pub proof fn lemma_pos_bounds(&self)
        requires
            self.wf(),
        ensures
            0 <= self.pos() <= 8 * self.data().len(),
    {
    }

    /// A reader positioned at the first bit of `backing`.
    pub fn new(backing: Vec<u8>) -> (r: Bits)
        ensures
            r.wf(),
            r.data() == backing@,
            r.pos() == 0,
    {
        Bits { backing, byte: 0, used: 0 }
    }

    /// The next bit, or `None` at the end of the data.
    pub fn next(&mut self) -> (r: Option<bool>)
        requires
            old(self).wf(),
        ensures
            final(self).wf(),
            final(self).data() == old(self).data(),
            old(self).pos() <= final(self).pos(),
            old(self).pos() < 8 * old(self).data().len() ==> r == Some(bit_at(old(self).data(), old(self).pos()))
                && final(self).pos() == old(self).pos() + 1,
            old(self).pos() >= 8 * old(self).data().len() ==> r is None && final(self).pos() == old(self).pos(),
    {
        if self.byte >= self.backing.len() {
            return None;
        }
        let p = Ghost(self.pos());
        let b = self.backing[self.byte];
        let u = self.used;
        assert(p@ / 8 == self.byte as int && p@ % 8 == u as int) by (nonlinear_arith)
            requires p@ == 8 * self.byte as int + u as int, u < 8;
        let r = (b >> u) & 1u8 == 1u8;
        if self.used == 7 {
            self.used = 0;
            self.byte = self.byte + 1;
        } else {
            self.used = self.used + 1;
        }
        Some(r)
    }

    /// Reads `bit_count` bits into a number whose most significant bit is the
    /// first bit read, or `None` if fewer bits remain.
    pub fn read_n(&mut self, bit_count: u4) -> (r: Option<u16>)
        requires
            old(self).wf(),
        ensures
            final(self).wf(),
            final(self).data() == old(self).data(),
            old(self).pos() <= final(self).pos(),
            old(self).pos() + bit_count.val() <= 8 * old(self).data().len() ==> r is Some
                && r->0 as nat == msb_bits(old(self).data(), old(self).pos(), bit_count.val()) && final(self).pos() == old(self).pos() + bit_count.val(),
            old(self).pos() + bit_count.val() > 8 * old(self).data().len() ==> r is None,
    {
        let n = bit_count.value();
        let ghost p0 = self.pos();
        let ghost d = self.data();
        let mut retval: u16 = 0;
        let mut i: u8 = 0;
        proof {
            lemma2_to64();
        }
        while i < n
            invariant
                self.wf(),
                self.data() == d,
                d == old(self).data(),
                p0 == old(self).pos(),
                n as nat == bit_count.val(),
                i <= n,
                self.pos() == p0 + i,
                retval as nat == msb_bits(d, p0, i as nat),
                pow2(15) == 32768,
            decreases n - i,
        {
            match self.next() {
                Some(b) => {
                    proof {
                        lemma_msb_bound(d, p0, i as nat);
                        vstd::arithmetic::power2::lemma_pow2_strictly_increases(i as nat, 15);
                    }
                    retval = retval * 2 + if b { 1 } else { 0 };
                },
                None => {
                    return None;
                },
            }
            i = i + 1;
        }
        Some(retval)
    }

    /// Reads `bit_count` bits into a number whose least significant bit is the
    /// first bit read, or `None` if fewer bits remain.
    pub fn read_n_rev(&mut self, bit_count: u4) -> (r: Option<u16>)
        requires
            old(self).wf(),
        ensures
            final(self).wf(),
            final(self).data() == old(self).data(),
            old(self).pos() <= final(self).pos(),
            old(self).pos() + bit_count.val() <= 8 * old(self).data().len() ==> r is Some
                && r->0 as nat == lsb_bits(old(self).data(), old(self).pos(), bit_count.val()) && final(self).pos() == old(self).pos() + bit_count.val(),
            old(self).pos() + bit_count.val() > 8 * old(self).data().len() ==> r is None,
    {
        let n = bit_count.value();
        let ghost p0 = self.pos();
        let ghost d = self.data();
        let mut retval: u16 = 0;
        let mut i: u8 = 0;
        proof {
            lemma2_to64();
        }
        while i < n
            invariant
                self.wf(),
                self.data() == d,
                d == old(self).data(),
                p0 == old(self).pos(),
                n as nat == bit_count.val(),
                i <= n,
                self.pos() == p0 + i,
                retval as nat == lsb_bits(d, p0, i as nat),
                pow2(15) == 32768,
            decreases n - i,
        {
            match self.next() {
                Some(b) => {
                    let w = u4::truncate(i).nth_bit();
                    proof {
                        lemma_lsb_bound(d, p0, i as nat);
                        vstd::arithmetic::power2::lemma_pow2_strictly_increases(i as nat, 15);
                        lemma_pow2_unfold((i + 1) as nat);
                    }
                    if b {
                        retval = retval + w;
                    }
                },
                None => {
                    return None;
                },
            }
            i = i + 1;
        }
        Some(retval)
    }

    /// Discards the bits that remain in the current byte.
    pub fn discard_til_byte_boundary(&mut self)
        requires
            old(self).wf(),
        ensures
            final(self).wf(),
            final(self).data() == old(self).data(),
            old(self).pos() <= final(self).pos(),
            final(self).pos() == align_up(old(self).pos()),
    {
        let len = self.backing.len();
        if self.used != 0 {
            assert(self.byte < len);
            assert((8 * self.byte as int + self.used as int) % 8 == self.used as int) by (nonlinear_arith)
                requires self.used < 8;
            self.used = 0;
            self.byte = self.byte + 1;
        } else {
            assert((8 * self.byte as int) % 8 == 0) by (nonlinear_arith);
        }
    }

    /// The next whole byte; the reader must stand at a byte boundary.
    pub fn next_byte(&mut self) -> (r: Option<u8>)
        requires
            old(self).wf(),
            old(self).pos() % 8 == 0,
        ensures
            final(self).wf(),
            final(self).data() == old(self).data(),
            old(self).pos() <= final(self).pos(),
            old(self).pos() + 8 <= 8 * old(self).data().len() ==> r == Some(old(self).data()[old(self).pos() / 8])
                && final(self).pos() == old(self).pos() + 8,
            old(self).pos() + 8 > 8 * old(self).data().len() ==> r is None,
    {
        assert(self.used == 0 && self.pos() / 8 == self.byte) by (nonlinear_arith)
            requires self.used < 8, self.pos() % 8 == 0, self.pos() == 8 * self.byte as int + self.used as int;
        if self.byte < self.backing.len() {
            let b = self.backing[self.byte];
            self.byte = self.byte + 1;
            Some(b)
        } else {
            None
        }
    }
}

} // verus!
