//! A numeric type holding four bits of information.
use vstd::prelude::*;
use vstd::arithmetic::power2::pow2;

verus! {

/// A four-bit unsigned number.
#[allow(non_camel_case_types)]
#[derive(Copy, Clone, PartialEq, Eq, Debug, Structural)]
pub enum u4 {
    _0, _1, _2, _3, _4, _5, _6, _7,
    _8, _9, _A, _B, _C, _D, _E, _F,
}

impl u4 {
    /// The numeric value of this four-bit number.
    pub open spec fn val(self) -> nat {
        match self {
            u4::_0 => 0, u4::_1 => 1, u4::_2 => 2, u4::_3 => 3,
            u4::_4 => 4, u4::_5 => 5, u4::_6 => 6, u4::_7 => 7,
            u4::_8 => 8, u4::_9 => 9, u4::_A => 10, u4::_B => 11,
            u4::_C => 12, u4::_D => 13, u4::_E => 14, u4::_F => 15,
        }
    }

    /// Keeps the low four bits of `src`.
    pub fn truncate(src: u8) -> (r: u4)
        ensures
            r.val() == src as nat % 16,
    {
        let v = src % 16;
        if v == 0 { u4::_0 } else if v == 1 { u4::_1 } else if v == 2 { u4::_2 }
        else if v == 3 { u4::_3 } else if v == 4 { u4::_4 } else if v == 5 { u4::_5 }
        else if v == 6 { u4::_6 } else if v == 7 { u4::_7 } else if v == 8 { u4::_8 }
        else if v == 9 { u4::_9 } else if v == 10 { u4::_A } else if v == 11 { u4::_B }
        else if v == 12 { u4::_C } else if v == 13 { u4::_D } else if v == 14 { u4::_E }
        else { u4::_F }
    }

    /// The value of this number as a byte.
    pub fn value(self) -> (r: u8)
        ensures
            r as nat == self.val(),
    {
        match self {
            u4::_0 => 0, u4::_1 => 1, u4::_2 => 2, u4::_3 => 3,
            u4::_4 => 4, u4::_5 => 5, u4::_6 => 6, u4::_7 => 7,
            u4::_8 => 8, u4::_9 => 9, u4::_A => 10, u4::_B => 11,
            u4::_C => 12, u4::_D => 13, u4::_E => 14, u4::_F => 15,
        }
    }

    /// Returns `2 ^ self`.
    pub fn nth_bit(self) -> (r: u16)
        ensures
            r as nat == pow2(self.val()),
    {
        proof {
            vstd::arithmetic::power2::lemma2_to64();
        }
        match self {
            u4::_0 => 0x0001, u4::_1 => 0x0002, u4::_2 => 0x0004, u4::_3 => 0x0008,
            u4::_4 => 0x0010, u4::_5 => 0x0020, u4::_6 => 0x0040, u4::_7 => 0x0080,
            u4::_8 => 0x0100, u4::_9 => 0x0200, u4::_A => 0x0400, u4::_B => 0x0800,
            u4::_C => 0x1000, u4::_D => 0x2000, u4::_E => 0x4000, u4::_F => 0x8000,
        }
    }

    /// Splits a byte into its high and its low four bits.
    pub fn split(src: u8) -> (r: (u4, u4))
        ensures
            r.0.val() == src as nat / 16,
            r.1.val() == src as nat % 16,
    {
        (u4::truncate(src / 16), u4::truncate(src))
    }

    /// Joins a high and a low four-bit number into a byte.
    pub fn concat(a: u4, b: u4) -> (r: u8)
        ensures
            r as nat == a.val() * 16 + b.val(),
    {
        a.value() * 16 + b.value()
    }
}

/// Counts upward from zero to an exclusive four-bit bound.
pub struct ZeroToRangeIter {
    current: u4,
    end: u4,
}

impl ZeroToRangeIter {
    /// The values that are still to come, in order.
    pub closed spec fn remaining(&self) -> Seq<nat> {
        if self.current.val() < self.end.val() {
            Seq::new((self.end.val() - self.current.val()) as nat, |i: int| (self.current.val() + i) as nat)
        } else {
            Seq::empty()
        }
    }

    /// A counter over `0 .. end`.
    pub fn new(end: u4) -> (r: ZeroToRangeIter)
        ensures
            r.remaining() == Seq::new(end.val(), |i: int| i as nat),
    {
        let r = ZeroToRangeIter { current: u4::_0, end: end };
        assert(r.remaining() =~= Seq::new(end.val(), |i: int| i as nat));
        r
    }

    /// The next value, if any remains.
    pub fn next(&mut self) -> (r: Option<u4>)
        ensures
            old(self).remaining().len() == 0 ==> r is None && final(self).remaining() == old(self).remaining(),
            old(self).remaining().len() > 0 ==> r is Some && r->0.val() == old(self).remaining()[0]
                && final(self).remaining() == old(self).remaining().drop_first(),
    {
        let c = self.current.value();
        if c >= self.end.value() {
            None
        } else {
            let ret = self.current;
            self.current = u4::truncate(c + 1);
            assert(self.remaining() =~= old(self).remaining().drop_first());
            Some(ret)
        }
    }
}

} // verus!
