//! Occurrence counts of one token, and their packing into one 64-bit value.

use vstd::prelude::*;

verus! {

/// How often a token was seen in spam and in ham.
#[derive(Debug, Clone, Copy, PartialEq, Eq, Structural)]
pub struct Counter {
    pub spam: u32,
    pub ham: u32,
}

/// Number of values a 32-bit count can take; the weight of `spam` in the packed form.
pub const COUNT_SPAN: u64 = 0x1_0000_0000;

impl Counter {
    /// The packed form as a number: `spam` in the high 32 bits, `ham` in the low 32 bits.
    pub open spec fn packed(self) -> int {
        self.spam as int * COUNT_SPAN as int + self.ham as int
    }

    /// The counter that a packed value stands for.
    pub open spec fn unpacked(value: u64) -> Counter {
        Counter {
            spam: (value as int / COUNT_SPAN as int) as u32,
            ham: (value as int % COUNT_SPAN as int) as u32,
        }
    }

    /// Splits a packed value into its two counts.
    pub fn from_u64(value: u64) -> (counter: Counter)
        ensures
            counter == Counter::unpacked(value),
            counter.packed() == value,
    {
        let spam = (value >> 32) as u32;
        let ham = (value & 0xffff_ffff) as u32;
        assert((value >> 32) == value / 0x1_0000_0000 && (value >> 32) <= 0xffff_ffff)
            by (bit_vector);
        assert((value & 0xffff_ffff) == value % 0x1_0000_0000) by (bit_vector);
        Counter { spam, ham }
    }

    /// Packs the two counts into one value.
    pub fn to_u64(self) -> (value: u64)
        ensures
            value == self.packed(),
            Counter::unpacked(value) == self,
    {
        let spam = self.spam as u64;
        let ham = self.ham as u64;
        assert(spam <= 0xffff_ffff && ham <= 0xffff_ffff ==> ((spam << 32) | ham) == spam
            * 0x1_0000_0000 + ham) by (bit_vector);
        proof {
            lemma_unpack_pack(self);
        }
        (spam << 32) | ham
    }
}

impl Default for Counter {
    fn default() -> (counter: Counter)
        ensures
            counter == (Counter { spam: 0, ham: 0 }),
    {
        Counter { spam: 0, ham: 0 }
    }
}

/// Packing is lossless: unpacking the packed form of any counter gives the
/// counter back, and the packed form always fits in 64 bits.
pub proof fn lemma_unpack_pack(c: Counter)
    ensures
        0 <= c.packed() <= u64::MAX,
        Counter::unpacked(c.packed() as u64) == c,
{
    let p = c.packed();
    assert(p / 0x1_0000_0000 == c.spam && p % 0x1_0000_0000 == c.ham) by (nonlinear_arith)
        requires
            p == c.spam as int * 0x1_0000_0000 + c.ham as int,
            0 <= c.ham < 0x1_0000_0000,
            0 <= c.spam,
    ;
}

/// Every 64-bit value is the packed form of exactly the counter it unpacks to.
pub proof fn lemma_pack_unpack(value: u64)
    ensures
        Counter::unpacked(value).packed() == value,
        forall|c: Counter| c.packed() == value ==> c == Counter::unpacked(value),
{
    let v = value as int;
    assert(0 <= v / 0x1_0000_0000 <= 0xffff_ffff && 0 <= v % 0x1_0000_0000 < 0x1_0000_0000 && v
        == (v / 0x1_0000_0000) * 0x1_0000_0000 + v % 0x1_0000_0000) by (nonlinear_arith)
        requires
            0 <= v <= 0xffff_ffff_ffff_ffff,
    ;
    assert forall|c: Counter| c.packed() == value implies c == Counter::unpacked(value) by {
        lemma_unpack_pack(c);
    }
}

} // verus!
