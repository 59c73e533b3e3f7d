//! The state of a range encoder, and how carries run through it.
//!
//! The low end of the interval is held in parts: bytes written out, a cached
//! byte, a run of pending bytes that are all ones, and the 32 bits still in
//! motion, which may carry into the bytes before them.

use crate::interval::{
    big_endian, law_bit_takes_at_most_one_byte, lemma_leading_zero, lemma_share,
    lemma_start_leads_with_zero, spells, usable, zero_share, Interval, TOP,
};
use vstd::prelude::*;

verus! {

/// `n` bytes of the same value.
pub open spec fn repeated(byte: u8, n: nat) -> Seq<u8> {
    Seq::new(n, |i: int| byte)
}

/// The state of a range encoder.
pub struct Coder {
    /// The bits in motion, and a carry above them.
    pub low: nat,
    pub range: nat,
    /// The byte that a carry may still raise.
    pub cache: u8,
    /// The cached byte and the bytes of all ones after it.
    pub pending: nat,
    /// The bytes written out.
    pub out: Seq<u8>,
}

impl Coder {
    /// The state before any bit was coded.
    pub open spec fn start() -> Coder {
        Coder { low: 0, range: 0xFFFF_FFFF, cache: 0, pending: 1, out: seq![] }
    }

    /// The bytes decided so far, before a carry out of `low`.
    pub open spec fn digits(self) -> Seq<u8> {
        self.out.push(self.cache) + repeated(0xFF, (self.pending - 1) as nat)
    }

    /// The interval that the bits coded so far have narrowed to.
    pub open spec fn interval(self) -> Interval {
        Interval {
            low: big_endian(self.digits()) * 0x1_0000_0000 + self.low,
            range: self.range,
            len: self.out.len() + self.pending + 4,
        }
    }

    /// A carry out of `low` stops at the cached byte at the latest.
    pub open spec fn sound(self) -> bool {
        &&& 0 < self.range < 0x1_0000_0000
        &&& self.low + self.range <= 0x2_0000_0000
        &&& self.pending >= 1
        &&& self.cache == 0xFF ==> self.low + self.range <= 0x1_0000_0000
    }

    /// A state that coding can reach.
    pub open spec fn wf(self) -> bool {
        &&& self.sound()
        &&& self.interval().wide()
        &&& self.interval().leads_with_zero()
    }

    /// The bytes written out once a carry out of `low`, if there is one, has
    /// run through the pending ones.
    pub open spec fn settled(self) -> Seq<u8> {
        let carry = self.low / 0x1_0000_0000;
        self.out.push(((self.cache + carry) % 256) as u8) + repeated(
            ((0xFF + carry) % 256) as u8,
            (self.pending - 1) as nat,
        )
    }

    /// Move the top byte of `low` on. A byte of all ones becomes pending,
    /// since a carry may still run through it; any other settles those before.
    #[verifier::opaque]
    pub open spec fn shift(self) -> Coder {
        let low = (self.low * 256) % 0x1_0000_0000;
        if 0xFF00_0000 <= self.low <= 0xFFFF_FFFF {
            Coder { low, pending: self.pending + 1, ..self }
        } else {
            Coder {
                low,
                range: self.range,
                cache: ((self.low / 0x100_0000) % 256) as u8,
                pending: 1,
                out: self.settled(),
            }
        }
    }

    /// Take the part of the range that belongs to `bit`.
    pub open spec fn narrow(self, p: int, bit: bool) -> Coder {
        let share = zero_share(self.range, p);
        if bit {
            Coder { low: (self.low + share) as nat, range: (self.range - share) as nat, ..self }
        } else {
            Coder { range: share as nat, ..self }
        }
    }

    /// Move bytes on until the range is wide again.
    pub open spec fn widen(self) -> Coder
        decreases 0x1_0000_0000 - self.range,
    {
        if 0 < self.range < TOP {
            proof {
                reveal(Coder::shift);
            }
            (Coder { range: self.range * 256, ..self }).shift().widen()
        } else {
            self
        }
    }

    /// The state after coding `bit` with probability `p` of a zero.
    pub open spec fn code(self, p: int, bit: bool) -> Coder {
        self.narrow(p, bit).widen()
    }

    /// The state after `k` bytes were moved on.
    pub open spec fn shifted(self, k: nat) -> Coder
        decreases k,
    {
        if k == 0 {
            self
        } else {
            self.shifted((k - 1) as nat).shift()
        }
    }

    /// The bytes that flushing gives.
    pub open spec fn flushed(self) -> Seq<u8> {
        self.shifted(5).out
    }
}

/// A carry into a run of all ones turns the run to zeros and raises the byte
/// before it.
proof fn lemma_carry(head: Seq<u8>, byte: u8, n: nat)
    requires
        byte < 0xFF,
    ensures
        big_endian(head.push((byte + 1) as u8) + repeated(0, n)) == big_endian(
            head.push(byte) + repeated(0xFF, n),
        ) + 1,
    decreases n,
{
    let raised = head.push((byte + 1) as u8) + repeated(0, n);
    let before = head.push(byte) + repeated(0xFF, n);
    if n == 0 {
        assert(raised.drop_last() =~= head);
        assert(before.drop_last() =~= head);
    } else {
        lemma_carry(head, byte, (n - 1) as nat);
        assert(raised.drop_last() =~= head.push((byte + 1) as u8) + repeated(0, (n - 1) as nat));
        assert(before.drop_last() =~= head.push(byte) + repeated(0xFF, (n - 1) as nat));
    }
}

/// Moving a byte on loses no carry: the low end of the interval is multiplied
/// by 256, with one more byte, and what was written out stays at the front.
pub proof fn law_shifting_loses_no_carry(c: Coder)
    requires
        c.pending >= 1,
        c.low < 0x2_0000_0000,
        c.low < 0x1_0000_0000 || c.cache < 0xFF,
    ensures
        c.shift().interval().low == 256 * c.interval().low,
        c.shift().interval().len == c.interval().len + 1,
        c.shift().range == c.range,
        c.shift().low == (c.low * 256) % 0x1_0000_0000,
        c.shift().pending >= 1,
        c.out.is_prefix_of(c.shift().out),
        c.shift().out.len() + c.shift().pending == c.out.len() + c.pending + 1,
        !(0xFF00_0000 <= c.low <= 0xFFFF_FFFF) ==> big_endian(c.shift().out) == big_endian(
            c.digits(),
        ) + c.low / 0x1_0000_0000,
{
    reveal(Coder::shift);
    let next = c.shift();
    if 0xFF00_0000 <= c.low <= 0xFFFF_FFFF {
        assert(next.digits().drop_last() =~= c.digits());
        assert(next.digits().last() == 0xFF);
    } else {
        assert(next.digits() =~= next.out.push(next.cache));
        assert(next.digits().drop_last() =~= next.out);
        if c.low >= 0x1_0000_0000 {
            lemma_carry(c.out, c.cache, (c.pending - 1) as nat);
        } else {
            assert(c.settled() =~= c.digits());
        }
    }
}

/// The state before any bit was coded is sound and stands at the starting
/// interval.
pub proof fn lemma_start()
    ensures
        Coder::start().wf(),
        Coder::start().interval() == Interval::start(),
{
    let c = Coder::start();
    assert(c.digits() =~= seq![0u8]);
    reveal_with_fuel(big_endian, 2);
    assert(c.digits().drop_last() =~= seq![]);
    lemma_start_leads_with_zero();
}

/// One step of widening keeps a state sound.
pub proof fn lemma_widen_step(c: Coder)
    requires
        c.sound(),
        c.range < TOP,
    ensures
        ({
            let next = Coder { range: c.range * 256, ..c }.shift();
            &&& next.sound()
            &&& next.range == c.range * 256
            &&& next.interval() == (Interval {
                low: c.interval().low * 256,
                range: c.range * 256,
                len: c.interval().len + 1,
            })
            &&& c.out.is_prefix_of(next.out)
        }),
{
    reveal(Coder::shift);
    let wide = Coder { range: c.range * 256, ..c };
    assert(wide.digits() == c.digits());
    law_shifting_loses_no_carry(wide);
}

/// Coding a bit narrows and widens the interval of the coder, keeps the coder
/// in a state that coding can reach, and leaves what was written out at the
/// front.
pub proof fn law_coding_narrows(c: Coder, p: int, bit: bool)
    requires
        c.wf(),
        usable(p),
    ensures
        c.code(p, bit).interval() == c.interval().code(p, bit),
        c.code(p, bit).wf(),
        c.out.is_prefix_of(c.code(p, bit).out),
        c.interval().len <= c.code(p, bit).interval().len <= c.interval().len + 1,
{
    lemma_share(c.range, p);
    law_bit_takes_at_most_one_byte(c.interval(), p, bit);
    let part = c.narrow(p, bit);
    assert(part.digits() == c.digits());
    assert(part.interval() == c.interval().narrow(p, bit));
    reveal_with_fuel(Coder::widen, 2);
    if part.range < TOP {
        lemma_widen_step(part);
    }
}

proof fn lemma_prefix_chain(a: Seq<u8>, b: Seq<u8>, c: Seq<u8>)
    requires
        a.is_prefix_of(b),
        b.is_prefix_of(c),
    ensures
        a.is_prefix_of(c),
{
    assert(c.subrange(0, a.len() as int) =~= b.subrange(0, a.len() as int));
}

/// One byte on the way to being flushed.
proof fn lemma_next_shifted(c: Coder, k: nat)
    requires
        c.shifted(k).pending >= 1,
        c.shifted(k).low < 0x2_0000_0000,
        c.shifted(k).low < 0x1_0000_0000 || c.shifted(k).cache < 0xFF,
        c.out.is_prefix_of(c.shifted(k).out),
    ensures
        ({
            let (now, next) = (c.shifted(k), c.shifted(k + 1));
            &&& next.low == (now.low * 256) % 0x1_0000_0000
            &&& next.pending >= 1
            &&& next.out.len() + next.pending == now.out.len() + now.pending + 1
            &&& next.interval().low == 256 * now.interval().low
            &&& c.out.is_prefix_of(next.out)
        }),
{
    let now = c.shifted(k);
    assert(c.shifted(k + 1) == now.shift());
    law_shifting_loses_no_carry(now);
    lemma_prefix_chain(c.out, now.out, now.shift().out);
}

/// Four bytes on, nothing is left of 32 bits.
proof fn lemma_four_bytes(l0: int, l1: int, l2: int, l3: int, l4: int)
    requires
        l1 == (l0 * 256) % 0x1_0000_0000,
        l2 == (l1 * 256) % 0x1_0000_0000,
        l3 == (l2 * 256) % 0x1_0000_0000,
        l4 == (l3 * 256) % 0x1_0000_0000,
    ensures
        l4 == 0,
{
    assert(l1 % 0x100 == 0);
    assert(l2 % 0x1_0000 == 0);
    assert(l3 % 0x100_0000 == 0);
}

/// How a coder moves on towards being flushed: each byte multiplies the low
/// end by 256, and after four of them no bits are left in motion.
pub proof fn lemma_shifted(c: Coder, k: nat)
    requires
        c.sound(),
        k <= 4,
    ensures
        ({
            let later = c.shifted(k);
            &&& later.low < 0x2_0000_0000
            &&& later.low < 0x1_0000_0000 || later.cache < 0xFF
            &&& later.pending >= 1
            &&& later.out.len() + later.pending == c.out.len() + c.pending + k
            &&& c.out.is_prefix_of(later.out)
            &&& k == 4 ==> later.low == 0
            &&& k == 4 ==> later.interval().low == 0x1_0000_0000 * c.interval().low
        }),
{
    assert(c.shifted(0) == c);
    assert(c.out.subrange(0, c.out.len() as int) =~= c.out);
    if k >= 1 {
        lemma_next_shifted(c, 0);
    }
    if k >= 2 {
        lemma_next_shifted(c, 1);
    }
    if k >= 3 {
        lemma_next_shifted(c, 2);
    }
    if k >= 4 {
        lemma_next_shifted(c, 3);
        lemma_four_bytes(
            c.low as int,
            c.shifted(1).low as int,
            c.shifted(2).low as int,
            c.shifted(3).low as int,
            c.shifted(4).low as int,
        );
    }
}

/// Flushing writes out the low end of the interval in full, behind what was
/// written out before, with a zero byte first.
pub proof fn law_flushing_spells_the_low_end(c: Coder)
    requires
        c.wf(),
    ensures
        spells(c.flushed(), c.interval()),
        c.flushed().len() == c.out.len() + c.pending + 4,
        c.out.is_prefix_of(c.flushed()),
        c.flushed().len() >= 5,
        c.flushed()[0] == 0,
{
    let ready = c.shifted(4);
    let last = ready.shift();
    lemma_shifted(c, 4);
    law_shifting_loses_no_carry(ready);
    assert(c.shifted(5) == last);
    assert(big_endian(last.out) == big_endian(ready.digits()));
    assert(big_endian(ready.digits()) == c.interval().low);
    assert(last.pending == 1) by {
        reveal(Coder::shift);
    }
    lemma_prefix_chain(c.out, ready.out, last.out);
    lemma_leading_zero(c.interval(), last.out);
}

/// Flushing gives the digits of the low end, as many as the interval has, and
/// nothing else.
pub proof fn law_flushing_writes_the_digits(c: Coder)
    requires
        c.wf(),
    ensures
        big_endian(c.flushed()) == c.interval().low,
        c.flushed().len() == c.interval().len,
{
    law_flushing_spells_the_low_end(c);
}

} // verus!
