//! A binary range coder with adaptive bit models.
//!
//! Probabilities are kept to 11 bits, the range is 32 bits and renormalisation
//! is byte-oriented. Every bit is coded against its *own* adaptive probability,
//! which is what lets the quadtree coder spend well under one bit on the very
//! skewed decisions (most nodes are leaves, most gradients are near zero).
//!
//! Encoder and decoder must drive their models in lockstep: a [`BitModel`]
//! adapts identically on both sides because it only ever sees the bits that
//! were actually coded.

use crate::coder::{
    law_coding_narrows, law_flushing_spells_the_low_end, lemma_shifted, lemma_start,
    lemma_widen_step, Coder,
};
use crate::interval::{
    adapt, all_usable, big_endian, code_at, lemma_code_at, lemma_read_at, lemma_share, read_at, spells, usable,
    zero_share, Cursor, Interval, TOP,
};
use vstd::prelude::*;

verus! {

/// Bits of precision in a model probability.
const MODEL_BITS: u32 = 11;

/// Total probability mass, `1 << MODEL_BITS`.
const MODEL_TOTAL: u16 = 2048;

/// Adaptation rate: a probability moves `1/32` of the way to certainty.
const MOVE_BITS: u32 = 5;

/// An adaptive probability for a single binary decision.
///
/// `p` is the probability that the next bit is `0`, scaled by `MODEL_TOTAL`.
/// It starts at 1/2 and drifts towards whichever bit actually occurs.
#[derive(Clone, Copy, Debug)]
pub struct BitModel {
    p: u16,
}

impl View for BitModel {
    type V = int;

    closed spec fn view(&self) -> int {
        self.p as int
    }
}

impl BitModel {
    /// The probability is one that coding can reach.
    pub open spec fn wf(&self) -> bool {
        usable(self@)
    }

    pub fn new() -> (model: Self)
        ensures
            model@ == 1024,
            model.wf(),
    {
        BitModel { p: MODEL_TOTAL / 2 }
    }

    /// Adapt to a zero bit: the probability of a zero drifts up, as long as
    /// it is below 2017.
    pub fn update_zero(&mut self)
        requires
            old(self).wf(),
        ensures
            final(self)@ == adapt(old(self)@, false),
            final(self).wf(),
            final(self)@ >= old(self)@,
            final(self)@ > old(self)@ <==> old(self)@ < 2017,
    {
        let room: u16 = MODEL_TOTAL - self.p;
        assert(room >> 5u32 == room / 32) by (bit_vector);
        self.p = self.p + (room >> MOVE_BITS);
    }

    /// Adapt to a one bit: the probability of a zero drifts down, as long as
    /// it is above 31.
    pub fn update_one(&mut self)
        requires
            old(self).wf(),
        ensures
            final(self)@ == adapt(old(self)@, true),
            final(self).wf(),
            final(self)@ <= old(self)@,
            final(self)@ < old(self)@ <==> old(self)@ > 31,
    {
        let p: u16 = self.p;
        assert(p >> 5u32 == p / 32) by (bit_vector);
        self.p = p - (p >> MOVE_BITS);
    }
}

/// The probabilities of a family of models.
pub open spec fn probabilities(models: Seq<BitModel>) -> Seq<int> {
    Seq::new(models.len(), |i: int| models[i]@)
}

impl Default for BitModel {
    fn default() -> (model: Self)
        ensures
            model@ == 1024,
            model.wf(),
    {
        Self::new()
    }
}

/// The part of the range that belongs to a zero bit.
fn split_point(range: u32, model: &BitModel) -> (bound: u32)
    requires
        TOP <= range,
        model.wf(),
    ensures
        bound == zero_share(range as nat, model@),
{
    proof {
        lemma_share(range as nat, model@);
    }
    assert(range >> 11u32 == range / 2048) by (bit_vector);
    (range >> MODEL_BITS) * model.p as u32
}

/// Range encoder. Feed it bits, then call [`Encoder::finish`] to get the
/// byte stream.
pub struct Encoder {
    low: u64,
    range: u32,
    cache: u8,
    cache_size: u64,
    out: Vec<u8>,
}

impl View for Encoder {
    type V = Coder;

    closed spec fn view(&self) -> Coder {
        Coder {
            low: self.low as nat,
            range: self.range as nat,
            cache: self.cache,
            pending: self.cache_size as nat,
            out: self.out@,
        }
    }
}

impl Encoder {
    /// The interval that the bits coded so far have narrowed to.
    pub open spec fn interval(&self) -> Interval {
        self@.interval()
    }

    /// The encoder is in a state that coding can reach.
    pub open spec fn wf(&self) -> bool {
        self@.wf()
    }

    /// A well-formed encoder stands at a wide interval.
    pub proof fn lemma_wide(&self)
        requires
            self.wf(),
        ensures
            self.interval().wide(),
    {
    }

    pub fn new() -> (enc: Self)
        ensures
            enc.wf(),
            enc@ == Coder::start(),
            enc.interval() == Interval::start(),
    {
        let enc = Encoder { low: 0, range: 0xFFFF_FFFF, cache: 0, cache_size: 1, out: Vec::new() };
        proof {
            lemma_start();
            assert(enc@.out =~= seq![]);
        }
        enc
    }

    /// Emit the top byte of `low`, handling any carry into the pending bytes.
    pub fn shift_low(&mut self)
        requires
            old(self)@.low < 0x2_0000_0000,
            old(self)@.pending >= 1,
            0xFF00_0000 <= old(self)@.low <= 0xFFFF_FFFF ==> old(self)@.pending < u64::MAX,
        ensures
            final(self)@ == old(self)@.shift(),
            old(self)@.out.is_prefix_of(final(self)@.out),
    {
        let ghost before = *self;
        proof {
            reveal(Coder::shift);
        }
        let low = self.low;
        assert((low << 8) & 0xFFFF_FFFF == (low * 256) % 0x1_0000_0000) by (bit_vector)
            requires
                low < 0x2_0000_0000,
        ;
        if self.low < 0xFF00_0000 || self.low > 0xFFFF_FFFF {
            assert(((low >> 32) as u8) == low / 0x1_0000_0000) by (bit_vector)
                requires
                    low < 0x2_0000_0000,
            ;
            assert(((low >> 24) & 0xFF) as u8 == (low / 0x100_0000) % 256) by (bit_vector);
            let carry = (self.low >> 32) as u8;
            let mut temp = self.cache;
            let ghost count = self.cache_size as nat;
            let ghost settled = before@.settled();
            while self.cache_size > 0
                invariant
                    carry == before.low / 0x1_0000_0000,
                    carry <= 1,
                    self.cache_size <= count,
                    count >= 1,
                    count == before.cache_size,
                    temp == (if self.cache_size == count { before.cache } else { 0xFFu8 }),
                    settled == before@.settled(),
                    self.out@ == settled.take(before.out@.len() + count - self.cache_size),
                    self.low == before.low,
                    self.range == before.range,
                decreases self.cache_size,
            {
                let ghost at = self.out@.len() as int;
                assert(settled.len() == before.out@.len() + count);
                assert(settled[at] == (temp + carry) % 256);
                self.out.push(temp.wrapping_add(carry));
                temp = 0xFF;
                self.cache_size = self.cache_size - 1;
                assert(self.out@ =~= settled.take(at + 1));
            }
            self.cache = ((self.low >> 24) & 0xFF) as u8;
            assert(self.out@ =~= settled);
        }
        self.cache_size = self.cache_size + 1;
        self.low = (self.low << 8) & 0xFFFF_FFFF;
    }

    /// Code one bit against `model`, updating the model in place.
    ///
    /// `bit` is 0 or 1; anything non-zero is treated as 1. The bytes have to
    /// fit their counter; a bit takes at most one.
    pub fn encode_bit(&mut self, model: &mut BitModel, bit: u32)
        requires
            old(self).wf(),
            old(model).wf(),
            old(self).interval().len < u64::MAX || old(self).interval().code(
                old(model)@,
                bit != 0,
            ).len <= u64::MAX,
        ensures
            encodes(old(self)@, old(model)@, bit, final(self)@, final(model)@),
            final(self).wf(),
            final(self).interval() == old(self).interval().code(old(model)@, bit != 0),
            final(self).interval().len <= old(self).interval().len + 1,
            old(self)@.out.is_prefix_of(final(self)@.out),
            final(model).wf(),
            final(model)@ == adapt(old(model)@, bit != 0),
    {
        let ghost start = self@;
        let ghost target = self@.code(model@, bit != 0);
        let bound = split_point(self.range, model);
        proof {
            lemma_share(self.range as nat, model@);
            law_coding_narrows(self@, model@, bit != 0);
        }
        if bit == 0 {
            self.range = bound;
            model.update_zero();
        } else {
            self.low = self.low + bound as u64;
            self.range = self.range - bound;
            model.update_one();
        }
        assert(self@ == start.narrow(old(model)@, bit != 0));
        while self.range < TOP
            invariant
                self@.sound(),
                self@.widen() == target,
                0x3_E000 <= self.range,
                target.interval().len <= u64::MAX,
            decreases 0x1_0000_0000 - self.range,
        {
            let range = self.range;
            assert(range << 8u32 == range * 256) by (bit_vector)
                requires
                    range < 0x100_0000u32,
            ;
            proof {
                lemma_widen_step(self@);
                reveal_with_fuel(Coder::widen, 2);
            }
            let ghost before = self@;
            self.range = self.range << 8;
            assert(self@ == Coder { range: before.range * 256, ..before });
            self.shift_low();
        }
    }

    /// Flush the coder and return the encoded bytes: the low end of the
    /// interval, written out in full.
    pub fn finish(self) -> (bytes: Vec<u8>)
        requires
            self.wf(),
            self.interval().len <= u64::MAX,
        ensures
            bytes@ == self@.flushed(),
            spells(bytes@, self.interval()),
            big_endian(bytes@) == self.interval().low,
            bytes@.len() == self.interval().len,
            bytes@.len() == self@.out.len() + self@.pending + 4,
            self@.out.is_prefix_of(bytes@),
            bytes@.len() >= 5,
            bytes@[0] == 0,
    {
        let ghost coded = self@;
        proof {
            law_flushing_spells_the_low_end(self@);
        }
        let mut enc = self;
        for k in 0..5u64
            invariant
                coded.wf(),
                coded.interval().len <= u64::MAX,
                enc@ == coded.shifted(k as nat),
        {
            proof {
                lemma_shifted(coded, k as nat);
            }
            enc.shift_low();
        }
        enc.out
    }
}

/// What coding a bit makes of an encoder and a model. Nothing but whether the
/// bit is zero matters.
pub open spec fn encodes(before: Coder, p: int, bit: u32, after: Coder, adapted: int) -> bool {
    &&& after == before.code(p, bit != 0)
    &&& adapted == adapt(p, bit != 0)
}

/// Any bit but zero is coded as a one: from the same state, both end in the
/// same.
pub proof fn law_any_bit_but_zero_is_one(
    before: Coder,
    p: int,
    bit: u32,
    after: Coder,
    adapted: int,
    after_one: Coder,
    adapted_one: int,
)
    requires
        bit != 0,
        encodes(before, p, bit, after, adapted),
        encodes(before, p, 1, after_one, adapted_one),
    ensures
        after == after_one,
        adapted == adapted_one,
{
}

impl Default for Encoder {
    fn default() -> (enc: Self)
        ensures
            enc.wf(),
            enc@ == Coder::start(),
            enc.interval() == Interval::start(),
    {
        Self::new()
    }
}

/// Range decoder. Consumes the byte stream produced by [`Encoder`].
pub struct Decoder<'a> {
    code: u32,
    range: u32,
    input: &'a [u8],
    pos: usize,
}

impl<'a> Decoder<'a> {
    /// The reader that this decoder is: the interval reached, and what is left
    /// of the input.
    pub closed spec fn cursor(&self) -> Cursor {
        Cursor {
            code: self.code as nat,
            range: self.range as nat,
            rest: self.input@.skip(self.pos as int),
        }
    }

    pub closed spec fn wf(&self) -> bool {
        &&& TOP <= self.range
        &&& self.pos <= self.input@.len()
    }

    /// A well-formed decoder stands at a wide interval.
    pub proof fn lemma_wide(&self)
        requires
            self.wf(),
        ensures
            self.cursor().wide(),
    {
    }

    pub fn new(input: &'a [u8]) -> (dec: Self)
        ensures
            dec.wf(),
            dec.cursor() == Cursor::start(input@),
    {
        let mut dec = Decoder { code: 0, range: 0xFFFF_FFFF, input, pos: 0 };
        assert(dec.cursor().rest =~= input@);
        // The encoder emits one leading cache byte plus five flush bytes; the
        // first five are primed into `code`.
        dec.feed();
        dec.feed();
        dec.feed();
        dec.feed();
        dec.feed();
        dec
    }

    /// The next byte of the input. `0` is returned past the end, which lets a
    /// truncated stream decode deterministically instead of panicking.
    fn next_byte(&mut self) -> (byte: u8)
        requires
            old(self).pos <= old(self).input@.len(),
        ensures
            byte == old(self).cursor().next(),
            final(self).pos <= final(self).input@.len(),
            final(self).code == old(self).code,
            final(self).range == old(self).range,
            final(self).cursor().rest == old(self).cursor().feed().rest,
    {
        let ghost before = self.cursor();
        if self.pos < self.input.len() {
            let byte = self.input[self.pos];
            self.pos = self.pos + 1;
            assert(self.cursor().rest =~= before.rest.skip(1));
            byte
        } else {
            0
        }
    }

    /// Shift the next byte into the low end of `code`.
    fn feed(&mut self)
        requires
            old(self).pos <= old(self).input@.len(),
        ensures
            final(self).pos <= final(self).input@.len(),
            final(self).cursor() == old(self).cursor().feed(),
            final(self).range == old(self).range,
    {
        let byte = self.next_byte();
        let code = self.code;
        assert((code << 8u32) | (byte as u32) == (code * 256 + byte) % 0x1_0000_0000) by (bit_vector);
        self.code = (self.code << 8) | byte as u32;
    }

    /// Decode one bit against `model`, updating the model in place.
    pub fn decode_bit(&mut self, model: &mut BitModel) -> (bit: u32)
        requires
            old(self).wf(),
            old(model).wf(),
        ensures
            final(self).wf(),
            final(self).cursor() == old(self).cursor().code(old(model)@),
            final(model).wf(),
            final(model)@ == adapt(old(model)@, bit != 0),
            bit == (if old(self).cursor().selects(old(model)@) {
                1u32
            } else {
                0u32
            }),
    {
        let ghost before = self.cursor();
        let ghost target = self.cursor().code(model@);
        let bound = split_point(self.range, model);
        proof {
            lemma_share(self.range as nat, model@);
        }
        let bit: u32;
        if self.code < bound {
            self.range = bound;
            model.update_zero();
            bit = 0;
        } else {
            self.code = self.code - bound;
            self.range = self.range - bound;
            model.update_one();
            bit = 1;
        }
        while self.range < TOP
            invariant
                0 < self.range,
                self.pos <= self.input@.len(),
                self.cursor().widen() == target,
            decreases 0x1_0000_0000 - self.range,
        {
            let range = self.range;
            assert(range << 8u32 == range * 256) by (bit_vector)
                requires
                    range < 0x100_0000u32,
            ;
            self.range = self.range << 8;
            self.feed();
        }
        bit
    }
}

/// Code one bit against the `k`th of a family of models.
pub(crate) fn encode_at<const N: usize>(
    enc: &mut Encoder,
    models: &mut [BitModel; N],
    k: usize,
    bit: u32,
)
    requires
        k < N,
        old(enc).wf(),
        all_usable(probabilities(old(models)@)),
        code_at(old(enc).interval(), probabilities(old(models)@), k as int, bit != 0).0.len
            <= u64::MAX,
    ensures
        final(enc).wf(),
        (final(enc).interval(), probabilities(final(models)@)) == code_at(
            old(enc).interval(),
            probabilities(old(models)@),
            k as int,
            bit != 0,
        ),
        all_usable(probabilities(final(models)@)),
{
    let ghost before = probabilities(models@);
    proof {
        enc.lemma_wide();
        assert(usable(before[k as int]));
        lemma_code_at(enc.interval(), before, k as int, bit != 0);
    }
    enc.encode_bit(&mut models[k], bit);
    assert(probabilities(models@) =~= before.update(k as int, adapt(before[k as int], bit != 0)));
}

/// Decode one bit against the `k`th of a family of models.
pub(crate) fn decode_at<const N: usize>(
    dec: &mut Decoder,
    models: &mut [BitModel; N],
    k: usize,
) -> (bit: u32)
    requires
        k < N,
        old(dec).wf(),
        all_usable(probabilities(old(models)@)),
    ensures
        final(dec).wf(),
        bit == 0 || bit == 1,
        (bit == 1, final(dec).cursor(), probabilities(final(models)@)) == read_at(
            old(dec).cursor(),
            probabilities(old(models)@),
            k as int,
        ),
        all_usable(probabilities(final(models)@)),
{
    let ghost before = probabilities(models@);
    proof {
        dec.lemma_wide();
        assert(usable(before[k as int]));
        lemma_read_at(dec.cursor(), before, k as int);
    }
    let bit = dec.decode_bit(&mut models[k]);
    assert(probabilities(models@) =~= before.update(k as int, adapt(before[k as int], bit == 1)));
    bit
}

} // verus!
