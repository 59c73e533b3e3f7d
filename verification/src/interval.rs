//! The arithmetic behind the range coder, on mathematical integers.
//!
//! Coding a bit narrows an interval of integers, and widening the interval
//! again appends a byte. A byte string stands for every interval that its
//! leading bytes fall into, so a decoder that follows the narrowing of the
//! encoder can tell which half was taken each time.

use crate::bytes::byte_limit;
use vstd::prelude::*;

verus! {

/// Intervals are widened until they hold at least this many integers.
pub const TOP: u32 = 0x0100_0000;

/// The integer whose base-256 digits are `s`, most significant first.
pub open spec fn big_endian(s: Seq<u8>) -> nat
    decreases s.len(),
{
    if s.len() == 0 {
        0
    } else {
        big_endian(s.drop_last()) * 256 + s.last() as nat
    }
}

/// Where a probability `p` (of a zero, out of 2048) moves once `bit` occurred.
pub open spec fn adapt(p: int, bit: bool) -> int {
    if bit {
        p - p / 32
    } else {
        p + (2048 - p) / 32
    }
}

/// A probability that neither bit can drive to certainty.
pub open spec fn usable(p: int) -> bool {
    31 <= p <= 2017
}

/// The two ways a probability adapts mirror each other: what a one does to it,
/// a zero does to its complement.
pub proof fn law_adapting_mirrors(p: int)
    ensures
        adapt(p, true) == 2048 - adapt(2048 - p, false),
        usable(p) == usable(2048 - p),
{
}

/// A probability drifts towards the bit that occurs, by a thirty-second of the
/// way to certainty, rounded down, and stops where either bit stays possible.
pub proof fn law_adapting_drifts(p: int)
    requires
        usable(p),
    ensures
        adapt(p, false) == p + (2048 - p) / 32,
        adapt(p, true) == p - p / 32,
        usable(adapt(p, false)),
        usable(adapt(p, true)),
        adapt(p, true) <= p <= adapt(p, false),
        p < adapt(p, false) <==> p < 2017,
        adapt(p, true) < p <==> p > 31,
{
}

/// A higher probability stays at least as high, whichever bit occurs.
pub proof fn law_adapting_keeps_order(p: int, q: int, bit: bool)
    requires
        p <= q,
    ensures
        adapt(p, bit) <= adapt(q, bit),
{
}

/// The part of an interval of `range` integers that belongs to a zero.
pub open spec fn zero_share(range: nat, p: int) -> int {
    (range / 2048) * p
}

/// The integers `low .. low + range`, each written with `len` bytes.
pub struct Interval {
    pub low: nat,
    pub range: nat,
    pub len: nat,
}

impl Interval {
    /// The interval before any bit was coded.
    pub open spec fn start() -> Interval {
        Interval { low: 0, range: 0xFFFF_FFFF, len: 5 }
    }

    /// Wide enough to be narrowed by a bit.
    pub open spec fn wide(self) -> bool {
        TOP <= self.range < 0x1_0000_0000
    }

    /// The part of the interval that belongs to `bit`.
    pub open spec fn narrow(self, p: int, bit: bool) -> Interval {
        let share = zero_share(self.range, p);
        if bit {
            Interval {
                low: (self.low + share) as nat,
                range: (self.range - share) as nat,
                len: self.len,
            }
        } else {
            Interval { low: self.low, range: share as nat, len: self.len }
        }
    }

    /// The same interval with bytes appended until it is wide again.
    pub open spec fn widen(self) -> Interval
        decreases 0x1_0000_0000 - self.range,
    {
        if 0 < self.range < TOP {
            (Interval {
                low: self.low * 256,
                range: self.range * 256,
                len: self.len + 1,
            }).widen()
        } else {
            self
        }
    }

    /// The interval after coding `bit` with probability `p` of a zero.
    pub open spec fn code(self, p: int, bit: bool) -> Interval {
        self.narrow(p, bit).widen()
    }

    /// All its integers are written with a leading zero byte.
    pub open spec fn leads_with_zero(self) -> bool {
        &&& self.len >= 5
        &&& self.low + self.range <= byte_limit((self.len - 1) as nat)
    }

    /// The leading bytes of `s` fall into the interval.
    pub open spec fn covers(self, s: Seq<u8>) -> bool {
        &&& self.len <= s.len()
        &&& self.low <= big_endian(s.take(self.len as int)) < self.low + self.range
    }

    /// The reader of `s` that has followed the coder into this interval.
    pub open spec fn cursor(self, s: Seq<u8>) -> Cursor {
        Cursor {
            code: (big_endian(s.take(self.len as int)) - self.low) as nat,
            range: self.range,
            rest: s.skip(self.len as int),
        }
    }
}

/// A reader of a byte string: how far its leading bytes lie above the interval
/// reached so far, how wide that interval is, and the bytes not yet read.
pub struct Cursor {
    pub code: nat,
    pub range: nat,
    pub rest: Seq<u8>,
}

impl Cursor {
    /// The reader after its first five bytes.
    pub open spec fn start(s: Seq<u8>) -> Cursor {
        Cursor { code: 0, range: 0xFFFF_FFFF, rest: s }.feed().feed().feed().feed().feed()
    }

    pub open spec fn wide(self) -> bool {
        &&& TOP <= self.range < 0x1_0000_0000
        &&& self.code < 0x1_0000_0000
    }

    /// The next byte; zero past the end.
    pub open spec fn next(self) -> u8 {
        if self.rest.len() > 0 {
            self.rest[0]
        } else {
            0
        }
    }

    /// Shift the next byte into the low end of `code`, which keeps 32 bits.
    pub open spec fn feed(self) -> Cursor {
        Cursor {
            code: (self.code * 256 + self.next() as nat) % 0x1_0000_0000,
            range: self.range,
            rest: if self.rest.len() > 0 {
                self.rest.skip(1)
            } else {
                self.rest
            },
        }
    }

    /// The bit that the bytes read so far select.
    pub open spec fn selects(self, p: int) -> bool {
        self.code >= zero_share(self.range, p)
    }

    pub open spec fn narrow(self, p: int) -> Cursor {
        let share = zero_share(self.range, p);
        if self.selects(p) {
            Cursor {
                code: (self.code - share) as nat,
                range: (self.range - share) as nat,
                rest: self.rest,
            }
        } else {
            Cursor { code: self.code, range: share as nat, rest: self.rest }
        }
    }

    pub open spec fn widen(self) -> Cursor
        decreases 0x1_0000_0000 - self.range,
    {
        if 0 < self.range < TOP {
            let fed = self.feed();
            (Cursor { code: fed.code, range: self.range * 256, rest: fed.rest }).widen()
        } else {
            self
        }
    }

    /// The reader after the bit that it selects.
    pub open spec fn code(self, p: int) -> Cursor {
        self.narrow(p).widen()
    }
}

/// Either bit gets at least `31 * 2^13` integers of a wide interval.
pub proof fn lemma_share(range: nat, p: int)
    requires
        TOP <= range < 0x1_0000_0000,
        usable(p),
    ensures
        0x3_E000 <= zero_share(range, p) <= range - 0x3_E000,
        zero_share(range, p) < 0x1_0000_0000,
{
    let q = range / 2048;
    assert(0x2000 <= q);
    assert(q * 31 <= q * p <= q * 2017) by (nonlinear_arith)
        requires
            31 <= p <= 2017,
            q >= 0,
    ;
    assert(q * 2048 <= range);
}

/// Coding a bit narrows a wide interval to the part that belongs to the bit,
/// and appends one byte if that part is narrow, none otherwise. It stays wide,
/// and its integers keep a leading zero byte.
pub proof fn law_bit_takes_at_most_one_byte(st: Interval, p: int, bit: bool)
    requires
        st.wide(),
        usable(p),
    ensures
        st.code(p, bit) == ({
            let part = st.narrow(p, bit);
            if part.range < TOP {
                Interval { low: part.low * 256, range: part.range * 256, len: part.len + 1 }
            } else {
                part
            }
        }),
        st.code(p, bit).wide(),
        st.len <= st.code(p, bit).len <= st.len + 1,
        usable(adapt(p, bit)),
        st.leads_with_zero() ==> st.code(p, bit).leads_with_zero(),
{
    lemma_share(st.range, p);
    reveal_with_fuel(Interval::widen, 3);
    reveal_with_fuel(byte_limit, 2);
}

/// Reading a bit keeps a reader wide.
pub proof fn lemma_cursor_code(c: Cursor, p: int)
    requires
        c.wide(),
        usable(p),
    ensures
        c.code(p).wide(),
{
    lemma_share(c.range, p);
    reveal_with_fuel(Cursor::widen, 3);
}

/// Bytes that fall into a widened interval fall into the interval itself, and
/// their reader widens in step.
proof fn lemma_widen_follows(st: Interval, s: Seq<u8>)
    requires
        st.range > 0,
        st.range < 0x1_0000_0000,
        st.widen().covers(s),
    ensures
        st.covers(s),
        st.cursor(s).widen() == st.widen().cursor(s),
    decreases 0x1_0000_0000 - st.range,
{
    if st.range < TOP {
        let next = Interval { low: st.low * 256, range: st.range * 256, len: st.len + 1 };
        lemma_widen_follows(next, s);
        let head = s.take(st.len as int);
        let longer = s.take(next.len as int);
        assert(longer.drop_last() =~= head);
        assert(longer.last() == s[st.len as int]);
        assert(big_endian(longer) == big_endian(head) * 256 + s[st.len as int] as nat);
        let c = st.cursor(s);
        assert(c.rest[0] == s[st.len as int]);
        assert(c.code * 256 + c.next() as nat == big_endian(longer) - next.low);
        assert(c.code * 256 + c.next() as nat <= 0xFFFF_FFFF);
        assert(c.feed().rest =~= s.skip(next.len as int));
        assert((Cursor { code: c.feed().code, range: c.range * 256, rest: c.feed().rest })
            == next.cursor(s));
    }
}

/// A reader of bytes that fall into the interval reached by coding `bit` reads
/// `bit`, and stays in step with the coder.
pub proof fn lemma_code_follows(st: Interval, p: int, bit: bool, s: Seq<u8>)
    requires
        st.wide(),
        usable(p),
        st.code(p, bit).covers(s),
    ensures
        st.covers(s),
        st.cursor(s).selects(p) == bit,
        st.cursor(s).code(p) == st.code(p, bit).cursor(s),
{
    lemma_share(st.range, p);
    lemma_widen_follows(st.narrow(p, bit), s);
}

/// A reader of bytes that fall into the starting interval starts in step.
pub proof fn lemma_start_follows(s: Seq<u8>)
    requires
        Interval::start().covers(s),
    ensures
        Cursor::start(s) == Interval::start().cursor(s),
{
    let five = s.take(5);
    reveal_with_fuel(big_endian, 6);
    assert(five.drop_last() =~= s.take(4));
    assert(five.drop_last().drop_last() =~= s.take(3));
    assert(five.drop_last().drop_last().drop_last() =~= s.take(2));
    assert(five.drop_last().drop_last().drop_last().drop_last() =~= s.take(1));
    assert(big_endian(five) == (((s[0] as nat * 256 + s[1] as nat) * 256 + s[2] as nat) * 256
        + s[3] as nat) * 256 + s[4] as nat);
    assert(Cursor::start(s).rest =~= s.skip(5));
}

/// `bytes` spell out the low end of an interval.
pub open spec fn spells(bytes: Seq<u8>, st: Interval) -> bool {
    &&& bytes.len() == st.len
    &&& big_endian(bytes) == st.low
}

/// The bytes that spell out the low end of an interval fall into it.
pub proof fn lemma_low_end_covered(st: Interval, s: Seq<u8>)
    requires
        st.wide(),
        spells(s, st),
    ensures
        st.covers(s),
{
    assert(s.take(s.len() as int) =~= s);
}

/// Every probability of a family of models is usable.
pub open spec fn all_usable(models: Seq<int>) -> bool {
    forall|i: int| 0 <= i < models.len() ==> usable(#[trigger] models[i])
}

/// Code `bit` against the `k`th of a family of models.
pub open spec fn code_at(st: Interval, models: Seq<int>, k: int, bit: bool) -> (
    Interval,
    Seq<int>,
) {
    (st.code(models[k], bit), models.update(k, adapt(models[k], bit)))
}

/// Read a bit against the `k`th of a family of models.
pub open spec fn read_at(c: Cursor, models: Seq<int>, k: int) -> (bool, Cursor, Seq<int>) {
    let bit = c.selects(models[k]);
    (bit, c.code(models[k]), models.update(k, adapt(models[k], bit)))
}

pub proof fn lemma_code_at(st: Interval, models: Seq<int>, k: int, bit: bool)
    requires
        st.wide(),
        all_usable(models),
        0 <= k < models.len(),
    ensures
        ({
            let (next, adapted) = code_at(st, models, k, bit);
            &&& next.wide()
            &&& st.len <= next.len <= st.len + 1
            &&& st.leads_with_zero() ==> next.leads_with_zero()
            &&& all_usable(adapted)
            &&& adapted.len() == models.len()
        }),
{
    law_bit_takes_at_most_one_byte(st, models[k], bit);
}

pub proof fn lemma_read_at(c: Cursor, models: Seq<int>, k: int)
    requires
        c.wide(),
        all_usable(models),
        0 <= k < models.len(),
    ensures
        ({
            let (bit, next, adapted) = read_at(c, models, k);
            &&& next.wide()
            &&& all_usable(adapted)
            &&& adapted.len() == models.len()
        }),
{
    lemma_cursor_code(c, models[k]);
}

pub proof fn lemma_code_at_follows(
    st: Interval,
    models: Seq<int>,
    k: int,
    bit: bool,
    s: Seq<u8>,
)
    requires
        st.wide(),
        all_usable(models),
        0 <= k < models.len(),
        code_at(st, models, k, bit).0.covers(s),
    ensures
        st.covers(s),
        read_at(st.cursor(s), models, k) == (
            bit,
            code_at(st, models, k, bit).0.cursor(s),
            code_at(st, models, k, bit).1,
        ),
{
    lemma_code_follows(st, models[k], bit, s);
}

/// Code bits, each against the model that it is paired with.
pub open spec fn write_bits(st: Interval, models: Seq<int>, symbols: Seq<(int, bool)>) -> (
    Interval,
    Seq<int>,
)
    decreases symbols.len(),
{
    if symbols.len() == 0 {
        (st, models)
    } else {
        let (next, adapted) = code_at(st, models, symbols[0].0, symbols[0].1);
        write_bits(next, adapted, symbols.skip(1))
    }
}

/// Read bits, each against the model of this number.
pub open spec fn read_bits(c: Cursor, models: Seq<int>, which: Seq<int>) -> (
    Seq<bool>,
    Cursor,
    Seq<int>,
)
    decreases which.len(),
{
    if which.len() == 0 {
        (seq![], c, models)
    } else {
        let (bit, next, adapted) = read_at(c, models, which[0]);
        let (bits, last, learned) = read_bits(next, adapted, which.skip(1));
        (seq![bit] + bits, last, learned)
    }
}

/// The models that bits are paired with.
pub open spec fn paired_models(symbols: Seq<(int, bool)>) -> Seq<int> {
    Seq::new(symbols.len(), |i: int| symbols[i].0)
}

/// The bits alone.
pub open spec fn paired_bits(symbols: Seq<(int, bool)>) -> Seq<bool> {
    Seq::new(symbols.len(), |i: int| symbols[i].1)
}

/// Coding bits keeps an interval wide and its leading zero byte, and takes at
/// most one byte per bit.
proof fn lemma_write_bits(st: Interval, models: Seq<int>, symbols: Seq<(int, bool)>)
    requires
        st.wide(),
        all_usable(models),
        forall|i: int| 0 <= i < symbols.len() ==> 0 <= (#[trigger] symbols[i]).0 < models.len(),
    ensures
        ({
            let (next, adapted) = write_bits(st, models, symbols);
            &&& next.wide()
            &&& st.leads_with_zero() ==> next.leads_with_zero()
            &&& st.len <= next.len <= st.len + symbols.len()
            &&& all_usable(adapted)
            &&& adapted.len() == models.len()
        }),
    decreases symbols.len(),
{
    if symbols.len() > 0 {
        let (next, adapted) = code_at(st, models, symbols[0].0, symbols[0].1);
        lemma_code_at(st, models, symbols[0].0, symbols[0].1);
        lemma_write_bits(next, adapted, symbols.skip(1));
    }
}

/// Coding bits is coding the first of them and then the others.
proof fn lemma_write_bits_split(
    st: Interval,
    models: Seq<int>,
    symbols: Seq<(int, bool)>,
    i: int,
)
    requires
        0 <= i <= symbols.len(),
    ensures
        ({
            let (next, adapted) = write_bits(st, models, symbols.take(i));
            write_bits(st, models, symbols) == write_bits(next, adapted, symbols.skip(i))
        }),
    decreases i,
{
    if i == 0 {
        assert(symbols.skip(0) =~= symbols);
    } else {
        let (next, adapted) = code_at(st, models, symbols[0].0, symbols[0].1);
        lemma_write_bits_split(next, adapted, symbols.skip(1), i - 1);
        assert(symbols.take(i).skip(1) =~= symbols.skip(1).take(i - 1));
        assert(symbols.skip(1).skip(i - 1) =~= symbols.skip(i));
    }
}

/// A reader of bytes that fall into the interval reached by coding bits reads
/// them, and learns the same models.
proof fn lemma_bits_follow(
    st: Interval,
    models: Seq<int>,
    symbols: Seq<(int, bool)>,
    s: Seq<u8>,
)
    requires
        st.wide(),
        all_usable(models),
        forall|i: int| 0 <= i < symbols.len() ==> 0 <= (#[trigger] symbols[i]).0 < models.len(),
        write_bits(st, models, symbols).0.covers(s),
    ensures
        st.covers(s),
        read_bits(st.cursor(s), models, paired_models(symbols)) == (
            paired_bits(symbols),
            write_bits(st, models, symbols).0.cursor(s),
            write_bits(st, models, symbols).1,
        ),
    decreases symbols.len(),
{
    if symbols.len() == 0 {
        assert(paired_bits(symbols) =~= seq![]);
    } else {
        let (k, bit) = symbols[0];
        let (next, adapted) = code_at(st, models, k, bit);
        let rest = symbols.skip(1);
        lemma_code_at(st, models, k, bit);
        lemma_bits_follow(next, adapted, rest, s);
        lemma_code_at_follows(st, models, k, bit, s);
        assert(paired_models(symbols).skip(1) =~= paired_models(rest));
        assert(seq![bit] + paired_bits(rest) =~= paired_bits(symbols));
    }
}

/// Encoder and decoder stay in lockstep. Whatever bits are coded against
/// whatever models, reading the bytes that the coder is flushed to gives the
/// bits back. After each number `i` of bits both sides have the same
/// probabilities, and the reader has taken in as many bytes as the coder had
/// settled on; after the last one, all of them and none beyond.
pub proof fn law_bits_round_trip(
    models: Seq<int>,
    symbols: Seq<(int, bool)>,
    bytes: Seq<u8>,
    i: int,
)
    requires
        all_usable(models),
        forall|i: int| 0 <= i < symbols.len() ==> 0 <= (#[trigger] symbols[i]).0 < models.len(),
        spells(bytes, write_bits(Interval::start(), models, symbols).0),
        0 <= i <= symbols.len(),
    ensures
        ({
            let (st, adapted) = write_bits(Interval::start(), models, symbols.take(i));
            let (bits, last, learned) = read_bits(
                Cursor::start(bytes),
                models,
                paired_models(symbols).take(i),
            );
            &&& bits == paired_bits(symbols).take(i)
            &&& learned == adapted
            &&& st.len <= bytes.len()
            &&& last.rest == bytes.skip(st.len as int)
            &&& i == symbols.len() ==> last.rest.len() == 0
        }),
{
    let start = Interval::start();
    let (head, tail) = (symbols.take(i), symbols.skip(i));
    let (st, adapted) = write_bits(start, models, head);
    lemma_write_bits(start, models, symbols);
    lemma_write_bits(start, models, head);
    lemma_write_bits_split(start, models, symbols, i);
    lemma_low_end_covered(write_bits(start, models, symbols).0, bytes);
    lemma_bits_follow(st, adapted, tail, bytes);
    lemma_bits_follow(start, models, head, bytes);
    lemma_start_follows(bytes);
    assert(paired_models(head) =~= paired_models(symbols).take(i));
    assert(paired_bits(head) =~= paired_bits(symbols).take(i));
    if i == symbols.len() {
        assert(head =~= symbols);
    }
}

/// A byte string is at least its first digit, in its place.
proof fn lemma_first_digit(s: Seq<u8>)
    requires
        s.len() > 0,
    ensures
        big_endian(s) >= s[0] * byte_limit((s.len() - 1) as nat),
    decreases s.len(),
{
    let limit = byte_limit((s.len() - 1) as nat);
    if s.len() == 1 {
        reveal_with_fuel(big_endian, 2);
        assert(limit == 1);
        assert(big_endian(s.drop_last()) == 0);
    } else {
        let less = byte_limit((s.len() - 2) as nat);
        lemma_first_digit(s.drop_last());
        assert(s.drop_last()[0] == s[0]);
        assert((s.drop_last().len() - 1) as nat == (s.len() - 2) as nat);
        assert((s[0] * less) * 256 == s[0] * limit) by (nonlinear_arith)
            requires
                limit == 256 * less,
        ;
    }
}

/// The low end of an interval whose integers lead with a zero byte is written
/// with a zero byte first.
pub proof fn lemma_leading_zero(st: Interval, s: Seq<u8>)
    requires
        st.range > 0,
        st.leads_with_zero(),
        spells(s, st),
    ensures
        s.len() >= 5,
        s[0] == 0,
{
    lemma_first_digit(s);
    let limit = byte_limit((s.len() - 1) as nat);
    assert(s[0] == 0) by (nonlinear_arith)
        requires
            s[0] >= 0,
            limit > 0,
            s[0] * limit < limit,
    ;
}

/// The bytes that a coder is flushed to start with a zero, and are at least
/// five and at most five more than the bits coded.
pub proof fn law_flushed_bytes(models: Seq<int>, symbols: Seq<(int, bool)>, bytes: Seq<u8>)
    requires
        all_usable(models),
        forall|i: int| 0 <= i < symbols.len() ==> 0 <= (#[trigger] symbols[i]).0 < models.len(),
        spells(bytes, write_bits(Interval::start(), models, symbols).0),
    ensures
        5 <= bytes.len() <= symbols.len() + 5,
        bytes[0] == 0,
{
    lemma_start_leads_with_zero();
    lemma_write_bits(Interval::start(), models, symbols);
    lemma_leading_zero(write_bits(Interval::start(), models, symbols).0, bytes);
}

pub proof fn lemma_start_leads_with_zero()
    ensures
        Interval::start().leads_with_zero(),
{
    reveal_with_fuel(byte_limit, 5);
}

/// The share of a zero is its probability in 2048 of the range, counted in
/// whole parts of a 2048th.
pub proof fn law_share_is_proportional(range: nat, p: int)
    requires
        p > 0,
    ensures
        zero_share(range, p) % p == 0,
        2048 * zero_share(range, p) <= range * p < 2048 * zero_share(range, p) + 2048 * p,
{
    let q = range as int / 2048;
    vstd::arithmetic::div_mod::lemma_mod_multiples_basic(q, p);
    assert(2048 * (q * p) <= range * p) by (nonlinear_arith)
        requires
            2048 * q <= range,
            p > 0,
    ;
    assert(range * p < 2048 * (q * p) + 2048 * p) by (nonlinear_arith)
        requires
            range < 2048 * q + 2048,
            p > 0,
    ;
}

/// Coding a bit takes the lower part of the interval for a zero, the upper one
/// for a one, and appends a byte if what is left is narrow.
pub proof fn law_coding_a_bit(st: Interval, p: int, bit: bool)
    requires
        TOP <= st.range < 0x1_0000_0000,
        31 <= p <= 2017,
    ensures
        ({
            let share = (st.range as int / 2048) * p;
            let low = if bit { st.low + share } else { st.low as int };
            let range = if bit { st.range - share } else { share };
            let next = st.code(p, bit);
            if range < 0x100_0000 {
                next.low == 256 * low && next.range == 256 * range && next.len == st.len + 1
            } else {
                next.low == low && next.range == range && next.len == st.len
            }
        }),
{
    lemma_share(st.range, p);
    law_bit_takes_at_most_one_byte(st, p, bit);
}

/// Reading a bit finds a one where the bytes read so far lie in the upper part
/// of the interval, takes that part, and reads a byte, zero past the end, if
/// what is left is narrow.
pub proof fn law_reading_a_bit(c: Cursor, p: int)
    requires
        TOP <= c.range < 0x1_0000_0000,
        c.code < 0x1_0000_0000,
        31 <= p <= 2017,
    ensures
        ({
            let share = (c.range as int / 2048) * p;
            let bit = c.code >= share;
            let code = if bit { c.code - share } else { c.code as int };
            let range = if bit { c.range - share } else { share };
            let byte = if c.rest.len() > 0 { c.rest[0] as int } else { 0 };
            let next = c.code(p);
            &&& c.selects(p) == bit
            &&& if range < 0x100_0000 {
                &&& next.range == 256 * range
                &&& next.code == (256 * code + byte) % 0x1_0000_0000
                &&& next.rest == if c.rest.len() > 0 { c.rest.skip(1) } else { c.rest }
            } else {
                next.range == range && next.code == code && next.rest == c.rest
            }
        }),
{
    lemma_share(c.range, p);
    reveal_with_fuel(Cursor::widen, 3);
}

/// A reader starts with the second to the fifth byte, the most significant
/// first, and the widest interval.
pub proof fn law_reading_starts(s: Seq<u8>)
    requires
        s.len() >= 5,
    ensures
        Cursor::start(s).code == s[1] * 0x100_0000 + s[2] * 0x1_0000 + s[3] * 0x100 + s[4],
        Cursor::start(s).range == 0xFFFF_FFFF,
        Cursor::start(s).rest == s.skip(5),
{
    assert(Cursor::start(s).rest =~= s.skip(5));
}

/// The digits of a big-endian number: none are zero, and one more at the end
/// makes 256 times as much and itself.
pub proof fn law_big_endian_digits(s: Seq<u8>, byte: u8)
    ensures
        big_endian(Seq::empty()) == 0,
        big_endian(s.push(byte)) == 256 * big_endian(s) + byte,
{
    assert(s.push(byte).drop_last() =~= s);
}

/// A coder starts at the widest interval, with five bytes of zero.
pub proof fn law_coding_starts()
    ensures
        Interval::start().low == 0,
        Interval::start().range == 0xFFFF_FFFF,
        Interval::start().len == 5,
{
}

/// Bytes spell out the low end of an interval if and only if there are as many
/// as it has, and they are its digits, the most significant first.
pub proof fn law_spelling_is_exact(bytes: Seq<u8>, st: Interval)
    ensures
        spells(bytes, st) <==> bytes.len() == st.len && big_endian(bytes) == st.low,
{
}

} // verus!
