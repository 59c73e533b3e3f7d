//! Adaptive coding of integers.
//!
//! A signed integer is folded onto an unsigned one and then written with an
//! Elias-gamma binarisation: a unary bit-length, then the mantissa below the
//! leading one. Every bit has its own adaptive model.

use crate::interval::{
    all_usable, code_at, lemma_code_at, lemma_code_at_follows, lemma_low_end_covered,
    lemma_start_follows, read_at, spells, write_bits, Cursor, Interval,
};
use crate::range::{decode_at, encode_at, probabilities, BitModel, Decoder, Encoder};
use vstd::arithmetic::div_mod::{lemma_div_denominator, lemma_div_pos_is_pos};
use vstd::arithmetic::power2::{
    lemma2_to64, lemma2_to64_rest, lemma_pow2_pos, lemma_pow2_strictly_increases,
    lemma_pow2_unfold, pow2,
};
use vstd::bits::lemma_u64_shr_is_div;
use vstd::math::abs;
use vstd::prelude::*;
use vstd::std_specs::bits::{axiom_u64_leading_zeros, u64_leading_zeros};

verus! {

/// Largest bit-length an integer may use (it has to fit a `u64`).
pub const MAX_BITS: usize = 64;

/// One model per position of the unary prefix, its terminator included.
pub const LENGTH_MODELS: usize = 66;

/// Fold a signed value so that small magnitudes stay small:
/// `0 -> 0, -1 -> 1, 1 -> 2, -2 -> 3, ...`.
pub open spec fn fold_sign(value: int) -> int {
    if value >= 0 {
        2 * value
    } else {
        -2 * value - 1
    }
}

/// Undo [`fold_sign`].
pub open spec fn unfold_sign(value: int) -> int {
    if value % 2 == 0 {
        value / 2
    } else {
        -(value / 2) - 1
    }
}

/// Map a signed value onto an unsigned one so small magnitudes stay small:
/// `0 -> 0, -1 -> 1, 1 -> 2, -2 -> 3, ...`.
pub fn zigzag(value: i64) -> (folded: u64)
    ensures
        folded == fold_sign(value as int),
{
    assert(value >= 0 ==> ((value << 1) ^ (value >> 63)) as u64 == 2 * value) by (bit_vector);
    assert(value < 0 ==> ((value << 1) ^ (value >> 63)) as u64 == -2 * value - 1) by (bit_vector);
    ((value << 1) ^ (value >> 63)) as u64
}

/// The signed value that [`zigzag`] maps to `value`.
pub fn unzigzag(value: u64) -> (unfolded: i64)
    ensures
        unfolded == unfold_sign(value as int),
{
    assert((value & 1) == value % 2) by (bit_vector);
    assert((value >> 1) == value / 2) by (bit_vector);
    let half: i64 = (value >> 1) as i64;
    let sign: i64 = -((value & 1) as i64);
    assert(sign == 0 ==> half ^ sign == half) by (bit_vector);
    assert(sign == -1 ==> half ^ sign == -half - 1) by (bit_vector)
        requires
            half >= 0,
    ;
    half ^ sign
}

/// Folding signs is undone by unfolding them, in both directions.
pub proof fn law_zigzag_inverts(signed: int, unsigned: int)
    requires
        unsigned >= 0,
    ensures
        fold_sign(signed) >= 0,
        unfold_sign(fold_sign(signed)) == signed,
        fold_sign(unfold_sign(unsigned)) == unsigned,
{
}

/// Small magnitudes stay small: folding signs orders values by magnitude.
pub proof fn law_zigzag_orders_by_magnitude(a: int, b: int)
    requires
        abs(a) < abs(b),
    ensures
        fold_sign(a) < fold_sign(b),
{
}

/// The number of bits of `value`, without leading zeros.
pub open spec fn bit_length(value: nat) -> nat
    decreases value,
{
    if value == 0 {
        0
    } else {
        1 + bit_length(value / 2)
    }
}

proof fn lemma_bit_length(value: nat)
    ensures
        value < pow2(bit_length(value)),
        value > 0 ==> bit_length(value) > 0 && pow2((bit_length(value) - 1) as nat) <= value,
    decreases value,
{
    lemma2_to64();
    if value > 0 {
        lemma_bit_length(value / 2);
        let half = bit_length(value / 2);
        lemma_pow2_unfold(half + 1);
        if value / 2 > 0 {
            lemma_pow2_unfold(half);
        }
    }
}

/// Powers of two grow with their exponent.
proof fn lemma_pow2_ordered(a: nat, b: nat)
    requires
        a <= b,
    ensures
        pow2(a) <= pow2(b),
{
    if a < b {
        lemma_pow2_strictly_increases(a, b);
    }
}

/// A value between two neighbouring powers of two has that bit-length.
proof fn lemma_bit_length_unique(value: nat, bits: nat)
    requires
        bits > 0,
        pow2((bits - 1) as nat) <= value < pow2(bits),
    ensures
        bit_length(value) == bits,
{
    lemma_bit_length(value);
    lemma_pow2_pos((bits - 1) as nat);
    let found = bit_length(value);
    if found < bits {
        lemma_pow2_ordered(found, (bits - 1) as nat);
    } else if found > bits {
        lemma_pow2_ordered(bits, (found - 1) as nat);
    }
}

/// The bit-length of a 64-bit value is what its leading zeros leave.
proof fn lemma_leading_zeros(value: u64)
    ensures
        bit_length(value as nat) == 64 - u64_leading_zeros(value),
        bit_length(value as nat) <= 64,
{
    axiom_u64_leading_zeros(value);
    lemma2_to64_rest();
    let zeros = u64_leading_zeros(value);
    if value > 0 {
        let top: u64 = (63 - zeros) as u64;
        lemma_u64_shr_is_div(value, top);
        assert((value >> top) & 1u64 != 0u64 ==> value >> top != 0) by (bit_vector);
        lemma_pow2_pos(top as nat);
        if value < pow2(top as nat) {
            vstd::arithmetic::div_mod::lemma_basic_div(value as int, pow2(top as nat) as int);
        }
        if zeros > 0 {
            let next: u64 = (64 - zeros) as u64;
            lemma_u64_shr_is_div(value, next);
            lemma_pow2_pos(next as nat);
            if value >= pow2(next as nat) {
                vstd::arithmetic::div_mod::lemma_div_non_zero(
                    value as int,
                    pow2(next as nat) as int,
                );
            }
        }
        lemma_bit_length_unique(value as nat, (64 - zeros) as nat);
    }
}

/// The models of one coded integer: those of the unary bit-length and those of
/// the mantissa.
pub struct Gamma {
    pub length: Seq<int>,
    pub mantissa: Seq<int>,
}

impl Gamma {
    /// Every model still at one half.
    pub open spec fn fresh() -> Gamma {
        Gamma {
            length: Seq::new(LENGTH_MODELS as nat, |i: int| 1024),
            mantissa: Seq::new(MAX_BITS as nat, |i: int| 1024),
        }
    }

    pub open spec fn wf(self) -> bool {
        &&& self.length.len() == LENGTH_MODELS
        &&& self.mantissa.len() == MAX_BITS
        &&& all_usable(self.length)
        &&& all_usable(self.mantissa)
    }
}

/// Write the unary bit-length from position `k` on: ones up to `bits`, then a
/// zero.
pub open spec fn write_length(st: Interval, models: Seq<int>, k: nat, bits: nat) -> (
    Interval,
    Seq<int>,
)
    decreases bits - k,
{
    if k < bits {
        let (st, models) = code_at(st, models, k as int, true);
        write_length(st, models, k + 1, bits)
    } else {
        code_at(st, models, k as int, false)
    }
}

/// Write the lowest `left` bits of `value`, most significant first, from
/// mantissa position `pos` on.
pub open spec fn write_mantissa(st: Interval, models: Seq<int>, value: nat, pos: nat, left: nat) -> (
    Interval,
    Seq<int>,
)
    decreases left,
{
    if left == 0 {
        (st, models)
    } else {
        let bit = (value / pow2((left - 1) as nat)) % 2 == 1;
        let (st, models) = code_at(st, models, pos as int, bit);
        write_mantissa(st, models, value, pos + 1, (left - 1) as nat)
    }
}

/// Write an unsigned integer.
#[verifier::opaque]
pub open spec fn write_value(st: Interval, models: Gamma, value: nat) -> (Interval, Gamma) {
    let bits = bit_length(value);
    let (st, length) = write_length(st, models.length, 0, bits);
    let left = if bits == 0 {
        0
    } else {
        (bits - 1) as nat
    };
    let (st, mantissa) = write_mantissa(st, models.mantissa, value, 0, left);
    (st, Gamma { length, mantissa })
}

/// Write a signed integer.
pub open spec fn write_signed(st: Interval, models: Gamma, value: int) -> (Interval, Gamma) {
    write_value(st, models, fold_sign(value) as nat)
}

/// Read the unary bit-length from position `k` on; it ends at a zero, or after
/// `MAX_BITS + 1` ones.
pub open spec fn read_length(c: Cursor, models: Seq<int>, k: nat) -> (nat, Cursor, Seq<int>)
    decreases MAX_BITS + 1 - k,
{
    if k > MAX_BITS {
        (k, c, models)
    } else {
        let (bit, c, models) = read_at(c, models, k as int);
        if bit {
            read_length(c, models, k + 1)
        } else {
            (k, c, models)
        }
    }
}

/// Read `left` more mantissa bits below `value`.
pub open spec fn read_mantissa(c: Cursor, models: Seq<int>, value: nat, pos: nat, left: nat) -> (
    nat,
    Cursor,
    Seq<int>,
)
    decreases left,
{
    if left == 0 {
        (value, c, models)
    } else {
        let (bit, c, models) = read_at(c, models, pos as int);
        let low: nat = if bit {
            1
        } else {
            0
        };
        read_mantissa(c, models, value * 2 + low, pos + 1, (left - 1) as nat)
    }
}

/// Read an unsigned integer.
#[verifier::opaque]
pub open spec fn read_value(c: Cursor, models: Gamma) -> (nat, Cursor, Gamma) {
    let (bits, c, length) = read_length(c, models.length, 0);
    if bits == 0 {
        (0, c, Gamma { length, mantissa: models.mantissa })
    } else {
        let left = if bits > MAX_BITS {
            (MAX_BITS - 1) as nat
        } else {
            (bits - 1) as nat
        };
        let (value, c, mantissa) = read_mantissa(c, models.mantissa, 1, 0, left);
        (value, c, Gamma { length, mantissa })
    }
}

/// Read a signed integer.
pub open spec fn read_signed(c: Cursor, models: Gamma) -> (int, Cursor, Gamma) {
    let (value, c, models) = read_value(c, models);
    (unfold_sign(value as int), c, models)
}

proof fn lemma_write_length(st: Interval, models: Seq<int>, k: nat, bits: nat)
    requires
        st.wide(),
        all_usable(models),
        k <= bits < models.len(),
    ensures
        ({
            let (next, adapted) = write_length(st, models, k, bits);
            &&& next.wide()
            &&& st.len <= next.len <= st.len + (bits - k + 1)
            &&& all_usable(adapted)
            &&& adapted.len() == models.len()
        }),
    decreases bits - k,
{
    lemma_code_at(st, models, k as int, k < bits);
    if k < bits {
        let (next, adapted) = code_at(st, models, k as int, true);
        lemma_write_length(next, adapted, k + 1, bits);
    }
}

proof fn lemma_write_mantissa(st: Interval, models: Seq<int>, value: nat, pos: nat, left: nat)
    requires
        st.wide(),
        all_usable(models),
        pos + left <= models.len(),
    ensures
        ({
            let (next, adapted) = write_mantissa(st, models, value, pos, left);
            &&& next.wide()
            &&& st.len <= next.len <= st.len + left
            &&& all_usable(adapted)
            &&& adapted.len() == models.len()
        }),
    decreases left,
{
    if left > 0 {
        let bit = (value / pow2((left - 1) as nat)) % 2 == 1;
        lemma_code_at(st, models, pos as int, bit);
        let (next, adapted) = code_at(st, models, pos as int, bit);
        lemma_write_mantissa(next, adapted, value, pos + 1, (left - 1) as nat);
    }
}

/// Values that fit 64 bits have a bit-length of at most 64.
proof fn lemma_bit_length_bound(value: nat)
    requires
        value <= u64::MAX,
    ensures
        bit_length(value) <= MAX_BITS,
{
    lemma_leading_zeros(value as u64);
}

/// Writing an integer keeps the interval wide and the models usable, and costs
/// at most 128 bytes.
pub proof fn lemma_write_value(st: Interval, models: Gamma, value: nat)
    requires
        st.wide(),
        models.wf(),
        value <= u64::MAX,
    ensures
        ({
            let (next, adapted) = write_value(st, models, value);
            &&& next.wide()
            &&& st.len <= next.len <= st.len + 128
            &&& adapted.wf()
        }),
{
    reveal(write_value);
    lemma_bit_length_bound(value);
    let bits = bit_length(value);
    lemma_write_length(st, models.length, 0, bits);
    let (next, length) = write_length(st, models.length, 0, bits);
    let left = if bits == 0 {
        0
    } else {
        (bits - 1) as nat
    };
    lemma_write_mantissa(next, models.mantissa, value, 0, left);
}

proof fn lemma_length_follows(st: Interval, models: Seq<int>, k: nat, bits: nat, s: Seq<u8>)
    requires
        st.wide(),
        all_usable(models),
        models.len() == LENGTH_MODELS,
        k <= bits <= MAX_BITS,
        write_length(st, models, k, bits).0.covers(s),
    ensures
        st.covers(s),
        read_length(st.cursor(s), models, k) == (
            bits,
            write_length(st, models, k, bits).0.cursor(s),
            write_length(st, models, k, bits).1,
        ),
    decreases bits - k,
{
    lemma_code_at(st, models, k as int, k < bits);
    if k < bits {
        let (next, adapted) = code_at(st, models, k as int, true);
        lemma_length_follows(next, adapted, k + 1, bits, s);
    }
    lemma_code_at_follows(st, models, k as int, k < bits, s);
}

/// Dropping one bit less of a value keeps one bit more of it.
proof fn lemma_prefix_extends(value: nat, left: nat)
    requires
        left > 0,
    ensures
        value / pow2((left - 1) as nat) == (value / pow2(left)) * 2 + (value / pow2(
            (left - 1) as nat,
        )) % 2,
{
    lemma_pow2_pos((left - 1) as nat);
    lemma_pow2_unfold(left);
    lemma_div_denominator(value as int, pow2((left - 1) as nat) as int, 2);
}

proof fn lemma_mantissa_follows(
    st: Interval,
    models: Seq<int>,
    value: nat,
    pos: nat,
    left: nat,
    s: Seq<u8>,
)
    requires
        st.wide(),
        all_usable(models),
        pos + left <= models.len(),
        write_mantissa(st, models, value, pos, left).0.covers(s),
    ensures
        st.covers(s),
        read_mantissa(st.cursor(s), models, value / pow2(left), pos, left) == (
            value,
            write_mantissa(st, models, value, pos, left).0.cursor(s),
            write_mantissa(st, models, value, pos, left).1,
        ),
    decreases left,
{
    if left == 0 {
        lemma2_to64();
        assert(value / pow2(left) == value) by (nonlinear_arith)
            requires
                pow2(left) == 1,
        ;
    } else {
        let bit = (value / pow2((left - 1) as nat)) % 2 == 1;
        lemma_code_at(st, models, pos as int, bit);
        let (next, adapted) = code_at(st, models, pos as int, bit);
        lemma_mantissa_follows(next, adapted, value, pos + 1, (left - 1) as nat, s);
        lemma_code_at_follows(st, models, pos as int, bit, s);
        lemma_prefix_extends(value, left);
        let head = value / pow2(left);
        lemma_pow2_pos(left);
        lemma_div_pos_is_pos(value as int, pow2(left) as int);
        let low: nat = if bit {
            1
        } else {
            0
        };
        assert(head * 2 + low == value / pow2((left - 1) as nat));
        assert(read_at(st.cursor(s), models, pos as int) == (bit, next.cursor(s), adapted));
    }
}

/// A reader of bytes that fall into the interval reached by writing `value`
/// reads `value`, and stays in step with the coder.
pub proof fn lemma_value_follows(st: Interval, models: Gamma, value: nat, s: Seq<u8>)
    requires
        st.wide(),
        models.wf(),
        value <= u64::MAX,
        write_value(st, models, value).0.covers(s),
    ensures
        st.covers(s),
        read_value(st.cursor(s), models) == (
            value,
            write_value(st, models, value).0.cursor(s),
            write_value(st, models, value).1,
        ),
{
    reveal(write_value);
    reveal(read_value);
    lemma_bit_length_bound(value);
    lemma_bit_length(value);
    let bits = bit_length(value);
    lemma_write_length(st, models.length, 0, bits);
    let (next, length) = write_length(st, models.length, 0, bits);
    let left = if bits == 0 {
        0
    } else {
        (bits - 1) as nat
    };
    lemma_mantissa_follows(next, models.mantissa, value, 0, left, s);
    lemma_length_follows(st, models.length, 0, bits, s);
    if bits > 0 {
        lemma_pow2_pos(left);
        lemma_pow2_unfold(bits);
        assert(value / pow2(left) == 1) by (nonlinear_arith)
            requires
                pow2(left) > 0,
                pow2(left) <= value < 2 * pow2(left),
        ;
    }
}

/// The same for a signed integer.
pub proof fn lemma_signed_follows(st: Interval, models: Gamma, value: i64, s: Seq<u8>)
    requires
        st.wide(),
        models.wf(),
        write_signed(st, models, value as int).0.covers(s),
    ensures
        st.covers(s),
        read_signed(st.cursor(s), models) == (
            value as int,
            write_signed(st, models, value as int).0.cursor(s),
            write_signed(st, models, value as int).1,
        ),
{
    lemma_value_follows(st, models, fold_sign(value as int) as nat, s);
    law_zigzag_inverts(value as int, 0);
}

/// Code integers one after the other.
pub open spec fn write_values(st: Interval, models: Gamma, values: Seq<u64>) -> (Interval, Gamma)
    decreases values.len(),
{
    if values.len() == 0 {
        (st, models)
    } else {
        let (next, adapted) = write_value(st, models, values[0] as nat);
        write_values(next, adapted, values.skip(1))
    }
}

/// Read `count` integers one after the other.
pub open spec fn read_values(c: Cursor, models: Gamma, count: nat) -> (Seq<nat>, Cursor, Gamma)
    decreases count,
{
    if count == 0 {
        (seq![], c, models)
    } else {
        let (value, next, adapted) = read_value(c, models);
        let (values, last, learned) = read_values(next, adapted, (count - 1) as nat);
        (seq![value] + values, last, learned)
    }
}

/// Code signed integers one after the other.
pub open spec fn write_integers(st: Interval, models: Gamma, values: Seq<i64>) -> (Interval, Gamma)
    decreases values.len(),
{
    if values.len() == 0 {
        (st, models)
    } else {
        let (next, adapted) = write_signed(st, models, values[0] as int);
        write_integers(next, adapted, values.skip(1))
    }
}

/// Read `count` signed integers one after the other.
pub open spec fn read_integers(c: Cursor, models: Gamma, count: nat) -> (Seq<int>, Cursor, Gamma)
    decreases count,
{
    if count == 0 {
        (seq![], c, models)
    } else {
        let (value, next, adapted) = read_signed(c, models);
        let (values, last, learned) = read_integers(next, adapted, (count - 1) as nat);
        (seq![value] + values, last, learned)
    }
}

/// Coding integers keeps an interval wide and models usable.
proof fn lemma_write_values(st: Interval, models: Gamma, values: Seq<u64>)
    requires
        st.wide(),
        models.wf(),
    ensures
        write_values(st, models, values).0.wide(),
        write_values(st, models, values).1.wf(),
        st.len <= write_values(st, models, values).0.len,
    decreases values.len(),
{
    if values.len() > 0 {
        let (next, adapted) = write_value(st, models, values[0] as nat);
        lemma_write_value(st, models, values[0] as nat);
        lemma_write_values(next, adapted, values.skip(1));
    }
}

/// Coding integers is coding the first of them and then the others.
proof fn lemma_write_values_split(st: Interval, models: Gamma, values: Seq<u64>, i: int)
    requires
        0 <= i <= values.len(),
    ensures
        ({
            let (next, adapted) = write_values(st, models, values.take(i));
            write_values(st, models, values) == write_values(next, adapted, values.skip(i))
        }),
    decreases i,
{
    if i == 0 {
        assert(values.skip(0) =~= values);
    } else {
        let (next, adapted) = write_value(st, models, values[0] as nat);
        lemma_write_values_split(next, adapted, values.skip(1), i - 1);
        assert(values.take(i).skip(1) =~= values.skip(1).take(i - 1));
        assert(values.skip(1).skip(i - 1) =~= values.skip(i));
    }
}

/// A reader of bytes that fall into the interval reached by coding integers
/// reads them, and learns the same models.
proof fn lemma_values_follow(st: Interval, models: Gamma, values: Seq<u64>, s: Seq<u8>)
    requires
        st.wide(),
        models.wf(),
        write_values(st, models, values).0.covers(s),
    ensures
        st.covers(s),
        read_values(st.cursor(s), models, values.len()) == (
            values.map_values(|v: u64| v as nat),
            write_values(st, models, values).0.cursor(s),
            write_values(st, models, values).1,
        ),
    decreases values.len(),
{
    let plain = |v: u64| v as nat;
    if values.len() == 0 {
        assert(values.map_values(plain) =~= seq![]);
    } else {
        let (next, adapted) = write_value(st, models, values[0] as nat);
        let rest = values.skip(1);
        lemma_write_value(st, models, values[0] as nat);
        lemma_values_follow(next, adapted, rest, s);
        lemma_value_follows(st, models, values[0] as nat, s);
        assert(seq![values[0] as nat] + rest.map_values(plain) =~= values.map_values(plain));
    }
}

/// Whatever integers are coded, from whatever models, reading as many from the
/// bytes that the coder is flushed to gives them back. After each number `i`
/// of them both sides have the same probabilities, and the reader has taken in
/// as many bytes as the coder had settled on; after the last one, all of them
/// and none beyond.
pub proof fn law_unsigned_integers_round_trip(
    models: Gamma,
    values: Seq<u64>,
    bytes: Seq<u8>,
    i: int,
)
    requires
        models.wf(),
        spells(bytes, write_values(Interval::start(), models, values).0),
        0 <= i <= values.len(),
    ensures
        ({
            let (st, adapted) = write_values(Interval::start(), models, values.take(i));
            let (read, last, learned) = read_values(Cursor::start(bytes), models, i as nat);
            &&& read == values.take(i).map_values(|v: u64| v as nat)
            &&& learned == adapted
            &&& st.len <= bytes.len()
            &&& last.rest == bytes.skip(st.len as int)
            &&& i == values.len() ==> last.rest.len() == 0
        }),
{
    let start = Interval::start();
    let (head, tail) = (values.take(i), values.skip(i));
    let (st, adapted) = write_values(start, models, head);
    lemma_write_values(start, models, values);
    lemma_write_values(start, models, head);
    lemma_write_values(st, adapted, tail);
    lemma_write_values_split(start, models, values, i);
    lemma_low_end_covered(write_values(start, models, values).0, bytes);
    lemma_values_follow(st, adapted, tail, bytes);
    lemma_values_follow(start, models, head, bytes);
    lemma_start_follows(bytes);
    if i == values.len() {
        assert(head =~= values);
    }
}

/// Signed integers with their signs folded.
pub open spec fn folded(values: Seq<i64>) -> Seq<u64> {
    Seq::new(values.len(), |i: int| fold_sign(values[i] as int) as u64)
}

/// Signed integers are coded as what they fold to.
proof fn lemma_write_folded(st: Interval, models: Gamma, values: Seq<i64>)
    ensures
        write_integers(st, models, values) == write_values(st, models, folded(values)),
    decreases values.len(),
{
    if values.len() > 0 {
        let (next, adapted) = write_signed(st, models, values[0] as int);
        lemma_write_folded(next, adapted, values.skip(1));
        assert(folded(values).skip(1) =~= folded(values.skip(1)));
    }
}

/// Signed integers are read as what unfolds.
proof fn lemma_read_unfolded(c: Cursor, models: Gamma, count: nat)
    ensures
        ({
            let (values, last, learned) = read_values(c, models, count);
            read_integers(c, models, count) == (
                values.map_values(|v: nat| unfold_sign(v as int)),
                last,
                learned,
            )
        }),
    decreases count,
{
    let unfold = |v: nat| unfold_sign(v as int);
    if count == 0 {
        assert(Seq::<nat>::empty().map_values(unfold) =~= seq![]);
    } else {
        let (value, next, adapted) = read_value(c, models);
        let less = (count - 1) as nat;
        lemma_read_unfolded(next, adapted, less);
        let values = read_values(next, adapted, less).0;
        assert((seq![value] + values).map_values(unfold) =~= seq![unfold(value)]
            + values.map_values(unfold));
    }
}

/// The same for signed integers.
pub proof fn law_integers_round_trip(models: Gamma, values: Seq<i64>, bytes: Seq<u8>, i: int)
    requires
        models.wf(),
        spells(bytes, write_integers(Interval::start(), models, values).0),
        0 <= i <= values.len(),
    ensures
        ({
            let (st, adapted) = write_integers(Interval::start(), models, values.take(i));
            let (read, last, learned) = read_integers(Cursor::start(bytes), models, i as nat);
            &&& read == values.take(i).map_values(|v: i64| v as int)
            &&& learned == adapted
            &&& st.len <= bytes.len()
            &&& last.rest == bytes.skip(st.len as int)
            &&& i == values.len() ==> last.rest.len() == 0
        }),
{
    let start = Interval::start();
    lemma_write_folded(start, models, values);
    lemma_write_folded(start, models, values.take(i));
    lemma_read_unfolded(Cursor::start(bytes), models, i as nat);
    law_unsigned_integers_round_trip(models, folded(values), bytes, i);
    assert(folded(values).take(i) =~= folded(values.take(i)));
    let read = read_integers(Cursor::start(bytes), models, i as nat).0;
    let plain = values.take(i).map_values(|v: i64| v as int);
    assert forall|k: int| 0 <= k < i implies read[k] == plain[k] by {
        law_zigzag_inverts(values[k] as int, 0);
    }
    assert(read =~= plain);
}

/// Adaptive models for coding one signed integer, using an Elias-gamma
/// binarisation: a unary bit-length followed by the mantissa.
pub struct IntModels {
    /// `exp[k]` codes "is there a (k+1)th bit?" in the unary prefix.
    exp: [BitModel; LENGTH_MODELS],
    /// `mant[k]` codes the (k+1)th mantissa bit counting from the top.
    mant: [BitModel; MAX_BITS],
}

impl View for IntModels {
    type V = Gamma;

    closed spec fn view(&self) -> Gamma {
        Gamma { length: probabilities(self.exp@), mantissa: probabilities(self.mant@) }
    }
}

impl IntModels {
    pub fn new() -> (models: Self)
        ensures
            models@ == Gamma::fresh(),
            models@.wf(),
    {
        let model = BitModel::new();
        let models = IntModels { exp: [model; LENGTH_MODELS], mant: [model; MAX_BITS] };
        assert(models@.length =~= Gamma::fresh().length);
        assert(models@.mantissa =~= Gamma::fresh().mantissa);
        models
    }

    /// Code an unsigned integer, which takes at most 128 bytes.
    pub fn encode(&mut self, enc: &mut Encoder, value: u64)
        requires
            old(self)@.wf(),
            old(enc).wf(),
            old(enc).interval().len + 128 <= u64::MAX || write_value(
                old(enc).interval(),
                old(self)@,
                value as nat,
            ).0.len <= u64::MAX,
        ensures
            final(self)@.wf(),
            final(enc).wf(),
            final(enc).interval().len <= old(enc).interval().len + 128,
            (final(enc).interval(), final(self)@) == write_value(
                old(enc).interval(),
                old(self)@,
                value as nat,
            ),
    {
        let ghost start = enc.interval();
        let ghost fresh = self@;
        proof {
            reveal(write_value);
            enc.lemma_wide();
            lemma_leading_zeros(value);
            lemma_write_value(start, fresh, value as nat);
        }
        let bits: usize = if value == 0 {
            0
        } else {
            64 - value.leading_zeros() as usize
        };
        let ghost left = if bits == 0 { 0 } else { (bits - 1) as nat };
        let ghost spelled = write_length(start, fresh.length, 0, bits as nat);
        let ghost coded = write_mantissa(spelled.0, fresh.mantissa, value as nat, 0, left);
        proof {
            lemma_write_length(start, fresh.length, 0, bits as nat);
            lemma_write_mantissa(spelled.0, fresh.mantissa, value as nat, 0, left);
        }

        // Unary prefix: `bits` ones, then a terminating zero.
        for k in 0..bits
            invariant
                bits <= MAX_BITS,
                enc.wf(),
                self@.wf(),
                self@.mantissa == fresh.mantissa,
                write_length(enc.interval(), self@.length, k as nat, bits as nat) == spelled,
                spelled.0.len <= u64::MAX,
        {
            proof {
                enc.lemma_wide();
                let (next, models) = code_at(enc.interval(), self@.length, k as int, true);
                lemma_code_at(enc.interval(), self@.length, k as int, true);
                lemma_write_length(next, models, (k + 1) as nat, bits as nat);
            }
            encode_at(enc, &mut self.exp, k, 1);
        }
        encode_at(enc, &mut self.exp, bits, 0);
        if bits < 2 {
            return;
        }

        // Mantissa below the implicit leading one, most significant first.
        for pos in 0..bits - 1
            invariant
                2 <= bits <= MAX_BITS,
                enc.wf(),
                self@.wf(),
                self@.length == spelled.1,
                write_mantissa(
                    enc.interval(),
                    self@.mantissa,
                    value as nat,
                    pos as nat,
                    (bits - 1 - pos) as nat,
                ) == coded,
                coded.0.len <= u64::MAX,
        {
            let shift: u64 = (bits - 2 - pos) as u64;
            let bit = ((value >> shift) & 1) as u32;
            proof {
                let shifted = value >> shift;
                lemma_u64_shr_is_div(value, shift);
                assert(shifted & 1 == shifted % 2) by (bit_vector);
                enc.lemma_wide();
                let (next, models) = code_at(enc.interval(), self@.mantissa, pos as int, bit != 0);
                lemma_code_at(enc.interval(), self@.mantissa, pos as int, bit != 0);
                lemma_write_mantissa(
                    next,
                    models,
                    value as nat,
                    (pos + 1) as nat,
                    (bits - 2 - pos) as nat,
                );
            }
            encode_at(enc, &mut self.mant, pos, bit);
        }
    }

    /// Decode an unsigned integer.
    pub fn decode(&mut self, dec: &mut Decoder) -> (value: u64)
        requires
            old(self)@.wf(),
            old(dec).wf(),
        ensures
            final(self)@.wf(),
            final(dec).wf(),
            (value as nat, final(dec).cursor(), final(self)@) == read_value(
                old(dec).cursor(),
                old(self)@,
            ),
    {
        let ghost start = dec.cursor();
        let ghost fresh = self@;
        proof {
            reveal(read_value);
        }
        let ghost spelled = read_length(start, fresh.length, 0);
        let mut bits: usize = 0;
        // `bits == MAX_BITS` is a full-width value; its terminator is coded
        // with `exp[MAX_BITS]`, so the loop runs one past that.
        while bits <= MAX_BITS
            invariant_except_break
                read_length(dec.cursor(), self@.length, bits as nat) == spelled,
            invariant
                bits <= MAX_BITS + 1,
                dec.wf(),
                self@.wf(),
                self@.mantissa == fresh.mantissa,
            ensures
                spelled == (bits as nat, dec.cursor(), self@.length),
            decreases MAX_BITS + 1 - bits,
        {
            if decode_at(dec, &mut self.exp, bits) == 0 {
                break;
            }
            bits = bits + 1;
        }
        if bits == 0 {
            return 0;
        }
        let bits = if bits < MAX_BITS {
            bits
        } else {
            MAX_BITS
        };

        let mut value: u64 = 1;
        let ghost read = read_mantissa(spelled.1, fresh.mantissa, 1, 0, (bits - 1) as nat);
        proof {
            lemma2_to64();
            lemma2_to64_rest();
        }
        for pos in 0..bits - 1
            invariant
                1 <= bits <= MAX_BITS,
                dec.wf(),
                self@.wf(),
                self@.length == spelled.2,
                value < pow2((pos + 1) as nat),
                pow2(63) == 0x8000_0000_0000_0000,
                read_mantissa(
                    dec.cursor(),
                    self@.mantissa,
                    value as nat,
                    pos as nat,
                    (bits - 1 - pos) as nat,
                ) == read,
        {
            proof {
                lemma_pow2_ordered((pos + 1) as nat, 63);
                lemma_pow2_unfold((pos + 2) as nat);
            }
            let bit = decode_at(dec, &mut self.mant, pos) as u64;
            assert((value << 1) | bit == value * 2 + bit) by (bit_vector)
                requires
                    value < 0x8000_0000_0000_0000,
                    bit == 0 || bit == 1,
            ;
            value = (value << 1) | bit;
        }
        value
    }

    /// Code a signed integer, which takes at most 128 bytes.
    pub fn encode_signed(&mut self, enc: &mut Encoder, value: i64)
        requires
            old(self)@.wf(),
            old(enc).wf(),
            old(enc).interval().len + 128 <= u64::MAX || write_signed(
                old(enc).interval(),
                old(self)@,
                value as int,
            ).0.len <= u64::MAX,
        ensures
            final(self)@.wf(),
            final(enc).wf(),
            final(enc).interval().len <= old(enc).interval().len + 128,
            (final(enc).interval(), final(self)@) == write_signed(
                old(enc).interval(),
                old(self)@,
                value as int,
            ),
    {
        self.encode(enc, zigzag(value));
    }

    /// Decode a signed integer.
    pub fn decode_signed(&mut self, dec: &mut Decoder) -> (value: i64)
        requires
            old(self)@.wf(),
            old(dec).wf(),
        ensures
            final(self)@.wf(),
            final(dec).wf(),
            (value as int, final(dec).cursor(), final(self)@) == read_signed(
                old(dec).cursor(),
                old(self)@,
            ),
    {
        unzigzag(self.decode(dec))
    }
}

/// Folding takes what is not negative to the even numbers, and what is negative
/// to the odd ones between them.
pub proof fn law_zigzag_alternates(value: int)
    requires
        value >= 0,
    ensures
        fold_sign(value) == 2 * value,
        fold_sign(-1 - value) == 2 * value + 1,
        unfold_sign(2 * value) == value,
        unfold_sign(2 * value + 1) == -1 - value,
{
}

proof fn lemma_length_symbols(st: Interval, models: Seq<int>, k: nat, bits: nat)
    requires
        k <= bits,
    ensures
        write_length(st, models, k, bits) == write_bits(
            st,
            models,
            Seq::new((bits - k + 1) as nat, |i: int| (k + i, k + i < bits)),
        ),
    decreases bits - k,
{
    let symbols = Seq::new((bits - k + 1) as nat, |i: int| (k + i, k + i < bits));
    assert(symbols[0] == (k as int, k < bits));
    if k < bits {
        let (next, adapted) = code_at(st, models, k as int, true);
        lemma_length_symbols(next, adapted, k + 1, bits);
        let later = Seq::new((bits - (k + 1) + 1) as nat, |i: int| (k + 1 + i, k + 1 + i < bits));
        assert(symbols.skip(1) =~= later);
    } else {
        let (next, adapted) = code_at(st, models, k as int, false);
        assert(symbols.skip(1) =~= seq![]);
        assert(write_bits(next, adapted, symbols.skip(1)) == (next, adapted));
    }
}

proof fn lemma_mantissa_symbols(
    st: Interval,
    models: Seq<int>,
    value: nat,
    pos: nat,
    left: nat,
)
    ensures
        write_mantissa(st, models, value, pos, left) == write_bits(
            st,
            models,
            Seq::new(
                left,
                |i: int| (pos + i, (value / pow2((left - 1 - i) as nat)) % 2 == 1),
            ),
        ),
    decreases left,
{
    let symbols = Seq::new(
        left,
        |i: int| (pos + i, (value / pow2((left - 1 - i) as nat)) % 2 == 1),
    );
    if left > 0 {
        let bit = (value / pow2((left - 1) as nat)) % 2 == 1;
        let less = (left - 1) as nat;
        assert(symbols[0] == (pos as int, bit));
        let (next, adapted) = code_at(st, models, pos as int, bit);
        lemma_mantissa_symbols(next, adapted, value, pos + 1, less);
        let later = Seq::new(
            less,
            |i: int| (pos + 1 + i, (value / pow2((less - 1 - i) as nat)) % 2 == 1),
        );
        assert forall|i: int| 0 <= i < less implies symbols.skip(1)[i] == later[i] by {
            assert(left - 1 - (i + 1) == less - 1 - i);
        }
        assert(symbols.skip(1) =~= later);
    }
}

/// An integer of `bits` bits is written as as many ones and a zero, the `k`th
/// of them against the `k`th model of the length, and then its bits below the
/// leading one, from the top, the `k`th against the `k`th model of the
/// mantissa.
pub proof fn law_integers_are_elias_gamma(st: Interval, models: Gamma, value: nat, bits: nat)
    requires
        value == 0 ==> bits == 0,
        value > 0 ==> bits > 0 && pow2((bits - 1) as nat) <= value < pow2(bits),
    ensures
        ({
            let unary = Seq::new(bits + 1, |k: int| (k, k < bits));
            let below = Seq::new(
                if bits == 0 { 0 } else { (bits - 1) as nat },
                |k: int| (k, (value / pow2((bits - 2 - k) as nat)) % 2 == 1),
            );
            let (after, length) = write_bits(st, models.length, unary);
            let (last, mantissa) = write_bits(after, models.mantissa, below);
            let (end, adapted) = write_value(st, models, value);
            &&& end == last
            &&& adapted.length == length
            &&& adapted.mantissa == mantissa
        }),
{
    reveal(write_value);
    if value > 0 {
        lemma_bit_length_unique(value, bits);
    }
    let left = if bits == 0 {
        0
    } else {
        (bits - 1) as nat
    };
    let unary = Seq::new(bits + 1, |k: int| (k, k < bits));
    let below = Seq::new(left, |k: int| (k, (value / pow2((bits - 2 - k) as nat)) % 2 == 1));
    let (after, length) = write_bits(st, models.length, unary);
    lemma_length_symbols(st, models.length, 0, bits);
    assert(Seq::new((bits - 0 + 1) as nat, |i: int| (0 + i, 0 + i < bits)) =~= unary);
    lemma_mantissa_symbols(after, models.mantissa, value, 0, left);
    assert(Seq::new(
        left,
        |i: int| (0 + i, (value / pow2((left - 1 - i) as nat)) % 2 == 1),
    ) =~= below);
}

/// A signed integer is written as what it folds to.
pub proof fn law_signed_integers_are_folded(st: Interval, models: Gamma, value: nat)
    ensures
        write_signed(st, models, value as int) == write_value(st, models, 2 * value),
        write_signed(st, models, -1 - value) == write_value(st, models, 2 * value + 1),
{
}

/// Every model starts at one half.
pub proof fn law_fresh_models_are_even(k: int)
    ensures
        Gamma::fresh().length.len() == 66,
        Gamma::fresh().mantissa.len() == 64,
        0 <= k < 66 ==> Gamma::fresh().length[k] == 1024,
        0 <= k < 64 ==> Gamma::fresh().mantissa[k] == 1024,
{
}

/// The length of an integer is read as a run of ones up to a zero, each against
/// its own model, or of 65 ones at most.
pub proof fn law_lengths_are_read_in_unary(c: Cursor, models: Seq<int>, k: nat)
    requires
        k <= 65,
    ensures
        ({
            let (bit, next, adapted) = read_at(c, models, k as int);
            &&& k == 65 ==> read_length(c, models, k) == (k, c, models)
            &&& k < 65 && !bit ==> read_length(c, models, k) == (k, next, adapted)
            &&& k < 65 && bit ==> read_length(c, models, k) == read_length(next, adapted, k + 1)
        }),
{
}

/// The bits below the leading one are read from the top, each against its own
/// model, and double what was read before.
pub proof fn law_mantissas_are_read_from_the_top(
    c: Cursor,
    models: Seq<int>,
    value: nat,
    pos: nat,
    left: nat,
)
    ensures
        ({
            let (bit, next, adapted) = read_at(c, models, pos as int);
            let longer: nat = if bit { 2 * value + 1 } else { 2 * value };
            &&& left == 0 ==> read_mantissa(c, models, value, pos, left) == (value, c, models)
            &&& left > 0 ==> read_mantissa(c, models, value, pos, left) == read_mantissa(
                next,
                adapted,
                longer,
                pos + 1,
                (left - 1) as nat,
            )
        }),
{
}

/// An integer is read as its length, and then as many bits less one below a
/// leading one, 63 at most; without a length it is zero.
pub proof fn law_integers_are_read(c: Cursor, models: Gamma)
    ensures
        ({
            let (bits, after, length) = read_length(c, models.length, 0);
            let left: nat = if bits > 64 { 63 } else { (bits - 1) as nat };
            let (value, end, adapted) = read_value(c, models);
            let (below, last, mantissa) = read_mantissa(after, models.mantissa, 1, 0, left);
            &&& adapted.length == length
            &&& bits == 0 ==> value == 0 && end == after && adapted.mantissa == models.mantissa
            &&& bits > 0 ==> value == below && end == last && adapted.mantissa == mantissa
            &&& read_signed(c, models).0 == if value % 2 == 0 {
                value as int / 2
            } else {
                -1 - value as int / 2
            }
            &&& read_signed(c, models).1 == end
            &&& read_signed(c, models).2 == adapted
        }),
{
    reveal(read_value);
}

} // verus!
