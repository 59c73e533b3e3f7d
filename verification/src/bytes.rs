//! Little-endian integers.

use vstd::prelude::*;

verus! {

/// The lowest `count` base-256 digits of `value`, least significant first.
pub open spec fn little_endian(value: nat, count: nat) -> Seq<u8>
    decreases count,
{
    if count == 0 {
        Seq::empty()
    } else {
        seq![(value % 256) as u8] + little_endian(value / 256, (count - 1) as nat)
    }
}

/// The integer whose base-256 digits are `s`, least significant first.
pub open spec fn from_little_endian(s: Seq<u8>) -> nat
    decreases s.len(),
{
    if s.len() == 0 {
        0
    } else {
        s[0] as nat + 256 * from_little_endian(s.skip(1))
    }
}

/// The first integer that does not fit `count` bytes.
pub open spec fn byte_limit(count: nat) -> nat
    decreases count,
{
    if count == 0 {
        1
    } else {
        256 * byte_limit((count - 1) as nat)
    }
}

pub proof fn lemma_little_endian_len(value: nat, count: nat)
    ensures
        little_endian(value, count).len() == count,
    decreases count,
{
    if count > 0 {
        lemma_little_endian_len(value / 256, (count - 1) as nat);
    }
}

/// Integers that fit their bytes read back as they were written.
pub proof fn law_little_endian_round_trips(value: nat, count: nat)
    requires
        value < byte_limit(count),
    ensures
        from_little_endian(little_endian(value, count)) == value,
    decreases count,
{
    let s = little_endian(value, count);
    lemma_little_endian_len(value, count);
    if count > 0 {
        law_little_endian_round_trips(value / 256, (count - 1) as nat);
        assert(s.skip(1) =~= little_endian(value / 256, (count - 1) as nat));
    }
}

/// Append the lowest `count` bytes of `value`, least significant first.
pub(crate) fn push_little_endian(buf: &mut Vec<u8>, value: u64, count: usize)
    ensures
        final(buf)@ == old(buf)@ + little_endian(value as nat, count as nat),
{
    let ghost before = buf@;
    let mut rest = value;
    for k in 0..count
        invariant
            buf@ + little_endian(rest as nat, (count - k) as nat) == before + little_endian(
                value as nat,
                count as nat,
            ),
    {
        let ghost so_far = buf@;
        let ghost tail = little_endian((rest / 256) as nat, (count - k - 1) as nat);
        buf.push((rest % 256) as u8);
        assert(so_far + (seq![(rest % 256) as u8] + tail) =~= buf@ + tail);
        rest = rest / 256;
    }
    assert(buf@ =~= buf@ + little_endian(rest as nat, 0));
}

/// Read `count` bytes from `at` on, least significant first.
pub(crate) fn read_little_endian(data: &[u8], at: usize, count: usize) -> (value: u64)
    requires
        at + count <= data@.len(),
        count <= 8,
    ensures
        value == from_little_endian(data@.subrange(at as int, at + count)),
        value < byte_limit(count as nat),
{
    let mut value: u64 = 0;
    let mut k: usize = count;
    proof {
        reveal_with_fuel(byte_limit, 9);
        assert(data@.subrange(at + k, at + count) =~= Seq::<u8>::empty());
    }
    while k > 0
        invariant
            k <= count <= 8,
            at + count <= data@.len(),
            value == from_little_endian(data@.subrange(at + k, at + count)),
            value < byte_limit((count - k) as nat),
        decreases k,
    {
        k = k - 1;
        proof {
            let s = data@.subrange(at + k, at + count);
            assert(s.skip(1) =~= data@.subrange(at + k + 1, at + count));
            lemma_byte_limit((count - k) as nat);
            assert(data.len() <= usize::MAX);
        }
        value = value * 256 + data[at + k] as u64;
    }
    value
}

proof fn lemma_byte_limit(count: nat)
    requires
        0 < count <= 8,
    ensures
        byte_limit(count) == 256 * byte_limit((count - 1) as nat),
        byte_limit(count) <= 0x1_0000_0000_0000_0000,
        count <= 4 ==> byte_limit(count) <= 0x1_0000_0000,
{
    reveal_with_fuel(byte_limit, 9);
}

/// The digits of a little-endian number: none are zero, and one more in front
/// makes 256 times as much and itself.
pub proof fn law_little_endian_digits(s: Seq<u8>, byte: u8)
    ensures
        from_little_endian(Seq::empty()) == 0,
        from_little_endian(seq![byte] + s) == byte + 256 * from_little_endian(s),
{
    assert((seq![byte] + s).skip(1) =~= s);
}

/// Four bytes, the least significant first.
pub proof fn law_four_little_endian_bytes(s: Seq<u8>)
    requires
        s.len() == 4,
    ensures
        from_little_endian(s) == s[0] + 0x100 * s[1] + 0x1_0000 * s[2] + 0x100_0000 * s[3],
{
    reveal_with_fuel(from_little_endian, 5);
    assert(s.skip(1).skip(1) =~= s.skip(2));
    assert(s.skip(2).skip(1) =~= s.skip(3));
    assert(s.skip(3).skip(1) =~= Seq::<u8>::empty());
}

/// Eight bytes are four and four.
pub proof fn law_eight_little_endian_bytes(s: Seq<u8>)
    requires
        s.len() == 8,
    ensures
        from_little_endian(s) == from_little_endian(s.take(4)) + 0x1_0000_0000
            * from_little_endian(s.skip(4)),
{
    let (low, high) = (s.take(4), s.skip(4));
    law_four_little_endian_bytes(low);
    reveal_with_fuel(from_little_endian, 5);
    assert(s.skip(1).skip(1) =~= s.skip(2));
    assert(s.skip(2).skip(1) =~= s.skip(3));
    assert(s.skip(3).skip(1) =~= high);
}

} // verus!
