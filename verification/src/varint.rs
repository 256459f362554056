//! Variable-length quantities and big-endian numbers, as MIDI files write them.
//!
//! A quantity is a run of bytes that each carry seven bits, the most
//! significant first; every byte but the last has its top bit set.

use vstd::arithmetic::div_mod::lemma_mod_multiples_vanish;
use vstd::prelude::*;

verus! {

/// How many bytes at the front of `s` belong to one quantity: those up to and
/// including the first byte below `0x80`, or all of `s` where there is none.
pub open spec fn quantity_len(s: Seq<u8>) -> nat
    decreases s.len(),
{
    if s.len() == 0 {
        0
    } else if s[0] < 0x80 {
        1
    } else {
        1 + quantity_len(s.skip(1))
    }
}

/// Whether the quantity at the front of `s` has its last byte in `s`.
pub open spec fn is_terminated(s: Seq<u8>) -> bool {
    quantity_len(s) > 0 && s[quantity_len(s) - 1] < 0x80
}

/// The number that the seven-bit digits of `s` spell.
pub open spec fn base128(s: Seq<u8>) -> nat
    decreases s.len(),
{
    if s.len() == 0 {
        0
    } else {
        base128(s.drop_last()) * 128 + (s.last() % 128) as nat
    }
}

/// What is left in 32 bits of the number that the digits of `s` spell.
pub open spec fn quantity_value(s: Seq<u8>) -> u32 {
    (base128(s) % 0x1_0000_0000) as u32
}

/// The bytes of the quantity at the front of `s`.
pub open spec fn quantity_bytes(s: Seq<u8>) -> Seq<u8> {
    s.take(quantity_len(s) as int)
}

/// The number that the bytes of `s` spell, the most significant first.
pub open spec fn big_endian(s: Seq<u8>) -> nat
    decreases s.len(),
{
    if s.len() == 0 {
        0
    } else {
        big_endian(s.drop_last()) * 256 + s.last() as nat
    }
}

/// A quantity takes no more bytes than there are.
pub(crate) proof fn lemma_quantity_len_bound(s: Seq<u8>)
    ensures
        quantity_len(s) <= s.len(),
        s.len() > 0 ==> quantity_len(s) > 0,
    decreases s.len(),
{
    if s.len() > 0 && s[0] >= 0x80 {
        lemma_quantity_len_bound(s.skip(1));
    }
}

/// `n` bytes, of which only the last may be below `0x80`, are the quantity at
/// the front of `s` when the last one is below `0x80` or ends `s`.
pub(crate) proof fn lemma_quantity_len_is(s: Seq<u8>, n: int)
    requires
        0 < n <= s.len(),
        forall|i: int| 0 <= i < n - 1 ==> #[trigger] s[i] >= 0x80,
        n == s.len() || s[n - 1] < 0x80,
    ensures
        quantity_len(s) == n,
    decreases n,
{
    if s[0] >= 0x80 {
        let t = s.skip(1);
        if n == 1 {
            assert(quantity_len(t) == 0);
        } else {
            assert forall|i: int| 0 <= i < n - 2 implies #[trigger] t[i] >= 0x80 by {
                assert(t[i] == s[i + 1]);
            }
            lemma_quantity_len_is(t, n - 1);
        }
    }
}

/// All bytes of a quantity but the last have the top bit set; where the last
/// one has it too, the quantity is all of `s`.
pub(crate) proof fn lemma_quantity_shape(s: Seq<u8>)
    ensures
        forall|i: int| 0 <= i < quantity_len(s) - 1 ==> #[trigger] s[i] >= 0x80,
        !is_terminated(s) ==> quantity_len(s) == s.len(),
    decreases s.len(),
{
    if s.len() > 0 && s[0] >= 0x80 {
        let t = s.skip(1);
        lemma_quantity_shape(t);
        lemma_quantity_len_bound(t);
        assert forall|i: int| 0 <= i < quantity_len(s) - 1 implies #[trigger] s[i] >= 0x80 by {
            if i > 0 {
                assert(s[i] == t[i - 1]);
            }
        }
        if !is_terminated(s) && t.len() > 0 {
            assert(s[quantity_len(s) - 1] == t[quantity_len(t) - 1]);
        }
    }
}

/// The quantity at the front of `s` is also the one at the front of every
/// prefix of `s` that holds all of it.
pub(crate) proof fn lemma_quantity_prefix(s: Seq<u8>, k: int)
    requires
        quantity_len(s) <= k <= s.len(),
    ensures
        quantity_len(s.take(k)) == quantity_len(s),
        quantity_bytes(s.take(k)) == quantity_bytes(s),
{
    let t = s.take(k);
    let n = quantity_len(s) as int;
    lemma_quantity_len_bound(s);
    lemma_quantity_shape(s);
    if s.len() == 0 {
        assert(t =~= s);
    } else {
        assert forall|i: int| 0 <= i < n - 1 implies #[trigger] t[i] >= 0x80 by {
            assert(t[i] == s[i]);
        }
        lemma_quantity_len_is(t, n);
    }
    assert(t.take(n) =~= s.take(n));
}

/// Appending one digit to what 32 bits hold of a number keeps what they hold
/// of the longer number.
pub(crate) proof fn lemma_append_digit(s: Seq<u8>, b: u8, v: u32)
    requires
        v == quantity_value(s),
    ensures
        (v << 7) | ((b & 0x7F) as u32) == quantity_value(s.push(b)),
{
    let wide = base128(s) as int;
    let digit = (b % 128) as int;
    let q = wide / 0x1_0000_0000;
    assert(s.push(b).drop_last() =~= s);
    assert((v << 7) | ((b & 0x7F) as u32) == (v * 128 + b % 128) % 0x1_0000_0000) by (bit_vector);
    assert(wide * 128 + digit == 0x1_0000_0000 * (q * 128) + (v * 128 + digit));
    lemma_mod_multiples_vanish(q * 128, v * 128 + digit, 0x1_0000_0000);
}

/// Digits worth at most 28 bits fit in 32.
pub(crate) proof fn lemma_base128_bound(s: Seq<u8>)
    requires
        s.len() <= 4,
    ensures
        base128(s) < 0x1000_0000,
{
    reveal_with_fuel(base128, 5);
}

/// Three bytes are worth at most 24 bits.
pub(crate) proof fn lemma_big_endian_bound(s: Seq<u8>)
    requires
        s.len() <= 3,
    ensures
        big_endian(s) < 0x100_0000,
{
    reveal_with_fuel(big_endian, 4);
}

/// Four bytes are worth at most 32 bits.
pub(crate) proof fn lemma_big_endian_word(s: Seq<u8>)
    requires
        s.len() == 4,
    ensures
        big_endian(s) <= u32::MAX,
{
    lemma_big_endian_bound(s.drop_last());
}

/// The number that two bytes spell, the most significant first.
pub fn read_u16_be(hi: u8, lo: u8) -> (value: u16)
    ensures
        value == big_endian(seq![hi, lo]),
        value == hi * 256 + lo,
{
    proof {
        reveal_with_fuel(big_endian, 3);
        assert(seq![hi, lo].drop_last() =~= seq![hi]);
        assert(seq![hi].drop_last() =~= Seq::<u8>::empty());
    }
    hi as u16 * 256 + lo as u16
}

/// The number that three bytes spell, the most significant first.
pub fn read_u24_be(t0: u8, t1: u8, t2: u8) -> (value: u64)
    ensures
        value == big_endian(seq![t0, t1, t2]),
        value == t0 * 65536 + t1 * 256 + t2,
{
    proof {
        reveal_with_fuel(big_endian, 4);
        assert(seq![t0, t1, t2].drop_last() =~= seq![t0, t1]);
        assert(seq![t0, t1].drop_last() =~= seq![t0]);
        assert(seq![t0].drop_last() =~= Seq::<u8>::empty());
    }
    let (a, b, c) = (t0 as u64, t1 as u64, t2 as u64);
    assert((a << 16) | (b << 8) | c == a * 65536 + b * 256 + c) by (bit_vector)
        requires
            a < 256,
            b < 256,
            c < 256,
    ;
    (a << 16) | (b << 8) | c
}

/// The number that four bytes spell, the most significant first.
pub fn read_u32_be(b0: u8, b1: u8, b2: u8, b3: u8) -> (value: u32)
    ensures
        value == big_endian(seq![b0, b1, b2, b3]),
        value == b0 * 0x100_0000 + b1 * 0x1_0000 + b2 * 0x100 + b3,
{
    proof {
        reveal_with_fuel(big_endian, 5);
        assert(seq![b0, b1, b2, b3].drop_last() =~= seq![b0, b1, b2]);
        assert(seq![b0, b1, b2].drop_last() =~= seq![b0, b1]);
        assert(seq![b0, b1].drop_last() =~= seq![b0]);
        assert(seq![b0].drop_last() =~= Seq::<u8>::empty());
    }
    ((b0 as u32 * 256 + b1 as u32) * 256 + b2 as u32) * 256 + b3 as u32
}

} // verus!
