//! How quantities are written, and that they are read as they were written.

use crate::midi_parser::{has_whole_quantity, window};
use crate::varint::{
    base128, is_terminated, lemma_base128_bound, lemma_quantity_len_bound, lemma_quantity_len_is,
    lemma_quantity_prefix, quantity_bytes, quantity_len, quantity_value,
};
use vstd::prelude::*;

verus! {

/// The digits of a quantity but the last, each with its top bit set.
pub open spec fn leading_digits(v: nat) -> Seq<u8>
    decreases v,
{
    if v == 0 {
        Seq::empty()
    } else {
        leading_digits(v / 128).push((v % 128 + 128) as u8)
    }
}

/// A number written as a quantity, in as few bytes as it takes.
pub open spec fn written(v: nat) -> Seq<u8> {
    leading_digits(v / 128).push((v % 128) as u8)
}

proof fn lemma_leading_digits(v: nat)
    ensures
        base128(leading_digits(v)) == v,
        forall|i: int|
            0 <= i < leading_digits(v).len() ==> #[trigger] leading_digits(v)[i] >= 0x80,
        v < 128 ==> leading_digits(v).len() <= 1,
        v < 128 * 128 ==> leading_digits(v).len() <= 2,
        v < 128 * 128 * 128 ==> leading_digits(v).len() <= 3,
    decreases v,
{
    if v > 0 {
        lemma_leading_digits(v / 128);
        let s = leading_digits(v);
        assert(s.drop_last() =~= leading_digits(v / 128));
    }
}

/// A number that was written as a quantity is read back, whatever follows it:
/// by a reader of quantities of any length where it fits in 32 bits, and by a
/// reader of at most four bytes where it fits in 28.
pub proof fn law_written_quantity_reads_back(v: u32, rest: Seq<u8>)
    ensures
        ({
            let s = written(v as nat) + rest;
            &&& is_terminated(s)
            &&& quantity_bytes(s) == written(v as nat)
            &&& quantity_value(quantity_bytes(s)) == v
            &&& s.skip(quantity_len(s) as int) == rest
            &&& v < 0x1000_0000 ==> {
                &&& has_whole_quantity(s, 0)
                &&& quantity_bytes(window(s, 0)) == written(v as nat)
                &&& base128(quantity_bytes(window(s, 0))) == v
            }
        }),
{
    let w = written(v as nat);
    let s = w + rest;
    let n = w.len() as int;
    lemma_leading_digits(v as nat / 128);
    assert(w.drop_last() =~= leading_digits(v as nat / 128));
    assert forall|i: int| 0 <= i < n - 1 implies #[trigger] s[i] >= 0x80 by {
        assert(s[i] == leading_digits(v as nat / 128)[i]);
    }
    assert(s[n - 1] == (v % 128) as u8);
    lemma_quantity_len_is(s, n);
    assert(quantity_bytes(s) =~= w);
    assert(s.skip(n) =~= rest);
    if v < 0x1000_0000 {
        assert(s.skip(0) =~= s);
        law_short_quantities_read_alike(s, 0);
    }
}

/// Where a quantity ends within four bytes, the readers of at most four bytes
/// and those of any length read the same bytes and the same number.
pub proof fn law_short_quantities_read_alike(data: Seq<u8>, offset: int)
    requires
        0 <= offset < data.len(),
        is_terminated(data.skip(offset)),
        quantity_len(data.skip(offset)) <= 4,
    ensures
        has_whole_quantity(data, offset),
        quantity_bytes(window(data, offset)) == quantity_bytes(data.skip(offset)),
        base128(quantity_bytes(window(data, offset))) == quantity_value(
            quantity_bytes(data.skip(offset)),
        ),
{
    let s = data.skip(offset);
    let w = window(data, offset);
    lemma_quantity_len_bound(s);
    assert(w =~= s.take(w.len() as int));
    lemma_quantity_prefix(s, w.len() as int);
    lemma_base128_bound(quantity_bytes(s));
    assert(w[quantity_len(w) - 1] == s[quantity_len(s) - 1]);
}

} // verus!
