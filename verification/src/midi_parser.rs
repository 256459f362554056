//! Reading quantities out of track data that lies in memory.

use crate::varint::{base128, is_terminated, quantity_bytes, quantity_len, quantity_value};
use crate::varint::{
    lemma_append_digit, lemma_base128_bound, lemma_quantity_len_bound, lemma_quantity_len_is,
    lemma_quantity_shape,
};
use vstd::prelude::*;

verus! {

/// A reading position in the data of one track.
pub struct TrackCursor<'a> {
    pub data: &'a [u8],
    pub offset: usize,
    pub abs_tick: u32,
    pub track_idx: usize,
    pub last_status: u8,
    pub end: usize,
}

impl<'a> TrackCursor<'a> {
    /// A cursor at the start of `data`, whose end is the end of `data`.
    pub fn new(data: &'a [u8], track_idx: usize) -> (cursor: Self)
        ensures
            cursor.data == data,
            cursor.offset == 0,
            cursor.abs_tick == 0,
            cursor.track_idx == track_idx,
            cursor.last_status == 0,
            cursor.end == data@.len(),
    {
        let end = data.len();
        Self { data, offset: 0, abs_tick: 0, track_idx, last_status: 0, end }
    }
}

/// The bytes from `offset` on that one quantity may use: at most four.
pub open spec fn window(data: Seq<u8>, offset: int) -> Seq<u8> {
    data.subrange(offset, if offset + 4 <= data.len() { offset + 4 } else { data.len() as int })
}

/// Reads the quantity of at most four bytes at `offset` and moves `offset`
/// past it. Returns `None`, with `offset` unchanged, where no data is left;
/// data that ends inside a quantity ends the quantity.
pub fn read_varint(data: &[u8], offset: &mut usize) -> (res: Option<u32>)
    ensures
        *old(offset) >= data@.len() ==> res is None && *final(offset) == *old(offset),
        *old(offset) < data@.len() ==> {
            let bytes = quantity_bytes(window(data@, *old(offset) as int));
            &&& res == Some(base128(bytes) as u32)
            &&& *final(offset) == *old(offset) + bytes.len()
            &&& *final(offset) <= data@.len()
        },
{
    if *offset >= data.len() {
        return None;
    }
    let ghost start = *offset as int;
    let ghost w = window(data@, start);
    let mut res: u32 = 0;
    let mut count: u32 = 0;
    while *offset < data.len()
        invariant_except_break
            0 <= count < 4,
            forall|i: int| 0 <= i < count ==> #[trigger] w[i] >= 0x80,
            *offset >= data@.len() ==> count > 0 && quantity_len(w) == count,
        invariant
            0 <= start < data@.len(),
            w == window(data@, start),
            count <= 4,
            *offset == start + count,
            *offset <= data@.len(),
            res == quantity_value(w.take(count as int)),
        ensures
            0 < count <= w.len(),
            quantity_len(w) == count,
        decreases data@.len() - *offset,
    {
        let b = data[*offset];
        proof {
            assert(w[count as int] == b);
            assert(w.take(count as int).push(b) =~= w.take(count + 1));
            lemma_append_digit(w.take(count as int), b, res);
        }
        *offset += 1;
        res = (res << 7) | (b & 0x7F) as u32;
        count += 1;
        assert((b & 0x80 == 0) == (b < 0x80)) by (bit_vector);
        if b & 0x80 == 0 || count >= 4 {
            proof {
                lemma_quantity_len_is(w, count as int);
            }
            break;
        }
        proof {
            if *offset >= data@.len() {
                lemma_quantity_len_is(w, count as int);
            }
        }
    }
    proof {
        lemma_base128_bound(quantity_bytes(w));
    }
    Some(res)
}

/// Whether the quantity of at most four bytes at `offset` lies in `data`
/// whole: its last byte is below `0x80`, or is the fourth.
pub open spec fn has_whole_quantity(data: Seq<u8>, offset: int) -> bool {
    let w = window(data, offset);
    0 <= offset < data.len() && (is_terminated(w) || quantity_len(w) == 4)
}

/// Reads the quantity of at most four bytes at `offset`, which must lie in
/// `data` whole, and moves `offset` past it.
pub fn read_varint_unchecked(data: &[u8], offset: &mut usize) -> (res: u32)
    requires
        has_whole_quantity(data@, *old(offset) as int),
    ensures
        res == base128(quantity_bytes(window(data@, *old(offset) as int))),
        *final(offset) == *old(offset) + quantity_len(window(data@, *old(offset) as int)),
        *final(offset) <= data@.len(),
{
    let ghost start = *offset as int;
    let ghost w = window(data@, start);
    proof {
        lemma_quantity_len_bound(w);
        lemma_quantity_shape(w);
    }
    let mut res: u32 = 0;
    let mut count: u32 = 0;
    loop
        invariant_except_break
            count < quantity_len(w),
        invariant
            w == window(data@, start),
            has_whole_quantity(data@, start),
            quantity_len(w) <= w.len() <= 4,
            forall|i: int| 0 <= i < quantity_len(w) - 1 ==> #[trigger] w[i] >= 0x80,
            count <= 4,
            *offset == start + count,
            res == quantity_value(w.take(count as int)),
        ensures
            count == quantity_len(w),
        decreases quantity_len(w) - count,
    {
        let b = data[*offset];
        proof {
            assert(w[count as int] == b);
            assert(w.take(count as int).push(b) =~= w.take(count + 1));
            lemma_append_digit(w.take(count as int), b, res);
        }
        *offset += 1;
        res = (res << 7) | (b & 0x7F) as u32;
        count += 1;
        assert((b & 0x80 == 0) == (b < 0x80)) by (bit_vector);
        if b & 0x80 == 0 || count >= 4 {
            break;
        }
    }
    proof {
        lemma_base128_bound(quantity_bytes(w));
    }
    res
}

/// Reads the quantity at the cursor and moves the cursor past it. At or past
/// the cursor's end it returns 0 and leaves the cursor where it is.
pub fn read_varint_from_cursor(c: &mut TrackCursor) -> (res: u32)
    requires
        old(c).offset < old(c).end ==> has_whole_quantity(old(c).data@, old(c).offset as int),
    ensures
        old(c).offset >= old(c).end ==> res == 0 && *final(c) == *old(c),
        old(c).offset < old(c).end ==> {
            let bytes = quantity_bytes(window(old(c).data@, old(c).offset as int));
            &&& res == base128(bytes)
            &&& final(c).offset == old(c).offset + bytes.len()
            &&& final(c).offset <= old(c).data@.len()
            &&& final(c).data == old(c).data
            &&& final(c).abs_tick == old(c).abs_tick
            &&& final(c).track_idx == old(c).track_idx
            &&& final(c).last_status == old(c).last_status
            &&& final(c).end == old(c).end
        },
{
    if c.offset >= c.end {
        return 0;
    }
    proof {
        lemma_quantity_len_bound(window(c.data@, c.offset as int));
    }
    let data = c.data;
    read_varint_unchecked(data, &mut c.offset)
}

} // verus!
