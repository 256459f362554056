//! What holds of any bytes, said in terms of the bytes themselves.

use crate::message::{
    after_status, body_len, delta_of, message_kind, messages, saturating_ticks, starts_message,
    status_of, MessageKind,
};
use crate::midi_parser::window;
use crate::standard::{
    division_of, header_len, header_tag, max_buffer_size, track_len, track_offsets, track_starts,
    track_tag,
};
use crate::stream::walk;
use crate::stream_tally::StreamCounts;
use crate::tally::Tally;
use crate::track_event::TrackEvent;
use crate::track_parser::ParsedMidiEvent;
use crate::varint::{
    base128, big_endian, is_terminated, lemma_big_endian_word, lemma_quantity_len_bound,
    lemma_quantity_len_is, lemma_quantity_shape, quantity_bytes, quantity_len, quantity_value,
};
use vstd::arithmetic::div_mod::lemma_mod_multiples_vanish;
use vstd::prelude::*;

verus! {

/// What a status byte announces is told by its high half alone, but for those
/// that have no channel.
pub proof fn law_kinds_are_told_by_the_high_half(status: u8)
    ensures
        message_kind(status) == MessageKind::NoteOff <==> status / 16 == 8,
        message_kind(status) == MessageKind::NoteOn <==> status / 16 == 9,
        message_kind(status) == MessageKind::ControlChange <==> status / 16 == 11,
        message_kind(status) == MessageKind::TwoData <==> status / 16 == 10 || status / 16 == 14,
        message_kind(status) == MessageKind::OneData <==> status / 16 == 12 || status / 16 == 13,
        message_kind(status) == MessageKind::Meta <==> status == 255,
        message_kind(status) == MessageKind::SysEx <==> status == 240 || status == 247,
{
}

/// What a channel message is does not depend on its channel.
pub proof fn law_channels_do_not_matter(a: u8, b: u8)
    requires
        a < 0xF0,
        b < 0xF0,
        a / 16 == b / 16,
    ensures
        message_kind(a) == message_kind(b),
{
}

/// Starting later shifts every message by as much, as far as 32 bits hold it,
/// and changes nothing else.
pub proof fn law_a_later_start_shifts_the_messages(s: Seq<u8>, tick: u32, by: u32, running: u8)
    requires
        tick + by <= 0xFFFF_FFFF,
    ensures
        ({
            let ms = messages(s, tick, running);
            let later = messages(s, (tick + by) as u32, running);
            &&& later.len() == ms.len()
            &&& forall|i: int|
                0 <= i < ms.len() ==> {
                    &&& (#[trigger] later[i]).tick == (if ms[i].tick + by <= 0xFFFF_FFFF {
                        ms[i].tick + by
                    } else {
                        0xFFFF_FFFF
                    })
                    &&& later[i].status == ms[i].status
                    &&& later[i].body == ms[i].body
                }
        }),
{
    lemma_shifted(s, tick, (tick + by) as u32, by, running);
}

proof fn lemma_shifted(s: Seq<u8>, a: u32, b: u32, by: u32, running: u8)
    requires
        b == (if a + by <= u32::MAX {
            a + by
        } else {
            u32::MAX as int
        }),
    ensures
        ({
            let ms = messages(s, a, running);
            let later = messages(s, b, running);
            &&& later.len() == ms.len()
            &&& forall|i: int|
                0 <= i < ms.len() ==> {
                    &&& (#[trigger] later[i]).tick == (if ms[i].tick + by <= u32::MAX {
                        ms[i].tick + by
                    } else {
                        u32::MAX as int
                    })
                    &&& later[i].status == ms[i].status
                    &&& later[i].body == ms[i].body
                }
        }),
    decreases s.len(),
{
    if starts_message(s) {
        let status = status_of(s, running);
        let rest = after_status(s);
        let n = body_len(status, rest) as int;
        let (x, y) = (saturating_ticks(a, delta_of(s)), saturating_ticks(b, delta_of(s)));
        lemma_shifted(rest.skip(n), x, y, by, status);
        let ms = messages(s, a, running);
        let later = messages(s, b, running);
        let (ms1, later1) = (messages(rest.skip(n), x, status), messages(rest.skip(n), y, status));
        assert forall|i: int| 0 <= i < ms.len() implies ({
            &&& (#[trigger] later[i]).tick == (if ms[i].tick + by <= u32::MAX {
                ms[i].tick + by
            } else {
                u32::MAX as int
            })
            &&& later[i].status == ms[i].status
            &&& later[i].body == ms[i].body
        }) by {
            if i > 0 {
                assert(later[i] == later1[i - 1]);
                assert(ms[i] == ms1[i - 1]);
            }
        }
    }
}

/// A quantity goes up to its first byte below 128, or to the end of the data
/// where there is none.
pub proof fn law_a_quantity_ends_at_its_first_small_byte(s: Seq<u8>)
    ensures
        ({
            let n = quantity_len(s) as int;
            &&& n <= s.len()
            &&& s.len() > 0 ==> n > 0
            &&& forall|i: int| 0 <= i < n - 1 ==> #[trigger] s[i] >= 128
            &&& n < s.len() ==> s[n - 1] < 128
            &&& is_terminated(s) <==> n > 0 && s[n - 1] < 128
            &&& quantity_bytes(s) == s.take(n)
        }),
{
    lemma_quantity_len_bound(s);
    lemma_quantity_shape(s);
}

/// A byte more in a quantity multiplies it by 128 and adds the low seven bits of
/// the byte, within 32 bits.
pub proof fn law_a_quantity_grows_by_seven_bits(s: Seq<u8>, b: u8)
    ensures
        quantity_value(Seq::<u8>::empty()) == 0,
        quantity_value(s.push(b)) == (quantity_value(s) * 128 + b % 128) % 0x1_0000_0000,
        base128(Seq::<u8>::empty()) == 0,
        base128(s.push(b)) == base128(s) * 128 + b % 128,
{
    assert(s.push(b).drop_last() =~= s);
    let wide = base128(s) as int;
    let v = quantity_value(s) as int;
    let q = wide / 0x1_0000_0000;
    let digit = (b % 128) as int;
    assert(wide * 128 + digit == 0x1_0000_0000 * (q * 128) + (v * 128 + digit));
    lemma_mod_multiples_vanish(q * 128, v * 128 + digit, 0x1_0000_0000);
}

/// The reader of at most four bytes, byte by byte: how many it takes and which
/// number they spell.
pub proof fn law_short_quantities_byte_by_byte(data: Seq<u8>, offset: int)
    requires
        0 <= offset < data.len(),
    ensures
        ({
            let bytes = quantity_bytes(window(data, offset));
            let taken = bytes.len() as int;
            let value = base128(bytes) as int;
            let left = data.len() - offset;
            let a = data[offset];
            let b = data[offset + 1];
            let c = data[offset + 2];
            let d = data[offset + 3];
            if a < 128 || left == 1 {
                taken == 1 && value == a % 128
            } else if b < 128 || left == 2 {
                taken == 2 && value == (a - 128) * 128 + b % 128
            } else if c < 128 || left == 3 {
                taken == 3 && value == (a - 128) * 16384 + (b - 128) * 128 + c % 128
            } else {
                taken == 4 && value == (a - 128) * 2097152 + (b - 128) * 16384 + (c - 128) * 128
                    + d % 128
            }
        }),
{
    let w = window(data, offset);
    let left = data.len() - offset;
    let n = if data[offset] < 128 || left == 1 {
        1int
    } else if data[offset + 1] < 128 || left == 2 {
        2
    } else if data[offset + 2] < 128 || left == 3 {
        3
    } else {
        4
    };
    assert(w[0] == data[offset]);
    if n > 1 {
        assert(w[1] == data[offset + 1]);
    }
    if n > 2 {
        assert(w[2] == data[offset + 2]);
    }
    if n > 3 {
        assert(w[3] == data[offset + 3]);
    }
    lemma_quantity_len_is(w, n);
    let q = w.take(n);
    reveal_with_fuel(base128, 5);
    assert(q.drop_last() =~= w.take(n - 1));
    if n > 1 {
        assert(w.take(n - 1).drop_last() =~= w.take(n - 2));
    }
    if n > 2 {
        assert(w.take(n - 2).drop_last() =~= w.take(n - 3));
    }
    if n > 3 {
        assert(w.take(n - 3).drop_last() =~= w.take(n - 4));
    }
    assert(w.take(0) =~= Seq::empty());
}

/// Four bytes spell a number, the most significant first.
proof fn lemma_four(s: Seq<u8>)
    requires
        s.len() == 4,
    ensures
        big_endian(s) == s[0] * 0x100_0000 + s[1] * 0x1_0000 + s[2] * 0x100 + s[3],
{
    reveal_with_fuel(big_endian, 5);
    assert(s.drop_last() =~= seq![s[0], s[1], s[2]]);
    assert(s.drop_last().drop_last() =~= seq![s[0], s[1]]);
    assert(s.drop_last().drop_last().drop_last() =~= seq![s[0]]);
    assert(s.drop_last().drop_last().drop_last().drop_last() =~= Seq::empty());
}

/// The header of a file is 14 bytes long and starts with `MThd`; its last two
/// bytes spell the ticks per quarter note.
pub proof fn law_headers_are_read_by_their_bytes(file: Seq<u8>)
    requires
        file.len() >= 14,
    ensures
        header_len() == 14,
        file.take(4) == header_tag() <==> file[0] == 77 && file[1] == 84 && file[2] == 104
            && file[3] == 100,
        division_of(file) == file[12] * 256 + file[13],
{
    let two = file.subrange(12, 14);
    reveal_with_fuel(big_endian, 3);
    assert(two.drop_last() =~= seq![file[12]]);
    assert(two.drop_last().drop_last() =~= Seq::empty());
    let four = file.take(4);
    if four == header_tag() {
        assert(four[0] == 77 && four[1] == 84 && four[2] == 104 && four[3] == 100);
    }
    if file[0] == 77 && file[1] == 84 && file[2] == 104 && file[3] == 100 {
        assert(four =~= header_tag());
    }
}

/// Whether the tag `MTrk` stands at `p`.
pub open spec fn has_tag(s: Seq<u8>, p: int) -> bool {
    &&& 0 <= p
    &&& p + 4 <= s.len()
    &&& s[p] == 77
    &&& s[p + 1] == 84
    &&& s[p + 2] == 114
    &&& s[p + 3] == 107
}

/// The number that the four bytes at `p` spell.
pub open spec fn four_at(s: Seq<u8>, p: int) -> int {
    s[p] * 0x100_0000 + s[p + 1] * 0x1_0000 + s[p + 2] * 0x100 + s[p + 3]
}

proof fn lemma_tag(s: Seq<u8>, p: int)
    requires
        0 <= p,
        p + 8 <= s.len(),
    ensures
        s.subrange(p, p + 4) == track_tag() <==> has_tag(s, p),
        big_endian(s.subrange(p + 4, p + 8)) == four_at(s, p + 4),
{
    let tag = s.subrange(p, p + 4);
    if tag == track_tag() {
        assert(tag[0] == 77 && tag[1] == 84 && tag[2] == 114 && tag[3] == 107);
    }
    if has_tag(s, p) {
        assert(tag =~= track_tag());
    }
    lemma_four(s.subrange(p + 4, p + 8));
}

/// The tracks that are found from `pos` on are those whose tags stand there:
/// behind each tag and its length a track starts and has that length; and every
/// tag with a length behind it starts a track or lies in one.
#[verifier::spinoff_prover]
pub proof fn law_tracks_start_at_their_tags(file: Seq<u8>, pos: nat)
    requires
        file.len() <= isize::MAX,
        pos <= file.len() + 0xFFFF_FFFF,
    ensures
        ({
            let offsets = track_offsets(file, pos);
            &&& forall|i: int|
                0 <= i < offsets.len() ==> {
                    let start = (#[trigger] offsets[i]).0 as int;
                    &&& pos + 8 <= start <= file.len()
                    &&& has_tag(file, start - 8)
                    &&& offsets[i].1 == start + four_at(file, start - 4)
                }
            &&& forall|p: int|
                pos <= p && p + 8 <= file.len() && #[trigger] has_tag(file, p) ==> exists|i: int|
                    0 <= i < offsets.len() && (#[trigger] offsets[i]).0 - 8 <= p && (p
                        < offsets[i].1 || p == offsets[i].0 - 8)
        }),
    decreases
            (if pos < file.len() {
                file.len() - pos
            } else {
                0
            }),
{
    let all = track_offsets(file, pos);
    if pos < file.len() {
        if pos + 8 <= file.len() {
            lemma_tag(file, pos as int);
        }
        if track_starts(file, pos as int) {
            let len = track_len(file, pos as int);
            let end = pos + 8 + len;
            lemma_big_endian_word(file.subrange(pos as int + 4, pos as int + 8));
            law_tracks_start_at_their_tags(file, end);
            let later = track_offsets(file, end);
            assert(0 <= len <= 0xFFFF_FFFF);
            assert(len == four_at(file, pos as int + 4));
            assert(all == seq![((pos + 8) as u64, end as u64)] + later);
            assert(all[0].0 == pos + 8 && all[0].1 == end);
            assert forall|i: int| 0 <= i < all.len() implies ({
                let start = (#[trigger] all[i]).0 as int;
                &&& pos + 8 <= start <= file.len()
                &&& has_tag(file, start - 8)
                &&& all[i].1 == start + four_at(file, start - 4)
            }) by {
                if i > 0 {
                    assert(all[i] == later[i - 1]);
                } else {
                    assert(all[i].0 - 8 == pos);
                }
            }
            assert forall|p: int|
                pos <= p && p + 8 <= file.len() && #[trigger] has_tag(file, p) implies exists|
                i: int,
            |
                0 <= i < all.len() && (#[trigger] all[i]).0 - 8 <= p && (p < all[i].1 || p
                    == all[i].0 - 8) by {
                if p < end {
                    assert(all[0].0 - 8 <= p);
                } else {
                    let j = choose|j: int|
                        0 <= j < later.len() && (#[trigger] later[j]).0 - 8 <= p && (p
                            < later[j].1 || p == later[j].0 - 8);
                    assert(all[j + 1] == later[j]);
                }
            }
        } else {
            let later = track_offsets(file, pos + 1);
            law_tracks_start_at_their_tags(file, pos + 1);
            assert(all == later);
            assert forall|i: int| 0 <= i < all.len() implies ({
                let start = (#[trigger] all[i]).0 as int;
                &&& pos + 8 <= start <= file.len()
                &&& has_tag(file, start - 8)
                &&& all[i].1 == start + four_at(file, start - 4)
            }) by {
                assert(later[i].0 >= pos + 9);
            }
            assert forall|p: int|
                pos <= p && p + 8 <= file.len() && #[trigger] has_tag(file, p) implies exists|
                i: int,
            |
                0 <= i < all.len() && (#[trigger] all[i]).0 - 8 <= p && (p < all[i].1 || p
                    == all[i].0 - 8) by {
                assert(p != pos);
                let j = choose|j: int|
                    0 <= j < later.len() && (#[trigger] later[j]).0 - 8 <= p && (p < later[j].1
                        || p == later[j].0 - 8);
                assert(all[j] == later[j]);
            }
        }
    }
}

/// A stream is walked in groups of four bytes: one that is no tag is left out;
/// behind a tag come four bytes of length and so many of a track; the walk ends
/// where no group is left, and is cut off where a track is.
pub proof fn law_streams_are_walked_by_their_tags(s: Seq<u8>, room: nat)
    ensures
        s.len() < 4 ==> walk(s, room).end is Complete && walk(s, room).tracks.len() == 0,
        s.len() >= 4 && !has_tag(s, 0) ==> walk(s, room) == walk(s.skip(4), room),
        has_tag(s, 0) && room > 0 && (s.len() < 8 || s.len() < 8 + four_at(s, 4)) ==> walk(
            s,
            room,
        ).end is Truncated && walk(s, room).tracks.len() == 0,
        has_tag(s, 0) && room > 0 && s.len() >= 8 && s.len() >= 8 + four_at(s, 4) ==> {
            let behind = 8 + four_at(s, 4);
            let later = walk(s.skip(behind), (room - 1) as nat);
            &&& walk(s, room).end == later.end
            &&& walk(s, room).tracks == seq![s.subrange(8, behind)] + later.tracks
        },
        has_tag(s, 0) && room == 0 ==> walk(s, room).end is TooMany,
{
    if s.len() >= 4 {
        let tag = s.take(4);
        if tag == track_tag() {
            assert(tag[0] == 77 && tag[1] == 84 && tag[2] == 114 && tag[3] == 107);
        }
        if has_tag(s, 0) {
            assert(tag =~= track_tag());
        }
        if s.len() >= 8 {
            lemma_four(s.subrange(4, 8));
        }
    }
}

/// The largest buffer of a track: a mebibyte for up to 4096 tracks; beyond that
/// all together take no more than two gibibytes, unless each takes 64 kibibytes.
pub proof fn law_buffers_share_the_memory(tracks_count: nat)
    ensures
        tracks_count <= 4096 ==> max_buffer_size(tracks_count) == 1048576,
        tracks_count > 4096 ==> {
            let size = max_buffer_size(tracks_count) as int;
            &&& 65536 <= size <= 524288
            &&& size * tracks_count <= 2147483648 || size == 65536
            &&& (size + 1) * tracks_count > 2147483648
        },
{
    if tracks_count > 4096 {
        let n = tracks_count as int;
        let share = 2147483648int / n;
        assert(share * n <= 2147483648 < (share + 1) * n) by (nonlinear_arith)
            requires
                share == 2147483648int / n,
                n > 4096,
        ;
        assert(share <= 524288) by (nonlinear_arith)
            requires
                share * n <= 2147483648,
                n > 4096,
        ;
        if share < 65536 {
            assert(65537 * n > 2147483648) by (nonlinear_arith)
                requires
                    (share + 1) * n > 2147483648,
                    share < 65536,
                    n > 0,
            ;
        }
    }
}

/// A count overflows only where it is the largest that its type holds.
pub proof fn law_counts_overflow_only_at_their_limits(
    tally: Tally,
    track_event: TrackEvent,
    counts: StreamCounts,
    event: ParsedMidiEvent,
    sec: usize,
)
    ensures
        tally.overflows(track_event) ==> tally.total_notes == 0xFFFF_FFFF_FFFF_FFFF
            || tally.current_polyphony == 0x7FFF_FFFF || tally.total_cc_events
            == 0xFFFF_FFFF_FFFF_FFFF,
        counts.overflows(event, sec) ==> counts.total_notes == 0xFFFF_FFFF_FFFF_FFFF
            || counts.total_cc_events == 0xFFFF_FFFF_FFFF_FFFF,
{
}

} // verus!
