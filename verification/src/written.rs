//! Tracks and files as they are written: what a writer means, and the bytes
//! that say so.

use crate::varint_laws::written;
use vstd::prelude::*;

verus! {

/// One event of a track, as a writer means it. Where `running` holds, its status
/// byte is left out; it must then be that of the event before it.
pub enum Item {
    /// A message on a channel: the high half of `status` says what it is, the
    /// low half the channel.
    Voice { status: u8, first: u8, second: u8, running: bool },
    Meta { kind: u8, data: Seq<u8>, running: bool },
    SysEx { status: u8, data: Seq<u8>, running: bool },
    /// A status byte that stands alone.
    Bare { status: u8 },
}

/// An event, so many ticks after the one before it.
pub struct Timed {
    pub delta: u32,
    pub item: Item,
}

impl Item {
    /// The status byte of the event, written or left out.
    pub open spec fn status_byte(self) -> u8 {
        match self {
            Item::Voice { status, .. } => status,
            Item::Meta { .. } => 0xFF,
            Item::SysEx { status, .. } => status,
            Item::Bare { status } => status,
        }
    }

    /// Whether the event can be written behind one with the status `running`.
    pub open spec fn can_follow(self, running: u8) -> bool {
        match self {
            Item::Voice { status, first, running: left_out, .. } => {
                &&& 0x80 <= status < 0xF0
                &&& left_out ==> running == status && first < 0x80
            },
            Item::Meta { kind, data, running: left_out } => {
                &&& data.len() <= 0xFFFF_FFFF
                &&& left_out ==> running == 0xFF && kind < 0x80
            },
            Item::SysEx { status, data, running: left_out } => {
                &&& status == 0xF0 || status == 0xF7
                &&& data.len() <= 0xFFFF_FFFF
                &&& left_out ==> running == status && data.len() < 0x80
            },
            Item::Bare { status } => 0xF0 < status < 0xFF && status != 0xF7,
        }
    }

    /// What follows the status byte.
    pub open spec fn body_bytes(self) -> Seq<u8> {
        match self {
            Item::Voice { status, first, second, .. } => if status / 16 == 12 || status / 16
                == 13 {
                seq![first]
            } else {
                seq![first, second]
            },
            Item::Meta { kind, data, .. } => seq![kind] + written(data.len()) + data,
            Item::SysEx { data, .. } => written(data.len()) + data,
            Item::Bare { .. } => Seq::empty(),
        }
    }

    /// Whether the status byte is left out.
    pub open spec fn is_running(self) -> bool {
        match self {
            Item::Voice { running, .. } => running,
            Item::Meta { running, .. } => running,
            Item::SysEx { running, .. } => running,
            Item::Bare { .. } => false,
        }
    }

    /// The bytes of the event.
    pub open spec fn bytes(self) -> Seq<u8> {
        if self.is_running() {
            self.body_bytes()
        } else {
            seq![self.status_byte()] + self.body_bytes()
        }
    }

    /// Whether the event starts a note.
    pub open spec fn starts(self) -> bool {
        self matches Item::Voice { status, second, .. } && status / 16 == 9 && second > 0
    }

    /// Whether the event ends a note: a note-off message, whatever its data, or
    /// a note-on message of velocity zero.
    pub open spec fn ends(self) -> bool {
        self matches Item::Voice { status, second, .. } && (status / 16 == 8 || (status / 16 == 9
            && second == 0))
    }

    /// Whether the event is a controller message, whatever its data.
    pub open spec fn controls(self) -> bool {
        self matches Item::Voice { status, .. } && status / 16 == 11
    }

    /// The tempo that the event sets, if it sets one, in microseconds per
    /// quarter note.
    pub open spec fn tempo(self) -> Option<int> {
        match self {
            Item::Meta { kind, data, .. } => if kind == 0x51 && data.len() == 3 {
                Some(data[0] * 65536 + data[1] * 256 + data[2])
            } else {
                None
            },
            _ => None,
        }
    }
}

/// Whether the events can be written one behind the other, the first behind one
/// with the status `running`.
pub open spec fn is_writable(ts: Seq<Timed>, running: u8) -> bool
    decreases ts.len(),
{
    ts.len() == 0 || {
        &&& ts[0].item.can_follow(running)
        &&& is_writable(ts.skip(1), ts[0].item.status_byte())
    }
}

/// The data of a track that holds the events.
pub open spec fn track_bytes(ts: Seq<Timed>) -> Seq<u8>
    decreases ts.len(),
{
    if ts.len() == 0 {
        Seq::empty()
    } else {
        written(ts[0].delta as nat) + ts[0].item.bytes() + track_bytes(ts.skip(1))
    }
}

/// How many ticks after the start of the track event `i` happens: the sum of
/// the delta times up to it.
pub open spec fn ticks_until(ts: Seq<Timed>, i: int) -> int
    decreases i + 1,
{
    if i < 0 {
        0
    } else {
        ticks_until(ts, i - 1) + ts[i].delta
    }
}

/// The same, as far as 32 bits hold it.
pub open spec fn tick_of(ts: Seq<Timed>, i: int) -> int {
    if ticks_until(ts, i) <= 0xFFFF_FFFF {
        ticks_until(ts, i)
    } else {
        0xFFFF_FFFF
    }
}

/// How many of the first `n` events of a track are such that `f` holds of their
/// tick and of what they are.
pub open spec fn count_until(ts: Seq<Timed>, f: spec_fn(int, Item) -> bool, n: int) -> nat
    decreases n,
{
    if n <= 0 {
        0
    } else {
        count_until(ts, f, n - 1) + if f(tick_of(ts, n - 1), ts[n - 1].item) {
            1nat
        } else {
            0
        }
    }
}

/// How many events of all tracks are such that `f` holds of their tick and of
/// what they are.
pub open spec fn count_in_song(song: Seq<Seq<Timed>>, f: spec_fn(int, Item) -> bool) -> nat
    decreases song.len(),
{
    if song.len() == 0 {
        0
    } else {
        count_until(song[0], f, song[0].len() as int) + count_in_song(song.skip(1), f)
    }
}

/// A number below 2^32 as four bytes, the most significant first.
pub open spec fn four_bytes(n: int) -> Seq<u8> {
    seq![
        (n / 0x100_0000 % 256) as u8,
        (n / 0x1_0000 % 256) as u8,
        (n / 0x100 % 256) as u8,
        (n % 256) as u8,
    ]
}

/// Tracks with the given data, each behind its tag and its length.
pub open spec fn chunk_bytes(tracks: Seq<Seq<u8>>) -> Seq<u8>
    decreases tracks.len(),
{
    if tracks.len() == 0 {
        Seq::empty()
    } else {
        seq![0x4D, 0x54, 0x72, 0x6B] + four_bytes(tracks[0].len() as int) + tracks[0]
            + chunk_bytes(tracks.skip(1))
    }
}

/// The header of a file: its tag, its length, and three numbers.
pub open spec fn header_bytes(format: u16, count: u16, division: u16) -> Seq<u8> {
    seq![
        0x4D,
        0x54,
        0x68,
        0x64,
        0,
        0,
        0,
        6,
        (format / 256) as u8,
        (format % 256) as u8,
        (count / 256) as u8,
        (count % 256) as u8,
        (division / 256) as u8,
        (division % 256) as u8,
    ]
}

/// A song: the events of each of its tracks.
pub open spec fn song_tracks(song: Seq<Seq<Timed>>) -> Seq<Seq<u8>> {
    Seq::new(song.len(), |i: int| track_bytes(song[i]))
}

/// The bytes of a file with the song.
pub open spec fn song_bytes(format: u16, count: u16, division: u16, song: Seq<Seq<Timed>>) -> Seq<
    u8,
> {
    header_bytes(format, count, division) + chunk_bytes(song_tracks(song))
}

/// Whether a song can be written: each track can, and is short enough for its
/// length.
pub open spec fn is_song(song: Seq<Seq<Timed>>) -> bool {
    forall|i: int|
        0 <= i < song.len() ==> {
            &&& is_writable(#[trigger] song[i], 0)
            &&& track_bytes(song[i]).len() <= 0xFFFF_FFFF
        }
}

} // verus!
