//! The header of a praw stream: version, sample rate, track count, one channel
//! byte per track, the number of packs, and the position of each pack in the
//! file.
use vstd::prelude::*;
use crate::bytes::{i32_at, i32_be_bytes, read_i32_be};
use crate::types::{channels_byte, channels_of_byte, Channels, Track};

verus! {

/// The number of channel bytes that a track count announces; a negative count
/// announces none.
pub open spec fn track_count(tracks_num: i32) -> int {
    if tracks_num < 0 {
        0
    } else {
        tracks_num as int
    }
}

/// The number of channel bytes in the header `h`.
pub open spec fn header_track_count(h: Seq<u8>) -> int {
    track_count(i32_at(h, 8))
}

/// `h` holds a header up to its pack count, and each of its channel bytes is
/// `0` or `1`.
pub open spec fn header_well_formed(h: Seq<u8>) -> bool {
    &&& h.len() >= 12
    &&& h.len() >= 16 + header_track_count(h)
    &&& forall|i: int| 0 <= i < header_track_count(h) ==> #[trigger] h[12 + i] <= 1
}

/// The format version stored in the header `h`.
pub open spec fn header_version(h: Seq<u8>) -> i32 {
    i32_at(h, 0)
}

/// The sample rate stored in the header `h`.
pub open spec fn header_samplerate(h: Seq<u8>) -> i32 {
    i32_at(h, 4)
}

/// The track count stored in the header `h`.
pub open spec fn header_tracks_num(h: Seq<u8>) -> i32 {
    i32_at(h, 8)
}

/// The channel layouts of the tracks described in the header `h`.
pub open spec fn header_channels(h: Seq<u8>) -> Seq<Channels> {
    Seq::new(header_track_count(h) as nat, |i: int| channels_of_byte(h[12 + i]))
}

/// The number of packs stored in the header `h`.
pub open spec fn header_packs_num(h: Seq<u8>) -> i32 {
    i32_at(h, 12 + header_track_count(h))
}

/// The pack positions stored in the header `h`, one per counted pack.
pub open spec fn header_positions(h: Seq<u8>) -> Seq<i32> {
    Seq::new(
        track_count(header_packs_num(h)) as nat,
        |j: int| i32_at(h, 16 + header_track_count(h) + 4 * j),
    )
}

/// The channel layouts of a list of tracks.
pub open spec fn channels_of(tracks: Seq<Track>) -> Seq<Channels> {
    tracks.map_values(|t: Track| t.channels)
}

/// The bytes of a header with the given fields.
pub open spec fn encode_header(
    version: i32,
    samplerate: i32,
    tracks_num: i32,
    channels: Seq<Channels>,
    packs_num: i32,
    positions: Seq<i32>,
) -> Seq<u8> {
    i32_be_bytes(version) + i32_be_bytes(samplerate) + i32_be_bytes(tracks_num) + channels.map_values(
        |c: Channels| channels_byte(c),
    ) + i32_be_bytes(packs_num) + positions.map_values(|x: i32| i32_be_bytes(x)).flatten()
}

/// Whether `buf` holds a header up to its pack count whose channel bytes are
/// each `0` or `1`: the bytes that loading a header accepts.
pub fn header_is_valid(buf: &[u8]) -> (r: bool)
    ensures
        r == header_well_formed(buf@),
{
    let len = buf.len();
    if len < 16 {
        return false;
    }
    let tracks_num = read_i32_be(buf, 8);
    let n: usize = if tracks_num < 0 {
        0
    } else {
        tracks_num as usize
    };
    assert(n == header_track_count(buf@));
    if len - 16 < n {
        return false;
    }
    let mut i: usize = 0;
    while i < n
        invariant
            len == buf@.len(),
            n == header_track_count(buf@),
            16 + n <= len,
            0 <= i <= n,
            forall|j: int| 0 <= j < i ==> #[trigger] buf@[12 + j] <= 1,
        decreases n - i,
    {
        if buf[12 + i] > 1 {
            return false;
        }
        i += 1;
    }
    true
}

} // verus!
