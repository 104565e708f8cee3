//! Reading a praw header and the packs that follow it.
use vstd::prelude::*;
use vstd::slice::{slice_subrange, slice_to_vec};
use crate::bytes::read_i32_be;
use crate::header::{
    channels_of, header_channels, header_packs_num, header_positions, header_samplerate,
    header_track_count, header_tracks_num, header_version, header_well_formed, track_count,
};
use crate::pack::{
    lemma_parse_packets_bounds, pack_track_sizes, packed_channels, packed_packets, packets_of,
    parse_pack, parse_packets, parse_tracks,
};
use crate::types::{channels_of_byte, AudioContainer, PrawError, Channels, PackedTrack, Track};

verus! {

/// What a praw header holds, with the header bytes kept as they were read.
pub struct PrawReader {
    header: Vec<u8>,
    pub version: i32,
    pub samplerate: i32,
    pub tracks_num: i32,
    pub tracks: Vec<Track>,
    pub audio_container: AudioContainer,
    pub packs_num: i32,
}

/// The contents of a [`PrawReader`] as mathematical values.
pub struct ReaderView {
    /// The header bytes the reader was loaded from.
    pub header: Seq<u8>,
    pub version: i32,
    pub samplerate: i32,
    pub tracks_num: i32,
    /// The channel layout of each track.
    pub tracks: Seq<Channels>,
    pub audio_container: AudioContainer,
    pub packs_num: i32,
}

impl View for PrawReader {
    type V = ReaderView;

    closed spec fn view(&self) -> ReaderView {
        ReaderView {
            header: self.header@,
            version: self.version,
            samplerate: self.samplerate,
            tracks_num: self.tracks_num,
            tracks: channels_of(self.tracks@),
            audio_container: self.audio_container,
            packs_num: self.packs_num,
        }
    }
}

impl PrawReader {

    /// Reads the header in `buf` up to its pack count; the pack positions and
    /// any later bytes are kept but not read. A praw stream stores opus audio,
    /// so the container is `Opus`. A well-formed header is always accepted.
    pub fn load(buf: Vec<u8>) -> (r: Result<PrawReader, PrawError>)
        requires
            header_well_formed(buf@),
        ensures
            r is Ok,
            r.unwrap()@.header == buf@,
            r.unwrap()@.version == header_version(buf@),
            r.unwrap()@.samplerate == header_samplerate(buf@),
            r.unwrap()@.tracks_num == header_tracks_num(buf@),
            r.unwrap()@.tracks == header_channels(buf@),
            r.unwrap()@.audio_container == AudioContainer::Opus,
            r.unwrap()@.packs_num == header_packs_num(buf@),
    {
        let version = read_i32_be(buf.as_slice(), 0);
        let samplerate = read_i32_be(buf.as_slice(), 4);
        let tracks_num = read_i32_be(buf.as_slice(), 8);
        let ghost n = header_track_count(buf@);
        let mut tracks: Vec<Track> = Vec::new();
        let mut pointer: usize = 12;
        let mut i: i32 = 0;
        while i < tracks_num
            invariant
                header_well_formed(buf@),
                tracks_num == header_tracks_num(buf@),
                n == header_track_count(buf@),
                0 <= i <= n,
                pointer == 12 + i,
                channels_of(tracks@) =~= header_channels(buf@).take(i as int),
            decreases tracks_num - i,
        {
            let byte = buf[pointer];
            assert(buf@[12 + i] <= 1);
            let channels = if byte == 0 {
                Channels::Mono
            } else {
                Channels::Stereo
            };
            let ghost old_tracks = tracks@;
            tracks.push(Track { channels });
            proof {
                assert(channels == channels_of_byte(buf@[12 + i]));
                assert(channels_of(tracks@) =~= channels_of(old_tracks).push(channels));
            }
            pointer += 1;
            i += 1;
        }
        assert(header_channels(buf@).take(n) =~= header_channels(buf@));
        let audio_container = AudioContainer::Opus;
        let packs_num = read_i32_be(buf.as_slice(), pointer);
        Ok(
            PrawReader {
                header: buf,
                version,
                samplerate,
                tracks_num,
                tracks,
                audio_container,
                packs_num,
            },
        )
    }

    /// A copy of the header bytes this reader was loaded from.
    pub fn get_header(&self) -> (r: Vec<u8>)
        ensures
            r@ == self@.header,
    {
        let r = self.header.clone();
        assert(r@ =~= self.header@);
        r
    }

    /// The pack positions that the header holds, one per counted pack; `None`
    /// where the header ends before its position table does.
    pub fn pack_positions(&self) -> (r: Option<Vec<i32>>)
        requires
            header_well_formed(self@.header),
        ensures
            r is Some <==> self@.header.len() >= 16 + header_track_count(self@.header) + 4
                * track_count(header_packs_num(self@.header)),
            r is Some ==> r.unwrap()@ == header_positions(self@.header),
    {
        let h = &self.header;
        let len = h.len();
        let tracks_num = read_i32_be(h.as_slice(), 8);
        let n: usize = if tracks_num < 0 {
            0
        } else {
            tracks_num as usize
        };
        let packs_num = read_i32_be(h.as_slice(), 12 + n);
        let p: usize = if packs_num < 0 {
            0
        } else {
            packs_num as usize
        };
        if (len - 16 - n) / 4 < p {
            return None;
        }
        let ghost table = header_positions(h@);
        let mut positions: Vec<i32> = Vec::new();
        let mut j: usize = 0;
        while j < p
            invariant
                len == h@.len(),
                n == header_track_count(h@),
                p == track_count(header_packs_num(h@)),
                16 + n + 4 * p <= len,
                table == header_positions(h@),
                0 <= j <= p,
                positions@ =~= table.take(j as int),
            decreases p - j,
        {
            let x = read_i32_be(h.as_slice(), 16 + n + 4 * j);
            positions.push(x);
            j += 1;
        }
        assert(table.take(p as int) =~= table);
        Some(positions)
    }

    /// Reads the pack body `buf`: for each of the `tracks_num` tracks, its
    /// channel layout and the packets stored for it.
    pub fn read_pack(&mut self, buf: Vec<u8>) -> (r: Vec<PackedTrack>)
        requires
            old(self)@.tracks_num >= 0,
            old(self)@.tracks.len() >= old(self)@.tracks_num,
            parse_pack(buf@, old(self)@.tracks_num as int) is Some,
        ensures
            *final(self) == *old(self),
            packed_packets(r@) == parse_pack(buf@, old(self)@.tracks_num as int).unwrap(),
            packed_channels(r@) == old(self)@.tracks.take(old(self)@.tracks_num as int),
    {
        let n = self.tracks_num as usize;
        let blen = buf.len();
        let ghost sizes_spec = pack_track_sizes(buf@, n as int);
        let mut sizes: Vec<i32> = Vec::new();
        let mut pointer: usize = 0;
        let mut i: usize = 0;
        while i < n
            invariant
                blen == buf@.len(),
                buf@.len() >= 4 * n,
                0 <= i <= n,
                pointer == 4 * i,
                sizes_spec == pack_track_sizes(buf@, n as int),
                sizes@ =~= sizes_spec.take(i as int),
            decreases n - i,
        {
            let size = read_i32_be(buf.as_slice(), pointer);
            sizes.push(size);
            pointer += 4;
            i += 1;
        }
        assert(sizes@ =~= sizes_spec);
        let ghost whole = parse_tracks(buf@, sizes_spec, 4 * n);
        let mut packed_tracks: Vec<PackedTrack> = Vec::new();
        let mut i: usize = 0;
        while i < n
            invariant
                blen == buf@.len(),
                n == self.tracks_num,
                n <= self.tracks@.len(),
                buf@.len() >= 4 * n,
                0 <= i <= n,
                pointer <= buf@.len(),
                sizes@ == sizes_spec,
                sizes_spec.len() == n,
                whole == parse_tracks(buf@, sizes_spec, 4 * n),
                whole is Some,
                packed_channels(packed_tracks@) =~= channels_of(self.tracks@).take(i as int),
                parse_tracks(buf@, sizes_spec.skip(i as int), pointer as int) is Some,
                whole.unwrap().0 =~= packed_packets(packed_tracks@) + parse_tracks(
                    buf@,
                    sizes_spec.skip(i as int),
                    pointer as int,
                ).unwrap().0,
            decreases n - i,
        {
            let ghost rest_sizes = sizes_spec.skip(i as int);
            let ghost rest = parse_tracks(buf@, rest_sizes, pointer as int);
            assert(rest_sizes[0] == sizes@[i as int]);
            assert(rest_sizes.drop_first() =~= sizes_spec.skip(i + 1));
            assert(rest_sizes.len() > 0);
            assert(rest_sizes[0] >= 0);
            let size = sizes[i] as usize;
            assert(parse_packets(buf@, pointer as int, pointer + size) is Some);
            proof {
                lemma_parse_packets_bounds(buf@, pointer as int, pointer + size);
            }
            let totalsize = pointer + size;
            let (minipacks, next) = read_packets(&buf, pointer, totalsize);
            let ghost old_packed = packed_tracks@;
            let track = self.tracks[i].clone();
            packed_tracks.push(PackedTrack { track, data: minipacks });
            proof {
                assert(packed_packets(packed_tracks@) =~= packed_packets(old_packed).push(
                    packets_of(minipacks@),
                ));
                assert(packed_channels(packed_tracks@) =~= packed_channels(old_packed).push(
                    self.tracks@[i as int].channels,
                ));
            }
            pointer = next;
            i += 1;
        }
        proof {
            assert(sizes_spec.skip(n as int) =~= Seq::<i32>::empty());
            assert(channels_of(self.tracks@).take(n as int) =~= self@.tracks.take(n as int));
        }
        packed_tracks
    }
}

/// Reads the packets of one track, starting at `pointer`, while the position is
/// below `totalsize`; returns the packets and the position after them.
fn read_packets(buf: &Vec<u8>, pointer: usize, totalsize: usize) -> (r: (Vec<Vec<u8>>, usize))
    requires
        pointer <= buf@.len(),
        parse_packets(buf@, pointer as int, totalsize as int) is Some,
    ensures
        packets_of(r.0@) == parse_packets(buf@, pointer as int, totalsize as int).unwrap().0,
        r.1 == parse_packets(buf@, pointer as int, totalsize as int).unwrap().1,
{
    let ghost whole = parse_packets(buf@, pointer as int, totalsize as int);
    let mut minipacks: Vec<Vec<u8>> = Vec::new();
    let mut pointer = pointer;
    while totalsize > pointer
        invariant
            pointer <= buf@.len(),
            whole is Some,
            parse_packets(buf@, pointer as int, totalsize as int) is Some,
            whole.unwrap().0 =~= packets_of(minipacks@) + parse_packets(
                buf@,
                pointer as int,
                totalsize as int,
            ).unwrap().0,
            whole.unwrap().1 == parse_packets(buf@, pointer as int, totalsize as int).unwrap().1,
        decreases buf@.len() - pointer,
    {
        let len = buf.len();
        assert(pointer + 4 <= len);
        let size = read_i32_be(buf.as_slice(), pointer);
        assert(size >= 0 && pointer + 4 + size <= buf@.len());
        let minipack_size = size as usize;
        let start = pointer + 4;
        let end = start + minipack_size;
        let minipack = slice_to_vec(slice_subrange(buf.as_slice(), start, end));
        let ghost old_packets = minipacks@;
        minipacks.push(minipack);
        proof {
            assert(packets_of(minipacks@) =~= packets_of(old_packets).push(minipack@));
        }
        pointer = end;
    }
    (minipacks, pointer)
}

} // verus!
