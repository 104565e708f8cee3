//! Building a praw stream: the header and the packs added so far.
use vstd::prelude::*;
use vstd::slice::slice_to_vec;
use crate::bytes::{i32_be_bytes, push_i32_be};
use crate::header::{channels_of, encode_header, track_count};
use crate::pack::{
    encode_pack, encode_pack_body, encode_packets, encode_packs, lemma_encode_packs_split,
    packet_bytes, packets_of,
    lemma_flatten_fours, lemma_flatten_map_take_step, lemma_track_size_fits_prefix, track_size, track_size_fits,
};
use crate::types::{channels_byte, AudioContainer, Channels, PackedTrack, Track};

verus! {

/// A track of a pack as a value: its channel layout and its packets.
pub open spec fn packed_track_view(t: PackedTrack) -> (Channels, Seq<Seq<u8>>) {
    (t.track.channels, t.packets())
}

/// The tracks of a pack as values.
pub open spec fn pack_view(p: Seq<PackedTrack>) -> Seq<(Channels, Seq<Seq<u8>>)> {
    p.map_values(|t: PackedTrack| packed_track_view(t))
}

/// The packets of each track of a pack.
pub open spec fn pack_data(p: Seq<(Channels, Seq<Seq<u8>>)>) -> Seq<Seq<Seq<u8>>> {
    p.map_values(|t: (Channels, Seq<Seq<u8>>)| t.1)
}

/// The packets of each track of each pack.
pub open spec fn packs_data(ps: Seq<Seq<(Channels, Seq<Seq<u8>>)>>) -> Seq<Seq<Seq<Seq<u8>>>> {
    ps.map_values(|p: Seq<(Channels, Seq<Seq<u8>>)>| pack_data(p))
}

/// The packets of each track of a pack handed to a writer, as bytes.
pub open spec fn tracks_packets(pack: Seq<Vec<Vec<u8>>>) -> Seq<Seq<Seq<u8>>> {
    pack.map_values(|t: Vec<Vec<u8>>| packets_of(t@))
}

/// The size of every track of every pack can be summed within `i32`.
pub open spec fn packs_sizes_fit(ps: Seq<Seq<(Channels, Seq<Seq<u8>>)>>) -> bool {
    forall|k: int, j: int|
        0 <= k < ps.len() && 0 <= j < ps[k].len() ==> track_size_fits(#[trigger] ps[k][j].1)
}

/// The number of bytes of a writer's header: sixteen, one per track and four
/// per pack.
pub open spec fn header_len(v: WriterView) -> int {
    16 + v.tracks.len() as int + 4 * v.packs.len() as int
}

/// The packs of a writer, one after the other.
pub open spec fn packs_stream(v: WriterView) -> Seq<u8> {
    encode_packs(packs_data(v.packs))
}

/// Where pack `j` of a writer starts in its file: after the header length,
/// the header and the packs before it.
pub open spec fn pack_position(v: WriterView, j: int) -> int {
    4 + header_len(v) + encode_packs(packs_data(v.packs).take(j)).len()
}

/// The positions of the packs of a writer, as its header stores them.
pub open spec fn writer_positions(v: WriterView) -> Seq<i32> {
    Seq::new(v.packs.len(), |j: int| pack_position(v, j) as i32)
}

/// The header of a writer: its version, sample rate and track count, the
/// channel byte of each track, the number of packs and their positions.
pub open spec fn writer_header(v: WriterView) -> Seq<u8> {
    encode_header(
        v.version,
        v.samplerate,
        v.tracks_num,
        v.tracks,
        v.packs.len() as i32,
        writer_positions(v),
    )
}

/// The file of a writer: the length of the header, the header and the packs.
pub open spec fn file_image(v: WriterView) -> Seq<u8> {
    i32_be_bytes(header_len(v) as i32) + writer_header(v) + packs_stream(v)
}

/// The file of a writer can be described by its header: every track size can
/// be summed within `i32`, and every position in the file, which the header
/// stores as an `i32`, is one.
pub open spec fn file_fits(v: WriterView) -> bool {
    &&& packs_sizes_fit(v.packs)
    &&& 4 + header_len(v) + packs_stream(v).len() <= i32::MAX
}

/// Every pack of a writer has one track per track of the writer, with its
/// channel layout, and the track count counts the tracks: what `new` sets up
/// and `add_pack` keeps.
pub open spec fn writer_consistent(v: WriterView) -> bool {
    &&& v.tracks.len() == track_count(v.tracks_num)
    &&& forall|k: int| 0 <= k < v.packs.len() ==> (#[trigger] v.packs[k]).len() == v.tracks.len()
    &&& forall|k: int, i: int|
        0 <= k < v.packs.len() && 0 <= i < v.tracks.len() ==> (#[trigger] v.packs[k][i]).0
            == v.tracks[i]
}

/// The writer that `new` builds from `samplerate`, `tracks` and
/// `audio_container`, after `add_pack` was handed, in turn, the packs whose
/// packets are `added`.
pub open spec fn writer_after(
    samplerate: i32,
    tracks: Seq<Channels>,
    audio_container: AudioContainer,
    added: Seq<Seq<Seq<Seq<u8>>>>,
) -> WriterView {
    WriterView {
        version: 1,
        samplerate,
        tracks_num: tracks.len() as i32,
        tracks,
        audio_container,
        packs: added.map_values(
            |p: Seq<Seq<Seq<u8>>>| new_pack(tracks, track_count(tracks.len() as i32), p),
        ),
    }
}

/// A writer of praw streams: the header fields and the packs added so far.
pub struct PrawWriter {
    pub version: i32,
    pub samplerate: i32,
    pub tracks_num: i32,
    pub tracks: Vec<Track>,
    /// The container of the audio; a praw stream stores opus audio and does
    /// not write the container.
    pub audio_container: AudioContainer,
    packs: Vec<Vec<PackedTrack>>,
}

/// The contents of a [`PrawWriter`] as mathematical values.
pub struct WriterView {
    pub version: i32,
    pub samplerate: i32,
    pub tracks_num: i32,
    /// The channel layout of each track.
    pub tracks: Seq<Channels>,
    pub audio_container: AudioContainer,
    /// The packs added so far, each as its tracks.
    pub packs: Seq<Seq<(Channels, Seq<Seq<u8>>)>>,
}

impl View for PrawWriter {
    type V = WriterView;

    closed spec fn view(&self) -> WriterView {
        WriterView {
            version: self.version,
            samplerate: self.samplerate,
            tracks_num: self.tracks_num,
            tracks: channels_of(self.tracks@),
            audio_container: self.audio_container,
            packs: self.packs@.map_values(|p: Vec<PackedTrack>| pack_view(p@)),
        }
    }
}

impl PrawWriter {
    /// A writer of format version 1 with one track per entry of `tracks` and no packs.
    pub fn new(samplerate: i32, tracks: Vec<Channels>, audio_container: AudioContainer) -> (r:
        PrawWriter)
        ensures
            r@ == (WriterView {
                version: 1,
                samplerate,
                tracks_num: tracks@.len() as i32,
                tracks: tracks@,
                audio_container,
                packs: seq![],
            }),
            r@ == writer_after(samplerate, tracks@, audio_container, seq![]),
            tracks@.len() <= i32::MAX ==> writer_consistent(r@),
    {
        let mut track_list: Vec<Track> = Vec::new();
        let mut i: usize = 0;
        while i < tracks.len()
            invariant
                0 <= i <= tracks@.len(),
                channels_of(track_list@) =~= tracks@.take(i as int),
            decreases tracks@.len() - i,
        {
            let ghost old_list = track_list@;
            track_list.push(Track { channels: tracks[i].clone() });
            assert(channels_of(track_list@) =~= channels_of(old_list).push(tracks@[i as int]));
            i += 1;
        }
        assert(tracks@.take(tracks@.len() as int) =~= tracks@);
        let r = PrawWriter {
            version: 1,
            samplerate,
            tracks_num: #[verifier::truncate] (tracks.len() as i32),
            tracks: track_list,
            audio_container,
            packs: Vec::new(),
        };
        assert(r@.packs =~= Seq::<Seq<(Channels, Seq<Seq<u8>>)>>::empty());
        assert(writer_after(samplerate, tracks@, audio_container, seq![]).packs =~= Seq::<
            Seq<(Channels, Seq<Seq<u8>>)>,
        >::empty());
        r
    }

    /// Adds a pack holding, for each of the `tracks_num` tracks, the packets
    /// at the same index of `pack`.
    pub fn add_pack(&mut self, pack: Vec<Vec<Vec<u8>>>)
        requires
            track_count(old(self)@.tracks_num) <= old(self)@.tracks.len(),
            track_count(old(self)@.tracks_num) <= pack@.len(),
        ensures
            final(self)@ == (WriterView {
                packs: old(self)@.packs.push(
                    new_pack(
                        old(self)@.tracks,
                        track_count(old(self)@.tracks_num),
                        tracks_packets(pack@),
                    ),
                ),
                ..old(self)@
            }),
            writer_consistent(old(self)@) ==> writer_consistent(final(self)@),
    {
        let ghost n = track_count(self.tracks_num);
        let mut packed_tracks: Vec<PackedTrack> = Vec::new();
        let mut i: i32 = 0;
        while i < self.tracks_num
            invariant
                n == track_count(self.tracks_num),
                n <= self.tracks@.len(),
                n <= pack@.len(),
                0 <= i <= n,
                pack_view(packed_tracks@) =~= new_pack(
                    channels_of(self.tracks@),
                    n,
                    tracks_packets(pack@),
                ).take(i as int),
            decreases self.tracks_num - i,
        {
            let ghost old_packed = packed_tracks@;
            let track = self.tracks[i as usize].clone();
            let data = copy_packets(&pack[i as usize]);
            packed_tracks.push(PackedTrack { track, data });
            assert(pack_view(packed_tracks@) =~= pack_view(old_packed).push(
                (self.tracks@[i as int].channels, tracks_packets(pack@)[i as int]),
            ));
            i += 1;
        }
        assert(new_pack(channels_of(self.tracks@), n, tracks_packets(pack@)).take(n) =~= new_pack(
            channels_of(self.tracks@),
            n,
            tracks_packets(pack@),
        ));
        self.packs.push(packed_tracks);
        assert(self@.packs =~= old(self)@.packs.push(
            new_pack(old(self)@.tracks, n, tracks_packets(pack@)),
        ));
        proof {
            if writer_consistent(old(self)@) {
                let v = self@;
                assert forall|k: int| 0 <= k < v.packs.len() implies (#[trigger] v.packs[k]).len()
                    == v.tracks.len() by {
                    if k < old(self)@.packs.len() {
                        assert(v.packs[k] == old(self)@.packs[k]);
                    }
                }
                assert forall|k: int, i: int|
                    0 <= k < v.packs.len() && 0 <= i < v.tracks.len() implies (
                    #[trigger] v.packs[k][i]).0 == v.tracks[i] by {
                    if k < old(self)@.packs.len() {
                        assert(v.packs[k] == old(self)@.packs[k]);
                    }
                }
            }
        }
    }

    /// The header bytes of the stream: version, sample rate and track count,
    /// one channel byte per track, the number of packs added so far and the
    /// position of each pack in the file.
    pub fn get_header(&self) -> (r: Vec<u8>)
        requires
            file_fits(self@),
        ensures
            r@ == writer_header(self@),
    {
        let ghost v = self@;
        let mut header: Vec<u8> = Vec::new();
        push_i32_be(&mut header, self.version);
        push_i32_be(&mut header, self.samplerate);
        push_i32_be(&mut header, self.tracks_num);
        let ghost start = header@;
        let ghost bytes = channels_of(self.tracks@).map_values(|c: Channels| channels_byte(c));
        let mut i: usize = 0;
        while i < self.tracks.len()
            invariant
                0 <= i <= self.tracks@.len(),
                bytes == channels_of(self.tracks@).map_values(|c: Channels| channels_byte(c)),
                header@ =~= start + bytes.take(i as int),
            decreases self.tracks@.len() - i,
        {
            let b: u8 = match self.tracks[i].channels {
                Channels::Mono => 0,
                Channels::Stereo => 1,
            };
            header.push(b);
            assert(bytes.take(i + 1) =~= bytes.take(i as int).push(b));
            i += 1;
        }
        assert(bytes.take(self.tracks@.len() as int) =~= bytes);
        push_i32_be(&mut header, #[verifier::truncate] (self.packs.len() as i32));
        let ghost prefix = header@;
        let ghost positions = writer_positions(v);
        let ghost all = packs_data(v.packs);
        proof {
            lemma_encode_packs_split(all, 0);
            assert(all.take(0) =~= Seq::<Seq<Seq<Seq<u8>>>>::empty());
            assert(encode_packs(all.take(0)).len() == 0);
        }
        let header_len: usize = 16 + self.tracks.len() + 4 * self.packs.len();
        let mut pos: usize = 4 + header_len;
        let mut k: usize = 0;
        while k < self.packs.len()
            invariant
                v == self@,
                file_fits(v),
                all == packs_data(v.packs),
                positions == writer_positions(v),
                0 <= k <= self.packs@.len(),
                pos == pack_position(v, k as int),
                header@ =~= prefix + positions.take(k as int).map_values(|x: i32| i32_be_bytes(x)).flatten(),
            decreases self.packs@.len() - k,
        {
            proof {
                lemma_flatten_map_take_step(positions, |x: i32| i32_be_bytes(x), k as int);
                lemma_flatten_map_take_step(all, |p: Seq<Seq<Seq<u8>>>| encode_pack(p), k as int);
                lemma_encode_packs_split(all, k + 1);
            }
            push_i32_be(&mut header, pos as i32);
            let body = self.pack_body_at(k);
            pos = pos + 4 + body.len();
            k += 1;
        }
        assert(positions.take(self.packs@.len() as int) =~= positions);
        header
    }

    /// The packs added so far, one after the other, each as the length of its
    /// body followed by the body.
    pub fn get_packs(&self) -> (r: Vec<u8>)
        requires
            packs_sizes_fit(self@.packs),
        ensures
            r@ == encode_packs(packs_data(self@.packs)),
    {
        let ghost all = packs_data(self@.packs);
        let mut packs: Vec<u8> = Vec::new();
        let mut k: usize = 0;
        while k < self.packs.len()
            invariant
                all == packs_data(self@.packs),
                all.len() == self.packs@.len(),
                packs_sizes_fit(self@.packs),
                0 <= k <= self.packs@.len(),
                packs@ =~= all.take(k as int).map_values(
                    |p: Seq<Seq<Seq<u8>>>| encode_pack(p),
                ).flatten(),
            decreases self.packs@.len() - k,
        {
            proof {
                lemma_flatten_map_take_step(all, |p: Seq<Seq<Seq<u8>>>| encode_pack(p), k as int);
            }
            let pack_data_bytes = self.pack_body_at(k);
            push_i32_be(&mut packs, #[verifier::truncate] (pack_data_bytes.len() as i32));
            append_bytes(&mut packs, &pack_data_bytes);
            k += 1;
        }
        assert(all.take(self.packs@.len() as int) =~= all);
        packs
    }

    /// Whether the file of this writer can be described by its header: the
    /// writers whose header, packs and file can be produced.
    pub fn fits_in_file(&self) -> (r: bool)
        ensures
            r == file_fits(self@),
    {
        let ghost v = self@;
        if !self.track_sizes_fit() {
            return false;
        }
        if self.tracks.len() > 0x7fff_ffff || self.packs.len() > 0x7fff_ffff {
            return false;
        }
        let ghost all = packs_data(v.packs);
        let mut total: u64 = 4 + 16 + self.tracks.len() as u64 + 4 * (self.packs.len() as u64);
        if total > 0x7fff_ffff {
            proof {
                lemma_encode_packs_split(all, 0);
            }
            return false;
        }
        proof {
            assert(all.take(0) =~= Seq::<Seq<Seq<Seq<u8>>>>::empty());
        }
        let mut k: usize = 0;
        while k < self.packs.len()
            invariant
                v == self@,
                packs_sizes_fit(v.packs),
                all == packs_data(v.packs),
                0 <= k <= self.packs@.len(),
                total == pack_position(v, k as int),
                total <= 0x7fff_ffff,
            decreases self.packs@.len() - k,
        {
            proof {
                lemma_flatten_map_take_step(all, |p: Seq<Seq<Seq<u8>>>| encode_pack(p), k as int);
                lemma_encode_packs_split(all, k + 1);
            }
            let body = self.pack_body_at(k);
            let len = body.len() as u64;
            if len > 0x7fff_ffff || total + 4 + len > 0x7fff_ffff {
                return false;
            }
            total = total + 4 + len;
            k += 1;
        }
        assert(all.take(self.packs@.len() as int) =~= all);
        true
    }

    /// The file of this writer: the length of the header, the header and the
    /// packs.
    pub fn file_bytes(&self) -> (r: Vec<u8>)
        requires
            file_fits(self@),
        ensures
            r@ == file_image(self@),
    {
        let header = self.get_header();
        proof {
            lemma_writer_header_len(self@);
        }
        let mut out: Vec<u8> = Vec::new();
        push_i32_be(&mut out, header.len() as i32);
        append_bytes(&mut out, &header);
        let packs = self.get_packs();
        append_bytes(&mut out, &packs);
        out
    }

    /// The body of the pack at index `k`.
    fn pack_body_at(&self, k: usize) -> (r: Vec<u8>)
        requires
            packs_sizes_fit(self@.packs),
            k < self@.packs.len(),
        ensures
            r@ == encode_pack_body(packs_data(self@.packs)[k as int]),
    {
        proof {
            assert(self@.packs[k as int] == pack_view(self.packs@[k as int]@));
            assert forall|j: int| 0 <= j < self.packs@[k as int]@.len() implies track_size_fits(
                #[trigger] self.packs@[k as int]@[j].packets(),
            ) by {
                assert(self@.packs[k as int][j].1 == self.packs@[k as int]@[j].packets());
            }
        }
        pack_body(&self.packs[k])
    }

    /// Whether the size of every track of every pack added so far can be
    /// summed within `i32`: the packs that `get_packs` can encode.
    fn track_sizes_fit(&self) -> (r: bool)
        ensures
            r == packs_sizes_fit(self@.packs),
    {
        let mut k: usize = 0;
        while k < self.packs.len()
            invariant
                0 <= k <= self.packs@.len(),
                forall|kk: int, j: int|
                    0 <= kk < k && 0 <= j < self@.packs[kk].len() ==> track_size_fits(
                        #[trigger] self@.packs[kk][j].1,
                    ),
            decreases self.packs@.len() - k,
        {
            let pack = &self.packs[k];
            assert(self@.packs[k as int] == pack_view(pack@));
            let mut j: usize = 0;
            while j < pack.len()
                invariant
                    0 <= k < self.packs@.len(),
                    *pack == self.packs@[k as int],
                    self@.packs[k as int] == pack_view(pack@),
                    0 <= j <= pack@.len(),
                    forall|kk: int, jj: int|
                        0 <= kk < k && 0 <= jj < self@.packs[kk].len() ==> track_size_fits(
                            #[trigger] self@.packs[kk][jj].1,
                        ),
                    forall|jj: int| 0 <= jj < j ==> track_size_fits(#[trigger] self@.packs[k as int][jj].1),
                decreases pack@.len() - j,
            {
                assert(self@.packs[k as int][j as int].1 == packets_of(pack@[j as int].data@));
                if !track_fits(&pack[j].data) {
                    return false;
                }
                j += 1;
            }
            k += 1;
        }
        true
    }
}

/// The pack that a writer with track layouts `tracks` builds from the first
/// `n` entries of `data`.
pub open spec fn new_pack(tracks: Seq<Channels>, n: int, data: Seq<Seq<Seq<u8>>>) -> Seq<
    (Channels, Seq<Seq<u8>>),
> {
    Seq::new(n as nat, |i: int| (tracks[i], data[i]))
}

/// A copy of a list of packets.
fn copy_packets(src: &Vec<Vec<u8>>) -> (r: Vec<Vec<u8>>)
    ensures
        packets_of(r@) == packets_of(src@),
{
    let mut r: Vec<Vec<u8>> = Vec::new();
    let mut i: usize = 0;
    while i < src.len()
        invariant
            0 <= i <= src@.len(),
            packets_of(r@) =~= packets_of(src@).take(i as int),
        decreases src@.len() - i,
    {
        let ghost old_r = r@;
        let p = slice_to_vec(src[i].as_slice());
        r.push(p);
        assert(packets_of(r@) =~= packets_of(old_r).push(src@[i as int]@));
        i += 1;
    }
    assert(packets_of(src@).take(src@.len() as int) =~= packets_of(src@));
    r
}

/// Appends the bytes of `src` to `out`.
fn append_bytes(out: &mut Vec<u8>, src: &Vec<u8>)
    ensures
        final(out)@ == old(out)@ + src@,
{
    let ghost start = out@;
    let mut i: usize = 0;
    while i < src.len()
        invariant
            0 <= i <= src@.len(),
            out@ =~= start + src@.take(i as int),
        decreases src@.len() - i,
    {
        out.push(src[i]);
        assert(src@.take(i + 1) =~= src@.take(i as int).push(src@[i as int]));
        i += 1;
    }
    assert(src@.take(src@.len() as int) =~= src@);
}

/// The size recorded for a track holding the packets `data`.
fn track_size_of(data: &Vec<Vec<u8>>) -> (r: i32)
    requires
        track_size_fits(packets_of(data@)),
    ensures
        r == track_size(packets_of(data@)),
{
    let ghost ps = packets_of(data@);
    let mut total_len: i32 = 0;
    let mut i: usize = 0;
    while i < data.len()
        invariant
            ps == packets_of(data@),
            track_size_fits(ps),
            0 <= i <= data@.len(),
            total_len == track_size(ps.take(i as int)),
        decreases data@.len() - i,
    {
        proof {
            lemma_track_size_fits_prefix(ps, i + 1);
            assert(ps.take(i + 1).drop_last() =~= ps.take(i as int));
            assert(ps.take(i + 1).last() == data@[i as int]@);
        }
        total_len += 4;
        total_len += #[verifier::truncate] (data[i].len() as i32);
        i += 1;
    }
    assert(ps.take(data@.len() as int) =~= ps);
    total_len
}

/// Appends the packets `data`, each preceded by its length, to `out`.
fn append_packets(out: &mut Vec<u8>, data: &Vec<Vec<u8>>)
    ensures
        final(out)@ == old(out)@ + encode_packets(packets_of(data@)),
{
    let ghost start = out@;
    let ghost ps = packets_of(data@);
    let mut i: usize = 0;
    while i < data.len()
        invariant
            ps == packets_of(data@),
            0 <= i <= data@.len(),
            out@ =~= start + ps.take(i as int).map_values(|p: Seq<u8>| packet_bytes(p)).flatten(),
        decreases data@.len() - i,
    {
        proof {
            lemma_flatten_map_take_step(ps, |p: Seq<u8>| packet_bytes(p), i as int);
        }
        push_i32_be(out, #[verifier::truncate] (data[i].len() as i32));
        append_bytes(out, &data[i]);
        i += 1;
    }
    assert(ps.take(data@.len() as int) =~= ps);
}

/// The body of the pack `pack`: the size of each track, then the packets of
/// each track, each preceded by its length.
fn pack_body(pack: &Vec<PackedTrack>) -> (r: Vec<u8>)
    requires
        forall|j: int| 0 <= j < pack@.len() ==> track_size_fits(#[trigger] pack@[j].packets()),
    ensures
        r@ == encode_pack_body(pack_data(pack_view(pack@))),
{
    let ghost tracks = pack_data(pack_view(pack@));
    assert(forall|j: int| 0 <= j < pack@.len() ==> #[trigger] tracks[j] == pack@[j].packets());
    let mut pack_data_bytes: Vec<u8> = Vec::new();
    let mut i: usize = 0;
    while i < pack.len()
        invariant
            tracks == pack_data(pack_view(pack@)),
            tracks.len() == pack@.len(),
            forall|j: int| 0 <= j < pack@.len() ==> #[trigger] tracks[j] == pack@[j].packets(),
            forall|j: int| 0 <= j < pack@.len() ==> track_size_fits(#[trigger] pack@[j].packets()),
            0 <= i <= pack@.len(),
            pack_data_bytes@ =~= tracks.take(i as int).map_values(
                |t: Seq<Seq<u8>>| i32_be_bytes(track_size(t) as i32),
            ).flatten(),
        decreases pack@.len() - i,
    {
        proof {
            lemma_flatten_map_take_step(
                tracks,
                |t: Seq<Seq<u8>>| i32_be_bytes(track_size(t) as i32),
                i as int,
            );
            assert(tracks[i as int] == packets_of(pack@[i as int].data@));
        }
        let total_len = track_size_of(&pack[i].data);
        push_i32_be(&mut pack_data_bytes, total_len);
        i += 1;
    }
    assert(tracks.take(pack@.len() as int) =~= tracks);
    let ghost sizes_part = pack_data_bytes@;
    let mut i: usize = 0;
    while i < pack.len()
        invariant
            tracks == pack_data(pack_view(pack@)),
            tracks.len() == pack@.len(),
            forall|j: int| 0 <= j < pack@.len() ==> #[trigger] tracks[j] == pack@[j].packets(),
            0 <= i <= pack@.len(),
            pack_data_bytes@ =~= sizes_part + tracks.take(i as int).map_values(
                |t: Seq<Seq<u8>>| encode_packets(t),
            ).flatten(),
        decreases pack@.len() - i,
    {
        proof {
            lemma_flatten_map_take_step(tracks, |t: Seq<Seq<u8>>| encode_packets(t), i as int);
            assert(tracks[i as int] == packets_of(pack@[i as int].data@));
        }
        append_packets(&mut pack_data_bytes, &pack[i].data);
        i += 1;
    }
    assert(tracks.take(pack@.len() as int) =~= tracks);
    pack_data_bytes
}

/// Whether the size of a track holding the packets `data` can be summed
/// within `i32`.
fn track_fits(data: &Vec<Vec<u8>>) -> (r: bool)
    ensures
        r == track_size_fits(packets_of(data@)),
{
    let ghost ps = packets_of(data@);
    let mut total: i64 = 0;
    let mut i: usize = 0;
    while i < data.len()
        invariant
            ps == packets_of(data@),
            0 <= i <= data@.len(),
            track_size_fits(ps.take(i as int)),
            total == track_size(ps.take(i as int)),
        decreases data@.len() - i,
    {
        assert(ps.take(i + 1).drop_last() =~= ps.take(i as int));
        assert(ps.take(i + 1).last() == data@[i as int]@);
        if total + 4 > 0x7fff_ffff {
            proof {
                if track_size_fits(ps) {
                    lemma_track_size_fits_prefix(ps, i + 1);
                }
            }
            return false;
        }
        let len: i32 = #[verifier::truncate] (data[i].len() as i32);
        let next: i64 = total + 4 + len as i64;
        if next < -0x8000_0000 || next > 0x7fff_ffff {
            proof {
                if track_size_fits(ps) {
                    lemma_track_size_fits_prefix(ps, i + 1);
                }
            }
            return false;
        }
        total = next;
        i += 1;
    }
    assert(ps.take(data@.len() as int) =~= ps);
    true
}

/// A writer's header takes sixteen bytes, one per track and four per pack.
pub proof fn lemma_writer_header_len(v: WriterView)
    ensures
        writer_header(v).len() == header_len(v),
{
    let ps = writer_positions(v).map_values(|x: i32| i32_be_bytes(x));
    assert forall|j: int| 0 <= j < ps.len() implies (#[trigger] ps[j]).len() == 4 by {}
    lemma_flatten_fours(ps);
    assert(v.tracks.map_values(|c: Channels| channels_byte(c)).len() == v.tracks.len());
}

} // verus!
