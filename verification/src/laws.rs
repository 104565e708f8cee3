//! What a reader gives back of what a writer wrote.
use vstd::prelude::*;
use vstd::seq_lib::lemma_flatten_concat;
use crate::bytes::{i32_at, i32_be_bytes, lemma_i32_at_encoded, lemma_i32_be_roundtrip};
use crate::header::{
    header_channels, header_packs_num, header_positions, header_samplerate,
    header_track_count, header_tracks_num, header_version, header_well_formed, track_count,
};
use crate::pack::{
    encode_pack, encode_pack_body, encode_packets, encode_packs, lemma_encode_packs_split,
    lemma_encode_packets_len, lemma_flatten_fours, lemma_flatten_map_first, packet_bytes, lemma_flatten_map_take_step,
    lemma_bodies_within_stream, lemma_parse_tracks_encoded, lemma_subrange_split,
    lemma_track_size_in_range, lemma_tracks_packets_len, pack_track_sizes, packets_fit, parse_pack,
    scan_offset, sizes_sum, track_size, track_size_fits,
};
use crate::types::{channels_byte, AudioContainer, Channels};
use crate::writer::{
    file_fits, file_image, header_len, lemma_writer_header_len, new_pack, pack_data, packs_data,
    packs_sizes_fit, packs_stream, tracks_packets, writer_after, writer_consistent, writer_header,
    writer_positions, WriterView,
};

verus! {

/// Loading the header that a writer produces gives back the writer's version,
/// sample rate, track count and channel layouts, the number of packs it
/// holds and the position of each pack in its file, wherever the writer has
/// as many tracks as its track count announces and its file fits its header.
#[verifier::spinoff_prover]
#[verifier::rlimit(40)]
pub proof fn law_header_roundtrip(v: WriterView)
    requires
        v.tracks.len() == track_count(v.tracks_num),
        file_fits(v),
    ensures
        ({
            let h = writer_header(v);
            &&& h.len() == header_len(v)
            &&& header_well_formed(h)
            &&& header_version(h) == v.version
            &&& header_samplerate(h) == v.samplerate
            &&& header_tracks_num(h) == v.tracks_num
            &&& header_channels(h) == v.tracks
            &&& header_packs_num(h) == v.packs.len()
            &&& header_positions(h) == writer_positions(v)
        }),
{
    let k = v.packs.len() as int;
    let packs_num = v.packs.len() as i32;
    let h = writer_header(v);
    let n = v.tracks.len() as int;
    let cb = v.tracks.map_values(|c: Channels| channels_byte(c));
    let ps = writer_positions(v);
    let table_parts = ps.map_values(|x: i32| i32_be_bytes(x));
    let table = table_parts.flatten();
    lemma_writer_header_len(v);
    assert(k <= 0x7fff_ffff);
    assert(packs_num == k);
    lemma_i32_be_roundtrip(v.version);
    lemma_i32_be_roundtrip(v.samplerate);
    lemma_i32_be_roundtrip(v.tracks_num);
    lemma_i32_be_roundtrip(packs_num);
    assert forall|j: int| 0 <= j < table_parts.len() implies (#[trigger] table_parts[j]).len()
        == 4 by {}
    lemma_flatten_fours(table_parts);
    assert(h == i32_be_bytes(v.version) + i32_be_bytes(v.samplerate) + i32_be_bytes(v.tracks_num)
        + cb + i32_be_bytes(packs_num) + table);
    assert(h.subrange(0, 4) =~= i32_be_bytes(v.version));
    assert(h.subrange(4, 8) =~= i32_be_bytes(v.samplerate));
    assert(h.subrange(8, 12) =~= i32_be_bytes(v.tracks_num));
    assert(h.subrange(12 + n, 16 + n) =~= i32_be_bytes(packs_num));
    lemma_i32_at_encoded(h, 0, v.version);
    lemma_i32_at_encoded(h, 4, v.samplerate);
    lemma_i32_at_encoded(h, 8, v.tracks_num);
    lemma_i32_at_encoded(h, 12 + n, packs_num);
    assert(header_track_count(h) == n);
    assert forall|i: int| 0 <= i < n implies h[12 + i] == #[trigger] cb[i] by {}
    assert forall|i: int| 0 <= i < n implies #[trigger] h[12 + i] <= 1 by {
        assert(h[12 + i] == cb[i]);
    }
    assert(header_channels(h) =~= v.tracks) by {
        assert forall|i: int| 0 <= i < n implies #[trigger] header_channels(h)[i] == v.tracks[i] by {
            assert(h[12 + i] == cb[i]);
        }
    }
    assert(header_positions(h) =~= ps) by {
        assert forall|j: int| 0 <= j < k implies #[trigger] header_positions(h)[j] == ps[j] by {
            assert(table.subrange(4 * j, 4 * j + 4) == table_parts[j]);
            assert(h.subrange(16 + n + 4 * j, 16 + n + 4 * j + 4) =~= table.subrange(
                4 * j,
                4 * j + 4,
            ));
            lemma_i32_at_encoded(h, 16 + n + 4 * j, ps[j]);
        }
    }
}

/// The body of a pack starts with the recorded size of each track, the
/// packets of every track following them.
proof fn lemma_pack_body_sizes(tracks: Seq<Seq<Seq<u8>>>)
    ensures
        ({
            let body = encode_pack_body(tracks);
            let n = tracks.len() as int;
            let packets_part = tracks.map_values(|t: Seq<Seq<u8>>| encode_packets(t)).flatten();
            &&& body.len() == 4 * n + packets_part.len()
            &&& pack_track_sizes(body, n) == tracks.map_values(
                |t: Seq<Seq<u8>>| track_size(t) as i32,
            )
            &&& body.subrange(4 * n, 4 * n + packets_part.len()) == packets_part
        }),
{
    let n = tracks.len() as int;
    let g = |t: Seq<Seq<u8>>| i32_be_bytes(track_size(t) as i32);
    let f = |t: Seq<Seq<u8>>| encode_packets(t);
    let h = |t: Seq<Seq<u8>>| track_size(t) as i32;
    let heads = tracks.map_values(g);
    let sizes_part = heads.flatten();
    let packets_part = tracks.map_values(f).flatten();
    let body = encode_pack_body(tracks);
    assert(body == sizes_part + packets_part);
    assert forall|j: int| 0 <= j < heads.len() implies (#[trigger] heads[j]).len() == 4 by {}
    lemma_flatten_fours(heads);
    assert(body.subrange(0, 4 * n + packets_part.len()) =~= sizes_part + packets_part);
    lemma_subrange_split(body, 0, sizes_part, packets_part);
    assert(pack_track_sizes(body, n) =~= tracks.map_values(h)) by {
        assert forall|j: int| 0 <= j < n implies #[trigger] pack_track_sizes(body, n)[j]
            == tracks.map_values(h)[j] by {
            assert(sizes_part.subrange(4 * j, 4 * j + 4) == heads[j]);
            assert(body.subrange(4 * j, 4 * j + 4) =~= sizes_part.subrange(4 * j, 4 * j + 4));
            lemma_i32_at_encoded(body, 4 * j, track_size(tracks[j]) as i32);
        }
    }
}

/// Reading the body of a pack that a writer encodes gives back the packets of
/// every track, wherever no packet is longer than `i32::MAX` bytes and every
/// track size can be summed within `i32`.
pub proof fn law_pack_roundtrip(tracks: Seq<Seq<Seq<u8>>>)
    requires
        forall|j: int| 0 <= j < tracks.len() ==> packets_fit(#[trigger] tracks[j]),
        forall|j: int| 0 <= j < tracks.len() ==> track_size_fits(#[trigger] tracks[j]),
    ensures
        parse_pack(encode_pack_body(tracks), tracks.len() as int) == Some(tracks),
{
    let n = tracks.len() as int;
    lemma_pack_body_sizes(tracks);
    lemma_parse_tracks_encoded(encode_pack_body(tracks), tracks, 4 * n);
}

/// In a stream of packs, the pack at index `k` starts right after the packs
/// before it: its first four bytes give the length of its body, the body
/// follows, and the next pack starts four bytes plus that length further on.
/// This holds wherever no pack body is longer than `i32::MAX` bytes.
pub proof fn law_stream_layout(packs: Seq<Seq<Seq<Seq<u8>>>>, k: int)
    requires
        0 <= k < packs.len(),
        forall|j: int|
            0 <= j < packs.len() ==> (#[trigger] encode_pack_body(packs[j])).len() <= i32::MAX,
    ensures
        ({
            let stream = encode_packs(packs);
            let off = encode_packs(packs.take(k)).len() as int;
            let body = encode_pack_body(packs[k]);
            &&& off + 4 + body.len() <= stream.len()
            &&& i32_at(stream, off) == body.len()
            &&& stream.subrange(off + 4, off + 4 + body.len()) == body
            &&& encode_packs(packs.take(k + 1)).len() == off + 4 + i32_at(stream, off)
        }),
{
    let f = |p: Seq<Seq<Seq<u8>>>| encode_pack(p);
    let stream = encode_packs(packs);
    let before = packs.take(k).map_values(f).flatten();
    let after = packs.skip(k).map_values(f).flatten();
    assert(packs.map_values(f) =~= packs.take(k).map_values(f) + packs.skip(k).map_values(f));
    lemma_flatten_concat(packs.take(k).map_values(f), packs.skip(k).map_values(f));
    assert(stream == before + after);
    let rest = packs.skip(k + 1).map_values(f).flatten();
    lemma_flatten_map_first(packs.skip(k), f);
    assert(packs.skip(k)[0] == packs[k]);
    assert(packs.skip(k).drop_first() =~= packs.skip(k + 1));
    let body = encode_pack_body(packs[k]);
    let head = i32_be_bytes(body.len() as i32);
    lemma_i32_be_roundtrip(body.len() as i32);
    assert(after == head + body + rest);
    let off = before.len() as int;
    assert(stream.subrange(0, off + (head + body).len() + rest.len()) =~= before + (head + body
        + rest));
    lemma_subrange_split(stream, 0, before, head + body + rest);
    lemma_subrange_split(stream, off, head + body, rest);
    lemma_subrange_split(stream, off, head, body);
    lemma_i32_at_encoded(stream, off, body.len() as i32);
    lemma_flatten_map_take_step(packs, f, k);
}

/// The file of a writer starts with four bytes that give the length of the
/// header; the header follows, and the packs fill the rest of the file.
pub proof fn law_file_layout(v: WriterView)
    requires
        file_fits(v),
    ensures
        ({
            let f = file_image(v);
            let hl = header_len(v);
            &&& f.len() == 4 + hl + packs_stream(v).len()
            &&& i32_at(f, 0) == hl
            &&& f.subrange(4, 4 + hl) == writer_header(v)
            &&& f.subrange(4 + hl, f.len() as int) == packs_stream(v)
        }),
{
    let f = file_image(v);
    let hl = header_len(v);
    let hb = i32_be_bytes(hl as i32);
    lemma_writer_header_len(v);
    lemma_i32_be_roundtrip(hl as i32);
    assert(f == hb + writer_header(v) + packs_stream(v));
    assert(f.subrange(0, 4) =~= hb);
    lemma_i32_at_encoded(f, 0, hl as i32);
    assert(f.subrange(4, 4 + hl) =~= writer_header(v));
    assert(f.subrange(4 + hl, f.len() as int) =~= packs_stream(v));
}

/// In the file of a writer, the position that the header records for pack
/// `k` leads to that pack: its first four bytes give the length of its body,
/// and reading the body with the track count that the header records gives
/// back the packets of every track. This holds wherever the file fits its
/// header, every pack has one track per counted track, the track count is not
/// negative, and no packet of the pack is longer than `i32::MAX` bytes.
pub proof fn law_file_pack_read_back(v: WriterView, k: int)
    requires
        0 <= k < v.packs.len(),
        file_fits(v),
        writer_consistent(v),
        v.tracks_num >= 0,
        forall|j: int| 0 <= j < v.packs[k].len() ==> packets_fit(#[trigger] v.packs[k][j].1),
    ensures
        ({
            let f = file_image(v);
            let h = writer_header(v);
            let pos = header_positions(h)[k] as int;
            let size = i32_at(f, pos) as int;
            &&& size == encode_pack_body(packs_data(v.packs)[k]).len()
            &&& pos + 4 + size <= f.len()
            &&& parse_pack(f.subrange(pos + 4, pos + 4 + size), header_tracks_num(h) as int)
                == Some(packs_data(v.packs)[k])
        }),
{
    let pd = packs_data(v.packs);
    let f = file_image(v);
    let hl = header_len(v);
    let stream = packs_stream(v);
    law_header_roundtrip(v);
    law_file_layout(v);
    lemma_bodies_within_stream(pd);
    law_stream_layout(pd, k);
    let off = encode_packs(pd.take(k)).len() as int;
    let body = encode_pack_body(pd[k]);
    let pos = 4 + hl + off;
    lemma_encode_packs_split(pd, k);
    assert(writer_positions(v)[k] == pos);
    assert(f.len() == 4 + hl + stream.len());
    assert forall|r: int| 0 <= r < stream.len() implies f[4 + hl + r] == #[trigger] stream[r] by {
        assert(f.subrange(4 + hl, f.len() as int)[r] == stream[r]);
    }
    assert(i32_at(f, pos) == i32_at(stream, off)) by {
        assert(f[pos] == stream[off]);
        assert(f[pos + 1] == stream[off + 1]);
        assert(f[pos + 2] == stream[off + 2]);
        assert(f[pos + 3] == stream[off + 3]);
    }
    assert(f.subrange(pos + 4, pos + 4 + body.len()) =~= stream.subrange(
        off + 4,
        off + 4 + body.len(),
    ));
    let tracks = pd[k];
    assert(tracks == pack_data(v.packs[k]));
    assert forall|j: int| 0 <= j < tracks.len() implies packets_fit(#[trigger] tracks[j])
        && track_size_fits(tracks[j]) by {
        assert(tracks[j] == v.packs[k][j].1);
    }
    law_pack_roundtrip(tracks);
}

/// Scanning a pack offset chain from the start of a stream, where pack `j`
/// starts at the scan offset `j`.
proof fn lemma_scan_offsets(packs: Seq<Seq<Seq<Seq<u8>>>>, j: int)
    requires
        0 <= j <= packs.len(),
        forall|i: int|
            0 <= i < packs.len() ==> (#[trigger] encode_pack_body(packs[i])).len() <= i32::MAX,
    ensures
        scan_offset(encode_packs(packs), j as nat) == encode_packs(packs.take(j)).len(),
    decreases j,
{
    if j == 0 {
        assert(packs.take(0).map_values(|p: Seq<Seq<Seq<u8>>>| encode_pack(p)) =~= Seq::<
            Seq<u8>,
        >::empty());
    } else {
        lemma_scan_offsets(packs, j - 1);
        law_stream_layout(packs, j - 1);
    }
}

/// Scanning the packs of a writer from the start of its stream, each pack
/// starting four bytes plus its recorded body length after the one before,
/// reaches the end of the stream after the last pack, and every body read on
/// the way gives back the packets of every track of its pack, with the
/// writer's track count. This holds wherever the file fits its header, every
/// pack has one track per counted track, the track count is not negative, and
/// no packet is longer than `i32::MAX` bytes.
pub proof fn law_stream_scan(v: WriterView)
    requires
        file_fits(v),
        writer_consistent(v),
        v.tracks_num >= 0,
        forall|k: int, j: int|
            0 <= k < v.packs.len() && 0 <= j < v.packs[k].len() ==> packets_fit(
                #[trigger] v.packs[k][j].1,
            ),
    ensures
        ({
            let b = packs_stream(v);
            &&& scan_offset(b, v.packs.len()) == b.len()
            &&& forall|j: int|
                0 <= j < v.packs.len() ==> parse_pack(
                    b.subrange(
                        scan_offset(b, j as nat) + 4,
                        #[trigger] scan_offset(b, (j + 1) as nat),
                    ),
                    v.tracks_num as int,
                ) == Some(packs_data(v.packs)[j])
        }),
{
    let pd = packs_data(v.packs);
    let b = packs_stream(v);
    lemma_bodies_within_stream(pd);
    lemma_scan_offsets(pd, pd.len() as int);
    assert(pd.take(pd.len() as int) =~= pd);
    assert forall|j: int| 0 <= j < v.packs.len() implies parse_pack(
        b.subrange(scan_offset(b, j as nat) + 4, #[trigger] scan_offset(b, (j + 1) as nat)),
        v.tracks_num as int,
    ) == Some(pd[j]) by {
        lemma_scan_offsets(pd, j);
        lemma_scan_offsets(pd, j + 1);
        law_stream_layout(pd, j);
        let tracks = pd[j];
        assert(tracks == pack_data(v.packs[j]));
        assert forall|i: int| 0 <= i < tracks.len() implies packets_fit(#[trigger] tracks[i])
            && track_size_fits(tracks[i]) by {
            assert(tracks[i] == v.packs[j][i].1);
        }
        law_pack_roundtrip(tracks);
    }
}

/// Every pack of a writer holds one recorded size per counted track, each the
/// size of that track's packets, and its body is four bytes per track plus the
/// sum of those sizes. This holds wherever every pack has one track per
/// counted track, the track count is not negative, every track size can be
/// summed within `i32` and no packet of the pack is longer than `i32::MAX`
/// bytes.
pub proof fn law_pack_sizes(v: WriterView, k: int)
    requires
        0 <= k < v.packs.len(),
        writer_consistent(v),
        v.tracks_num >= 0,
        file_fits(v),
        forall|j: int| 0 <= j < v.packs[k].len() ==> packets_fit(#[trigger] v.packs[k][j].1),
    ensures
        ({
            let tracks = packs_data(v.packs)[k];
            let body = encode_pack_body(tracks);
            let sizes = pack_track_sizes(body, v.tracks_num as int);
            &&& sizes.len() == v.tracks_num
            &&& forall|i: int| 0 <= i < sizes.len() ==> #[trigger] sizes[i] == track_size(tracks[i])
            &&& body.len() == 4 * v.tracks_num + sizes_sum(sizes)
        }),
{
    let tracks = packs_data(v.packs)[k];
    assert(tracks == pack_data(v.packs[k]));
    assert forall|j: int| 0 <= j < tracks.len() implies packets_fit(#[trigger] tracks[j])
        && track_size_fits(tracks[j]) by {
        assert(tracks[j] == v.packs[k][j].1);
    }
    lemma_pack_body_sizes(tracks);
    lemma_tracks_packets_len(tracks);
    assert forall|i: int| 0 <= i < tracks.len() implies (track_size(tracks[i]) as i32) == track_size(
        tracks[i],
    ) by {
        lemma_track_size_in_range(tracks[i]);
    }
}

/// Adding a pack to the writer built from some packs gives the writer built
/// from those packs and the new one: what `add_pack` does to a writer that
/// `new` and `add_pack` built.
pub proof fn law_add_pack_extends(
    samplerate: i32,
    tracks: Seq<Channels>,
    audio_container: AudioContainer,
    added: Seq<Seq<Seq<Seq<u8>>>>,
    pack: Seq<Vec<Vec<u8>>>,
)
    ensures
        ({
            let v = writer_after(samplerate, tracks, audio_container, added);
            (WriterView {
                packs: v.packs.push(new_pack(v.tracks, track_count(v.tracks_num), tracks_packets(pack))),
                ..v
            }) == writer_after(samplerate, tracks, audio_container, added.push(tracks_packets(pack)))
        }),
{
    let v = writer_after(samplerate, tracks, audio_container, added);
    let f = |p: Seq<Seq<Seq<u8>>>| new_pack(tracks, track_count(tracks.len() as i32), p);
    assert(added.push(tracks_packets(pack)).map_values(f) =~= added.map_values(f).push(
        f(tracks_packets(pack)),
    ));
}

/// Entries of a pack beyond the first `n` are not kept: handing `add_pack`
/// more tracks than the track count adds the same pack.
pub proof fn law_add_pack_ignores_extra(
    tracks: Seq<Channels>,
    n: int,
    p: Seq<Vec<Vec<u8>>>,
    q: Seq<Vec<Vec<u8>>>,
)
    requires
        0 <= n <= p.len(),
    ensures
        new_pack(tracks, n, tracks_packets(p)) == new_pack(tracks, n, tracks_packets(p + q)),
{
    assert(new_pack(tracks, n, tracks_packets(p)) =~= new_pack(tracks, n, tracks_packets(p + q)));
}

/// A writer built by `new` and `add_pack`, each pack handed with at least one
/// entry per track, keeps one track per track of `new` in every pack, with its
/// channel layout; each pack holds the first entries it was handed.
pub proof fn law_writer_after_consistent(
    samplerate: i32,
    tracks: Seq<Channels>,
    audio_container: AudioContainer,
    added: Seq<Seq<Seq<Seq<u8>>>>,
)
    requires
        tracks.len() <= i32::MAX,
        forall|j: int| 0 <= j < added.len() ==> (#[trigger] added[j]).len() >= tracks.len(),
    ensures
        writer_consistent(writer_after(samplerate, tracks, audio_container, added)),
        forall|j: int|
            0 <= j < added.len() ==> #[trigger] packs_data(
                writer_after(samplerate, tracks, audio_container, added).packs,
            )[j] == added[j].take(tracks.len() as int),
{
    let v = writer_after(samplerate, tracks, audio_container, added);
    assert(track_count(tracks.len() as i32) == tracks.len());
    assert forall|j: int| 0 <= j < added.len() implies #[trigger] packs_data(v.packs)[j]
        == added[j].take(tracks.len() as int) by {
        assert(packs_data(v.packs)[j] =~= added[j].take(tracks.len() as int));
    }
}

/// A writer built by `new` and `add_pack` is read back: its header gives back
/// the sample rate, the track count and the channel layouts of `new` and the
/// number of packs added; scanning its packs from the start of the stream
/// reaches the end after the last pack, and every body read on the way gives
/// back, for each track, the packets handed to `add_pack` for it. This holds
/// wherever there are at most `i32::MAX` tracks, every pack was handed at
/// least one entry per track, its file fits its header and no packet is
/// longer than `i32::MAX` bytes.
pub proof fn law_built_writer_reads_back(
    samplerate: i32,
    tracks: Seq<Channels>,
    audio_container: AudioContainer,
    added: Seq<Seq<Seq<Seq<u8>>>>,
)
    requires
        tracks.len() <= i32::MAX,
        forall|j: int| 0 <= j < added.len() ==> (#[trigger] added[j]).len() >= tracks.len(),
        file_fits(writer_after(samplerate, tracks, audio_container, added)),
        forall|j: int, i: int|
            0 <= j < added.len() && 0 <= i < tracks.len() ==> packets_fit(#[trigger] added[j][i]),
    ensures
        ({
            let v = writer_after(samplerate, tracks, audio_container, added);
            let h = writer_header(v);
            let b = packs_stream(v);
            &&& header_well_formed(h)
            &&& header_version(h) == 1
            &&& header_samplerate(h) == samplerate
            &&& header_tracks_num(h) == tracks.len()
            &&& header_channels(h) == tracks
            &&& header_packs_num(h) == added.len()
            &&& scan_offset(b, added.len()) == b.len()
            &&& forall|j: int|
                0 <= j < added.len() ==> parse_pack(
                    b.subrange(
                        scan_offset(b, j as nat) + 4,
                        #[trigger] scan_offset(b, (j + 1) as nat),
                    ),
                    tracks.len() as int,
                ) == Some(added[j].take(tracks.len() as int))
        }),
{
    let v = writer_after(samplerate, tracks, audio_container, added);
    law_writer_after_consistent(samplerate, tracks, audio_container, added);
    assert forall|k: int, j: int|
        0 <= k < v.packs.len() && 0 <= j < v.packs[k].len() implies packets_fit(
        #[trigger] v.packs[k][j].1,
    ) by {
        assert(v.packs[k][j].1 == added[k][j]);
    }
    law_header_roundtrip(v);
    law_stream_scan(v);
    assert forall|j: int| 0 <= j < added.len() implies #[trigger] packs_data(v.packs)[j]
        == added[j].take(tracks.len() as int) by {}
}

/// Packets no longer than `i32::MAX` bytes whose length-prefixed encoding
/// takes at most `i32::MAX` bytes have a track size that sums within `i32`,
/// and that size is the number of bytes of the encoding.
pub proof fn law_track_size_fits_when_small(ps: Seq<Seq<u8>>)
    requires
        forall|i: int| 0 <= i < ps.len() ==> (#[trigger] ps[i]).len() <= i32::MAX,
        encode_packets(ps).len() <= i32::MAX,
    ensures
        track_size_fits(ps),
        track_size(ps) == encode_packets(ps).len(),
    decreases ps.len(),
{
    assert(packets_fit(ps));
    lemma_encode_packets_len(ps);
    if ps.len() > 0 {
        let init = ps.drop_last();
        let f = |p: Seq<u8>| packet_bytes(p);
        assert(ps.map_values(f) =~= init.map_values(f).push(f(ps.last())));
        init.map_values(f).lemma_flatten_push(f(ps.last()));
        assert forall|i: int| 0 <= i < init.len() implies (#[trigger] init[i]).len()
            <= i32::MAX by {
            assert(init[i] == ps[i]);
        }
        law_track_size_fits_when_small(init);
        assert(ps.last() == ps[ps.len() - 1]);
    }
}

/// A writer fits its file exactly when every track size sums within `i32`
/// and the whole file, four bytes of header length, the sixteen bytes, one
/// byte per track and four bytes per pack of the header, and the packs, takes
/// at most `i32::MAX` bytes; where no packet is longer than `i32::MAX` bytes,
/// the track sizes need no test of their own.
pub proof fn law_file_fits_exact(v: WriterView)
    ensures
        file_fits(v) <==> (packs_sizes_fit(v.packs) && 4 + 16 + v.tracks.len() + 4 * v.packs.len()
            + encode_packs(packs_data(v.packs)).len() <= i32::MAX),
        ((forall|k: int, j: int, i: int|
            0 <= k < v.packs.len() && 0 <= j < v.packs[k].len() && 0 <= i < v.packs[k][j].1.len()
                ==> (#[trigger] v.packs[k][j].1[i]).len() <= i32::MAX) && 4 + 16 + v.tracks.len() + 4
            * v.packs.len() + encode_packs(packs_data(v.packs)).len() <= i32::MAX) ==> file_fits(v),
{
    let pd = packs_data(v.packs);
    let stream = encode_packs(pd);
    if (forall|k: int, j: int, i: int|
        0 <= k < v.packs.len() && 0 <= j < v.packs[k].len() && 0 <= i < v.packs[k][j].1.len()
            ==> (#[trigger] v.packs[k][j].1[i]).len() <= i32::MAX) && 4 + 16 + v.tracks.len() + 4
        * v.packs.len() + stream.len() <= i32::MAX {
        lemma_bodies_within_stream(pd);
        assert forall|k: int, j: int|
            0 <= k < v.packs.len() && 0 <= j < v.packs[k].len() implies track_size_fits(
            #[trigger] v.packs[k][j].1,
        ) by {
            let t = v.packs[k][j].1;
            let tracks = pd[k];
            assert(tracks[j] == t);
            let g = |t: Seq<Seq<u8>>| encode_packets(t);
            let parts = tracks.map_values(g);
            assert(parts[j] == encode_packets(t));
            parts.lemma_flatten_length_ge_single_element_length(j);
            parts.lemma_flatten_and_flatten_alt_are_equivalent();
            assert(encode_pack_body(tracks).len() >= parts.flatten().len());
            assert(encode_packets(t).len() <= i32::MAX);
            assert forall|i: int| 0 <= i < t.len() implies (#[trigger] t[i]).len() <= i32::MAX by {
                assert(t[i] == v.packs[k][j].1[i]);
            }
            law_track_size_fits_when_small(t);
        }
    }
}

} // verus!
