//! The body of a pack: one 32-bit size per track, then the packets of each
//! track in turn, every packet preceded by its 32-bit length.
use vstd::prelude::*;
use vstd::seq_lib::lemma_flatten_concat;
use crate::bytes::{i32_at, i32_be_bytes, lemma_i32_at_encoded, read_i32_be};
use crate::types::{Channels, PackedTrack};

verus! {

/// The packets of one track that start at `pos` in `buf`: length-prefixed
/// packets are read while the position is below `end`. The result holds the
/// packets and the position after the last one; `None` where a packet's length
/// is negative or a packet runs past the end of `buf`.
pub open spec fn parse_packets(buf: Seq<u8>, pos: int, end: int) -> Option<(Seq<Seq<u8>>, int)>
    decreases buf.len() - pos,
{
    if pos >= end {
        Some((seq![], pos))
    } else if pos + 4 > buf.len() {
        None
    } else {
        let size = i32_at(buf, pos);
        let next = pos + 4 + size;
        if size < 0 || next > buf.len() {
            None
        } else {
            match parse_packets(buf, next, end) {
                Some((rest, p)) => Some((seq![buf.subrange(pos + 4, next)] + rest, p)),
                None => None,
            }
        }
    }
}

/// The packets of the tracks whose sizes are `sizes`, the first starting at `pos`.
pub open spec fn parse_tracks(buf: Seq<u8>, sizes: Seq<i32>, pos: int) -> Option<
    (Seq<Seq<Seq<u8>>>, int),
>
    decreases sizes.len(),
{
    if sizes.len() == 0 {
        Some((seq![], pos))
    } else if sizes[0] < 0 {
        None
    } else {
        match parse_packets(buf, pos, pos + sizes[0]) {
            Some((t, p)) => match parse_tracks(buf, sizes.drop_first(), p) {
                Some((ts, q)) => Some((seq![t] + ts, q)),
                None => None,
            },
            None => None,
        }
    }
}

/// The `n` track sizes at the start of a pack body.
pub open spec fn pack_track_sizes(buf: Seq<u8>, n: int) -> Seq<i32> {
    Seq::new(n as nat, |i: int| i32_at(buf, 4 * i))
}

/// The packets of each of the `n` tracks of the pack body `buf`, or `None`
/// where `buf` is not such a body.
pub open spec fn parse_pack(buf: Seq<u8>, n: int) -> Option<Seq<Seq<Seq<u8>>>> {
    if n < 0 || buf.len() < 4 * n {
        None
    } else {
        match parse_tracks(buf, pack_track_sizes(buf, n), 4 * n) {
            Some((ts, _)) => Some(ts),
            None => None,
        }
    }
}

/// The bytes of each packet of a list.
pub open spec fn packets_of(ps: Seq<Vec<u8>>) -> Seq<Seq<u8>> {
    ps.map_values(|p: Vec<u8>| p@)
}

/// The packets of each track of a list of packed tracks.
pub open spec fn packed_packets(ts: Seq<PackedTrack>) -> Seq<Seq<Seq<u8>>> {
    ts.map_values(|t: PackedTrack| t.packets())
}

/// The channel layout of each track of a list of packed tracks.
pub open spec fn packed_channels(ts: Seq<PackedTrack>) -> Seq<Channels> {
    ts.map_values(|t: PackedTrack| t.track.channels)
}

/// A packet preceded by its length.
pub open spec fn packet_bytes(p: Seq<u8>) -> Seq<u8> {
    i32_be_bytes(p.len() as i32) + p
}

/// The packets of a track, each preceded by its length.
pub open spec fn encode_packets(ps: Seq<Seq<u8>>) -> Seq<u8> {
    ps.map_values(|p: Seq<u8>| packet_bytes(p)).flatten()
}

/// The size that a writer records for a track: four bytes and the length of
/// each packet, summed in 32-bit arithmetic where each length is taken as an
/// `i32`.
pub open spec fn track_size(ps: Seq<Seq<u8>>) -> int
    decreases ps.len(),
{
    if ps.len() == 0 {
        0
    } else {
        track_size(ps.drop_last()) + 4 + (ps.last().len() as i32)
    }
}

/// Summing the track size of `ps` packet by packet stays within `i32` at every step.
pub open spec fn track_size_fits(ps: Seq<Seq<u8>>) -> bool
    decreases ps.len(),
{
    if ps.len() == 0 {
        true
    } else {
        &&& track_size_fits(ps.drop_last())
        &&& track_size(ps.drop_last()) + 4 <= i32::MAX
        &&& i32::MIN <= track_size(ps) <= i32::MAX
    }
}

/// The body of a pack whose tracks hold the packets `tracks`: the size of each
/// track, then the packets of each track.
pub open spec fn encode_pack_body(tracks: Seq<Seq<Seq<u8>>>) -> Seq<u8> {
    tracks.map_values(|t: Seq<Seq<u8>>| i32_be_bytes(track_size(t) as i32)).flatten()
        + tracks.map_values(|t: Seq<Seq<u8>>| encode_packets(t)).flatten()
}

/// A pack as stored in a stream: the length of its body, then the body.
pub open spec fn encode_pack(tracks: Seq<Seq<Seq<u8>>>) -> Seq<u8> {
    i32_be_bytes(encode_pack_body(tracks).len() as i32) + encode_pack_body(tracks)
}

/// A stream of packs, one after the other.
pub open spec fn encode_packs(packs: Seq<Seq<Seq<Seq<u8>>>>) -> Seq<u8> {
    packs.map_values(|p: Seq<Seq<Seq<u8>>>| encode_pack(p)).flatten()
}

/// Where `parse_packets` succeeds from a position inside `buf`, it ends inside
/// `buf`, past `end`, and not before it started.
pub proof fn lemma_parse_packets_bounds(buf: Seq<u8>, pos: int, end: int)
    requires
        0 <= pos <= buf.len(),
        parse_packets(buf, pos, end) is Some,
    ensures
        pos <= parse_packets(buf, pos, end).unwrap().1 <= buf.len(),
        pos < end ==> end <= parse_packets(buf, pos, end).unwrap().1,
    decreases buf.len() - pos,
{
    if pos < end {
        let size = i32_at(buf, pos);
        lemma_parse_packets_bounds(buf, pos + 4 + size, end);
    }
}

/// Flattening the images of one more element of a prefix appends that
/// element's image.
pub proof fn lemma_flatten_map_take_step<A>(xs: Seq<A>, f: spec_fn(A) -> Seq<u8>, i: int)
    requires
        0 <= i < xs.len(),
    ensures
        xs.take(i + 1).map_values(f).flatten() == xs.take(i).map_values(f).flatten() + f(xs[i]),
{
    assert(xs.take(i + 1).map_values(f) =~= xs.take(i).map_values(f).push(f(xs[i])));
    xs.take(i).map_values(f).lemma_flatten_push(f(xs[i]));
}

/// The track size of every prefix of `ps` can be summed within `i32` where
/// that of `ps` can.
pub proof fn lemma_track_size_fits_prefix(ps: Seq<Seq<u8>>, k: int)
    requires
        track_size_fits(ps),
        0 <= k <= ps.len(),
    ensures
        track_size_fits(ps.take(k)),
    decreases ps.len(),
{
    if k == ps.len() {
        assert(ps.take(k) =~= ps);
    } else {
        assert(ps.drop_last().take(k) =~= ps.take(k));
        lemma_track_size_fits_prefix(ps.drop_last(), k);
    }
}

/// Flattening the images of a non-empty sequence gives the image of its first
/// element followed by the flattened images of the rest.
pub proof fn lemma_flatten_map_first<A>(xs: Seq<A>, f: spec_fn(A) -> Seq<u8>)
    requires
        xs.len() > 0,
    ensures
        xs.map_values(f).flatten() == f(xs[0]) + xs.drop_first().map_values(f).flatten(),
{
    assert(xs.map_values(f).drop_first() =~= xs.drop_first().map_values(f));
}

/// Every packet no longer than `i32::MAX` bytes.
pub open spec fn packets_fit(ps: Seq<Seq<u8>>) -> bool {
    forall|i: int| 0 <= i < ps.len() ==> (#[trigger] ps[i]).len() <= i32::MAX
}

/// Where no packet is longer than `i32::MAX` bytes, the encoded packets take
/// as many bytes as the recorded track size.
pub proof fn lemma_encode_packets_len(ps: Seq<Seq<u8>>)
    requires
        packets_fit(ps),
    ensures
        encode_packets(ps).len() == track_size(ps),
    decreases ps.len(),
{
    let f = |p: Seq<u8>| packet_bytes(p);
    if ps.len() == 0 {
        assert(ps.map_values(f) =~= Seq::<Seq<u8>>::empty());
    } else {
        let init = ps.drop_last();
        assert(ps.map_values(f) =~= init.map_values(f).push(f(ps.last())));
        init.map_values(f).lemma_flatten_push(f(ps.last()));
        assert(packets_fit(init)) by {
            assert forall|i: int| 0 <= i < init.len() implies (#[trigger] init[i]).len()
                <= i32::MAX by {
                assert(init[i] == ps[i]);
            }
        }
        lemma_encode_packets_len(init);
        assert(ps.last() == ps[ps.len() - 1]);
    }
}

/// A sequence of four-byte pieces, flattened, holds piece `j` at `4 * j`.
pub proof fn lemma_flatten_fours(ss: Seq<Seq<u8>>)
    requires
        forall|j: int| 0 <= j < ss.len() ==> (#[trigger] ss[j]).len() == 4,
    ensures
        ss.flatten().len() == 4 * ss.len(),
        forall|j: int|
            0 <= j < ss.len() ==> ss.flatten().subrange(4 * j, 4 * j + 4) == #[trigger] ss[j],
    decreases ss.len(),
{
    if ss.len() > 0 {
        let rest = ss.drop_first();
        assert forall|j: int| 0 <= j < rest.len() implies (#[trigger] rest[j]).len() == 4 by {
            assert(rest[j] == ss[j + 1]);
        }
        lemma_flatten_fours(rest);
        assert(ss.flatten() == ss[0] + rest.flatten());
        assert forall|j: int| 0 <= j < ss.len() implies ss.flatten().subrange(4 * j, 4 * j + 4)
            == #[trigger] ss[j] by {
            if j == 0 {
                assert(ss.flatten().subrange(0, 4) =~= ss[0]);
            } else {
                assert(rest[j - 1] == ss[j]);
                assert(rest.flatten().subrange(4 * (j - 1), 4 * (j - 1) + 4) == rest[j - 1]);
                assert(ss.flatten().subrange(4 * j, 4 * j + 4) =~= rest.flatten().subrange(
                    4 * (j - 1),
                    4 * (j - 1) + 4,
                ));
            }
        }
    }
}

/// Where `a + b` is stored at `pos` in `buf`, `a` is stored at `pos` and `b`
/// right after it.
pub proof fn lemma_subrange_split(buf: Seq<u8>, pos: int, a: Seq<u8>, b: Seq<u8>)
    requires
        0 <= pos,
        pos + a.len() + b.len() <= buf.len(),
        buf.subrange(pos, pos + a.len() + b.len()) == a + b,
    ensures
        buf.subrange(pos, pos + a.len()) == a,
        buf.subrange(pos + a.len(), pos + a.len() + b.len()) == b,
{
    let whole = buf.subrange(pos, pos + a.len() + b.len());
    assert forall|i: int| 0 <= i < a.len() implies buf.subrange(pos, pos + a.len())[i] == a[i] by {
        assert(whole[i] == (a + b)[i]);
    }
    assert forall|i: int| 0 <= i < b.len() implies buf.subrange(
        pos + a.len(),
        pos + a.len() + b.len(),
    )[i] == b[i] by {
        assert(whole[a.len() + i] == (a + b)[a.len() + i]);
    }
    assert(buf.subrange(pos, pos + a.len()) =~= a);
    assert(buf.subrange(pos + a.len(), pos + a.len() + b.len()) =~= b);
}

/// A track size that can be summed within `i32` is an `i32`.
pub proof fn lemma_track_size_in_range(ps: Seq<Seq<u8>>)
    requires
        track_size_fits(ps),
    ensures
        i32::MIN <= track_size(ps) <= i32::MAX,
{
}

/// Length-prefixed packets stored at `pos` in `buf` are read back, ending
/// right after them.
pub proof fn lemma_parse_packets_encoded(buf: Seq<u8>, ps: Seq<Seq<u8>>, pos: int)
    requires
        0 <= pos,
        packets_fit(ps),
        pos + encode_packets(ps).len() <= buf.len(),
        buf.subrange(pos, pos + encode_packets(ps).len()) == encode_packets(ps),
    ensures
        parse_packets(buf, pos, pos + encode_packets(ps).len()) == Some(
            (ps, pos + encode_packets(ps).len()),
        ),
    decreases ps.len(),
{
    let f = |p: Seq<u8>| packet_bytes(p);
    let enc = encode_packets(ps);
    let end = pos + enc.len();
    if ps.len() == 0 {
        assert(ps.map_values(f) =~= Seq::<Seq<u8>>::empty());
        assert(ps =~= seq![]);
    } else {
        let rest = ps.drop_first();
        lemma_flatten_map_first(ps, f);
        let p0 = ps[0];
        let len0 = p0.len() as int;
        assert(p0.len() <= i32::MAX);
        let head = i32_be_bytes(len0 as i32);
        assert(head.len() == 4);
        assert(enc == head + p0 + encode_packets(rest));
        lemma_subrange_split(buf, pos, head + p0, encode_packets(rest));
        lemma_subrange_split(buf, pos, head, p0);
        lemma_i32_at_encoded(buf, pos, len0 as i32);
        let next = pos + 4 + len0;
        assert(packets_fit(rest)) by {
            assert forall|i: int| 0 <= i < rest.len() implies (#[trigger] rest[i]).len()
                <= i32::MAX by {
                assert(rest[i] == ps[i + 1]);
            }
        }
        lemma_parse_packets_encoded(buf, rest, next);
        assert(next + encode_packets(rest).len() == end);
        assert(seq![buf.subrange(pos + 4, next)] + rest =~= ps);
    }
}

/// The packets of consecutive tracks stored at `pos` in `buf` are read back
/// with the recorded track sizes, ending right after them.
pub proof fn lemma_parse_tracks_encoded(buf: Seq<u8>, ts: Seq<Seq<Seq<u8>>>, pos: int)
    requires
        0 <= pos,
        forall|j: int| 0 <= j < ts.len() ==> packets_fit(#[trigger] ts[j]),
        forall|j: int| 0 <= j < ts.len() ==> track_size_fits(#[trigger] ts[j]),
        pos + ts.map_values(|t: Seq<Seq<u8>>| encode_packets(t)).flatten().len() <= buf.len(),
        buf.subrange(
            pos,
            pos + ts.map_values(|t: Seq<Seq<u8>>| encode_packets(t)).flatten().len(),
        ) == ts.map_values(|t: Seq<Seq<u8>>| encode_packets(t)).flatten(),
    ensures
        parse_tracks(buf, ts.map_values(|t: Seq<Seq<u8>>| track_size(t) as i32), pos) == Some(
            (ts, pos + ts.map_values(|t: Seq<Seq<u8>>| encode_packets(t)).flatten().len()),
        ),
    decreases ts.len(),
{
    let f = |t: Seq<Seq<u8>>| encode_packets(t);
    let g = |t: Seq<Seq<u8>>| track_size(t) as i32;
    let all = ts.map_values(f).flatten();
    let sizes = ts.map_values(g);
    if ts.len() == 0 {
        assert(ts.map_values(f) =~= Seq::<Seq<u8>>::empty());
        assert(ts =~= seq![]);
    } else {
        let rest = ts.drop_first();
        lemma_flatten_map_first(ts, f);
        let t0 = ts[0];
        assert(packets_fit(t0));
        assert(track_size_fits(t0));
        lemma_encode_packets_len(t0);
        lemma_track_size_in_range(t0);
        let e0 = encode_packets(t0);
        assert(sizes[0] == e0.len());
        let rest_all = rest.map_values(f).flatten();
        lemma_subrange_split(buf, pos, e0, rest_all);
        lemma_parse_packets_encoded(buf, t0, pos);
        let next = pos + e0.len();
        assert forall|j: int| 0 <= j < rest.len() implies packets_fit(#[trigger] rest[j])
            && track_size_fits(rest[j]) by {
            assert(rest[j] == ts[j + 1]);
        }
        lemma_parse_tracks_encoded(buf, rest, next);
        assert(sizes.drop_first() =~= rest.map_values(g));
        assert(seq![t0] + rest =~= ts);
    }
}

/// The position after the packets that start at `pointer` and are read while
/// the position is below `totalsize`, or `None` where they are not well formed.
fn check_packets(buf: &[u8], pointer: usize, totalsize: usize) -> (r: Option<usize>)
    requires
        pointer <= buf@.len(),
    ensures
        r is Some <==> parse_packets(buf@, pointer as int, totalsize as int) is Some,
        r is Some ==> r.unwrap() == parse_packets(buf@, pointer as int, totalsize as int).unwrap().1,
{
    let ghost whole = parse_packets(buf@, pointer as int, totalsize as int);
    let len = buf.len();
    let mut pos = pointer;
    while totalsize > pos
        invariant
            len == buf@.len(),
            pos <= len,
            whole == parse_packets(buf@, pointer as int, totalsize as int),
            parse_packets(buf@, pos as int, totalsize as int) is Some <==> whole is Some,
            whole is Some ==> whole.unwrap().1 == parse_packets(
                buf@,
                pos as int,
                totalsize as int,
            ).unwrap().1,
        decreases len - pos,
    {
        if len - pos < 4 {
            assert(parse_packets(buf@, pos as int, totalsize as int) is None);
            return None;
        }
        let size = read_i32_be(buf, pos);
        if size < 0 || len - pos - 4 < size as usize {
            assert(parse_packets(buf@, pos as int, totalsize as int) is None);
            return None;
        }
        let ghost old_pos = pos;
        pos = pos + 4 + size as usize;
        assert(parse_packets(buf@, old_pos as int, totalsize as int) is Some
            <==> parse_packets(buf@, pos as int, totalsize as int) is Some);
    }
    Some(pos)
}

/// Whether `buf` is the body of a pack with `tracks_num` tracks: the bytes
/// that reading a pack accepts.
pub fn pack_is_valid(buf: &[u8], tracks_num: i32) -> (r: bool)
    ensures
        r == (parse_pack(buf@, tracks_num as int) is Some),
{
    if tracks_num < 0 {
        return false;
    }
    let n = tracks_num as usize;
    let len = buf.len();
    if len / 4 < n {
        return false;
    }
    let ghost sizes = pack_track_sizes(buf@, n as int);
    let ghost whole = parse_tracks(buf@, sizes, 4 * n);
    let mut pointer: usize = 4 * n;
    let mut i: usize = 0;
    assert(sizes.skip(0) =~= sizes);
    while i < n
        invariant
            len == buf@.len(),
            n == tracks_num,
            4 * n <= len,
            sizes == pack_track_sizes(buf@, n as int),
            whole == parse_tracks(buf@, sizes, 4 * n),
            0 <= i <= n,
            pointer <= len,
            parse_tracks(buf@, sizes.skip(i as int), pointer as int) is Some == whole is Some,
        decreases n - i,
    {
        let ghost rest = sizes.skip(i as int);
        assert(rest[0] == sizes[i as int]);
        assert(rest.drop_first() =~= sizes.skip(i + 1));
        let size = read_i32_be(buf, 4 * i);
        assert(size == rest[0]);
        if size < 0 {
            assert(parse_tracks(buf@, rest, pointer as int) is None);
            return false;
        }
        let size = size as usize;
        if size > len - pointer {
            proof {
                if parse_packets(buf@, pointer as int, pointer + size) is Some {
                    lemma_parse_packets_bounds(buf@, pointer as int, pointer + size);
                }
                assert(parse_tracks(buf@, rest, pointer as int) is None);
            }
            return false;
        }
        match check_packets(buf, pointer, pointer + size) {
            Some(next) => {
                proof {
                    lemma_parse_packets_bounds(buf@, pointer as int, pointer + size);
                }
                pointer = next;
            },
            None => {
                assert(parse_tracks(buf@, rest, pointer as int) is None);
                return false;
            },
        }
        i += 1;
    }
    assert(sizes.skip(n as int) =~= Seq::<i32>::empty());
    true
}

/// A stream of packs is its first `k` packs followed by the rest.
pub proof fn lemma_encode_packs_split(packs: Seq<Seq<Seq<Seq<u8>>>>, k: int)
    requires
        0 <= k <= packs.len(),
    ensures
        encode_packs(packs) == encode_packs(packs.take(k)) + encode_packs(packs.skip(k)),
{
    let f = |p: Seq<Seq<Seq<u8>>>| encode_pack(p);
    assert(packs.map_values(f) =~= packs.take(k).map_values(f) + packs.skip(k).map_values(f));
    lemma_flatten_concat(packs.take(k).map_values(f), packs.skip(k).map_values(f));
}

/// The position of pack `j` when a stream of packs is scanned from its start:
/// each pack starts four bytes plus its recorded body length after the one
/// before it.
pub open spec fn scan_offset(stream: Seq<u8>, j: nat) -> int
    decreases j,
{
    if j == 0 {
        0
    } else {
        let o = scan_offset(stream, (j - 1) as nat);
        o + 4 + i32_at(stream, o)
    }
}

/// The sum of a sequence of sizes.
pub open spec fn sizes_sum(s: Seq<i32>) -> int
    decreases s.len(),
{
    if s.len() == 0 {
        0
    } else {
        s[0] + sizes_sum(s.drop_first())
    }
}

/// Where no packet is longer than `i32::MAX` bytes and every track size fits
/// within `i32`, the packets of all tracks take as many bytes as the track
/// sizes sum to.
pub proof fn lemma_tracks_packets_len(ts: Seq<Seq<Seq<u8>>>)
    requires
        forall|j: int| 0 <= j < ts.len() ==> packets_fit(#[trigger] ts[j]),
        forall|j: int| 0 <= j < ts.len() ==> track_size_fits(#[trigger] ts[j]),
    ensures
        ts.map_values(|t: Seq<Seq<u8>>| encode_packets(t)).flatten().len() == sizes_sum(
            ts.map_values(|t: Seq<Seq<u8>>| track_size(t) as i32),
        ),
    decreases ts.len(),
{
    let f = |t: Seq<Seq<u8>>| encode_packets(t);
    let g = |t: Seq<Seq<u8>>| track_size(t) as i32;
    if ts.len() == 0 {
        assert(ts.map_values(f) =~= Seq::<Seq<u8>>::empty());
        assert(ts.map_values(g) =~= Seq::<i32>::empty());
    } else {
        let rest = ts.drop_first();
        lemma_flatten_map_first(ts, f);
        assert(packets_fit(ts[0]) && track_size_fits(ts[0]));
        lemma_encode_packets_len(ts[0]);
        lemma_track_size_in_range(ts[0]);
        assert forall|j: int| 0 <= j < rest.len() implies packets_fit(#[trigger] rest[j])
            && track_size_fits(rest[j]) by {
            assert(rest[j] == ts[j + 1]);
        }
        lemma_tracks_packets_len(rest);
        assert(ts.map_values(g).drop_first() =~= rest.map_values(g));
    }
}

/// In a stream of packs, each pack body is shorter than the stream by at
/// least four bytes.
pub proof fn lemma_bodies_within_stream(packs: Seq<Seq<Seq<Seq<u8>>>>)
    ensures
        forall|j: int|
            0 <= j < packs.len() ==> (#[trigger] encode_pack_body(packs[j])).len() + 4
                <= encode_packs(packs).len(),
{
    let f = |p: Seq<Seq<Seq<u8>>>| encode_pack(p);
    assert forall|j: int| 0 <= j < packs.len() implies (#[trigger] encode_pack_body(
        packs[j],
    )).len() + 4 <= encode_packs(packs).len() by {
        lemma_encode_packs_split(packs, j);
        lemma_flatten_map_first(packs.skip(j), f);
        assert(packs.skip(j)[0] == packs[j]);
    }
}

} // verus!
