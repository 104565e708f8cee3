use praw::{
    header_is_valid, pack_is_valid, pack_of_second, read_i32_be, read_position, seek_position,
    AudioContainer, Channels, PrawError, PrawReader, PrawWriter, Track,
};

fn be(x: i32) -> Vec<u8> {
    x.to_be_bytes().to_vec()
}

fn sample_writer() -> PrawWriter {
    PrawWriter::new(48000, vec![Channels::Stereo, Channels::Mono], AudioContainer::Opus)
}

#[test]
fn new_writer_fields() {
    let w = sample_writer();
    assert_eq!(w.version, 1);
    assert_eq!(w.samplerate, 48000);
    assert_eq!(w.tracks_num, 2);
    assert_eq!(w.tracks, vec![Track { channels: Channels::Stereo }, Track { channels: Channels::Mono }]);
    assert_eq!(w.audio_container, AudioContainer::Opus);
    assert_eq!(w.get_packs(), Vec::<u8>::new());
}

#[test]
fn writer_header_bytes() {
    let w = sample_writer();
    assert_eq!(
        w.get_header(),
        vec![0, 0, 0, 1, 0, 0, 0xbb, 0x80, 0, 0, 0, 2, 1, 0, 0, 0, 0, 0]
    );
}

#[test]
fn header_counts_added_packs() {
    let mut w = PrawWriter::new(8000, vec![Channels::Mono], AudioContainer::Flac);
    w.add_pack(vec![vec![vec![5]]]);
    w.add_pack(vec![vec![]]);
    w.add_pack(vec![vec![vec![1, 2]]]);
    assert!(w.fits_in_file());
    let h = w.get_header();
    // 16 bytes of integers, one channel byte, four bytes per pack position
    assert_eq!(h.len(), 29);
    assert_eq!(h[12], 0);
    assert_eq!(&h[13..17], &[0, 0, 0, 3]);
    // the packs start after the header length and the header (4 + 29), and
    // take 4 + 9, 4 + 4 and 4 + 10 bytes
    assert_eq!(read_i32_be(&h, 17), 33);
    assert_eq!(read_i32_be(&h, 21), 46);
    assert_eq!(read_i32_be(&h, 25), 54);
    let r = PrawReader::load(h).unwrap();
    assert_eq!(r.pack_positions(), Some(vec![33, 46, 54]));
}

#[test]
fn header_flac_writer_has_no_container_byte() {
    let w = PrawWriter::new(48000, vec![Channels::Stereo, Channels::Mono], AudioContainer::Flac);
    assert_eq!(
        w.get_header(),
        vec![0, 0, 0, 1, 0, 0, 0xbb, 0x80, 0, 0, 0, 2, 1, 0, 0, 0, 0, 0]
    );
}

#[test]
fn header_one_mono_track_no_packs() {
    let w = PrawWriter::new(48000, vec![Channels::Mono], AudioContainer::Opus);
    assert_eq!(w.get_header().len(), 17);
}

#[test]
fn load_header_with_position_table() {
    // one mono track, one pack at position 25
    let buf = vec![0, 0, 0, 1, 0, 0, 0xbb, 0x80, 0, 0, 0, 1, 0, 0, 0, 0, 1, 0, 0, 0, 25];
    assert!(header_is_valid(&buf));
    let r = PrawReader::load(buf.clone()).unwrap();
    assert_eq!(r.version, 1);
    assert_eq!(r.samplerate, 48000);
    assert_eq!(r.tracks_num, 1);
    assert_eq!(r.tracks, vec![Track { channels: Channels::Mono }]);
    assert_eq!(r.packs_num, 1);
    assert_eq!(r.audio_container, AudioContainer::Opus);
    assert_eq!(r.get_header(), buf);
}

#[test]
fn header_roundtrip() {
    let mut w = PrawWriter::new(-44100, vec![Channels::Mono, Channels::Stereo, Channels::Stereo], AudioContainer::Flac);
    w.add_pack(vec![vec![], vec![], vec![]]);
    let r = PrawReader::load(w.get_header()).unwrap();
    assert_eq!(r.version, 1);
    assert_eq!(r.samplerate, -44100);
    assert_eq!(r.tracks_num, 3);
    assert_eq!(
        r.tracks,
        vec![
            Track { channels: Channels::Mono },
            Track { channels: Channels::Stereo },
            Track { channels: Channels::Stereo }
        ]
    );
    assert_eq!(r.audio_container, AudioContainer::Opus);
    assert_eq!(r.packs_num, 1);
}

#[test]
fn reader_keeps_header_bytes() {
    let mut buf = vec![0, 0, 0, 1, 0, 0, 0x1f, 0x40, 0, 0, 0, 1, 1, 0, 0, 0, 7];
    buf.extend_from_slice(&[9, 9, 9]);
    let r = PrawReader::load(buf.clone()).unwrap();
    assert_eq!(r.samplerate, 8000);
    assert_eq!(r.tracks, vec![Track { channels: Channels::Stereo }]);
    assert_eq!(r.packs_num, 7);
    assert_eq!(r.get_header(), buf);
}

#[test]
fn reader_negative_track_count_reads_no_channels() {
    let buf = vec![0, 0, 0, 1, 0, 0, 0, 1, 0xff, 0xff, 0xff, 0xff, 0, 0, 0, 2];
    assert!(header_is_valid(&buf));
    let r = PrawReader::load(buf).unwrap();
    assert_eq!(r.tracks_num, -1);
    assert!(r.tracks.is_empty());
    assert_eq!(r.packs_num, 2);
}

#[test]
fn get_packs_bytes() {
    let mut w = sample_writer();
    w.add_pack(vec![vec![vec![1, 2, 3]], vec![vec![], vec![9]]]);
    let mut expected = be(24);
    expected.extend(be(7));
    expected.extend(be(9));
    expected.extend(be(3));
    expected.extend([1, 2, 3]);
    expected.extend(be(0));
    expected.extend(be(1));
    expected.push(9);
    assert_eq!(w.get_packs(), expected);
}

#[test]
fn pack_roundtrip() {
    let mut w = sample_writer();
    let pack = vec![vec![vec![1, 2, 3], vec![4]], vec![vec![], vec![9, 8]]];
    w.add_pack(pack.clone());
    let stream = w.get_packs();
    assert_eq!(read_i32_be(&stream, 0) as usize, stream.len() - 4);
    let body = stream[4..].to_vec();
    assert!(pack_is_valid(&body, 2));
    let mut r = PrawReader::load(w.get_header()).unwrap();
    let tracks = r.read_pack(body);
    assert_eq!(tracks.len(), 2);
    assert_eq!(tracks[0].track, Track { channels: Channels::Stereo });
    assert_eq!(tracks[1].track, Track { channels: Channels::Mono });
    assert_eq!(tracks[0].data, pack[0]);
    assert_eq!(tracks[1].data, pack[1]);
}

#[test]
fn stream_layout_two_packs() {
    let mut w = PrawWriter::new(48000, vec![Channels::Mono], AudioContainer::Opus);
    w.add_pack(vec![vec![vec![1, 2]]]);
    w.add_pack(vec![vec![vec![3], vec![4, 5, 6]]]);
    let stream = w.get_packs();
    let first = read_i32_be(&stream, 0) as usize;
    assert_eq!(first, 4 + 4 + 2);
    let second_at = 4 + first;
    let second = read_i32_be(&stream, second_at) as usize;
    assert_eq!(second, 4 + 4 + 1 + 4 + 3);
    assert_eq!(second_at + 4 + second, stream.len());
    let mut r = PrawReader::load(w.get_header()).unwrap();
    let tracks = r.read_pack(stream[second_at + 4..].to_vec());
    assert_eq!(tracks[0].data, vec![vec![3], vec![4, 5, 6]]);
}

#[test]
fn read_pack_packet_overshoots_track_size() {
    // Track 0 announces 2 bytes but its first packet takes 5; the next track
    // starts where that packet ends.
    let mut body = be(2);
    body.extend(be(5));
    body.extend(be(1));
    body.push(7);
    body.extend(be(1));
    body.push(8);
    assert!(pack_is_valid(&body, 2));
    let mut r = PrawReader::load(vec![0, 0, 0, 1, 0, 0, 0, 1, 0, 0, 0, 2, 0, 0, 0, 0, 0, 1]).unwrap();
    let tracks = r.read_pack(body);
    assert_eq!(tracks[0].data, vec![vec![7]]);
    assert_eq!(tracks[1].data, vec![vec![8]]);
}

#[test]
fn read_pack_empty_tracks() {
    let mut r = PrawReader::load(vec![0, 0, 0, 1, 0, 0, 0, 1, 0, 0, 0, 1, 1, 0, 0, 0, 0]).unwrap();
    let tracks = r.read_pack(be(0));
    assert_eq!(tracks.len(), 1);
    assert!(tracks[0].data.is_empty());
    assert_eq!(tracks[0].track.channels, Channels::Stereo);
}

#[test]
fn header_validity() {
    assert!(header_is_valid(&[0, 0, 0, 1, 0, 0, 0, 1, 0, 0, 0, 1, 1, 0, 0, 0, 0]));
    // channel byte 2
    assert!(!header_is_valid(&[0, 0, 0, 1, 0, 0, 0, 1, 0, 0, 0, 1, 2, 0, 0, 0, 0]));
    // packs count cut short
    assert!(!header_is_valid(&[0, 0, 0, 1, 0, 0, 0, 1, 0, 0, 0, 1, 1, 0, 0, 0]));
    assert!(!header_is_valid(&[]));
}

#[test]
fn pack_validity() {
    assert!(pack_is_valid(&[], 0));
    assert!(!pack_is_valid(&[], -1));
    assert!(!pack_is_valid(&[0, 0, 0], 1));
    // negative track size
    assert!(!pack_is_valid(&[0xff, 0xff, 0xff, 0xff], 1));
    // negative packet length
    let mut body = be(4);
    body.extend(be(-1));
    assert!(!pack_is_valid(&body, 1));
    // packet runs past the end
    let mut body = be(8);
    body.extend(be(4));
    body.extend([1, 2, 3]);
    assert!(!pack_is_valid(&body, 1));
}

#[test]
fn big_endian_integers() {
    assert_eq!(read_i32_be(&[0x80, 0, 0, 0], 0), i32::MIN);
    assert_eq!(read_i32_be(&[0x7f, 0xff, 0xff, 0xff], 0), i32::MAX);
    assert_eq!(read_i32_be(&[9, 0xff, 0xff, 0xff, 0xfe], 1), -2);
    assert_eq!(read_i32_be(&[0, 0, 0xbb, 0x80], 0), 48000);
    let w = PrawWriter::new(-1, vec![], AudioContainer::Opus);
    let h = w.get_header();
    assert_eq!(&h[4..8], &[0xff, 0xff, 0xff, 0xff]);
    assert_eq!(&h[8..12], &[0, 0, 0, 0]);
    assert_eq!(&h[12..16], &[0, 0, 0, 0]);
    assert_eq!(h.len(), 16);
}

#[test]
fn seconds_to_packs() {
    assert_eq!(pack_of_second(0, 3), 0);
    assert_eq!(pack_of_second(9, 3), 0);
    assert_eq!(pack_of_second(10, 3), 1);
    assert_eq!(pack_of_second(29, 3), 2);
}

#[test]
fn pack_positions_missing_table() {
    // one pack announced, no position
    let r = PrawReader::load(vec![0, 0, 0, 1, 0, 0, 0, 1, 0, 0, 0, 0, 0, 0, 0, 1]).unwrap();
    assert_eq!(r.pack_positions(), None);
    let r = PrawReader::load(vec![0, 0, 0, 1, 0, 0, 0, 1, 0, 0, 0, 0, 0, 0, 0, 0]).unwrap();
    assert_eq!(r.pack_positions(), Some(vec![]));
}

#[test]
fn pack_positions() {
    let positions = [27u64, 60, 100];
    assert_eq!(read_position(0, 3, &positions), Ok(27));
    assert_eq!(read_position(2, 3, &positions), Ok(100));
    assert_eq!(read_position(3, 3, &positions), Err(PrawError::NoMorePacks));
    assert_eq!(seek_position(1, 3, &positions), Ok(60));
    assert_eq!(seek_position(-1, 3, &positions), Err(PrawError::InvalidPackNumber));
    assert_eq!(seek_position(4, 3, &positions), Err(PrawError::InvalidPackNumber));
    assert_eq!(seek_position(2, 2, &positions), Ok(100));
}

#[test]
fn clones_keep_values() {
    let t = Track { channels: Channels::Stereo };
    assert_eq!(t.clone(), t);
    assert_eq!(Channels::Mono.clone(), Channels::Mono);
    assert_eq!(AudioContainer::Flac.clone(), AudioContainer::Flac);
}

#[test]
fn fits_in_file_check() {
    let mut w = sample_writer();
    assert!(w.fits_in_file());
    w.add_pack(vec![vec![vec![1; 10]], vec![]]);
    assert!(w.fits_in_file());
}

#[test]
fn file_bytes_layout() {
    let mut w = PrawWriter::new(48000, vec![Channels::Stereo], AudioContainer::Opus);
    w.add_pack(vec![vec![vec![1, 2, 3]]]);
    w.add_pack(vec![vec![vec![4], vec![5, 6]]]);
    let f = w.file_bytes();
    let h = w.get_header();
    let packs = w.get_packs();
    assert_eq!(read_i32_be(&f, 0) as usize, h.len());
    assert_eq!(&f[4..4 + h.len()], &h[..]);
    assert_eq!(&f[4 + h.len()..], &packs[..]);
    assert_eq!(f.len(), 4 + h.len() + packs.len());
    // the header's positions lead to the packs
    let r = PrawReader::load(h.clone()).unwrap();
    assert_eq!(r.packs_num, 2);
    let positions = r.pack_positions().unwrap();
    let mut reader = r;
    let expected = [vec![vec![1u8, 2, 3]], vec![vec![4u8], vec![5, 6]]];
    for k in 0..2 {
        let pos = positions[k] as usize;
        let size = read_i32_be(&f, pos) as usize;
        let body = f[pos + 4..pos + 4 + size].to_vec();
        let tracks = reader.read_pack(body);
        assert_eq!(tracks[0].data, expected[k]);
    }
}

#[test]
fn extra_pack_entries_ignored() {
    let mut w1 = PrawWriter::new(48000, vec![Channels::Mono], AudioContainer::Opus);
    let mut w2 = PrawWriter::new(48000, vec![Channels::Mono], AudioContainer::Opus);
    w1.add_pack(vec![vec![vec![1, 2]]]);
    w2.add_pack(vec![vec![vec![1, 2]], vec![vec![9]]]);
    assert_eq!(w1.get_packs(), w2.get_packs());
    assert_eq!(w1.get_header(), w2.get_header());
}
