//! The values that a praw stream describes: the channel layout of each track,
//! the container of the audio, and the packets of a track within one pack.
use vstd::prelude::*;

verus! {

/// The channel layout of a track.
#[derive(Debug, PartialEq, Eq, Structural)]
pub enum Channels {
    Mono,
    Stereo,
}

impl Clone for Channels {
    fn clone(&self) -> (r: Self)
        ensures
            r == *self,
    {
        match self {
            Channels::Mono => Channels::Mono,
            Channels::Stereo => Channels::Stereo,
        }
    }
}

/// The codec container of the audio packets. A praw stream stores opus
/// audio; the container is not written into the stream.
#[derive(Debug, PartialEq, Eq, Structural)]
pub enum AudioContainer {
    Opus,
    Flac,
}

impl Clone for AudioContainer {
    fn clone(&self) -> (r: Self)
        ensures
            r == *self,
    {
        match self {
            AudioContainer::Opus => AudioContainer::Opus,
            AudioContainer::Flac => AudioContainer::Flac,
        }
    }
}

/// One track of a recording.
#[derive(Debug, PartialEq, Eq, Structural)]
pub struct Track {
    pub channels: Channels,
}

impl Clone for Track {
    fn clone(&self) -> (r: Self)
        ensures
            r == *self,
    {
        Track { channels: self.channels.clone() }
    }
}

/// The packets of one track within one pack.
pub struct PackedTrack {
    pub track: Track,
    pub data: Vec<Vec<u8>>,
}

impl PackedTrack {
    /// The packets of the track, each as its bytes.
    pub open spec fn packets(&self) -> Seq<Seq<u8>> {
        self.data@.map_values(|p: Vec<u8>| p@)
    }
}

/// Why reading a praw stream failed.
#[derive(Debug, PartialEq, Eq, Structural)]
pub enum PrawError {
    /// Every pack of the file has been read.
    NoMorePacks,
    /// The pack index lies outside the file.
    InvalidPackNumber,
    /// Moving to the start of a pack failed.
    FailedToSeek,
}

/// The byte that stands for a channel layout in a header.
pub open spec fn channels_byte(c: Channels) -> u8 {
    match c {
        Channels::Mono => 0,
        Channels::Stereo => 1,
    }
}

/// The channel layout that a header byte stands for (`0` mono, `1` stereo).
pub open spec fn channels_of_byte(b: u8) -> Channels {
    if b == 0 {
        Channels::Mono
    } else {
        Channels::Stereo
    }
}

} // verus!
