//! Reading and writing of praw streams: a header that describes the tracks of
//! a recording, followed by packs that hold, for each track, a list of
//! length-prefixed audio packets. Every integer of the format is a 32-bit
//! signed big-endian value.
pub mod bytes;
pub mod header;
pub mod laws;
pub mod navigation;
pub mod pack;
pub mod reader;
pub mod types;
pub mod writer;

pub use bytes::read_i32_be;
pub use header::header_is_valid;
pub use navigation::{pack_of_second, read_position, seek_position};
pub use pack::pack_is_valid;
pub use reader::PrawReader;
pub use types::{AudioContainer, Channels, PackedTrack, PrawError, Track};
pub use writer::PrawWriter;
