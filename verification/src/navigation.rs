//! The decisions of reading a praw file pack by pack: a pack can be read or
//! sought only by an index that the file holds, and each pack holds ten
//! seconds of audio.
use vstd::prelude::*;
use crate::types::PrawError;

verus! {

/// The position of the next pack to read, `current_pack`, among the pack
/// positions of a file that holds `packs_num` packs; `NoMorePacks` once every
/// pack has been read.
pub fn read_position(current_pack: i32, packs_num: i32, past_pack_pos: &[u64]) -> (r: Result<
    u64,
    PrawError,
>)
    requires
        current_pack < packs_num ==> 0 <= current_pack < past_pack_pos@.len(),
    ensures
        current_pack >= packs_num ==> r == Err::<u64, PrawError>(PrawError::NoMorePacks),
        current_pack < packs_num ==> r == Ok::<u64, PrawError>(
            past_pack_pos@[current_pack as int],
        ),
{
    if current_pack >= packs_num {
        Err(PrawError::NoMorePacks)
    } else {
        Ok(past_pack_pos[current_pack as usize])
    }
}

/// The position of pack `pack` among the pack positions of a file that holds
/// `packs_num` packs; `InvalidPackNumber` where `pack` is negative or above
/// `packs_num`.
pub fn seek_position(pack: i32, packs_num: i32, past_pack_pos: &[u64]) -> (r: Result<
    u64,
    PrawError,
>)
    requires
        0 <= pack <= packs_num ==> pack < past_pack_pos@.len(),
    ensures
        (pack < 0 || pack > packs_num) ==> r == Err::<u64, PrawError>(
            PrawError::InvalidPackNumber,
        ),
        0 <= pack <= packs_num ==> r == Ok::<u64, PrawError>(past_pack_pos@[pack as int]),
{
    if pack < 0 || pack > packs_num {
        Err(PrawError::InvalidPackNumber)
    } else {
        Ok(past_pack_pos[pack as usize])
    }
}

/// The pack that holds second `second` of a recording whose packs hold ten
/// seconds each; the second must lie within the `packs_num` packs.
pub fn pack_of_second(second: i32, packs_num: i32) -> (r: i32)
    requires
        0 <= second,
        packs_num * 10 <= i32::MAX,
        second < packs_num * 10,
    ensures
        r == second / 10,
        0 <= r < packs_num,
{
    second / 10
}

} // verus!
