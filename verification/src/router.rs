use vstd::prelude::*;

use crate::layout::DataChunk;

verus! {

/// The height to report for a dataset after new chunks were downloaded: the
/// last block of the last chunk, or none when no chunk came.
pub fn dataset_height(chunks: &Vec<DataChunk>) -> (height: Option<u32>)
    ensures
        chunks@.len() == 0 ==> height is None,
        chunks@.len() > 0 ==> height == Some(chunks@.last()@.2),
{
    let n = chunks.len();
    if n == 0 {
        None
    } else {
        Some(chunks[n - 1].last_block())
    }
}

} // verus!
