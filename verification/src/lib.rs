//! Block-range bookkeeping for an archive router: closed intervals of block
//! numbers, sorted sets of such intervals, data chunks, and the worker
//! registry that decides which worker serves which blocks.

pub mod interval;
pub mod layout;
pub mod util;
pub mod state;
pub mod metrics;
pub mod fs;
pub mod router;
pub mod storage;
