//! A small teaching kernel's core logic: an indexed block filesystem with a
//! write-back block cache, Sv39 address arithmetic and page-table entries, a
//! stride scheduler, and the bounded ring buffers behind pipes and mailboxes.
use vstd::prelude::*;

pub mod address;
pub mod bitmap;
pub mod block_cache;
pub mod block_dev;
pub mod efs;
pub mod layout;
pub mod mail;
pub mod page_table;
pub mod pipe;
pub mod process;
pub mod syscall;
pub mod task;
pub mod trap;
pub mod vfs;

verus! {

/// Size in bytes of one device block.
pub const BLOCK_SIZE: usize = 512;

} // verus!
