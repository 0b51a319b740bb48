//! An ext2/ext3/ext4 filesystem driver over any block device.
use vstd::prelude::*;

pub mod alloc_laws;
pub mod allocator;
pub mod arg_laws;
pub mod attr;
pub mod attr_laws;
pub mod audit_laws;
pub mod bgd;
pub mod birth_laws;
pub mod bitmap;
pub mod block_cache;
pub mod block_io;
pub mod books;
pub mod bytes;
pub mod cache_laws;
pub mod capi;
pub mod casefold;
pub mod checksum;
pub mod commit;
pub mod content_laws;
pub mod contents;
pub mod count_laws;
pub mod create_laws;
pub mod dir;
pub mod dir_growth_laws;
pub mod dir_laws;
pub mod dirops;
pub mod ea_inode;
pub mod entry_laws;
pub mod error;
pub mod extent;
pub mod extent_laws;
pub mod extent_mut;
pub mod features;
pub mod file_io;
pub mod file_mut;
pub mod format_laws;
pub mod frame_laws;
pub mod fs;
pub mod fsck;
pub mod fsck_laws;
pub mod full_dir_laws;
pub mod full_move_laws;
pub mod grow;
pub mod growth_laws;
pub mod host_laws;
pub mod indirect;
pub mod indirect_mut;
pub mod inline_data;
pub mod inode;
pub mod inode_edit;
pub mod jbd2;
pub mod journal;
pub mod journal_apply;
pub mod journal_laws;
pub mod link_laws;
pub mod listing_laws;
pub mod log_laws;
pub mod lookup_laws;
pub mod mkdir_laws;
pub mod mkfs;
pub mod mkfs_args;
pub mod mkfs_laws;
pub mod mount;
pub mod mount_laws;
pub mod move_laws;
pub mod name_laws;
pub mod names;
pub mod order_laws;
pub mod orphan_laws;
pub mod orphans;
pub mod path_laws;
pub mod pointer_laws;
pub mod pwrite;
pub mod pwrite_laws;
pub mod range_laws;
pub mod reach_laws;
pub mod refusal_laws;
pub mod release_laws;
pub mod remove_laws;
pub mod rename;
pub mod rename_laws;
pub mod replace_laws;
pub mod resize_laws;
pub mod rewrite_laws;
pub mod size_laws;
pub mod stage;
pub mod superblock;
pub mod tail_laws;
pub mod tree_laws;
pub mod trust_laws;
pub mod undo_laws;
pub mod unmake_laws;
pub mod use_laws;
pub mod volume;
pub mod write_laws;
pub mod xattr;
pub mod xattr_laws;
pub mod xattr_ops;

pub use crate::error::{Error, Result};
pub use crate::fs::Filesystem;
pub use crate::superblock::Superblock;

verus! {

} // verus!
