# fs-ext4

An ext4 driver whose reading and writing is verified with Verus.

`src/` is the library. A mounted volume is a value, `Vol`: the bytes of the
device and what the mount read out of them. Every operation has a specification
that says which volume it leaves behind and what it returns, and a function that
is proved to do just that, or to report an I/O error where the device gives one.
Writes are staged block by block; a commit writes the staged blocks to their
places, one after the other, and flushes. Commits are not journaled: a loss of
power in the middle of one can leave part of it, and so can a device that fails:
every operation says which blocks that is confined to.

- Format: `bytes`, `bitmap`, `checksum`, `superblock`, `bgd`, `inode`, `extent`,
  `indirect`, `dir`, `xattr`, `inline_data`, `jbd2`, `features`, `casefold`.
- State: `block_io` (devices), `block_cache`, `volume`, `stage`, `commit`, `fs`,
  `mount`.
- Allocation: `allocator`, `grow`.
- Operations: `attr`, `names`, `dirops`, `rename`, `contents`, `pwrite`,
  `file_io`, `file_mut`, `extent_mut`, `indirect_mut`, `inode_edit`,
  `xattr_ops`, `ea_inode`, `orphans`, `journal`, `journal_apply`, `fsck`.
- Formatting: `mkfs`, `mkfs_args`.
- For hosts: `capi`, `error`.
- Laws that span operations. Contents: `content_laws`, `pwrite_laws`,
  `write_laws`, `range_laws`, `size_laws`, `pointer_laws`, `order_laws`,
  `tree_laws`, `growth_laws`, `extent_laws`, `tail_laws`. Names: `reach_laws`, `name_laws`,
  `create_laws`, `link_laws`, `mkdir_laws`, `remove_laws`, `rename_laws`,
  `replace_laws`, `entry_laws`, `dir_laws`, `dir_growth_laws`, `full_dir_laws`,
  `full_move_laws`. The rest: `attr_laws`, `xattr_laws`, `journal_laws`,
  `mkfs_laws`, `use_laws`, `frame_laws`, `audit_laws`, `unmake_laws` and
  `undo_laws`, over the bookkeeping as `books` reads it.

`app/` is the program around it: `mkfs.ext4`, file and callback devices, and the
C interface. `tests/` exercises the library on images held in memory.
