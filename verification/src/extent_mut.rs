//! Changes to extent trees, planned and not yet written.
//!
//! A leaf is edited as a whole: its entries are read, changed as a list and
//! laid out again. A leaf that is full and cannot merge the newcomer says so,
//! and the tree grows: the root's entries move to a block of their own, or a
//! full leaf block is split in two.
use crate::block_io::BlockSource;
use crate::bytes::{
    get_u16, get_u32, high_u32, low_u32, le16, le32, lo32, hi32, put16, put32, set_u16, set_u32, zeroed, zeros, copy_range,
};
use crate::error::{Error, Result};
use crate::extent::{
    child_for, child_node, extent_at, find_child, extents_in, header_at, header_of, index_at, read_child, read_extent, Extent,
    ExtentHeader, ExtentIdx, EXT4_EXT_MAGIC, EXT4_EXT_NODE_SIZE, EXT_INIT_MAX_LEN,
};
use vstd::prelude::*;

verus! {

broadcast use crate::bytes::group_fields;

/// A primitive change the extent-write path wants to make to the tree.
#[derive(Debug, Clone, PartialEq, Eq)]
pub enum ExtentMutation {
    /// Overwrite the node (the 60 bytes of `i_block`, or a leaf block) with
    /// these bytes.
    WriteRoot { bytes: Vec<u8> },
    /// Allocate a fresh leaf block and write these bytes to it.
    AllocLeafBlock { bytes: Vec<u8> },
    /// Free a previously-used leaf/index block back to the bitmap.
    FreeLeafBlock { block: u64 },
    /// Free a contiguous physical-block run back to the bitmap. `start` is
    /// the first physical block, `len` is the count.
    FreePhysicalRun { start: u64, len: u32 },
}

// -- laying a node out ------------------------------------------------------

/// The length field an extent is stored with.
pub open spec fn stored_len(e: Extent) -> u16 {
    if e.uninitialized {
        (e.length + EXT_INIT_MAX_LEN) as u16
    } else {
        e.length
    }
}

/// Whether an extent can be stored and read back as it is.
pub open spec fn storable(e: Extent) -> bool {
    e.physical_block < 0x1_0000_0000_0000 && (if e.uninitialized {
        1 <= e.length <= 32767
    } else {
        e.length <= 32768
    })
}

/// `s` with the entry at byte `at` holding `e`. Physical blocks are stored in
/// 48 bits.
pub open spec fn with_extent(s: Seq<u8>, at: int, e: Extent) -> Seq<u8> {
    put32(
        put16(
            put16(put32(s, at, e.logical_block), at + 4, stored_len(e)),
            at + 6,
            (hi32(e.physical_block) % 0x1_0000) as u16,
        ),
        at + 8,
        lo32(e.physical_block),
    )
}

/// `s` with the entries laid out from the first slot on.
pub open spec fn with_extents(s: Seq<u8>, extents: Seq<Extent>) -> Seq<u8>
    decreases extents.len(),
{
    if extents.len() == 0 {
        s
    } else {
        with_extent(
            with_extents(s, extents.drop_last()),
            12 + 12 * (extents.len() - 1),
            extents.last(),
        )
    }
}

/// `s` with a node header at its start.
pub open spec fn with_header(s: Seq<u8>, entries: u16, max: u16, depth: u16, generation: u32) -> Seq<u8> {
    put32(
        put16(put16(put16(put16(s, 0, EXT4_EXT_MAGIC), 2, entries), 4, max), 6, depth),
        8,
        generation,
    )
}

/// A node of `len` bytes with this header's capacity, depth and generation,
/// and these entries.
pub open spec fn node_bytes(header: ExtentHeader, extents: Seq<Extent>, len: nat) -> Seq<u8> {
    with_extents(
        with_header(zeros(len), extents.len() as u16, header.max, header.depth, header.generation),
        extents,
    )
}

fn put_extent(s: &mut Vec<u8>, at: usize, e: &Extent)
    requires
        at + 12 <= old(s)@.len(),
        e.uninitialized ==> e.length <= 32767,
    ensures
        final(s)@ == with_extent(old(s)@, at as int, *e),
{
    assert(s.len() == s@.len());
    let ee_len: u16 = if e.uninitialized {
        e.length + EXT_INIT_MAX_LEN
    } else {
        e.length
    };
    let (phys_hi, phys_lo): (u16, u32) = split_phys_block(e.physical_block);
    set_u32(s, at, e.logical_block);
    set_u16(s, at + 4, ee_len);
    set_u16(s, at + 6, phys_hi);
    set_u32(s, at + 8, phys_lo);
}

/// Splits a block number into the high 16 and low 32 bits that are stored.
pub fn split_phys_block(block: u64) -> (r: (u16, u32))
    ensures
        r.0 == (hi32(block) % 0x1_0000) as u16,
        r.1 == lo32(block),
{
    ((high_u32(block) % 0x1_0000) as u16, low_u32(block))
}

fn put_header(s: &mut Vec<u8>, entries: u16, max: u16, depth: u16, generation: u32)
    requires
        old(s)@.len() >= 12,
    ensures
        final(s)@ == with_header(old(s)@, entries, max, depth, generation),
{
    set_u16(s, 0, EXT4_EXT_MAGIC);
    set_u16(s, 2, entries);
    set_u16(s, 4, max);
    set_u16(s, 6, depth);
    set_u32(s, 8, generation);
}

pub(crate) proof fn lemma_with_extents_len(s: Seq<u8>, extents: Seq<Extent>)
    requires
        12 + 12 * extents.len() <= s.len(),
    ensures
        with_extents(s, extents).len() == s.len(),
    decreases extents.len(),
{
    if extents.len() > 0 {
        lemma_with_extents_len(s, extents.drop_last());
    }
}

pub(crate) proof fn lemma_node_len(header: ExtentHeader, extents: Seq<Extent>, len: nat)
    requires
        12 + 12 * extents.len() <= len,
    ensures
        node_bytes(header, extents, len).len() == len,
{
    lemma_with_extents_len(
        with_header(zeros(len), extents.len() as u16, header.max, header.depth, header.generation),
        extents,
    );
}

/// Every unwritten entry's length fits the length field.
pub open spec fn lengths_fit(entries: Seq<Extent>) -> bool {
    forall|i: int| 0 <= i < entries.len() && (#[trigger] entries[i]).uninitialized ==> entries[i].length <= 32767
}

/// Re-emit a node from a header and a sorted extent list. `root_len` is the
/// size of the node: 60 for the inline root, a block for a leaf.
pub fn build_root(header: &ExtentHeader, extents: &[Extent], root_len: usize) -> (r: Vec<u8>)
    requires
        12 + 12 * extents@.len() <= root_len,
        extents@.len() <= u16::MAX,
        lengths_fit(extents@),
    ensures
        r@ == node_bytes(*header, extents@, root_len as nat),
        r@.len() == root_len,
{
    let mut out: Vec<u8> = zeroed(root_len);
    put_header(&mut out, extents.len() as u16, header.max, header.depth, header.generation);
    let ghost base = out@;
    let mut i: usize = 0;
    assert(extents@.take(0) =~= Seq::<Extent>::empty());
    while i < extents.len()
        invariant
            i <= extents@.len(),
            extents@.len() <= u16::MAX,
            12 + 12 * extents@.len() <= root_len,
            base.len() == root_len,
            out@.len() == root_len,
            out@ == with_extents(base, extents@.take(i as int)),
            lengths_fit(extents@),
        decreases extents@.len() - i,
    {
        let off: usize = EXT4_EXT_NODE_SIZE * (1 + i);
        let e: Extent = extents[i];
        put_extent(&mut out, off, &e);
        i += 1;
        assert(extents@.take(i as int).drop_last() =~= extents@.take(i - 1));
        proof {
            lemma_with_extents_len(base, extents@.take(i as int));
        }
    }
    assert(extents@.take(i as int) =~= extents@);
    out
}

pub(crate) proof fn lemma_with_extents(s: Seq<u8>, extents: Seq<Extent>)
    requires
        12 + 12 * extents.len() <= s.len(),
        forall|i: int| 0 <= i < extents.len() ==> storable(#[trigger] extents[i]),
    ensures
        with_extents(s, extents).len() == s.len(),
        forall|j: int| 0 <= j < 12 ==> with_extents(s, extents)[j] == s[j],
        forall|i: int|
            0 <= i < extents.len() ==> #[trigger] extent_at(with_extents(s, extents), 12 + 12 * i)
                == extents[i],
    decreases extents.len(),
{
    if extents.len() > 0 {
        let shorter = extents.drop_last();
        let before = with_extents(s, shorter);
        let n = extents.len() - 1;
        let at = 12 + 12 * n;
        lemma_with_extents(s, shorter);
        let out = with_extents(s, extents);
        assert forall|i: int| 0 <= i < extents.len() implies #[trigger] extent_at(out, 12 + 12 * i)
            == extents[i] by {
            if i < n {
                assert(extent_at(before, 12 + 12 * i) == shorter[i]);
            }
        }
    }
}

/// A node laid out from storable entries reads back as the same entries.
pub proof fn law_node_round_trip(header: ExtentHeader, extents: Seq<Extent>, len: nat)
    requires
        extents.len() <= header.max,
        12 + 12 * header.max <= len,
        header.depth == 0,
        forall|i: int| 0 <= i < extents.len() ==> storable(#[trigger] extents[i]),
    ensures
        leaf_of(node_bytes(header, extents, len)) == Ok::<(ExtentHeader, Seq<Extent>), Error>(
            (
                ExtentHeader {
                    magic: EXT4_EXT_MAGIC,
                    entries: extents.len() as u16,
                    max: header.max,
                    depth: 0,
                    generation: header.generation,
                },
                extents,
            ),
        ),
{
    let base = with_header(
        zeros(len),
        extents.len() as u16,
        header.max,
        header.depth,
        header.generation,
    );
    lemma_with_extents(base, extents);
    let out = node_bytes(header, extents, len);
    assert(le16(out, 0) == le16(base, 0) && le16(out, 2) == le16(base, 2) && le16(out, 4) == le16(base, 4)
        && le16(out, 6) == le16(base, 6) && le32(out, 8) == le32(base, 8)) by {
        reveal(le16);
        reveal(le32);
    }
    assert(extents_in(out, extents.len()) =~= extents);
}

// -- reading a leaf ---------------------------------------------------------

/// The header and entries of a leaf.
pub open spec fn leaf_of(root: Seq<u8>) -> Result<(ExtentHeader, Seq<Extent>)> {
    match header_of(root) {
        Err(e) => Err(e),
        Ok(h) => if h.depth != 0 {
            Err(
                Error::CorruptExtentTree("extent_mut: multi-level tree mutation not yet supported"),
            )
        } else {
            Ok((h, extents_in(root, h.entries as nat)))
        },
    }
}

/// Read the leaf entries from a node. Errors on an index node.
pub fn read_leaf_entries(root: &[u8]) -> (r: Result<(ExtentHeader, Vec<Extent>)>)
    ensures
        match r {
            Ok((h, v)) => leaf_of(root@) == Ok::<(ExtentHeader, Seq<Extent>), Error>((h, v@))
                && leaf_fits(h, v@, root@.len()),
            Err(e) => leaf_of(root@) == Err::<(ExtentHeader, Seq<Extent>), Error>(e),
        },
{
    let header: ExtentHeader = match ExtentHeader::parse(root) {
        Ok(h) => h,
        Err(e) => {
            return Err(e);
        },
    };
    if !header.is_leaf() {
        return Err(
            Error::CorruptExtentTree("extent_mut: multi-level tree mutation not yet supported"),
        );
    }
    let mut out: Vec<Extent> = Vec::new();
    let mut i: u16 = 0;
    assert(out@ =~= extents_in(root@, 0));
    while i < header.entries
        invariant
            i <= header.entries,
            12 + 12 * header.entries <= root@.len(),
            out@ == extents_in(root@, i as nat),
        decreases header.entries - i,
    {
        out.push(read_extent(root, EXT4_EXT_NODE_SIZE * (1 + i as usize)));
        i += 1;
        assert(out@ =~= extents_in(root@, i as nat));
    }
    Ok((header, out))
}

/// What every leaf that was read keeps to.
pub open spec fn leaf_fits(h: ExtentHeader, entries: Seq<Extent>, len: nat) -> bool {
    &&& entries.len() == h.entries <= h.max
    &&& 12 + 12 * h.max <= len
    &&& h.depth == 0
    &&& all_storable(entries)
}

// -- edits of the entry list ------------------------------------------------

/// Whether `b` carries straight on from `a`, in the file and on the device,
/// in the same state, and the two fit in one entry.
pub open spec fn mergeable(a: Extent, b: Extent) -> bool {
    &&& a.uninitialized == b.uninitialized
    &&& a.logical_block + a.length == b.logical_block
    &&& a.physical_block + a.length == b.physical_block
    &&& a.length + b.length <= (if a.uninitialized {
        32767int
    } else {
        32768int
    })
}

/// The one entry that two mergeable entries make.
pub open spec fn merged(a: Extent, b: Extent) -> Extent {
    Extent { length: (a.length + b.length) as u16, ..a }
}

/// Entries `i` and `i + 1` made one.
pub open spec fn merge_at(entries: Seq<Extent>, i: int) -> Seq<Extent> {
    entries.remove(i + 1).update(i, merged(entries[i], entries[i + 1]))
}

/// Whether two extents share a file block. An empty extent inside another
/// counts.
pub open spec fn overlap(a: Extent, b: Extent) -> bool {
    !(a.logical_block + a.length <= b.logical_block || a.logical_block >= b.logical_block + b.length)
}

/// Where `new` goes: before the first entry that starts after it.
pub open spec fn insert_pos(entries: Seq<Extent>, new: Extent, from: int) -> int
    decreases entries.len() - from,
{
    if from >= entries.len() || entries[from].logical_block > new.logical_block {
        from
    } else {
        insert_pos(entries, new, from + 1)
    }
}

/// The entry that holds `new`'s first block, or the last one.
pub open spec fn holder_pos(entries: Seq<Extent>, new: Extent, from: int) -> int
    decreases entries.len() - from,
{
    if from >= entries.len() {
        entries.len() - 1
    } else if entries[from].logical_block == new.logical_block || (entries[from].logical_block
        < new.logical_block && entries[from].logical_block + entries[from].length > new.logical_block) {
        from
    } else {
        holder_pos(entries, new, from + 1)
    }
}

/// The entries with `new` in its place, merged with its neighbours where it
/// carries on from them.
pub open spec fn inserted(entries: Seq<Extent>, new: Extent) -> Seq<Extent> {
    let pos = insert_pos(entries, new, 0);
    let placed = entries.insert(pos, new);
    let left = if pos > 0 && mergeable(placed[pos - 1], placed[pos]) {
        merge_at(placed, pos - 1)
    } else {
        placed
    };
    let at = holder_pos(left, new, 0);
    if at + 1 < left.len() && mergeable(left[at], left[at + 1]) {
        merge_at(left, at)
    } else {
        left
    }
}

/// Whether any entry overlaps `new`.
pub open spec fn any_overlap(entries: Seq<Extent>, new: Extent) -> bool {
    exists|i: int| 0 <= i < entries.len() && overlap(new, #[trigger] entries[i])
}

/// Whether two entries can be merged.
fn are_contiguous(a: &Extent, b: &Extent) -> (r: bool)
    ensures
        r == mergeable(*a, *b),
{
    if a.uninitialized != b.uninitialized {
        return false;
    }
    let limit: u32 = if a.uninitialized {
        32767
    } else {
        32768
    };
    a.logical_block as u64 + a.length as u64 == b.logical_block as u64 && b.physical_block
        >= a.physical_block && b.physical_block - a.physical_block == a.length as u64 && a.length as u32
        + b.length as u32 <= limit
}

fn merge_entries(entries: &mut Vec<Extent>, i: usize)
    requires
        i + 1 < old(entries)@.len(),
        mergeable(old(entries)@[i as int], old(entries)@[i + 1]),
    ensures
        final(entries)@ == merge_at(old(entries)@, i as int),
{
    assert(entries.len() == entries@.len());
    let right: Extent = entries.remove(i + 1);
    let mut left: Extent = entries[i];
    left.length = left.length + right.length;
    entries.set(i, left);
}

/// Whether every entry can be stored and read back as it is.
pub open spec fn all_storable(entries: Seq<Extent>) -> bool {
    forall|i: int| 0 <= i < entries.len() ==> storable(#[trigger] entries[i])
}

pub(crate) proof fn lemma_merge_storable(entries: Seq<Extent>, i: int)
    requires
        all_storable(entries),
        0 <= i,
        i + 1 < entries.len(),
        mergeable(entries[i], entries[i + 1]),
    ensures
        all_storable(merge_at(entries, i)),
        merge_at(entries, i).len() == entries.len() - 1,
{
    let out = merge_at(entries, i);
    assert forall|k: int| 0 <= k < out.len() implies storable(#[trigger] out[k]) by {
        assert(storable(entries[k]));
        assert(storable(entries[k + 1]));
    }
}

/// Puts `new` in its place and merges it with the entry before it.
fn place_entry(entries: &mut Vec<Extent>, new: Extent)
    requires
        old(entries)@.len() < usize::MAX,
        storable(new),
        all_storable(old(entries)@),
    ensures
        ({
            let pos = insert_pos(old(entries)@, new, 0);
            let placed = old(entries)@.insert(pos, new);
            final(entries)@ == (if pos > 0 && mergeable(placed[pos - 1], placed[pos]) {
                merge_at(placed, pos - 1)
            } else {
                placed
            })
        }),
        1 <= final(entries)@.len() <= old(entries)@.len() + 1,
        all_storable(final(entries)@),
{
    let ghost start = entries@;
    let mut pos: usize = 0;
    while pos < entries.len() && entries[pos].logical_block <= new.logical_block
        invariant
            entries@ == start,
            pos <= start.len(),
            insert_pos(start, new, 0) == insert_pos(start, new, pos as int),
        decreases start.len() - pos,
    {
        pos += 1;
    }
    entries.insert(pos, new);
    let ghost placed = start.insert(pos as int, new);
    proof {
        assert forall|k: int| 0 <= k < placed.len() implies storable(#[trigger] placed[k]) by {
            if k < pos {
                assert(storable(start[k]));
            } else if k > pos {
                assert(storable(start[k - 1]));
            }
        }
    }
    if pos > 0 && are_contiguous(&entries[pos - 1], &entries[pos]) {
        proof {
            lemma_merge_storable(placed, pos - 1);
        }
        merge_entries(entries, pos - 1);
    }
}

fn insert_entry(entries: &mut Vec<Extent>, new: Extent)
    requires
        old(entries)@.len() < usize::MAX,
        storable(new),
        all_storable(old(entries)@),
    ensures
        final(entries)@ == inserted(old(entries)@, new),
        1 <= final(entries)@.len() <= old(entries)@.len() + 1,
        all_storable(final(entries)@),
{
    place_entry(entries, new);
    let ghost left = entries@;
    let mut at: usize = 0;
    while at < entries.len() && !(entries[at].logical_block == new.logical_block || (entries[at].logical_block
        < new.logical_block && entries[at].logical_block as u64 + entries[at].length as u64
        > new.logical_block as u64))
        invariant
            entries@ == left,
            at <= left.len(),
            holder_pos(left, new, 0) == holder_pos(left, new, at as int),
        decreases left.len() - at,
    {
        at += 1;
    }
    if at < entries.len() {
        if entries.len() - at > 1 && are_contiguous(&entries[at], &entries[at + 1]) {
            proof {
                lemma_merge_storable(left, at as int);
            }
            merge_entries(entries, at);
        }
    }
}

fn overlaps_any(entries: &[Extent], new: &Extent) -> (r: bool)
    ensures
        r == any_overlap(entries@, *new),
{
    let mut i: usize = 0;
    while i < entries.len()
        invariant
            i <= entries@.len(),
            forall|k: int| 0 <= k < i ==> !overlap(*new, #[trigger] entries@[k]),
        decreases entries@.len() - i,
    {
        let e: Extent = entries[i];
        let e_end: u64 = e.logical_block as u64 + e.length as u64;
        let n_end: u64 = new.logical_block as u64 + new.length as u64;
        if !(n_end <= e.logical_block as u64 || new.logical_block as u64 >= e_end) {
            assert(overlap(*new, entries@[i as int]));
            return true;
        }
        i += 1;
    }
    false
}

/// What became of an insertion into a leaf.
pub enum LeafInsert {
    /// The leaf's new bytes.
    Written(Vec<u8>),
    /// There is no slot, and no neighbour to merge with.
    Full,
}

/// The leaf with `new` in it, or `None` where it has no room.
pub open spec fn leaf_insert(root: Seq<u8>, new: Extent) -> Result<Option<Seq<u8>>> {
    match leaf_of(root) {
        Err(e) => Err(e),
        Ok((h, entries)) => if any_overlap(entries, new) {
            Err(Error::CorruptExtentTree("extent overlaps existing"))
        } else if inserted(entries, new).len() > h.max {
            Ok(None)
        } else {
            Ok(Some(node_bytes(h, inserted(entries, new), root.len())))
        },
    }
}

/// Puts `new` into a leaf, if it has room.
pub fn insert_into_leaf(root: &[u8], new: Extent) -> (r: Result<LeafInsert>)
    requires
        storable(new),
    ensures
        match r {
            Ok(LeafInsert::Written(v)) => leaf_insert(root@, new) == Ok::<Option<Seq<u8>>, Error>(
                Some(v@),
            ) && v@.len() == root@.len(),
            Ok(LeafInsert::Full) => leaf_insert(root@, new) == Ok::<Option<Seq<u8>>, Error>(None),
            Err(e) => leaf_insert(root@, new) == Err::<Option<Seq<u8>>, Error>(e),
        },
{
    let (header, mut entries): (ExtentHeader, Vec<Extent>) = match read_leaf_entries(root) {
        Ok(p) => p,
        Err(e) => {
            return Err(e);
        },
    };
    if overlaps_any(&entries, &new) {
        return Err(Error::CorruptExtentTree("extent overlaps existing"));
    }
    insert_entry(&mut entries, new);
    if entries.len() > header.max as usize {
        return Ok(LeafInsert::Full);
    }
    Ok(LeafInsert::Written(build_root(&header, &entries, root.len())))
}

/// The mutations are one rewrite of the node, with these bytes.
pub open spec fn rewrites(muts: Seq<ExtentMutation>, bytes: Seq<u8>) -> bool {
    muts.len() == 1 && (muts[0] matches ExtentMutation::WriteRoot { bytes: b } && b@ == bytes)
}

/// Plan insertion of `new` into a leaf. Preserves sort order on
/// `logical_block`, rejects overlaps, and auto-merges with the prev / next
/// entry when contiguous.
///
/// Errors:
/// - `LEAF_FULL_NEEDS_PROMOTION` if there is no room AND no merge was
///   possible.
/// - `extent overlaps existing` if `new`'s logical range overlaps an existing
///   entry.
pub fn plan_insert_extent(root: &[u8], new: Extent) -> (r: Result<Vec<ExtentMutation>>)
    requires
        storable(new),
    ensures
        match leaf_insert(root@, new) {
            Ok(Some(bytes)) => r is Ok && rewrites(r->Ok_0@, bytes),
            Ok(None) => r == Err::<Vec<ExtentMutation>, Error>(
                Error::CorruptExtentTree("LEAF_FULL_NEEDS_PROMOTION: root has no slot for new extent"),
            ),
            Err(e) => r == Err::<Vec<ExtentMutation>, Error>(e),
        },
{
    match insert_into_leaf(root, new) {
        Err(e) => Err(e),
        Ok(LeafInsert::Full) => Err(
            Error::CorruptExtentTree("LEAF_FULL_NEEDS_PROMOTION: root has no slot for new extent"),
        ),
        Ok(LeafInsert::Written(bytes)) => {
            let mut muts: Vec<ExtentMutation> = Vec::new();
            muts.push(ExtentMutation::WriteRoot { bytes });
            Ok(muts)
        },
    }
}

/// The first of the two halves that a split leaves.
pub open spec fn split_left(e: Extent, at: int) -> Extent {
    Extent { length: (at - e.logical_block) as u16, ..e }
}

/// The second half.
pub open spec fn split_right(e: Extent, at: int) -> Extent {
    Extent {
        logical_block: at as u32,
        length: (e.logical_block + e.length - at) as u16,
        physical_block: (e.physical_block + (at - e.logical_block)) as u64,
        uninitialized: e.uninitialized,
    }
}

/// The entries with entry `i` in two.
pub open spec fn split_entries(entries: Seq<Extent>, i: int, at: int) -> Seq<Extent> {
    entries.update(i, split_left(entries[i], at)).insert(i + 1, split_right(entries[i], at))
}

/// The leaf with entry `idx` in two at file block `at`.
pub open spec fn split_planned(root: Seq<u8>, idx: int, at: u32) -> Result<Seq<u8>> {
    match leaf_of(root) {
        Err(e) => Err(e),
        Ok((h, entries)) => if idx >= entries.len() {
            Err(Error::CorruptExtentTree("split idx out of range"))
        } else if at <= entries[idx].logical_block || at >= entries[idx].logical_block
            + entries[idx].length {
            Err(Error::CorruptExtentTree("split point outside extent"))
        } else if entries.len() + 1 > h.max {
            Err(
                Error::CorruptExtentTree("LEAF_FULL_NEEDS_PROMOTION: split exceeds root capacity"),
            )
        } else {
            Ok(node_bytes(h, split_entries(entries, idx, at as int), root.len()))
        },
    }
}

/// Plan a split of `entries[idx]` at logical block `split_at`: the entry is
/// replaced by its two halves.
///
/// Errors if `split_at` is not strictly inside the chosen extent.
pub fn plan_split_extent(root: &[u8], idx: usize, split_at: u32) -> (r: Result<Vec<ExtentMutation>>)
    ensures
        match split_planned(root@, idx as int, split_at) {
            Ok(bytes) => r is Ok && rewrites(r->Ok_0@, bytes),
            Err(e) => r == Err::<Vec<ExtentMutation>, Error>(e),
        },
{
    let (header, mut entries): (ExtentHeader, Vec<Extent>) = match read_leaf_entries(root) {
        Ok(p) => p,
        Err(e) => {
            return Err(e);
        },
    };
    if idx >= entries.len() {
        return Err(Error::CorruptExtentTree("split idx out of range"));
    }
    let ghost before = entries@;
    let e: Extent = entries[idx];
    assert(storable(entries@[idx as int]));
    let start: u32 = e.logical_block;
    let end: u64 = start as u64 + e.length as u64;
    if split_at <= start || split_at as u64 >= end {
        return Err(Error::CorruptExtentTree("split point outside extent"));
    }
    if entries.len() >= header.max as usize {
        return Err(Error::CorruptExtentTree("LEAF_FULL_NEEDS_PROMOTION: split exceeds root capacity"));
    }
    let left = Extent {
        logical_block: start,
        length: (split_at - start) as u16,
        physical_block: e.physical_block,
        uninitialized: e.uninitialized,
    };
    let right = Extent {
        logical_block: split_at,
        length: (end - split_at as u64) as u16,
        physical_block: e.physical_block + (split_at - start) as u64,
        uninitialized: e.uninitialized,
    };
    entries.set(idx, left);
    entries.insert(idx + 1, right);
    assert(entries@ =~= split_entries(before, idx as int, split_at as int));
    assert forall|i: int| 0 <= i < entries@.len() && (#[trigger] entries@[i]).uninitialized implies entries@[i].length
        <= 32767 by {
        if i < idx {
            assert(storable(before[i]));
        } else if i > idx + 1 {
            assert(storable(before[i - 1]));
        }
    }
    let bytes: Vec<u8> = build_root(&header, &entries, root.len());
    let mut muts: Vec<ExtentMutation> = Vec::new();
    muts.push(ExtentMutation::WriteRoot { bytes });
    Ok(muts)
}

/// The leaf with entries `i` and `i + 1` made one; `None` where they do not
/// line up.
pub open spec fn merge_planned(root: Seq<u8>, i: int) -> Result<Option<Seq<u8>>> {
    match leaf_of(root) {
        Err(e) => Err(e),
        Ok((h, entries)) => if i + 1 >= entries.len() {
            Err(Error::CorruptExtentTree("merge idx out of range"))
        } else if !mergeable(entries[i], entries[i + 1]) {
            Ok(None)
        } else {
            Ok(Some(node_bytes(h, merge_at(entries, i), root.len())))
        },
    }
}

/// Plan fusing entries[i] and entries[i+1] when they're physically adjacent
/// and in the same uninit state. No-op (returns empty mutation list) if the
/// pair isn't contiguous.
pub fn plan_merge_adjacent(root: &[u8], i: usize) -> (r: Result<Vec<ExtentMutation>>)
    ensures
        match merge_planned(root@, i as int) {
            Ok(Some(bytes)) => r is Ok && rewrites(r->Ok_0@, bytes),
            Ok(None) => r is Ok && r->Ok_0@.len() == 0,
            Err(e) => r == Err::<Vec<ExtentMutation>, Error>(e),
        },
{
    let (header, mut entries): (ExtentHeader, Vec<Extent>) = match read_leaf_entries(root) {
        Ok(p) => p,
        Err(e) => {
            return Err(e);
        },
    };
    if entries.len() < 2 || i >= entries.len() - 1 {
        return Err(Error::CorruptExtentTree("merge idx out of range"));
    }
    let mut muts: Vec<ExtentMutation> = Vec::new();
    if !are_contiguous(&entries[i], &entries[i + 1]) {
        return Ok(muts);
    }
    let ghost before = entries@;
    assert(storable(before[i as int]) && storable(before[i + 1]));
    merge_entries(&mut entries, i);
    assert forall|k: int| 0 <= k < entries@.len() && (#[trigger] entries@[k]).uninitialized implies entries@[k].length
        <= 32767 by {
        if k < i {
            assert(storable(before[k]));
        } else if k > i {
            assert(storable(before[k + 1]));
        }
    }
    let bytes: Vec<u8> = build_root(&header, &entries, root.len());
    muts.push(ExtentMutation::WriteRoot { bytes });
    Ok(muts)
}

/// The leaf without entry `idx`, and the blocks that entry held.
pub open spec fn free_planned(root: Seq<u8>, idx: int) -> Result<(Seq<u8>, u64, u32)> {
    match leaf_of(root) {
        Err(e) => Err(e),
        Ok((h, entries)) => if idx >= entries.len() {
            Err(Error::CorruptExtentTree("free idx out of range"))
        } else {
            Ok(
                (
                    node_bytes(h, entries.remove(idx), root.len()),
                    entries[idx].physical_block,
                    entries[idx].length as u32,
                ),
            )
        },
    }
}

/// Plan removal of `entries[idx]`: drops the entry and emits a
/// [`ExtentMutation::FreePhysicalRun`] so the caller can free the backing
/// blocks.
pub fn plan_free_extent(root: &[u8], idx: usize) -> (r: Result<Vec<ExtentMutation>>)
    ensures
        match free_planned(root@, idx as int) {
            Ok((bytes, start, len)) => r is Ok && r->Ok_0@.len() == 2 && rewrites(r->Ok_0@.take(1), bytes)
                && r->Ok_0@[1] == (ExtentMutation::FreePhysicalRun { start, len }),
            Err(e) => r == Err::<Vec<ExtentMutation>, Error>(e),
        },
{
    let (header, mut entries): (ExtentHeader, Vec<Extent>) = match read_leaf_entries(root) {
        Ok(p) => p,
        Err(e) => {
            return Err(e);
        },
    };
    if idx >= entries.len() {
        return Err(Error::CorruptExtentTree("free idx out of range"));
    }
    let ghost before = entries@;
    let removed: Extent = entries.remove(idx);
    assert forall|k: int| 0 <= k < entries@.len() && (#[trigger] entries@[k]).uninitialized implies entries@[k].length
        <= 32767 by {
        if k < idx {
            assert(storable(before[k]));
        } else {
            assert(storable(before[k + 1]));
        }
    }
    let bytes: Vec<u8> = build_root(&header, &entries, root.len());
    let mut muts: Vec<ExtentMutation> = Vec::new();
    muts.push(ExtentMutation::WriteRoot { bytes });
    muts.push(
        ExtentMutation::FreePhysicalRun { start: removed.physical_block, len: removed.length as u32 },
    );
    Ok(muts)
}

// -- trees deeper than their root -------------------------------------------

/// `s` with the index entry at byte `at` holding `idx`.
pub open spec fn with_index(s: Seq<u8>, at: int, idx: ExtentIdx) -> Seq<u8> {
    put16(
        put16(
            put32(put32(s, at, idx.logical_block), at + 4, lo32(idx.leaf_block)),
            at + 8,
            (hi32(idx.leaf_block) % 0x1_0000) as u16,
        ),
        at + 10,
        0,
    )
}

/// `s` with the index entries laid out from the first slot on.
pub open spec fn with_indexes(s: Seq<u8>, idxs: Seq<ExtentIdx>) -> Seq<u8>
    decreases idxs.len(),
{
    if idxs.len() == 0 {
        s
    } else {
        with_index(with_indexes(s, idxs.drop_last()), 12 + 12 * (idxs.len() - 1), idxs.last())
    }
}

/// An index node of `len` bytes.
pub open spec fn index_bytes(header: ExtentHeader, idxs: Seq<ExtentIdx>, len: nat) -> Seq<u8> {
    with_indexes(
        with_header(zeros(len), idxs.len() as u16, header.max, header.depth, header.generation),
        idxs,
    )
}

/// The first `n` index entries of a node.
pub open spec fn indexes_in(node: Seq<u8>, n: nat) -> Seq<ExtentIdx> {
    Seq::new(n, |i: int| index_at(node, 12 + 12 * i))
}

/// Where an index entry goes: before the first that starts after it.
pub open spec fn index_pos(idxs: Seq<ExtentIdx>, l: u32, from: int) -> int
    decreases idxs.len() - from,
{
    if from >= idxs.len() || idxs[from].logical_block > l {
        from
    } else {
        index_pos(idxs, l, from + 1)
    }
}

/// An index node with one more entry in its place.
pub open spec fn index_inserted(node: Seq<u8>, idx: ExtentIdx) -> Seq<u8> {
    let h = header_at(node);
    let idxs = indexes_in(node, h.entries as nat);
    index_bytes(h, idxs.insert(index_pos(idxs, idx.logical_block, 0), idx), node.len())
}

fn put_index(s: &mut Vec<u8>, at: usize, idx: &ExtentIdx)
    requires
        at + 12 <= old(s)@.len(),
    ensures
        final(s)@ == with_index(old(s)@, at as int, *idx),
        final(s)@.len() == old(s)@.len(),
{
    assert(s.len() == s@.len());
    let (hi, lo): (u16, u32) = split_phys_block(idx.leaf_block);
    set_u32(s, at, idx.logical_block);
    set_u32(s, at + 4, lo);
    set_u16(s, at + 8, hi);
    set_u16(s, at + 10, 0);
}

fn build_index(header: &ExtentHeader, idxs: &[ExtentIdx], len: usize) -> (r: Vec<u8>)
    requires
        12 + 12 * idxs@.len() <= len,
        idxs@.len() <= u16::MAX,
    ensures
        r@ == index_bytes(*header, idxs@, len as nat),
        r@.len() == len,
{
    let mut out: Vec<u8> = zeroed(len);
    put_header(&mut out, idxs.len() as u16, header.max, header.depth, header.generation);
    let ghost base = out@;
    let mut i: usize = 0;
    assert(idxs@.take(0) =~= Seq::<ExtentIdx>::empty());
    while i < idxs.len()
        invariant
            i <= idxs@.len(),
            idxs@.len() <= u16::MAX,
            12 + 12 * idxs@.len() <= len,
            out@.len() == len,
            out@ == with_indexes(base, idxs@.take(i as int)),
        decreases idxs@.len() - i,
    {
        put_index(&mut out, EXT4_EXT_NODE_SIZE * (1 + i), &idxs[i]);
        i += 1;
        assert(idxs@.take(i as int).drop_last() =~= idxs@.take(i - 1));
    }
    assert(idxs@.take(i as int) =~= idxs@);
    out
}

fn insert_index(node: &[u8], idx: ExtentIdx) -> (r: Vec<u8>)
    requires
        header_of(node@) is Ok,
        le16(node@, 2) < le16(node@, 4),
    ensures
        r@ == index_inserted(node@, idx),
        r@.len() == node@.len(),
{
    let header = ExtentHeader {
        magic: get_u16(node, 0),
        entries: get_u16(node, 2),
        max: get_u16(node, 4),
        depth: get_u16(node, 6),
        generation: get_u32(node, 8),
    };
    let mut idxs: Vec<ExtentIdx> = Vec::new();
    let mut i: u16 = 0;
    assert(idxs@ =~= indexes_in(node@, 0));
    while i < header.entries
        invariant
            i <= header.entries,
            12 + 12 * header.entries <= node@.len(),
            idxs@ == indexes_in(node@, i as nat),
        decreases header.entries - i,
    {
        idxs.push(ExtentIdx::parse(node, EXT4_EXT_NODE_SIZE * (1 + i as usize)));
        i += 1;
        assert(idxs@ =~= indexes_in(node@, i as nat));
    }
    let ghost all = idxs@;
    let mut pos: usize = 0;
    while pos < idxs.len() && idxs[pos].logical_block <= idx.logical_block
        invariant
            idxs@ == all,
            pos <= all.len(),
            index_pos(all, idx.logical_block, 0) == index_pos(all, idx.logical_block, pos as int),
        decreases all.len() - pos,
    {
        pos += 1;
    }
    idxs.insert(pos, idx);
    build_index(&header, &idxs, node.len())
}

/// How many entries a node block holds, less the room its checksum takes.
pub open spec fn block_capacity(bs: int, tail: bool) -> int {
    (bs - 12 - (if tail {
        4int
    } else {
        0
    })) / 12
}

/// A leaf, its block, and the node above it (`None` for the root).
pub struct LeafPath {
    pub leaf_block: u64,
    pub leaf: Vec<u8>,
    pub parent_block: Option<u64>,
    pub parent: Vec<u8>,
}

/// A leaf on the way to which a lookup of some block ends.
pub struct LeafPathView {
    pub leaf_block: u64,
    pub leaf: Seq<u8>,
    pub parent_block: Option<u64>,
    pub parent: Seq<u8>,
}

/// The leaf that covers file block `l`, below `node`, which is `depth` levels
/// above the leaves and sits in `block` (`None` for the root).
pub open spec fn leaf_path(
    img: Seq<u8>,
    bs: int,
    node: Seq<u8>,
    block: Option<u64>,
    depth: nat,
    l: int,
) -> Result<LeafPathView>
    decreases depth,
{
    match child_for(node, header_at(node).entries as int, l) {
        None => Err(Error::CorruptExtentTree("extent insert before the first index entry")),
        Some(idx) => match child_node(img, bs, idx.leaf_block, depth - 1, None) {
            Err(e) => Err(e),
            Ok(child) => if depth <= 1 {
                Ok(
                    LeafPathView {
                        leaf_block: idx.leaf_block,
                        leaf: child,
                        parent_block: block,
                        parent: node,
                    },
                )
            } else {
                leaf_path(img, bs, child, Some(idx.leaf_block), (depth - 1) as nat, l)
            },
        },
    }
}

/// What an insertion into a tree comes to.
pub enum DeepInsert {
    /// The root's new bytes, and the node blocks to write.
    Done { root: Vec<u8>, writes: Vec<(u64, Vec<u8>)> },
    /// A block for a new node is needed first.
    NeedsBlock,
}

/// What an insertion into a tree comes to, as a value.
pub enum DeepInsertView {
    Done { root: Seq<u8>, writes: Seq<(u64, Seq<u8>)> },
    NeedsBlock,
}

/// The bytes of the writes.
pub open spec fn writes_view(w: Seq<(u64, Vec<u8>)>) -> Seq<(u64, Seq<u8>)> {
    Seq::new(w.len(), |i: int| (w[i].0, w[i].1@))
}

/// An insertion's outcome as a value.
pub open spec fn deep_view(d: DeepInsert) -> DeepInsertView {
    match d {
        DeepInsert::Done { root, writes } => DeepInsertView::Done { root: root@, writes: writes_view(writes@) },
        DeepInsert::NeedsBlock => DeepInsertView::NeedsBlock,
    }
}

/// The root's entries, with the newcomer among them, moved to block `s`: the
/// root keeps one index entry.
pub open spec fn promoted(root: Seq<u8>, bs: int, entries: Seq<Extent>, s: u64, tail: bool) -> DeepInsertView {
    let h = header_at(root);
    DeepInsertView::Done {
        root: index_bytes(
            ExtentHeader { depth: 1, ..h },
            seq![ExtentIdx { logical_block: entries[0].logical_block, leaf_block: s }],
            root.len(),
        ),
        writes: seq![
            (
                s,
                node_bytes(
                    ExtentHeader { max: block_capacity(bs, tail) as u16, depth: 0, ..h },
                    entries,
                    bs as nat,
                ),
            ),
        ],
    }
}

/// A full leaf in two: the second half goes to block `s`, and the node above
/// gets an entry for it.
pub open spec fn split_leaf(root: Seq<u8>, p: LeafPathView, entries: Seq<Extent>, s: u64) -> DeepInsertView {
    let h = header_at(p.leaf);
    let k = (entries.len() / 2) as int;
    let parent = index_inserted(
        p.parent,
        ExtentIdx { logical_block: entries[k].logical_block, leaf_block: s },
    );
    let halves = seq![
        (p.leaf_block, node_bytes(h, entries.take(k), p.leaf.len())),
        (s, node_bytes(h, entries.skip(k), p.leaf.len())),
    ];
    match p.parent_block {
        None => DeepInsertView::Done { root: parent, writes: halves },
        Some(b) => DeepInsertView::Done { root, writes: halves.push((b, parent)) },
    }
}

/// A root whose first child reaches down to file block `l`. Only a root whose
/// children are leaves is changed.
pub open spec fn lowered(root: Seq<u8>, l: u32) -> Seq<u8> {
    if header_at(root).depth == 1 && header_at(root).entries > 0 && index_at(root, 12).logical_block > l {
        put32(root, 12, l)
    } else {
        root
    }
}

/// The tree rooted at `root` with `new` in it. `spare` is a block for a new
/// node, if the caller has one.
pub open spec fn deep_insert(
    img: Seq<u8>,
    bs: int,
    root: Seq<u8>,
    new: Extent,
    tail: bool,
    spare: Option<u64>,
) -> Result<DeepInsertView> {
    match header_of(root) {
        Err(e) => Err(e),
        Ok(h) => if h.depth == 0 {
            match leaf_insert(root, new) {
                Err(e) => Err(e),
                Ok(Some(bytes)) => Ok(DeepInsertView::Done { root: bytes, writes: Seq::empty() }),
                Ok(None) => match spare {
                    None => Ok(DeepInsertView::NeedsBlock),
                    Some(s) => {
                        let entries = inserted(extents_in(root, h.entries as nat), new);
                        if entries.len() > block_capacity(bs, tail) {
                            Err(Error::CorruptExtentTree("extent root holds more than a block"))
                        } else {
                            Ok(promoted(root, bs, entries, s, tail))
                        }
                    },
                },
            }
        } else {
            let low = lowered(root, new.logical_block);
            match leaf_path(img, bs, low, None, h.depth as nat, new.logical_block as int) {
                Err(e) => Err(e),
                Ok(p) => match leaf_insert(p.leaf, new) {
                    Err(e) => Err(e),
                    Ok(Some(bytes)) => Ok(
                        DeepInsertView::Done { root: low, writes: seq![(p.leaf_block, bytes)] },
                    ),
                    Ok(None) => if header_at(p.parent).entries >= header_at(p.parent).max {
                        Err(Error::CorruptExtentTree("extent index node has no slot for a new leaf"))
                    } else {
                        match spare {
                            None => Ok(DeepInsertView::NeedsBlock),
                            Some(s) => Ok(
                                split_leaf(
                                    low,
                                    p,
                                    inserted(
                                        extents_in(p.leaf, header_at(p.leaf).entries as nat),
                                        new,
                                    ),
                                    s,
                                ),
                            ),
                        }
                    },
                },
            }
        },
    }
}

/// The root is `root_len` bytes and every node block `bs`.
pub open spec fn sizes_ok(d: DeepInsert, root_len: int, bs: int) -> bool {
    d matches DeepInsert::Done { root, writes } ==> root@.len() == root_len && forall|i: int|
        0 <= i < writes@.len() ==> (#[trigger] writes@[i]).1@.len() == bs
}

fn find_leaf<S: BlockSource>(src: &S, bs: u32, root: &[u8], depth: u16, l: u32) -> (r: Result<LeafPath>)
    requires
        bs >= 12,
        src.serves(bs as int),
        header_of(root@) is Ok,
        depth == le16(root@, 6),
        depth >= 1,
    ensures
        match r {
            Ok(p) => leaf_path(src.image(), bs as int, root@, None, depth as nat, l as int) == Ok::<
                LeafPathView,
                Error,
            >(
                LeafPathView {
                    leaf_block: p.leaf_block,
                    leaf: p.leaf@,
                    parent_block: p.parent_block,
                    parent: p.parent@,
                },
            ) && header_of(p.parent@) is Ok && header_of(p.leaf@) is Ok && le16(p.leaf@, 6) == 0
                && p.leaf@.len() == bs && (p.parent_block is None ==> p.parent@.len() == root@.len())
                && (p.parent_block is Some ==> p.parent@.len() == bs),
            Err(e) => leaf_path(src.image(), bs as int, root@, None, depth as nat, l as int) == Err::<
                LeafPathView,
                Error,
            >(e) || (!src.reliable() && e == Error::Io),
        },
{
    let mut node: Vec<u8> = copy_range(root, 0, root.len());
    assert(node@ =~= root@);
    let mut block: Option<u64> = None;
    let mut d: u16 = depth;
    let ghost whole = leaf_path(src.image(), bs as int, root@, None, depth as nat, l as int);
    while d >= 1
        invariant
            bs >= 12,
            src.serves(bs as int),
            d >= 1,
            header_of(node@) is Ok,
            block is None ==> node@.len() == root@.len(),
            block is Some ==> node@.len() == bs,
            whole == leaf_path(src.image(), bs as int, root@, None, depth as nat, l as int),
            whole == leaf_path(src.image(), bs as int, node@, block, d as nat, l as int),
        decreases d,
    {
        let entries: u16 = get_u16(&node, 2);
        let idx: ExtentIdx = match find_child(&node, entries, l as u64) {
            Some(i) => i,
            None => {
                return Err(
                    Error::CorruptExtentTree("extent insert before the first index entry"),
                );
            },
        };
        let child: Vec<u8> = match read_child(src, bs, idx.leaf_block, d - 1, &None) {
            Ok(c) => c,
            Err(e) => {
                return Err(e);
            },
        };
        if d == 1 {
            return Ok(
                LeafPath { leaf_block: idx.leaf_block, leaf: child, parent_block: block, parent: node },
            );
        }
        node = child;
        block = Some(idx.leaf_block);
        d = d - 1;
    }
    Err(Error::CorruptExtentTree("extent insert before the first index entry"))
}

/// Moves a full root's entries, with `new` among them, to block `s`.
fn promote_root(root: &[u8], bs: u32, new: Extent, s: u64, tail: bool) -> (r: Result<DeepInsert>)
    requires
        1024 <= bs <= 65536,
        storable(new),
        root@.len() == 60,
        leaf_insert(root@, new) == Ok::<Option<Seq<u8>>, Error>(None),
    ensures
        match r {
            Ok(d) => deep_view(d) == promoted(
                root@,
                bs as int,
                inserted(extents_in(root@, header_at(root@).entries as nat), new),
                s,
                tail,
            ) && inserted(extents_in(root@, header_at(root@).entries as nat), new).len()
                <= block_capacity(bs as int, tail) && sizes_ok(d, 60, bs as int),
            Err(e) => e == Error::CorruptExtentTree("extent root holds more than a block") && inserted(
                extents_in(root@, header_at(root@).entries as nat),
                new,
            ).len() > block_capacity(bs as int, tail),
        },
{
    let (header, mut entries): (ExtentHeader, Vec<Extent>) = match read_leaf_entries(root) {
        Ok(p) => p,
        Err(e) => {
            return Err(e);
        },
    };
    insert_entry(&mut entries, new);
    let capacity: u32 = (bs - 12 - (if tail {
        4u32
    } else {
        0u32
    })) / 12;
    if entries.len() > capacity as usize {
        return Err(Error::CorruptExtentTree("extent root holds more than a block"));
    }
    let leaf_header = ExtentHeader { max: capacity as u16, depth: 0, ..header };
    proof {
        lemma_storable_fits(entries@);
    }
    let leaf: Vec<u8> = build_root(&leaf_header, &entries, bs as usize);
    let root_header = ExtentHeader { depth: 1, ..header };
    let mut idxs: Vec<ExtentIdx> = Vec::new();
    idxs.push(ExtentIdx { logical_block: entries[0].logical_block, leaf_block: s });
    assert(idxs@ =~= seq![
        ExtentIdx { logical_block: entries@[0].logical_block, leaf_block: s },
    ]);
    let new_root: Vec<u8> = build_index(&root_header, &idxs, root.len());
    let mut writes: Vec<(u64, Vec<u8>)> = Vec::new();
    writes.push((s, leaf));
    assert(writes_view(writes@) =~= seq![(s, leaf@)]);
    Ok(DeepInsert::Done { root: new_root, writes })
}

proof fn lemma_storable_fits(entries: Seq<Extent>)
    requires
        all_storable(entries),
    ensures
        lengths_fit(entries),
{
    assert forall|i: int| 0 <= i < entries.len() && (#[trigger] entries[i]).uninitialized implies entries[i].length
        <= 32767 by {
        assert(storable(entries[i]));
    }
}

/// Splits a full leaf, with `new` in it, in two.
fn split_full_leaf(root: &[u8], p: LeafPath, new: Extent, s: u64) -> (r: Result<DeepInsert>)
    requires
        storable(new),
        header_of(p.parent@) is Ok,
        le16(p.parent@, 2) < le16(p.parent@, 4),
        leaf_insert(p.leaf@, new) == Ok::<Option<Seq<u8>>, Error>(None),
        1024 <= p.leaf@.len() <= 65536,
        p.parent_block is None ==> p.parent@.len() == root@.len(),
        p.parent_block is Some ==> p.parent@.len() == p.leaf@.len(),
    ensures
        r is Ok,
        sizes_ok(r->Ok_0, root@.len() as int, p.leaf@.len() as int),
        deep_view(r->Ok_0) == split_leaf(
            root@,
            LeafPathView {
                leaf_block: p.leaf_block,
                leaf: p.leaf@,
                parent_block: p.parent_block,
                parent: p.parent@,
            },
            inserted(extents_in(p.leaf@, header_at(p.leaf@).entries as nat), new),
            s,
        ),
{
    let (header, mut entries): (ExtentHeader, Vec<Extent>) = match read_leaf_entries(&p.leaf) {
        Ok(q) => q,
        Err(e) => {
            return Err(e);
        },
    };
    insert_entry(&mut entries, new);
    let ghost all = entries@;
    let k: usize = entries.len() / 2;
    let right: Vec<Extent> = entries.split_off(k);
    proof {
        lemma_storable_fits(all);
        assert(entries@ =~= all.take(k as int));
        assert(right@ =~= all.skip(k as int));
        assert forall|i: int| 0 <= i < right@.len() && (#[trigger] right@[i]).uninitialized implies right@[i].length
            <= 32767 by {
            assert(all[k + i] == right@[i]);
        }
    }
    let first: u32 = right[0].logical_block;
    let left_bytes: Vec<u8> = build_root(&header, &entries, p.leaf.len());
    let right_bytes: Vec<u8> = build_root(&header, &right, p.leaf.len());
    let parent: Vec<u8> = insert_index(&p.parent, ExtentIdx { logical_block: first, leaf_block: s });
    let mut writes: Vec<(u64, Vec<u8>)> = Vec::new();
    writes.push((p.leaf_block, left_bytes));
    writes.push((s, right_bytes));
    let ghost halves = seq![(p.leaf_block, left_bytes@), (s, right_bytes@)];
    assert(writes_view(writes@) =~= halves);
    match p.parent_block {
        None => Ok(DeepInsert::Done { root: parent, writes }),
        Some(b) => {
            writes.push((b, parent));
            assert(writes_view(writes@) =~= halves.push((b, parent@)));
            let same: Vec<u8> = copy_range(root, 0, root.len());
            assert(same@ =~= root@);
            Ok(DeepInsert::Done { root: same, writes })
        },
    }
}

fn lower_root(root: &[u8], header: &ExtentHeader, l: u32) -> (r: Vec<u8>)
    requires
        root@.len() == 60,
        header_of(root@) == Ok::<ExtentHeader, Error>(*header),
    ensures
        r@ == lowered(root@, l),
        r@.len() == 60,
        header_of(r@) == header_of(root@),
        le16(r@, 6) == le16(root@, 6),
{
    let mut out: Vec<u8> = copy_range(root, 0, root.len());
    assert(out@ =~= root@);
    if header.depth == 1 && header.entries > 0 && ExtentIdx::parse(root, 12).logical_block > l {
        set_u32(&mut out, 12, l);
    }
    out
}

/// Plan insertion of `new` into the tree rooted at `root`: into the root while
/// it has room, else into the leaf block that covers it. Where a leaf is full,
/// `spare` becomes a new one; without a spare block the answer is that one is
/// needed. The node blocks' checksums are the caller's to fill in.
pub fn plan_insert_extent_deep<S: BlockSource>(
    root: &[u8],
    new: Extent,
    bs: u32,
    src: &S,
    tail: bool,
    spare: Option<u64>,
) -> (r: Result<DeepInsert>)
    requires
        1024 <= bs <= 65536,
        src.serves(bs as int),
        storable(new),
        root@.len() == 60,
    ensures
        match r {
            Ok(d) => deep_insert(src.image(), bs as int, root@, new, tail, spare) == Ok::<
                DeepInsertView,
                Error,
            >(deep_view(d)) && sizes_ok(d, 60, bs as int),
            Err(e) => deep_insert(src.image(), bs as int, root@, new, tail, spare) == Err::<
                DeepInsertView,
                Error,
            >(e) || (!src.reliable() && e == Error::Io),
        },
{
    let header: ExtentHeader = match ExtentHeader::parse(root) {
        Ok(h) => h,
        Err(e) => {
            return Err(e);
        },
    };
    if header.depth == 0 {
        return match insert_into_leaf(root, new) {
            Err(e) => Err(e),
            Ok(LeafInsert::Written(bytes)) => {
                let writes: Vec<(u64, Vec<u8>)> = Vec::new();
                assert(writes_view(writes@) =~= Seq::<(u64, Seq<u8>)>::empty());
                Ok(DeepInsert::Done { root: bytes, writes })
            },
            Ok(LeafInsert::Full) => match spare {
                None => Ok(DeepInsert::NeedsBlock),
                Some(s) => promote_root(root, bs, new, s, tail),
            },
        };
    }
    let low: Vec<u8> = lower_root(root, &header, new.logical_block);
    let p: LeafPath = match find_leaf(src, bs, &low, header.depth, new.logical_block) {
        Ok(p) => p,
        Err(e) => {
            return Err(e);
        },
    };
    match insert_into_leaf(&p.leaf, new) {
        Err(e) => Err(e),
        Ok(LeafInsert::Written(bytes)) => {
            let mut writes: Vec<(u64, Vec<u8>)> = Vec::new();
            writes.push((p.leaf_block, bytes));
            assert(writes_view(writes@) =~= seq![(p.leaf_block, bytes@)]);
            Ok(DeepInsert::Done { root: low, writes })
        },
        Ok(LeafInsert::Full) => {
            if get_u16(&p.parent, 2) >= get_u16(&p.parent, 4) {
                return Err(
                    Error::CorruptExtentTree("extent index node has no slot for a new leaf"),
                );
            }
            match spare {
                None => Ok(DeepInsert::NeedsBlock),
                Some(s) => split_full_leaf(&low, p, new, s),
            }
        },
    }
}

/// An extent split inside and merged again is what it was.
pub proof fn law_merge_undoes_split(entries: Seq<Extent>, i: int, at: int)
    requires
        0 <= i < entries.len(),
        entries[i].logical_block < at < entries[i].logical_block + entries[i].length,
        at <= u32::MAX,
        storable(entries[i]),
    ensures
        mergeable(split_entries(entries, i, at)[i], split_entries(entries, i, at)[i + 1]),
        merge_at(split_entries(entries, i, at), i) == entries,
{
    let s = split_entries(entries, i, at);
    assert(merge_at(s, i) =~= entries);
}

/// Every file block covered before a split is covered after it, by the same
/// device block.
pub proof fn law_split_keeps_mapping(e: Extent, at: int, l: int)
    requires
        e.logical_block < at < e.logical_block + e.length,
        at <= u32::MAX,
        storable(e),
    ensures
        e.covers(l) == (split_left(e, at).covers(l) || split_right(e, at).covers(l)),
        split_left(e, at).covers(l) ==> split_left(e, at).place(l) == e.place(l),
        split_right(e, at).covers(l) ==> split_right(e, at).place(l) == e.place(l),
{
}

/// A merged entry covers what the two covered, where they covered it.
pub proof fn law_merge_keeps_mapping(a: Extent, b: Extent, l: int)
    requires
        mergeable(a, b),
    ensures
        merged(a, b).covers(l) == (a.covers(l) || b.covers(l)),
        a.covers(l) ==> merged(a, b).place(l) == a.place(l),
        b.covers(l) ==> merged(a, b).place(l) == b.place(l),
{
}

} // verus!
