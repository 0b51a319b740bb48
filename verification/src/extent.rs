//! Extent trees.
//!
//! A node is a 12-byte header and 12-byte entries. The root sits in the
//! inode's 60-byte `i_block`; every other node fills a block.
use crate::block_io::{block_at, BlockSource};
use crate::bytes::{get_u16, get_u32, join32_spec, join_u32, le16, le32};
use crate::checksum::{extent_crc_ok, Checksummer};
use crate::error::{Error, Result};
use vstd::prelude::*;

verus! {

/// `eh_magic`.
pub const EXT4_EXT_MAGIC: u16 = 0xF30A;

/// Bytes in a header and in an entry.
pub const EXT4_EXT_NODE_SIZE: usize = 12;

/// Longest initialised extent; a stored length above it means an unwritten
/// one.
pub const EXT_INIT_MAX_LEN: u16 = 32768;

/// Deepest tree the format allows.
pub const EXT_MAX_DEPTH: u16 = 5;

/// A run of file blocks on the device.
#[derive(Debug, Clone, Copy, PartialEq, Eq)]
pub struct Extent {
    pub logical_block: u32,
    pub length: u16,
    pub physical_block: u64,
    /// Allocated but never written: reads as zeros.
    pub uninitialized: bool,
}

/// A node's header.
#[derive(Debug, Clone, Copy, PartialEq, Eq)]
pub struct ExtentHeader {
    pub magic: u16,
    pub entries: u16,
    pub max: u16,
    pub depth: u16,
    pub generation: u32,
}

/// An index entry: the child that covers file blocks from `logical_block` on.
#[derive(Debug, Clone, Copy, PartialEq, Eq)]
pub struct ExtentIdx {
    pub logical_block: u32,
    pub leaf_block: u64,
}

/// The header at the start of a node.
pub open spec fn header_at(node: Seq<u8>) -> ExtentHeader {
    ExtentHeader {
        magic: le16(node, 0),
        entries: le16(node, 2),
        max: le16(node, 4),
        depth: le16(node, 6),
        generation: le32(node, 8),
    }
}

/// The header of a node, or why it cannot be one.
pub open spec fn header_of(node: Seq<u8>) -> Result<ExtentHeader> {
    if node.len() < 12 {
        Err(Error::CorruptExtentTree("extent node too short"))
    } else if le16(node, 0) != EXT4_EXT_MAGIC {
        Err(Error::CorruptExtentTree("bad extent magic"))
    } else if le16(node, 2) > le16(node, 4) {
        Err(Error::CorruptExtentTree("extent entries exceed max"))
    } else if 12 + 12 * le16(node, 4) > node.len() {
        Err(Error::CorruptExtentTree("extent max exceeds node"))
    } else if le16(node, 6) > EXT_MAX_DEPTH {
        Err(Error::CorruptExtentTree("extent tree too deep"))
    } else {
        Ok(header_at(node))
    }
}

impl ExtentHeader {
    /// Reads and checks a node's header.
    pub fn parse(node: &[u8]) -> (r: Result<ExtentHeader>)
        ensures
            r == header_of(node@),
    {
        if node.len() < EXT4_EXT_NODE_SIZE {
            return Err(Error::CorruptExtentTree("extent node too short"));
        }
        let header = ExtentHeader {
            magic: get_u16(node, 0),
            entries: get_u16(node, 2),
            max: get_u16(node, 4),
            depth: get_u16(node, 6),
            generation: get_u32(node, 8),
        };
        if header.magic != EXT4_EXT_MAGIC {
            return Err(Error::CorruptExtentTree("bad extent magic"));
        }
        if header.entries > header.max {
            return Err(Error::CorruptExtentTree("extent entries exceed max"));
        }
        if 12 + 12 * (header.max as usize) > node.len() {
            return Err(Error::CorruptExtentTree("extent max exceeds node"));
        }
        if header.depth > EXT_MAX_DEPTH {
            return Err(Error::CorruptExtentTree("extent tree too deep"));
        }
        Ok(header)
    }

    /// Whether the node's entries are extents, not indexes.
    pub fn is_leaf(&self) -> (r: bool)
        ensures
            r == (self.depth == 0),
    {
        self.depth == 0
    }
}

/// The extent entry at byte `at`.
pub open spec fn extent_at(s: Seq<u8>, at: int) -> Extent {
    let stored = le16(s, at + 4);
    Extent {
        logical_block: le32(s, at),
        length: if stored > EXT_INIT_MAX_LEN {
            (stored - EXT_INIT_MAX_LEN) as u16
        } else {
            stored
        },
        physical_block: join32_spec(le32(s, at + 8), le16(s, at + 6) as u32),
        uninitialized: stored > EXT_INIT_MAX_LEN,
    }
}

/// The index entry at byte `at`.
pub open spec fn index_at(s: Seq<u8>, at: int) -> ExtentIdx {
    ExtentIdx {
        logical_block: le32(s, at),
        leaf_block: join32_spec(le32(s, at + 4), le16(s, at + 8) as u32),
    }
}

/// The first `n` extent entries of a node.
pub open spec fn extents_in(node: Seq<u8>, n: nat) -> Seq<Extent> {
    Seq::new(n, |i: int| extent_at(node, 12 + 12 * i))
}

/// Reads the extent entry at byte `at`.
pub fn read_extent(s: &[u8], at: usize) -> (r: Extent)
    requires
        at + 12 <= s@.len(),
    ensures
        r == extent_at(s@, at as int),
{
    assert(s.len() == s@.len());
    let stored: u16 = get_u16(s, at + 4);
    let uninitialized: bool = stored > EXT_INIT_MAX_LEN;
    Extent {
        logical_block: get_u32(s, at),
        length: if uninitialized {
            stored - EXT_INIT_MAX_LEN
        } else {
            stored
        },
        physical_block: join_u32(get_u32(s, at + 8), get_u16(s, at + 6) as u32),
        uninitialized,
    }
}

impl ExtentIdx {
    /// Reads the index entry at byte `at`.
    pub fn parse(s: &[u8], at: usize) -> (r: ExtentIdx)
        requires
            at + 12 <= s@.len(),
        ensures
            r == index_at(s@, at as int),
    {
        assert(s.len() == s@.len());
        ExtentIdx {
            logical_block: get_u32(s, at),
            leaf_block: join_u32(get_u32(s, at + 4), get_u16(s, at + 8) as u32),
        }
    }
}

impl Extent {
    /// Whether the extent covers file block `l`.
    pub open spec fn covers(&self, l: int) -> bool {
        self.logical_block <= l < self.logical_block + self.length
    }

    /// Where file block `l` is.
    pub open spec fn place(&self, l: int) -> int {
        self.physical_block + (l - self.logical_block)
    }

    /// Where file block `logical` is.
    pub fn map(&self, logical: u64) -> (r: u64)
        requires
            self.covers(logical as int),
            self.physical_block < 0x1_0000_0000_0000,
        ensures
            r == self.place(logical as int),
    {
        self.physical_block + (logical - self.logical_block as u64)
    }
}

/// The first of the extents that covers file block `l`.
pub open spec fn covering(extents: Seq<Extent>, l: int) -> Option<Extent>
    decreases extents.len(),
{
    if extents.len() == 0 {
        None
    } else if extents[0].covers(l) {
        Some(extents[0])
    } else {
        covering(extents.drop_first(), l)
    }
}

/// The last of the first `n` index entries that starts at or before `l`.
pub open spec fn child_for(node: Seq<u8>, n: int, l: int) -> Option<ExtentIdx>
    decreases n,
{
    if n <= 0 {
        None
    } else if index_at(node, 12 + 12 * (n - 1)).logical_block <= l {
        Some(index_at(node, 12 + 12 * (n - 1)))
    } else {
        child_for(node, n - 1, l)
    }
}

/// Whose tree a node belongs to, where its checksum is to be verified.
#[derive(Debug, Clone, Copy, PartialEq, Eq)]
pub struct ExtentVerifyCtx {
    pub ino: u32,
    pub generation: u32,
    pub csum: Checksummer,
}

/// Whether a node read from a block may be trusted.
pub open spec fn node_ok(ctx: Option<ExtentVerifyCtx>, node: Seq<u8>) -> bool {
    match ctx {
        Some(c) => c.csum.enabled ==> extent_crc_ok(c.csum.seed, c.ino, c.generation, node),
        None => true,
    }
}

/// A child node: its block, checked, one level below its parent.
pub open spec fn child_node(img: Seq<u8>, bs: int, block: u64, depth: int, ctx: Option<ExtentVerifyCtx>) -> Result<
    Seq<u8>,
> {
    match block_at(img, bs, block as int) {
        Err(e) => Err(e),
        Ok(node) => if !node_ok(ctx, node) {
            Err(Error::BadChecksum("extent block"))
        } else {
            match header_of(node) {
                Err(e) => Err(e),
                Ok(h) => if h.depth != depth {
                    Err(Error::CorruptExtentTree("extent child depth mismatch"))
                } else {
                    Ok(node)
                },
            }
        },
    }
}

/// The extent that covers file block `l` in the tree under `node`, which is
/// `depth` levels above the leaves.
pub open spec fn lookup_in(
    img: Seq<u8>,
    bs: int,
    node: Seq<u8>,
    depth: nat,
    l: int,
    ctx: Option<ExtentVerifyCtx>,
) -> Result<Option<Extent>>
    decreases depth,
{
    if depth == 0 {
        Ok(covering(extents_in(node, header_at(node).entries as nat), l))
    } else {
        match child_for(node, header_at(node).entries as int, l) {
            None => Ok(None),
            Some(idx) => match child_node(img, bs, idx.leaf_block, depth - 1, ctx) {
                Err(e) => Err(e),
                Ok(child) => lookup_in(img, bs, child, (depth - 1) as nat, l, ctx),
            },
        }
    }
}

/// The extent that covers file block `l` in the tree rooted at `root`.
pub open spec fn extent_for(img: Seq<u8>, bs: int, root: Seq<u8>, l: int, ctx: Option<ExtentVerifyCtx>) -> Result<
    Option<Extent>,
> {
    match header_of(root) {
        Err(e) => Err(e),
        Ok(h) => lookup_in(img, bs, root, h.depth as nat, l, ctx),
    }
}

/// Where file block `l` is: nowhere for a hole, nor for a block that was never
/// written.
pub open spec fn block_for(img: Seq<u8>, bs: int, root: Seq<u8>, l: int) -> Result<Option<u64>> {
    match extent_for(img, bs, root, l, None) {
        Err(e) => Err(e),
        Ok(None) => Ok(None),
        Ok(Some(e)) => if e.uninitialized {
            Ok(None)
        } else {
            Ok(Some(e.place(l) as u64))
        },
    }
}

fn find_covering(node: &[u8], entries: u16, l: u64) -> (r: Option<Extent>)
    requires
        12 + 12 * entries <= node@.len(),
    ensures
        r == covering(extents_in(node@, entries as nat), l as int),
{
    let ghost all = extents_in(node@, entries as nat);
    let mut i: u16 = 0;
    assert(all.skip(0) =~= all);
    while i < entries
        invariant
            i <= entries,
            12 + 12 * entries <= node@.len(),
            all == extents_in(node@, entries as nat),
            covering(all, l as int) == covering(all.skip(i as int), l as int),
        decreases entries - i,
    {
        let e: Extent = read_extent(node, 12 + 12 * (i as usize));
        assert(all.skip(i as int)[0] == e);
        assert(all.skip(i as int).drop_first() =~= all.skip(i + 1));
        if e.logical_block as u64 <= l && l < e.logical_block as u64 + e.length as u64 {
            return Some(e);
        }
        i += 1;
    }
    assert(all.skip(i as int) =~= Seq::<Extent>::empty());
    None
}

/// The child to descend to for file block `l`.
pub fn find_child(node: &[u8], entries: u16, l: u64) -> (r: Option<ExtentIdx>)
    requires
        12 + 12 * entries <= node@.len(),
    ensures
        r == child_for(node@, entries as int, l as int),
{
    let mut i: u16 = entries;
    while i > 0
        invariant
            i <= entries,
            12 + 12 * entries <= node@.len(),
            child_for(node@, entries as int, l as int) == child_for(node@, i as int, l as int),
        decreases i,
    {
        let idx: ExtentIdx = ExtentIdx::parse(node, 12 + 12 * ((i - 1) as usize));
        if idx.logical_block as u64 <= l {
            return Some(idx);
        }
        i -= 1;
    }
    None
}

/// Reads a child node and checks that it is one.
pub fn read_child<S: BlockSource>(src: &S, bs: u32, block: u64, depth: u16, ctx: &Option<ExtentVerifyCtx>) -> (r: Result<
    Vec<u8>,
>)
    requires
        bs >= 12,
        src.serves(bs as int),
    ensures
        match r {
            Ok(v) => child_node(src.image(), bs as int, block, depth as int, *ctx) == Ok::<
                Seq<u8>,
                Error,
            >(v@),
            Err(e) => child_node(src.image(), bs as int, block, depth as int, *ctx) == Err::<
                Seq<u8>,
                Error,
            >(e) || (!src.reliable() && e == Error::Io),
        },
{
    let node: Vec<u8> = match src.fetch(bs, block) {
        Ok(v) => v,
        Err(e) => {
            return Err(e);
        },
    };
    if let Some(c) = ctx {
        if c.csum.enabled && !c.csum.verify_extent_tail(c.ino, c.generation, &node) {
            return Err(Error::BadChecksum("extent block"));
        }
    }
    match ExtentHeader::parse(&node) {
        Err(e) => Err(e),
        Ok(h) => if h.depth != depth {
            Err(Error::CorruptExtentTree("extent child depth mismatch"))
        } else {
            Ok(node)
        },
    }
}

/// The extent that covers file block `l`, with each node read on the way
/// verified where `ctx` says whose tree this is.
pub fn lookup_verified<S: BlockSource>(
    root: &[u8],
    src: &S,
    bs: u32,
    l: u64,
    ctx: Option<ExtentVerifyCtx>,
) -> (r: Result<Option<Extent>>)
    requires
        bs >= 12,
        src.serves(bs as int),
    ensures
        match r {
            Ok(v) => extent_for(src.image(), bs as int, root@, l as int, ctx) == Ok::<
                Option<Extent>,
                Error,
            >(v) && (v matches Some(e) ==> e.covers(l as int) && e.physical_block < 0x1_0000_0000_0000),
            Err(e) => extent_for(src.image(), bs as int, root@, l as int, ctx) == Err::<
                Option<Extent>,
                Error,
            >(e) || (!src.reliable() && e == Error::Io),
        },
{
    let header: ExtentHeader = match ExtentHeader::parse(root) {
        Ok(h) => h,
        Err(e) => {
            return Err(e);
        },
    };
    if header.depth == 0 {
        proof {
            lemma_covering(extents_in(root@, header.entries as nat), l as int);
        }
        return Ok(find_covering(root, header.entries, l));
    }
    let mut block: u64 = match find_child(root, header.entries, l) {
        None => {
            return Ok(None);
        },
        Some(idx) => idx.leaf_block,
    };
    let ghost img = src.image();
    let ghost whole = extent_for(img, bs as int, root@, l as int, ctx);
    let mut depth: u16 = header.depth;
    while depth > 0
        invariant
            bs >= 12,
            src.serves(bs as int),
            img == src.image(),
            whole == extent_for(img, bs as int, root@, l as int, ctx),
            depth > 0 ==> whole == (match child_node(img, bs as int, block, depth - 1, ctx) {
                Err(e) => Err(e),
                Ok(child) => lookup_in(img, bs as int, child, (depth - 1) as nat, l as int, ctx),
            }),
            depth > 0,
        decreases depth,
    {
        let node: Vec<u8> = match read_child(src, bs, block, depth - 1, &ctx) {
            Ok(v) => v,
            Err(e) => {
                return Err(e);
            },
        };
        depth = depth - 1;
        let entries: u16 = get_u16(&node, 2);
        if depth == 0 {
            proof {
                lemma_covering(extents_in(node@, entries as nat), l as int);
            }
            return Ok(find_covering(&node, entries, l));
        }
        match find_child(&node, entries, l) {
            None => {
                return Ok(None);
            },
            Some(idx) => {
                block = idx.leaf_block;
            },
        }
    }
    Ok(None)
}

proof fn lemma_covering(extents: Seq<Extent>, l: int)
    requires
        forall|i: int| 0 <= i < extents.len() ==> (#[trigger] extents[i]).physical_block < 0x1_0000_0000_0000,
    ensures
        covering(extents, l) matches Some(e) ==> e.covers(l) && e.physical_block < 0x1_0000_0000_0000,
    decreases extents.len(),
{
    if extents.len() > 0 {
        let rest = extents.drop_first();
        assert forall|i: int| 0 <= i < rest.len() implies (#[trigger] rest[i]).physical_block
            < 0x1_0000_0000_0000 by {
            assert(rest[i] == extents[i + 1]);
        }
        lemma_covering(rest, l);
    }
}

/// The extent that covers file block `l`.
pub fn lookup<S: BlockSource>(root: &[u8], src: &S, bs: u32, l: u64) -> (r: Result<Option<Extent>>)
    requires
        bs >= 12,
        src.serves(bs as int),
    ensures
        match r {
            Ok(v) => extent_for(src.image(), bs as int, root@, l as int, None) == Ok::<
                Option<Extent>,
                Error,
            >(v) && (v matches Some(e) ==> e.covers(l as int) && e.physical_block < 0x1_0000_0000_0000),
            Err(e) => extent_for(src.image(), bs as int, root@, l as int, None) == Err::<
                Option<Extent>,
                Error,
            >(e) || (!src.reliable() && e == Error::Io),
        },
{
    lookup_verified(root, src, bs, l, None)
}

/// Where file block `l` is; `None` for a hole and for a block that was never
/// written.
pub fn map_logical<S: BlockSource>(root: &[u8], src: &S, bs: u32, l: u64) -> (r: Result<Option<u64>>)
    requires
        bs >= 12,
        src.serves(bs as int),
    ensures
        match r {
            Ok(v) => block_for(src.image(), bs as int, root@, l as int) == Ok::<Option<u64>, Error>(
                v,
            ),
            Err(e) => block_for(src.image(), bs as int, root@, l as int) == Err::<Option<u64>, Error>(
                e,
            ) || (!src.reliable() && e == Error::Io),
        },
{
    match lookup(root, src, bs, l) {
        Err(e) => Err(e),
        Ok(None) => Ok(None),
        Ok(Some(e)) => if e.uninitialized {
            Ok(None)
        } else {
            Ok(Some(e.map(l)))
        },
    }
}

// -- the whole tree ---------------------------------------------------------

/// Every extent under `node`, which is `depth` levels above the leaves.
pub open spec fn all_extents(img: Seq<u8>, bs: int, node: Seq<u8>, depth: nat) -> Result<Seq<Extent>>
    decreases depth, 0x1_0000int,
{
    if depth == 0 {
        Ok(extents_in(node, header_at(node).entries as nat))
    } else {
        children_extents(img, bs, node, depth, header_at(node).entries as nat)
    }
}

/// Every extent under the first `n` children of `node`.
pub open spec fn children_extents(img: Seq<u8>, bs: int, node: Seq<u8>, depth: nat, n: nat) -> Result<
    Seq<Extent>,
>
    decreases depth, n,
{
    if n == 0 {
        Ok(Seq::empty())
    } else if depth == 0 {
        Ok(Seq::empty())
    } else {
        match children_extents(img, bs, node, depth, (n - 1) as nat) {
            Err(e) => Err(e),
            Ok(before) => match child_node(
                img,
                bs,
                index_at(node, 12 + 12 * (n - 1)).leaf_block,
                depth - 1,
                None,
            ) {
                Err(e) => Err(e),
                Ok(child) => match all_extents(img, bs, child, (depth - 1) as nat) {
                    Err(e) => Err(e),
                    Ok(these) => Ok(before + these),
                },
            },
        }
    }
}

/// Every extent of the tree rooted at `root`.
pub open spec fn extents_of(img: Seq<u8>, bs: int, root: Seq<u8>) -> Result<Seq<Extent>> {
    match header_of(root) {
        Err(e) => Err(e),
        Ok(h) => all_extents(img, bs, root, h.depth as nat),
    }
}

fn push_extents(out: &mut Vec<Extent>, node: &[u8], entries: u16)
    requires
        12 + 12 * entries <= node@.len(),
    ensures
        final(out)@ == old(out)@ + extents_in(node@, entries as nat),
{
    let ghost before = out@;
    let mut i: u16 = 0;
    assert(before + extents_in(node@, 0) =~= before);
    while i < entries
        invariant
            i <= entries,
            12 + 12 * entries <= node@.len(),
            out@ == before + extents_in(node@, i as nat),
        decreases entries - i,
    {
        out.push(read_extent(node, 12 + 12 * (i as usize)));
        i += 1;
        assert(out@ =~= before + extents_in(node@, i as nat));
    }
}

fn collect_under<S: BlockSource>(src: &S, bs: u32, node: &[u8], depth: u16) -> (r: Result<Vec<Extent>>)
    requires
        bs >= 12,
        src.serves(bs as int),
        header_of(node@) is Ok,
    ensures
        match r {
            Ok(v) => all_extents(src.image(), bs as int, node@, depth as nat) == Ok::<
                Seq<Extent>,
                Error,
            >(v@),
            Err(e) => all_extents(src.image(), bs as int, node@, depth as nat) == Err::<
                Seq<Extent>,
                Error,
            >(e) || (!src.reliable() && e == Error::Io),
        },
    decreases depth,
{
    let mut out: Vec<Extent> = Vec::new();
    let entries: u16 = get_u16(node, 2);
    if depth == 0 {
        push_extents(&mut out, node, entries);
        assert(out@ =~= extents_in(node@, entries as nat));
        return Ok(out);
    }
    let ghost img = src.image();
    let ghost whole = all_extents(img, bs as int, node@, depth as nat);
    let mut i: u16 = 0;
    proof {
        assert(out@ =~= Seq::<Extent>::empty());
    }
    while i < entries
        invariant
            bs >= 12,
            src.serves(bs as int),
            depth > 0,
            i <= entries,
            img == src.image(),
            header_of(node@) is Ok,
            entries == le16(node@, 2),
            whole == all_extents(img, bs as int, node@, depth as nat),
            children_extents(img, bs as int, node@, depth as nat, i as nat) == Ok::<Seq<Extent>, Error>(
                out@,
            ),
        decreases entries - i,
    {
        let ghost before = children_extents(img, bs as int, node@, depth as nat, i as nat);
        let idx: ExtentIdx = ExtentIdx::parse(node, 12 + 12 * (i as usize));
        let child: Vec<u8> = match read_child(src, bs, idx.leaf_block, depth - 1, &None) {
            Ok(v) => v,
            Err(e) => {
                proof {
                    lemma_child_error(
                        img,
                        bs as int,
                        node@,
                        depth as nat,
                        (i + 1) as nat,
                        entries as nat,
                        e,
                    );
                }
                return Err(e);
            },
        };
        let mut these: Vec<Extent> = match collect_under(src, bs, &child, depth - 1) {
            Ok(v) => v,
            Err(e) => {
                proof {
                    lemma_child_error(
                        img,
                        bs as int,
                        node@,
                        depth as nat,
                        (i + 1) as nat,
                        entries as nat,
                        e,
                    );
                }
                return Err(e);
            },
        };
        out.append(&mut these);
        i += 1;
    }
    Ok(out)
}

proof fn lemma_child_error(img: Seq<u8>, bs: int, node: Seq<u8>, depth: nat, i: nat, n: nat, e: Error)
    requires
        depth > 0,
        i <= n,
    ensures
        children_extents(img, bs, node, depth, i) == Err::<Seq<Extent>, Error>(e) ==> children_extents(
            img,
            bs,
            node,
            depth,
            n,
        ) == Err::<Seq<Extent>, Error>(e),
    decreases n,
{
    if i < n {
        lemma_child_error(img, bs, node, depth, i, (n - 1) as nat, e);
    }
}

proof fn lemma_all_short(img: Seq<u8>, bs: int, node: Seq<u8>, depth: nat)
    ensures
        all_extents(img, bs, node, depth) matches Ok(s) ==> forall|i: int|
            0 <= i < s.len() ==> (#[trigger] s[i]).length <= 32768 && s[i].physical_block < 0x1_0000_0000_0000
                && (s[i].uninitialized ==> s[i].length <= 32767),
    decreases depth, 0x1_0000int,
{
    if depth > 0 {
        lemma_children_short(img, bs, node, depth, header_at(node).entries as nat);
    }
}

proof fn lemma_children_short(img: Seq<u8>, bs: int, node: Seq<u8>, depth: nat, n: nat)
    ensures
        children_extents(img, bs, node, depth, n) matches Ok(s) ==> forall|i: int|
            0 <= i < s.len() ==> (#[trigger] s[i]).length <= 32768 && s[i].physical_block < 0x1_0000_0000_0000
                && (s[i].uninitialized ==> s[i].length <= 32767),
    decreases depth, n,
{
    if n > 0 && depth > 0 {
        lemma_children_short(img, bs, node, depth, (n - 1) as nat);
        let idx = index_at(node, 12 + 12 * (n - 1));
        if let Ok(child) = child_node(img, bs, idx.leaf_block, depth - 1, None) {
            lemma_all_short(img, bs, child, (depth - 1) as nat);
        }
    }
}

/// No stored extent is longer, nor placed further out, than the format allows.
pub proof fn lemma_extents_short(img: Seq<u8>, bs: int, root: Seq<u8>)
    ensures
        extents_of(img, bs, root) matches Ok(s) ==> forall|i: int|
            0 <= i < s.len() ==> (#[trigger] s[i]).length <= 32768 && s[i].physical_block < 0x1_0000_0000_0000
                && (s[i].uninitialized ==> s[i].length <= 32767),
{
    if let Ok(h) = header_of(root) {
        lemma_all_short(img, bs, root, h.depth as nat);
    }
}

/// Every extent of a tree, in tree order.
pub fn collect_all<S: BlockSource>(root: &[u8], src: &S, bs: u32) -> (r: Result<Vec<Extent>>)
    requires
        bs >= 12,
        src.serves(bs as int),
    ensures
        match r {
            Ok(v) => extents_of(src.image(), bs as int, root@) == Ok::<Seq<Extent>, Error>(v@),
            Err(e) => extents_of(src.image(), bs as int, root@) == Err::<Seq<Extent>, Error>(e) || (
            !src.reliable() && e == Error::Io),
        },
{
    match ExtentHeader::parse(root) {
        Err(e) => Err(e),
        Ok(h) => collect_under(src, bs, root, h.depth),
    }
}

} // verus!
