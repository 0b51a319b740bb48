//! What growing an extent tree adds to it.
use crate::block_io::{block_at, lemma_with_block};
use crate::bytes::{le16, le32, zeros};
use crate::checksum::{extent_crc_ok, extent_tail_at};
use crate::error::Error;
use crate::extent::{
    child_for, child_node, extents_in, header_at, header_of, index_at, node_ok, Extent, ExtentHeader, ExtentIdx,
    ExtentVerifyCtx, EXT4_EXT_MAGIC,
};
use crate::extent_laws::{holds, law_insert_adds_the_new_mapping, lemma_inserted_storable, maps_to};
use crate::extent_mut::{
    all_storable, block_capacity, deep_insert, index_bytes, index_inserted, index_pos, indexes_in, inserted,
    leaf_insert, leaf_path, lowered, node_bytes, promoted, split_leaf, storable, with_header, with_indexes, DeepInsertView,
};
use crate::grow::{node_stamped, stage_nodes};
use crate::tree_laws::{child_at, leaf_maps, tree_maps, tree_node};
use crate::volume::{Stage, Vol};
use vstd::prelude::*;

verus! {

broadcast use crate::bytes::group_fields;

/// An extent puts file block `l` at device block `p`.
pub open spec fn puts(e: Extent, l: int, p: int) -> bool {
    e.covers(l) && e.place(l) == p
}

/// Some entry of an index node leads to block `b`.
pub open spec fn points_to(node: Seq<u8>, b: u64) -> bool {
    exists|i: int| 0 <= i < header_at(node).entries && (#[trigger] index_at(node, 12 + 12 * i)).leaf_block == b
}

/// An index node with at most one child more.
pub open spec fn one_child_more(before: Seq<u8>, after: Seq<u8>, extra: Option<u64>) -> bool {
    forall|j: int|
        0 <= j < header_at(after).entries ==> extra == Some((#[trigger] index_at(after, 12 + 12 * j)).leaf_block)
            || points_to(before, index_at(after, 12 + 12 * j).leaf_block)
}

/// A leaf that maps nothing but what another maps and what `new` adds.
pub open spec fn maps_within(node: Seq<u8>, leaf: Seq<u8>, new: Extent) -> bool {
    forall|l: int, p: int| #[trigger] leaf_maps(node, l, p) ==> leaf_maps(leaf, l, p) || puts(new, l, p)
}

/// Block `at`, if it is a node, is a leaf that maps nothing but what `leaf`
/// maps and what `new` adds.
pub open spec fn is_grown_leaf(img: Seq<u8>, bs: int, at: u64, leaf: Seq<u8>, new: Extent) -> bool {
    block_at(img, bs, at as int) matches Ok(b) ==> header_of(b) is Ok ==> header_at(b).depth == 0 && maps_within(
        b,
        leaf,
        new,
    )
}

/// One image is another with a leaf rewritten, perhaps split in two, and the
/// node above it told.
pub open spec fn regrown(
    img: Seq<u8>,
    other: Seq<u8>,
    bs: int,
    at: u64,
    leaf: Seq<u8>,
    above: Option<u64>,
    parent: Seq<u8>,
    spare: Option<u64>,
    new: Extent,
) -> bool {
    &&& forall|k: int|
        k >= 0 && k != at && !(above matches Some(a) && a == k) && !(spare matches Some(s) && s == k)
            ==> #[trigger] block_at(other, bs, k) == block_at(img, bs, k)
    &&& child_node(img, bs, at, 0, None) == Ok::<Seq<u8>, Error>(leaf)
    &&& is_grown_leaf(other, bs, at, leaf, new)
    &&& spare matches Some(s) ==> is_grown_leaf(other, bs, s, leaf, new) && points_to(parent, at)
    &&& above matches Some(a) ==> {
        &&& spare is Some
        &&& child_node(img, bs, a, 1, None) == Ok::<Seq<u8>, Error>(parent)
        &&& block_at(other, bs, a as int) matches Ok(b) ==> header_of(b) is Ok ==> header_at(b).depth == 1
            && one_child_more(parent, b, spare)
    }
}

pub(crate) proof fn lemma_points_within(img: Seq<u8>, bs: int, node: Seq<u8>, depth: nat, b: u64)
    requires
        depth > 0,
        points_to(node, b),
    ensures
        tree_node(img, bs, node, depth, b as int),
{
    let i = choose|i: int| 0 <= i < header_at(node).entries && (#[trigger] index_at(node, 12 + 12 * i)).leaf_block == b;
    assert(index_at(node, 12 + 12 * i).leaf_block == b as int || (child_at(img, bs, node, depth, i) is Ok && tree_node(
        img,
        bs,
        child_at(img, bs, node, depth, i)->Ok_0,
        (depth - 1) as nat,
        b as int,
    )));
}

/// The node above the rewritten leaf leads to nothing new but the new leaf.
proof fn lemma_parent_grown(
    img: Seq<u8>,
    other: Seq<u8>,
    bs: int,
    at: u64,
    leaf: Seq<u8>,
    above: Option<u64>,
    parent: Seq<u8>,
    spare: Option<u64>,
    new: Extent,
    node: Seq<u8>,
    after: Seq<u8>,
)
    requires
        regrown(img, other, bs, at, leaf, above, parent, spare, new),
        one_child_more(node, after, spare),
        spare is Some ==> points_to(node, at),
        spare matches Some(s) ==> !tree_node(img, bs, node, 1, s as int),
    ensures
        forall|l: int, p: int| #[trigger]
            tree_maps(other, bs, after, 1, l, p) ==> tree_maps(img, bs, node, 1, l, p) || puts(new, l, p),
        forall|k: int| #[trigger]
            tree_node(other, bs, after, 1, k) ==> tree_node(img, bs, node, 1, k) || (spare matches Some(s) && s == k),
{
    reveal_with_fuel(tree_maps, 2);
    reveal_with_fuel(tree_node, 2);
    assert forall|l: int, p: int| #[trigger] tree_maps(other, bs, after, 1, l, p) implies tree_maps(
        img,
        bs,
        node,
        1,
        l,
        p,
    ) || puts(new, l, p) by {
        let j = choose|j: int|
            0 <= j < header_at(after).entries && (#[trigger] child_at(other, bs, after, 1, j)) is Ok && tree_maps(
                other,
                bs,
                child_at(other, bs, after, 1, j)->Ok_0,
                0,
                l,
                p,
            );
        let b = index_at(after, 12 + 12 * j).leaf_block;
        let c = child_at(other, bs, after, 1, j)->Ok_0;
        assert(leaf_maps(c, l, p));
        let from = if spare == Some(b) {
            at
        } else {
            b
        };
        assert(points_to(node, from));
        let i = choose|i: int|
            0 <= i < header_at(node).entries && (#[trigger] index_at(node, 12 + 12 * i)).leaf_block == from;
        if spare == Some(b) {
            assert(child_at(img, bs, node, 1, i) == Ok::<Seq<u8>, Error>(leaf));
            assert(leaf_maps(leaf, l, p) || puts(new, l, p));
        } else if b == at {
            assert(child_at(img, bs, node, 1, i) == Ok::<Seq<u8>, Error>(leaf));
            assert(leaf_maps(leaf, l, p) || puts(new, l, p));
        } else {
            assert(above != Some(b));
            assert(block_at(other, bs, b as int) == block_at(img, bs, b as int));
            assert(child_at(img, bs, node, 1, i) == Ok::<Seq<u8>, Error>(c));
        }
    }
    assert forall|k: int| #[trigger] tree_node(other, bs, after, 1, k) implies tree_node(img, bs, node, 1, k) || (
    spare matches Some(s) && s == k) by {
        let j = choose|j: int|
            0 <= j < header_at(after).entries && (index_at(after, 12 + 12 * j).leaf_block == k || ((
            #[trigger] child_at(other, bs, after, 1, j)) is Ok && tree_node(
                other,
                bs,
                child_at(other, bs, after, 1, j)->Ok_0,
                0,
                k,
            )));
        let b = index_at(after, 12 + 12 * j).leaf_block;
        assert(b == k);
        if spare != Some(b) {
            lemma_points_within(img, bs, node, 1, b);
        }
    }
}

/// A tree whose leaf was rewritten maps nothing new but what the new extent
/// adds, and has no new node but the spare block.
proof fn lemma_tree_grown(
    img: Seq<u8>,
    other: Seq<u8>,
    bs: int,
    at: u64,
    leaf: Seq<u8>,
    above: Option<u64>,
    parent: Seq<u8>,
    spare: Option<u64>,
    new: Extent,
    node: Seq<u8>,
    depth: nat,
)
    requires
        regrown(img, other, bs, at, leaf, above, parent, spare, new),
        spare matches Some(s) ==> !tree_node(img, bs, node, depth, s as int),
        depth > 0,
    ensures
        forall|l: int, p: int| #[trigger]
            tree_maps(other, bs, node, depth, l, p) ==> tree_maps(img, bs, node, depth, l, p) || puts(new, l, p),
        forall|k: int| #[trigger]
            tree_node(other, bs, node, depth, k) ==> tree_node(img, bs, node, depth, k) || (spare matches Some(s) && s
                == k),
    decreases depth,
{
    assert forall|l: int, p: int| #[trigger] tree_maps(other, bs, node, depth, l, p) implies tree_maps(
        img,
        bs,
        node,
        depth,
        l,
        p,
    ) || puts(new, l, p) by {
        let j = choose|j: int|
            0 <= j < header_at(node).entries && (#[trigger] child_at(other, bs, node, depth, j)) is Ok && tree_maps(
                other,
                bs,
                child_at(other, bs, node, depth, j)->Ok_0,
                (depth - 1) as nat,
                l,
                p,
            );
        lemma_child_grown(img, other, bs, at, leaf, above, parent, spare, new, node, depth, j);
        let c = child_at(other, bs, node, depth, j)->Ok_0;
        assert(tree_maps(other, bs, c, (depth - 1) as nat, l, p));
        if !puts(new, l, p) {
            assert(tree_maps(img, bs, child_at(img, bs, node, depth, j)->Ok_0, (depth - 1) as nat, l, p));
        }
    }
    assert forall|k: int| #[trigger] tree_node(other, bs, node, depth, k) implies tree_node(img, bs, node, depth, k) || (
    spare matches Some(s) && s == k) by {
        let j = choose|j: int|
            0 <= j < header_at(node).entries && (index_at(node, 12 + 12 * j).leaf_block == k || ((
            #[trigger] child_at(other, bs, node, depth, j)) is Ok && tree_node(
                other,
                bs,
                child_at(other, bs, node, depth, j)->Ok_0,
                (depth - 1) as nat,
                k,
            )));
        if index_at(node, 12 + 12 * j).leaf_block == k {
            lemma_points_within(img, bs, node, depth, k as u64);
        } else {
            lemma_child_grown(img, other, bs, at, leaf, above, parent, spare, new, node, depth, j);
            let c = child_at(other, bs, node, depth, j)->Ok_0;
            assert(tree_node(other, bs, c, (depth - 1) as nat, k));
        }
    }
}

/// The same of one child.
proof fn lemma_child_grown(
    img: Seq<u8>,
    other: Seq<u8>,
    bs: int,
    at: u64,
    leaf: Seq<u8>,
    above: Option<u64>,
    parent: Seq<u8>,
    spare: Option<u64>,
    new: Extent,
    node: Seq<u8>,
    depth: nat,
    j: int,
)
    requires
        regrown(img, other, bs, at, leaf, above, parent, spare, new),
        spare matches Some(s) ==> !tree_node(img, bs, node, depth, s as int),
        depth > 0,
        0 <= j < header_at(node).entries,
        child_at(other, bs, node, depth, j) is Ok,
    ensures
        child_at(img, bs, node, depth, j) is Ok,
        forall|l: int, p: int| #[trigger]
            tree_maps(other, bs, child_at(other, bs, node, depth, j)->Ok_0, (depth - 1) as nat, l, p) ==> tree_maps(
                img,
                bs,
                child_at(img, bs, node, depth, j)->Ok_0,
                (depth - 1) as nat,
                l,
                p,
            ) || puts(new, l, p),
        forall|k: int| #[trigger]
            tree_node(other, bs, child_at(other, bs, node, depth, j)->Ok_0, (depth - 1) as nat, k) ==> tree_node(
                img,
                bs,
                child_at(img, bs, node, depth, j)->Ok_0,
                (depth - 1) as nat,
                k,
            ) || (spare matches Some(s) && s == k),
    decreases depth, 0int,
{
    let b = index_at(node, 12 + 12 * j).leaf_block;
    let c = child_at(other, bs, node, depth, j)->Ok_0;
    assert(points_to(node, b));
    lemma_points_within(img, bs, node, depth, b);
    assert(spare != Some(b));
    if b == at {
        assert(depth == 1);
        assert(child_at(img, bs, node, depth, j) == Ok::<Seq<u8>, Error>(leaf));
        assert forall|l: int, p: int| #[trigger] tree_maps(other, bs, c, 0, l, p) implies tree_maps(img, bs, leaf, 0, l, p)
            || puts(new, l, p) by {
            assert(leaf_maps(c, l, p));
        }
    } else if above == Some(b) {
        assert(depth == 2);
        assert(child_at(img, bs, node, depth, j) == Ok::<Seq<u8>, Error>(parent));
        assert(spare matches Some(s) ==> !tree_node(img, bs, parent, 1, s as int));
        lemma_parent_grown(img, other, bs, at, leaf, above, parent, spare, new, parent, c);
    } else {
        assert(block_at(other, bs, b as int) == block_at(img, bs, b as int));
        assert(child_at(img, bs, node, depth, j) == Ok::<Seq<u8>, Error>(c));
        if depth > 1 {
            lemma_tree_grown(img, other, bs, at, leaf, above, parent, spare, new, c, (depth - 1) as nat);
        }
    }
}

// -- nodes as they are written ----------------------------------------------

proof fn lemma_indexes(s: Seq<u8>, idxs: Seq<ExtentIdx>)
    requires
        12 + 12 * idxs.len() <= s.len(),
        forall|i: int| 0 <= i < idxs.len() ==> (#[trigger] idxs[i]).leaf_block < 0x1_0000_0000_0000,
    ensures
        with_indexes(s, idxs).len() == s.len(),
        forall|j: int| 0 <= j < 12 ==> with_indexes(s, idxs)[j] == s[j],
        forall|i: int| 0 <= i < idxs.len() ==> #[trigger] index_at(with_indexes(s, idxs), 12 + 12 * i) == idxs[i],
    decreases idxs.len(),
{
    if idxs.len() > 0 {
        let shorter = idxs.drop_last();
        let before = with_indexes(s, shorter);
        let n = idxs.len() - 1;
        lemma_indexes(s, shorter);
        let out = with_indexes(s, idxs);
        assert forall|i: int| 0 <= i < idxs.len() implies #[trigger] index_at(out, 12 + 12 * i) == idxs[i] by {
            if i < n {
                assert(index_at(before, 12 + 12 * i) == shorter[i]);
            }
        }
    }
}

/// An index node that was laid out leads to the children it was given.
pub(crate) proof fn lemma_index_fields(h: ExtentHeader, idxs: Seq<ExtentIdx>, len: nat)
    requires
        12 + 12 * idxs.len() <= len,
        idxs.len() <= u16::MAX,
        forall|i: int| 0 <= i < idxs.len() ==> (#[trigger] idxs[i]).leaf_block < 0x1_0000_0000_0000,
    ensures
        ({
            let b = index_bytes(h, idxs, len);
            &&& b.len() == len
            &&& header_at(b) == (ExtentHeader {
                magic: EXT4_EXT_MAGIC,
                entries: idxs.len() as u16,
                max: h.max,
                depth: h.depth,
                generation: h.generation,
            })
            &&& forall|i: int| 0 <= i < idxs.len() ==> #[trigger] index_at(b, 12 + 12 * i) == idxs[i]
        }),
{
    let base = with_header(zeros(len), idxs.len() as u16, h.max, h.depth, h.generation);
    lemma_indexes(base, idxs);
    let b = index_bytes(h, idxs, len);
    assert(le16(b, 0) == le16(base, 0) && le16(b, 2) == le16(base, 2) && le16(b, 4) == le16(base, 4) && le16(b, 6) == le16(
        base,
        6,
    ) && le32(b, 8) == le32(base, 8)) by {
        reveal(le16);
        reveal(le32);
    }
}

/// A leaf that was laid out holds the extents it was given.
pub(crate) proof fn lemma_leaf_fields(h: ExtentHeader, extents: Seq<Extent>, len: nat)
    requires
        12 + 12 * extents.len() <= len,
        extents.len() <= u16::MAX,
        all_storable(extents),
    ensures
        ({
            let b = node_bytes(h, extents, len);
            &&& b.len() == len
            &&& header_at(b) == (ExtentHeader {
                magic: EXT4_EXT_MAGIC,
                entries: extents.len() as u16,
                max: h.max,
                depth: h.depth,
                generation: h.generation,
            })
            &&& extents_in(b, extents.len()) == extents
        }),
{
    let base = with_header(zeros(len), extents.len() as u16, h.max, h.depth, h.generation);
    crate::extent_mut::lemma_with_extents(base, extents);
    let b = node_bytes(h, extents, len);
    assert(le16(b, 0) == le16(base, 0) && le16(b, 2) == le16(base, 2) && le16(b, 4) == le16(base, 4) && le16(b, 6) == le16(
        base,
        6,
    ) && le32(b, 8) == le32(base, 8)) by {
        reveal(le16);
        reveal(le32);
    }
    assert(extents_in(b, extents.len()) =~= extents);
}

/// Stamping a node changes none of its entries, and a stamped node with room
/// for its checksum verifies.
pub(crate) proof fn lemma_node_stamped(v: Vol, ino: u32, generation: u32, b: Seq<u8>)
    ensures
        ({
            let out = node_stamped(v, ino, generation, b);
            &&& out.len() == b.len()
            &&& header_at(b).entries <= header_at(b).max && 12 <= b.len() && 12 + 12 * header_at(b).max <= b.len() ==> {
                &&& header_at(out) == header_at(b)
                &&& header_of(out) == header_of(b)
                &&& extents_in(out, header_at(b).entries as nat) == extents_in(b, header_at(b).entries as nat)
                &&& forall|i: int|
                    0 <= i < header_at(b).entries ==> #[trigger] index_at(out, 12 + 12 * i) == index_at(b, 12 + 12 * i)
            }
            &&& header_of(out) is Ok ==> header_of(b) is Ok
            &&& v.csum.enabled && 12 <= b.len() && 12 + 12 * header_at(b).max + 4 <= b.len() ==> extent_crc_ok(
                v.csum.seed,
                ino,
                generation,
                out,
            )
        }),
{
    let at = extent_tail_at(b);
    let out = node_stamped(v, ino, generation, b);
    if v.csum.enabled && at + 4 <= b.len() {
        assert(le16(out, 4) == le16(b, 4));
        assert(out.subrange(0, at) =~= b.subrange(0, at));
        if header_at(b).entries <= header_at(b).max {
            assert(extents_in(out, header_at(b).entries as nat) =~= extents_in(b, header_at(b).entries as nat));
        }
    }
}

/// Every extent that was read can be stored.
pub(crate) proof fn lemma_read_storable(node: Seq<u8>, n: nat)
    ensures
        all_storable(extents_in(node, n)),
{
}

pub(crate) proof fn lemma_inserted_len(entries: Seq<Extent>, new: Extent)
    ensures
        inserted(entries, new).len() <= entries.len() + 1,
        inserted(entries, new).len() >= 1,
{
    let pos = crate::extent_mut::insert_pos(entries, new, 0);
    crate::extent_laws::lemma_insert_pos(entries, new, 0);
    let placed = entries.insert(pos, new);
    assert(placed.len() == entries.len() + 1);
    let left = if pos > 0 && crate::extent_mut::mergeable(placed[pos - 1], placed[pos]) {
        crate::extent_mut::merge_at(placed, pos - 1)
    } else {
        placed
    };
    assert(left.len() >= 1);
    crate::extent_laws::lemma_holder_pos(left, new, 0);
}

/// A leaf that holds some of a list's extents, where the list is another
/// leaf's with `new` in it, maps nothing but what that leaf maps and what `new`
/// adds.
proof fn lemma_part_within(node: Seq<u8>, part: Seq<Extent>, whole: Seq<Extent>, leaf: Seq<u8>, new: Extent)
    requires
        extents_in(node, header_at(node).entries as nat) == part,
        whole == inserted(extents_in(leaf, header_at(leaf).entries as nat), new),
        forall|i: int| 0 <= i < part.len() ==> whole.contains(#[trigger] part[i]),
    ensures
        maps_within(node, leaf, new),
{
    assert forall|l: int, p: int| #[trigger] leaf_maps(node, l, p) implies leaf_maps(leaf, l, p) || puts(new, l, p) by {
        let i = choose|i: int|
            0 <= i < header_at(node).entries && (#[trigger] extents_in(node, header_at(node).entries as nat)[i]).covers(l)
                && extents_in(node, header_at(node).entries as nat)[i].place(l) == p;
        let e = part[i];
        assert(whole.contains(e));
        let j = choose|j: int| 0 <= j < whole.len() && whole[j] == e;
        assert(holds(whole[j], l, p, e.uninitialized));
        assert(maps_to(whole, l, p, e.uninitialized));
        let entries = extents_in(leaf, header_at(leaf).entries as nat);
        law_insert_adds_the_new_mapping(entries, new, l, p, e.uninitialized);
        if maps_to(entries, l, p, e.uninitialized) {
            let x = choose|x: int| 0 <= x < entries.len() && holds(#[trigger] entries[x], l, p, e.uninitialized);
            assert(extents_in(leaf, header_at(leaf).entries as nat)[x].covers(l));
        }
    }
}

// -- an insertion -----------------------------------------------------------

/// Whose tree is verified, if it is: the file's own.
pub open spec fn own_ctx(v: Vol, ino: u32, generation: u32, ctx: Option<ExtentVerifyCtx>) -> bool {
    ctx matches Some(c) ==> c == (ExtentVerifyCtx { ino, generation, csum: v.csum })
}

/// Every node of a tree may be trusted.
pub open spec fn trusted(img: Seq<u8>, bs: int, root: Seq<u8>, ctx: Option<ExtentVerifyCtx>) -> bool {
    forall|k: int| #[trigger]
        tree_node(img, bs, root, header_at(root).depth as nat, k) ==> (block_at(img, bs, k) matches Ok(b) ==> node_ok(
            ctx,
            b,
        ))
}

pub(crate) proof fn lemma_nodes_written(v: Vol, st: Stage, ino: u32, generation: u32, writes: Seq<(u64, Seq<u8>)>)
    requires
        v.wf(),
        st.img.len() == v.img.len(),
        forall|i: int| 0 <= i < writes.len() ==> (#[trigger] writes[i]).1.len() == v.bs(),
        forall|i: int, j: int| 0 <= i < j < writes.len() ==> (#[trigger] writes[i]).0 != (#[trigger] writes[j]).0,
        stage_nodes(v, st, ino, generation, writes) is Ok,
    ensures
        ({
            let after = stage_nodes(v, st, ino, generation, writes)->Ok_0;
            &&& after.img.len() == st.img.len()
            &&& after.cleared == st.cleared
            &&& forall|i: int|
                0 <= i < writes.len() ==> block_at(after.img, v.bs(), (#[trigger] writes[i]).0 as int) == Ok::<
                    Seq<u8>,
                    Error,
                >(node_stamped(v, ino, generation, writes[i].1))
            &&& forall|k: int|
                k >= 0 && (forall|i: int| 0 <= i < writes.len() ==> (#[trigger] writes[i]).0 != k)
                    ==> #[trigger] block_at(after.img, v.bs(), k) == block_at(st.img, v.bs(), k)
        }),
    decreases writes.len(),
{
    if writes.len() > 0 {
        let shorter = writes.drop_last();
        assert forall|i: int| 0 <= i < shorter.len() implies (#[trigger] shorter[i]).1.len() == v.bs() by {
            assert(shorter[i] == writes[i]);
        }
        assert forall|i: int, j: int| 0 <= i < j < shorter.len() implies (#[trigger] shorter[i]).0 != (
        #[trigger] shorter[j]).0 by {
            assert(shorter[i] == writes[i] && shorter[j] == writes[j]);
        }
        lemma_nodes_written(v, st, ino, generation, shorter);
        let before = stage_nodes(v, st, ino, generation, shorter)->Ok_0;
        let after = stage_nodes(v, st, ino, generation, writes)->Ok_0;
        let (n, b) = writes.last();
        let out = node_stamped(v, ino, generation, b);
        assert(writes[writes.len() - 1] == (n, b));
        lemma_node_stamped(v, ino, generation, b);
        assert forall|k: int| k >= 0 implies #[trigger] block_at(after.img, v.bs(), k) == (if k == n {
            Ok(out)
        } else {
            block_at(before.img, v.bs(), k)
        }) by {
            lemma_with_block(before.img, v.bs(), n as int, out, k);
        }
        assert forall|i: int| 0 <= i < writes.len() implies block_at(
            after.img,
            v.bs(),
            (#[trigger] writes[i]).0 as int,
        ) == Ok::<Seq<u8>, Error>(node_stamped(v, ino, generation, writes[i].1)) by {
            if i < shorter.len() {
                assert(shorter[i] == writes[i]);
                assert(writes[i].0 != n);
            }
        }
        assert forall|k: int|
            k >= 0 && (forall|i: int| 0 <= i < writes.len() ==> (#[trigger] writes[i]).0 != k) implies #[trigger] block_at(
            after.img,
            v.bs(),
            k,
        ) == block_at(st.img, v.bs(), k) by {
            assert forall|i: int| 0 <= i < shorter.len() implies (#[trigger] shorter[i]).0 != k by {
                assert(shorter[i] == writes[i]);
            }
            assert(k != n);
        }
    }
}

/// The leaf at the end of a path is a node of the tree, below the node that
/// the path gives for it.
pub(crate) proof fn lemma_leaf_path(img: Seq<u8>, bs: int, node: Seq<u8>, block: Option<u64>, depth: nat, l: int)
    requires
        depth > 0,
        leaf_path(img, bs, node, block, depth, l) is Ok,
    ensures
        ({
            let p = leaf_path(img, bs, node, block, depth, l)->Ok_0;
            &&& child_node(img, bs, p.leaf_block, 0, None) == Ok::<Seq<u8>, Error>(p.leaf)
            &&& points_to(p.parent, p.leaf_block)
            &&& tree_node(img, bs, node, depth, p.leaf_block as int)
            &&& depth == 1 ==> p.parent == node && p.parent_block == block
            &&& depth > 1 ==> {
                &&& p.parent_block is Some
                &&& child_node(img, bs, p.parent_block->Some_0, 1, None) == Ok::<Seq<u8>, Error>(p.parent)
                &&& tree_node(img, bs, node, depth, p.parent_block->Some_0 as int)
            }
        }),
    decreases depth,
{
    let n = header_at(node).entries as int;
    let p = leaf_path(img, bs, node, block, depth, l)->Ok_0;
    let i = crate::tree_laws::lemma_child_index(node, n, l);
    let b = index_at(node, 12 + 12 * i).leaf_block;
    assert(points_to(node, b));
    lemma_points_within(img, bs, node, depth, b);
    if depth > 1 {
        let child = child_at(img, bs, node, depth, i)->Ok_0;
        lemma_leaf_path(img, bs, child, Some(b), (depth - 1) as nat, l);
        lemma_under(img, bs, node, depth, i, p.leaf_block as int);
        if depth > 2 {
            lemma_under(img, bs, node, depth, i, p.parent_block->Some_0 as int);
        }
    }
}

/// A node under a child is a node under its parent.
pub(crate) proof fn lemma_under(img: Seq<u8>, bs: int, node: Seq<u8>, depth: nat, i: int, k: int)
    requires
        depth > 0,
        0 <= i < header_at(node).entries,
        child_at(img, bs, node, depth, i) is Ok,
        tree_node(img, bs, child_at(img, bs, node, depth, i)->Ok_0, (depth - 1) as nat, k),
    ensures
        tree_node(img, bs, node, depth, k),
{
}

/// What an insertion leaves of a tree: nothing new is mapped but by the new
/// extent, no node is new but the spare block, and no other block was touched.
pub open spec fn tree_extended(
    v: Vol,
    img: Seq<u8>,
    root: Seq<u8>,
    other: Seq<u8>,
    grown: Seq<u8>,
    new: Extent,
    spare: Option<u64>,
) -> bool {
    let d = header_at(root).depth as nat;
    let e = header_at(grown).depth as nat;
    &&& forall|l: int, p: int| #[trigger]
        tree_maps(other, v.bs(), grown, e, l, p) ==> tree_maps(img, v.bs(), root, d, l, p) || puts(new, l, p)
    &&& forall|k: int| #[trigger]
        tree_node(other, v.bs(), grown, e, k) ==> tree_node(img, v.bs(), root, d, k) || (spare matches Some(s) && s == k)
    &&& forall|k: int|
        k >= 0 && !tree_node(img, v.bs(), root, d, k) && !(spare matches Some(s) && s == k) ==> #[trigger] block_at(
            other,
            v.bs(),
            k,
        ) == block_at(img, v.bs(), k)
}

/// An insertion into a tree that is all root, and stays so.
proof fn lemma_insert_root(v: Vol, img: Seq<u8>, root: Seq<u8>, new: Extent)
    requires
        root.len() == 60,
        storable(new),
        header_of(root) is Ok,
        header_at(root).depth == 0,
        leaf_insert(root, new) is Ok,
        leaf_insert(root, new)->Ok_0 is Some,
    ensures
        ({
            let after = leaf_insert(root, new)->Ok_0->Some_0;
            &&& after.len() == 60
            &&& header_at(after).depth == 0
            &&& tree_extended(v, img, root, img, after, new, None)
        }),
{
    let h = header_at(root);
    let entries = extents_in(root, h.entries as nat);
    let out = inserted(entries, new);
    let after = leaf_insert(root, new)->Ok_0->Some_0;
    lemma_read_storable(root, h.entries as nat);
    lemma_inserted_storable(entries, new);
    lemma_leaf_fields(h, out, 60);
    assert forall|i: int| 0 <= i < out.len() implies out.contains(#[trigger] out[i]) by {
    }
    lemma_part_within(after, out, out, root, new);
    assert forall|l: int, p: int| #[trigger] tree_maps(img, v.bs(), after, 0, l, p) implies tree_maps(
        img,
        v.bs(),
        root,
        0,
        l,
        p,
    ) || puts(new, l, p) by {
        assert(leaf_maps(after, l, p));
    }
}

/// A stamped leaf that was laid out, as a block of an image.
proof fn lemma_leaf_block(
    v: Vol,
    ino: u32,
    generation: u32,
    img: Seq<u8>,
    at: u64,
    h: ExtentHeader,
    part: Seq<Extent>,
    whole: Seq<Extent>,
    leaf: Seq<u8>,
    new: Extent,
)
    requires
        v.wf(),
        h.depth == 0,
        12 + 12 * part.len() <= v.bs(),
        all_storable(part),
        whole == inserted(extents_in(leaf, header_at(leaf).entries as nat), new),
        forall|i: int| 0 <= i < part.len() ==> whole.contains(#[trigger] part[i]),
        block_at(img, v.bs(), at as int) == Ok::<Seq<u8>, Error>(
            node_stamped(v, ino, generation, node_bytes(h, part, v.bs() as nat)),
        ),
    ensures
        is_grown_leaf(img, v.bs(), at, leaf, new),
{
    let node = node_bytes(h, part, v.bs() as nat);
    let b = node_stamped(v, ino, generation, node);
    lemma_leaf_fields(h, part, v.bs() as nat);
    lemma_node_stamped(v, ino, generation, node);
    if header_of(b) is Ok {
        lemma_part_within(b, part, whole, leaf, new);
    }
}

/// An insertion that moves the root's entries to a block of their own.
proof fn lemma_insert_promoted(
    v: Vol,
    st: Stage,
    ino: u32,
    generation: u32,
    root: Seq<u8>,
    new: Extent,
    s: u64,
    ctx: Option<ExtentVerifyCtx>,
)
    requires
        v.wf(),
        st.img.len() == v.img.len(),
        root.len() == 60,
        storable(new),
        own_ctx(v, ino, generation, ctx),
        header_of(root) is Ok,
        header_at(root).depth == 0,
        s < 0x1_0000_0000_0000,
        ({
            let entries = inserted(extents_in(root, header_at(root).entries as nat), new);
            &&& entries.len() <= block_capacity(v.bs(), v.csum.enabled)
            &&& stage_nodes(
                v,
                st,
                ino,
                generation,
                promoted(root, v.bs(), entries, s, v.csum.enabled)->writes,
            ) is Ok
        }),
    ensures
        ({
            let entries = inserted(extents_in(root, header_at(root).entries as nat), new);
            let out = promoted(root, v.bs(), entries, s, v.csum.enabled);
            let after = stage_nodes(v, st, ino, generation, out->writes)->Ok_0;
            &&& out->Done_root.len() == 60
            &&& after.img.len() == st.img.len()
            &&& after.cleared == st.cleared
            &&& tree_extended(v, st.img, root, after.img, out->Done_root, new, Some(s))
            &&& trusted(after.img, v.bs(), out->Done_root, ctx)
        }),
{
    let bs = v.bs();
    let h = header_at(root);
    let old_entries = extents_in(root, h.entries as nat);
    let entries = inserted(old_entries, new);
    let out = promoted(root, bs, entries, s, v.csum.enabled);
    let writes = out->writes;
    let grown = out->Done_root;
    let cap = block_capacity(bs, v.csum.enabled);
    lemma_inserted_len(old_entries, new);
    lemma_read_storable(root, h.entries as nat);
    lemma_inserted_storable(old_entries, new);
    let idx = ExtentIdx { logical_block: entries[0].logical_block, leaf_block: s };
    lemma_index_fields(ExtentHeader { depth: 1, ..h }, seq![idx], 60);
    assert(index_at(grown, 12 + 12 * 0int) == idx);
    let lh = ExtentHeader { max: cap as u16, depth: 0, ..h };
    let node = node_bytes(lh, entries, bs as nat);
    lemma_leaf_fields(lh, entries, bs as nat);
    assert(writes =~= seq![(s, node)]);
    assert(writes[0] == (s, node));
    lemma_nodes_written(v, st, ino, generation, writes);
    let after = stage_nodes(v, st, ino, generation, writes)->Ok_0;
    let b = node_stamped(v, ino, generation, node);
    assert(block_at(after.img, bs, writes[0].0 as int) == Ok::<Seq<u8>, Error>(b));
    assert forall|i: int| 0 <= i < entries.len() implies entries.contains(#[trigger] entries[i]) by {
    }
    lemma_leaf_block(v, ino, generation, after.img, s, lh, entries, entries, root, new);
    lemma_node_stamped(v, ino, generation, node);
    reveal_with_fuel(tree_maps, 2);
    reveal_with_fuel(tree_node, 2);
    assert forall|l: int, p: int| #[trigger] tree_maps(after.img, bs, grown, 1, l, p) implies tree_maps(
        st.img,
        bs,
        root,
        0,
        l,
        p,
    ) || puts(new, l, p) by {
        let j = choose|j: int|
            0 <= j < header_at(grown).entries && (#[trigger] child_at(after.img, bs, grown, 1, j)) is Ok && tree_maps(
                after.img,
                bs,
                child_at(after.img, bs, grown, 1, j)->Ok_0,
                0,
                l,
                p,
            );
        assert(j == 0);
        assert(child_at(after.img, bs, grown, 1, 0) == Ok::<Seq<u8>, Error>(b));
        assert(leaf_maps(b, l, p));
    }
    assert forall|k: int| #[trigger] tree_node(after.img, bs, grown, 1, k) implies k == s by {
        let j = choose|j: int|
            0 <= j < header_at(grown).entries && (index_at(grown, 12 + 12 * j).leaf_block == k || ((
            #[trigger] child_at(after.img, bs, grown, 1, j)) is Ok && tree_node(
                after.img,
                bs,
                child_at(after.img, bs, grown, 1, j)->Ok_0,
                0,
                k,
            )));
        assert(j == 0);
    }
    assert forall|k: int| k >= 0 && k != s implies #[trigger] block_at(after.img, bs, k) == block_at(st.img, bs, k) by {
        assert forall|i: int| 0 <= i < writes.len() implies (#[trigger] writes[i]).0 != k by {
            assert(writes[i] == (s, node));
        }
    }
}

/// An insertion into a leaf that has room.
proof fn lemma_insert_leaf(
    v: Vol,
    st: Stage,
    ino: u32,
    generation: u32,
    root: Seq<u8>,
    new: Extent,
    ctx: Option<ExtentVerifyCtx>,
)
    requires
        v.wf(),
        st.img.len() == v.img.len(),
        storable(new),
        own_ctx(v, ino, generation, ctx),
        header_of(root) is Ok,
        header_at(root).depth > 0,
        trusted(st.img, v.bs(), root, ctx),
        leaf_path(st.img, v.bs(), root, None, header_at(root).depth as nat, new.logical_block as int) is Ok,
        ({
            let p = leaf_path(
                st.img,
                v.bs(),
                root,
                None,
                header_at(root).depth as nat,
                new.logical_block as int,
            )->Ok_0;
            &&& leaf_insert(p.leaf, new) is Ok
            &&& leaf_insert(p.leaf, new)->Ok_0 is Some
            &&& stage_nodes(
                v,
                st,
                ino,
                generation,
                seq![(p.leaf_block, leaf_insert(p.leaf, new)->Ok_0->Some_0)],
            ) is Ok
        }),
    ensures
        ({
            let p = leaf_path(
                st.img,
                v.bs(),
                root,
                None,
                header_at(root).depth as nat,
                new.logical_block as int,
            )->Ok_0;
            let writes = seq![(p.leaf_block, leaf_insert(p.leaf, new)->Ok_0->Some_0)];
            let after = stage_nodes(v, st, ino, generation, writes)->Ok_0;
            &&& after.img.len() == st.img.len()
            &&& after.cleared == st.cleared
            &&& tree_extended(v, st.img, root, after.img, root, new, None)
            &&& trusted(after.img, v.bs(), root, ctx)
        }),
{
    let bs = v.bs();
    let d = header_at(root).depth as nat;
    let p = leaf_path(st.img, bs, root, None, d, new.logical_block as int)->Ok_0;
    lemma_leaf_path(st.img, bs, root, None, d, new.logical_block as int);
    let h = header_at(p.leaf);
    let entries = extents_in(p.leaf, h.entries as nat);
    let out = inserted(entries, new);
    lemma_read_storable(p.leaf, h.entries as nat);
    lemma_inserted_storable(entries, new);
    let node = node_bytes(h, out, bs as nat);
    lemma_leaf_fields(h, out, bs as nat);
    let writes = seq![(p.leaf_block, leaf_insert(p.leaf, new)->Ok_0->Some_0)];
    assert(writes[0] == (p.leaf_block, node));
    lemma_nodes_written(v, st, ino, generation, writes);
    let after = stage_nodes(v, st, ino, generation, writes)->Ok_0;
    let b = node_stamped(v, ino, generation, node);
    assert(block_at(after.img, bs, writes[0].0 as int) == Ok::<Seq<u8>, Error>(b));
    assert forall|i: int| 0 <= i < out.len() implies out.contains(#[trigger] out[i]) by {
    }
    lemma_leaf_block(v, ino, generation, after.img, p.leaf_block, h, out, out, p.leaf, new);
    lemma_node_stamped(v, ino, generation, node);
    assert forall|k: int| k >= 0 && k != p.leaf_block implies #[trigger] block_at(after.img, bs, k) == block_at(
        st.img,
        bs,
        k,
    ) by {
        assert forall|i: int| 0 <= i < writes.len() implies (#[trigger] writes[i]).0 != k by {
            assert(writes[i] == (p.leaf_block, node));
        }
    }
    assert(regrown(st.img, after.img, bs, p.leaf_block, p.leaf, None, p.parent, None, new));
    lemma_tree_grown(st.img, after.img, bs, p.leaf_block, p.leaf, None, p.parent, None, new, root, d);
    assert forall|k: int| #[trigger] tree_node(after.img, bs, root, d, k) implies (block_at(after.img, bs, k) matches Ok(
        c,
    ) ==> node_ok(ctx, c)) by {
        crate::tree_laws::lemma_node_number(after.img, bs, root, d, k);
        assert(tree_node(st.img, bs, root, d, k));
        assert(block_at(st.img, bs, k) matches Ok(c) ==> node_ok(ctx, c));
        if k == p.leaf_block {
            assert(node_ok(ctx, p.leaf));
        }
    }
}

pub(crate) proof fn lemma_index_pos(idxs: Seq<ExtentIdx>, l: u32, from: int)
    requires
        0 <= from <= idxs.len(),
    ensures
        from <= index_pos(idxs, l, from) <= idxs.len(),
    decreases idxs.len() - from,
{
    if from < idxs.len() {
        lemma_index_pos(idxs, l, from + 1);
    }
}

/// An index node with one more entry has its old children and the new one.
proof fn lemma_index_inserted(node: Seq<u8>, idx: ExtentIdx)
    requires
        header_of(node) is Ok,
        header_at(node).entries < header_at(node).max,
        idx.leaf_block < 0x1_0000_0000_0000,
    ensures
        ({
            let after = index_inserted(node, idx);
            &&& after.len() == node.len()
            &&& header_at(after).depth == header_at(node).depth
            &&& header_at(after).max == header_at(node).max
            &&& header_at(after).entries <= header_at(after).max
            &&& one_child_more(node, after, Some(idx.leaf_block))
        }),
{
    let h = header_at(node);
    let idxs = indexes_in(node, h.entries as nat);
    let pos = index_pos(idxs, idx.logical_block, 0);
    lemma_index_pos(idxs, idx.logical_block, 0);
    let more = idxs.insert(pos, idx);
    assert forall|i: int| 0 <= i < more.len() implies (#[trigger] more[i]).leaf_block < 0x1_0000_0000_0000 by {
        if i < pos {
            assert(more[i] == idxs[i]);
        } else if i > pos {
            assert(more[i] == idxs[i - 1]);
        }
    }
    lemma_index_fields(h, more, node.len());
    let after = index_inserted(node, idx);
    assert forall|j: int| 0 <= j < header_at(after).entries implies Some(idx.leaf_block) == Some(
        (#[trigger] index_at(after, 12 + 12 * j)).leaf_block,
    ) || points_to(node, index_at(after, 12 + 12 * j).leaf_block) by {
        assert(index_at(after, 12 + 12 * j) == more[j]);
        if j < pos {
            assert(more[j] == idxs[j]);
            assert(index_at(node, 12 + 12 * j) == idxs[j]);
        } else if j > pos {
            assert(more[j] == idxs[j - 1]);
            assert(index_at(node, 12 + 12 * (j - 1)) == idxs[j - 1]);
        }
    }
}

/// An insertion into a full leaf, which is split.
proof fn lemma_insert_split(
    v: Vol,
    st: Stage,
    ino: u32,
    generation: u32,
    root: Seq<u8>,
    new: Extent,
    s: u64,
    ctx: Option<ExtentVerifyCtx>,
)
    requires
        v.wf(),
        st.img.len() == v.img.len(),
        root.len() == 60,
        storable(new),
        own_ctx(v, ino, generation, ctx),
        header_of(root) is Ok,
        header_at(root).depth > 0,
        trusted(st.img, v.bs(), root, ctx),
        s < 0x1_0000_0000_0000,
        !tree_node(st.img, v.bs(), root, header_at(root).depth as nat, s as int),
        leaf_path(st.img, v.bs(), root, None, header_at(root).depth as nat, new.logical_block as int) is Ok,
        ({
            let p = leaf_path(
                st.img,
                v.bs(),
                root,
                None,
                header_at(root).depth as nat,
                new.logical_block as int,
            )->Ok_0;
            let entries = inserted(extents_in(p.leaf, header_at(p.leaf).entries as nat), new);
            &&& header_at(p.parent).entries < header_at(p.parent).max
            &&& stage_nodes(v, st, ino, generation, split_leaf(root, p, entries, s)->writes) is Ok
        }),
    ensures
        ({
            let p = leaf_path(
                st.img,
                v.bs(),
                root,
                None,
                header_at(root).depth as nat,
                new.logical_block as int,
            )->Ok_0;
            let entries = inserted(extents_in(p.leaf, header_at(p.leaf).entries as nat), new);
            let out = split_leaf(root, p, entries, s);
            let after = stage_nodes(v, st, ino, generation, out->writes)->Ok_0;
            &&& out->Done_root.len() == 60
            &&& after.img.len() == st.img.len()
            &&& after.cleared == st.cleared
            &&& tree_extended(v, st.img, root, after.img, out->Done_root, new, Some(s))
            &&& trusted(after.img, v.bs(), out->Done_root, ctx)
        }),
{
    let bs = v.bs();
    let d = header_at(root).depth as nat;
    let p = leaf_path(st.img, bs, root, None, d, new.logical_block as int)->Ok_0;
    lemma_leaf_path(st.img, bs, root, None, d, new.logical_block as int);
    let h = header_at(p.leaf);
    let old_entries = extents_in(p.leaf, h.entries as nat);
    let entries = inserted(old_entries, new);
    lemma_read_storable(p.leaf, h.entries as nat);
    lemma_inserted_storable(old_entries, new);
    lemma_inserted_len(old_entries, new);
    let k = (entries.len() / 2) as int;
    let one = entries.take(k);
    let two = entries.skip(k);
    assert(all_storable(one) && all_storable(two));
    assert(12 + 12 * h.max <= bs && h.entries <= h.max);
    assert(12 + 12 * one.len() <= bs && 12 + 12 * two.len() <= bs);
    let n1 = node_bytes(h, one, bs as nat);
    let n2 = node_bytes(h, two, bs as nat);
    lemma_leaf_fields(h, one, bs as nat);
    lemma_leaf_fields(h, two, bs as nat);
    let idx = ExtentIdx { logical_block: entries[k].logical_block, leaf_block: s };
    assert(header_of(p.parent) is Ok);
    lemma_index_inserted(p.parent, idx);
    let parent = index_inserted(p.parent, idx);
    let out = split_leaf(root, p, entries, s);
    let writes = out->writes;
    assert(p.leaf_block != s);
    assert(writes[0] == (p.leaf_block, n1));
    assert(writes[1] == (s, n2));
    match p.parent_block {
        None => {
            assert(writes.len() == 2);
        },
        Some(a) => {
            assert(writes.len() == 3);
            assert(writes[2] == (a, parent));
            assert(d > 1);
            assert(a != s);
            assert(a != p.leaf_block);
        },
    }
    lemma_nodes_written(v, st, ino, generation, writes);
    let after = stage_nodes(v, st, ino, generation, writes)->Ok_0;
    lemma_node_stamped(v, ino, generation, n1);
    lemma_node_stamped(v, ino, generation, n2);
    lemma_node_stamped(v, ino, generation, parent);
    assert(block_at(after.img, bs, writes[0].0 as int) == Ok::<Seq<u8>, Error>(node_stamped(v, ino, generation, n1)));
    assert(block_at(after.img, bs, writes[1].0 as int) == Ok::<Seq<u8>, Error>(node_stamped(v, ino, generation, n2)));
    assert forall|i: int| 0 <= i < one.len() implies entries.contains(#[trigger] one[i]) by {
        assert(one[i] == entries[i]);
    }
    assert forall|i: int| 0 <= i < two.len() implies entries.contains(#[trigger] two[i]) by {
        assert(two[i] == entries[k + i]);
    }
    lemma_leaf_block(v, ino, generation, after.img, p.leaf_block, h, one, entries, p.leaf, new);
    lemma_leaf_block(v, ino, generation, after.img, s, h, two, entries, p.leaf, new);
    if p.parent_block is Some {
        assert(block_at(after.img, bs, writes[2].0 as int) == Ok::<Seq<u8>, Error>(
            node_stamped(v, ino, generation, parent),
        ));
        lemma_same_children(p.parent, parent, node_stamped(v, ino, generation, parent), s);
    }
    assert forall|x: int|
        x >= 0 && x != p.leaf_block && !(p.parent_block matches Some(a) && a == x) && x != s implies #[trigger] block_at(
        after.img,
        bs,
        x,
    ) == block_at(st.img, bs, x) by {
        assert forall|i: int| 0 <= i < writes.len() implies (#[trigger] writes[i]).0 != x by {
            if i == 0 {
                assert(writes[i] == (p.leaf_block, n1));
            } else if i == 1 {
                assert(writes[i] == (s, n2));
            }
        }
    }
    assert(regrown(st.img, after.img, bs, p.leaf_block, p.leaf, p.parent_block, p.parent, Some(s), new));
    let grown = out->Done_root;
    if p.parent_block is Some {
        lemma_tree_grown(
            st.img,
            after.img,
            bs,
            p.leaf_block,
            p.leaf,
            p.parent_block,
            p.parent,
            Some(s),
            new,
            root,
            d,
        );
    } else {
        assert(d == 1);
        assert(grown == parent);
        lemma_parent_grown(
            st.img,
            after.img,
            bs,
            p.leaf_block,
            p.leaf,
            p.parent_block,
            p.parent,
            Some(s),
            new,
            root,
            grown,
        );
    }
    assert(header_at(grown).depth == d);
    assert forall|x: int| #[trigger] tree_node(after.img, bs, grown, d, x) implies (block_at(after.img, bs, x) matches Ok(
        c,
    ) ==> node_ok(ctx, c)) by {
        crate::tree_laws::lemma_node_number(after.img, bs, grown, d, x);
        assert(tree_node(st.img, bs, root, d, x) || x == s);
        assert(tree_node(st.img, bs, root, d, p.leaf_block as int));
        assert(node_ok(ctx, p.leaf));
        if p.parent_block is Some {
            assert(tree_node(st.img, bs, root, d, p.parent_block->Some_0 as int));
            assert(node_ok(ctx, p.parent));
        }
        if x != p.leaf_block && x != s && !(p.parent_block matches Some(a) && a == x) {
            assert(block_at(after.img, bs, x) == block_at(st.img, bs, x));
        }
    }
}

proof fn lemma_same_children(before: Seq<u8>, after: Seq<u8>, stamped: Seq<u8>, s: u64)
    requires
        one_child_more(before, after, Some(s)),
        header_at(stamped).entries == header_at(after).entries,
        forall|i: int|
            0 <= i < header_at(after).entries ==> #[trigger] index_at(stamped, 12 + 12 * i) == index_at(
                after,
                12 + 12 * i,
            ),
    ensures
        one_child_more(before, stamped, Some(s)),
{
    assert forall|j: int| 0 <= j < header_at(stamped).entries implies Some(s) == Some(
        (#[trigger] index_at(stamped, 12 + 12 * j)).leaf_block,
    ) || points_to(before, index_at(stamped, 12 + 12 * j).leaf_block) by {
        assert(index_at(stamped, 12 + 12 * j) == index_at(after, 12 + 12 * j));
    }
}

/// A root that was lowered is the same tree.
pub(crate) proof fn lemma_lowered(img: Seq<u8>, bs: int, root: Seq<u8>, l: u32)
    requires
        root.len() == 60,
        header_of(root) is Ok,
    ensures
        ({
            let low = lowered(root, l);
            let d = header_at(root).depth as nat;
            &&& low.len() == 60
            &&& header_of(low) == header_of(root)
            &&& header_at(low) == header_at(root)
            &&& forall|m: int, p: int| #[trigger]
                tree_maps(img, bs, low, d, m, p) == tree_maps(img, bs, root, d, m, p)
            &&& forall|k: int| #[trigger] tree_node(img, bs, low, d, k) == tree_node(img, bs, root, d, k)
        }),
{
    let low = lowered(root, l);
    let d = header_at(root).depth as nat;
    if low != root {
        let n = header_at(root).entries;
        assert forall|i: int| 0 <= i < n implies index_at(low, 12 + 12 * i).leaf_block == index_at(
            root,
            12 + 12 * i,
        ).leaf_block && #[trigger] child_at(img, bs, low, d, i) == child_at(img, bs, root, d, i) by {
        }
        assert forall|m: int, p: int| #[trigger]
            tree_maps(img, bs, low, d, m, p) == tree_maps(img, bs, root, d, m, p) by {
            if tree_maps(img, bs, low, d, m, p) {
                let i = choose|i: int|
                    0 <= i < n && (#[trigger] child_at(img, bs, low, d, i)) is Ok && tree_maps(
                        img,
                        bs,
                        child_at(img, bs, low, d, i)->Ok_0,
                        (d - 1) as nat,
                        m,
                        p,
                    );
                assert(child_at(img, bs, root, d, i) is Ok);
            }
            if tree_maps(img, bs, root, d, m, p) {
                let i = choose|i: int|
                    0 <= i < n && (#[trigger] child_at(img, bs, root, d, i)) is Ok && tree_maps(
                        img,
                        bs,
                        child_at(img, bs, root, d, i)->Ok_0,
                        (d - 1) as nat,
                        m,
                        p,
                    );
                assert(child_at(img, bs, low, d, i) is Ok);
            }
        }
        assert forall|k: int| #[trigger] tree_node(img, bs, low, d, k) == tree_node(img, bs, root, d, k) by {
            lemma_same_nodes(img, bs, low, root, d, k);
            lemma_same_nodes(img, bs, root, low, d, k);
        }
    }
}

proof fn lemma_same_nodes(img: Seq<u8>, bs: int, a: Seq<u8>, b: Seq<u8>, d: nat, k: int)
    requires
        header_at(a).entries == header_at(b).entries,
        forall|i: int|
            0 <= i < header_at(a).entries ==> index_at(a, 12 + 12 * i).leaf_block == index_at(b, 12 + 12 * i).leaf_block
                && #[trigger] child_at(img, bs, a, d, i) == child_at(img, bs, b, d, i),
    ensures
        tree_node(img, bs, a, d, k) ==> tree_node(img, bs, b, d, k),
{
    if tree_node(img, bs, a, d, k) {
        let i = choose|i: int|
            0 <= i < header_at(a).entries && (index_at(a, 12 + 12 * i).leaf_block == k || ((#[trigger] child_at(
                img,
                bs,
                a,
                d,
                i,
            )) is Ok && tree_node(img, bs, child_at(img, bs, a, d, i)->Ok_0, (d - 1) as nat, k)));
        if index_at(a, 12 + 12 * i).leaf_block == k {
            assert(points_to(b, k as u64)) by {
                assert(index_at(b, 12 + 12 * i).leaf_block == k);
            }
            lemma_points_within(img, bs, b, d, k as u64);
        } else {
            lemma_under(img, bs, b, d, i, k);
        }
    }
}

/// What an insertion that was staged leaves of the tree.
pub(crate) proof fn lemma_insertion(
    v: Vol,
    st: Stage,
    ino: u32,
    generation: u32,
    root: Seq<u8>,
    new: Extent,
    spare: Option<u64>,
    ctx: Option<ExtentVerifyCtx>,
    grown: Seq<u8>,
    writes: Seq<(u64, Seq<u8>)>,
)
    requires
        v.wf(),
        st.img.len() == v.img.len(),
        root.len() == 60,
        storable(new),
        own_ctx(v, ino, generation, ctx),
        trusted(st.img, v.bs(), root, ctx),
        spare matches Some(s) ==> s < 0x1_0000_0000_0000 && !tree_node(
            st.img,
            v.bs(),
            root,
            header_at(root).depth as nat,
            s as int,
        ),
        deep_insert(st.img, v.bs(), root, new, v.csum.enabled, spare) == Ok::<DeepInsertView, Error>(
            DeepInsertView::Done { root: grown, writes },
        ),
        stage_nodes(v, st, ino, generation, writes) is Ok,
    ensures
        ({
            let after = stage_nodes(v, st, ino, generation, writes)->Ok_0;
            &&& grown.len() == 60
            &&& after.img.len() == st.img.len()
            &&& after.cleared == st.cleared
            &&& tree_extended(v, st.img, root, after.img, grown, new, spare)
            &&& trusted(after.img, v.bs(), grown, ctx)
        }),
{
    let h = header_at(root);
    let after = stage_nodes(v, st, ino, generation, writes)->Ok_0;
    if h.depth == 0 {
        if leaf_insert(root, new)->Ok_0 is Some {
            lemma_insert_root(v, st.img, root, new);
            assert(writes.len() == 0);
            assert(after == st);
        } else {
            let entries = inserted(extents_in(root, h.entries as nat), new);
            lemma_insert_promoted(v, st, ino, generation, root, new, spare->Some_0, ctx);
            assert(promoted(root, v.bs(), entries, spare->Some_0, v.csum.enabled) == (DeepInsertView::Done {
                root: grown,
                writes,
            }));
        }
    } else {
        let low = lowered(root, new.logical_block);
        lemma_lowered(st.img, v.bs(), root, new.logical_block);
        let p = leaf_path(st.img, v.bs(), low, None, h.depth as nat, new.logical_block as int)->Ok_0;
        assert(trusted(st.img, v.bs(), low, ctx));
        if leaf_insert(p.leaf, new)->Ok_0 is Some {
            lemma_insert_leaf(v, st, ino, generation, low, new, ctx);
            assert(writes == seq![(p.leaf_block, leaf_insert(p.leaf, new)->Ok_0->Some_0)]);
        } else {
            let entries = inserted(extents_in(p.leaf, header_at(p.leaf).entries as nat), new);
            lemma_insert_split(v, st, ino, generation, low, new, spare->Some_0, ctx);
            assert(split_leaf(low, p, entries, spare->Some_0) == (DeepInsertView::Done { root: grown, writes }));
        }
    }
}

/// A tree none of whose blocks changed is what it was.
pub(crate) proof fn lemma_tree_same(img: Seq<u8>, other: Seq<u8>, bs: int, node: Seq<u8>, depth: nat)
    requires
        forall|k: int| #[trigger] tree_node(img, bs, node, depth, k) ==> block_at(other, bs, k) == block_at(img, bs, k),
    ensures
        forall|l: int, p: int| #[trigger]
            tree_maps(other, bs, node, depth, l, p) ==> tree_maps(img, bs, node, depth, l, p),
        forall|k: int| #[trigger] tree_node(other, bs, node, depth, k) ==> tree_node(img, bs, node, depth, k),
    decreases depth,
{
    if depth > 0 {
        assert forall|i: int| 0 <= i < header_at(node).entries implies #[trigger] child_at(other, bs, node, depth, i)
            == child_at(img, bs, node, depth, i) by {
            let b = index_at(node, 12 + 12 * i).leaf_block;
            assert(points_to(node, b));
            lemma_points_within(img, bs, node, depth, b);
        }
        assert forall|l: int, p: int| #[trigger] tree_maps(other, bs, node, depth, l, p) implies tree_maps(
            img,
            bs,
            node,
            depth,
            l,
            p,
        ) by {
            let i = choose|i: int|
                0 <= i < header_at(node).entries && (#[trigger] child_at(other, bs, node, depth, i)) is Ok && tree_maps(
                    other,
                    bs,
                    child_at(other, bs, node, depth, i)->Ok_0,
                    (depth - 1) as nat,
                    l,
                    p,
                );
            lemma_child_same(img, other, bs, node, depth, i);
            assert(child_at(img, bs, node, depth, i) is Ok);
        }
        assert forall|k: int| #[trigger] tree_node(other, bs, node, depth, k) implies tree_node(
            img,
            bs,
            node,
            depth,
            k,
        ) by {
            let i = choose|i: int|
                0 <= i < header_at(node).entries && (index_at(node, 12 + 12 * i).leaf_block == k || ((
                #[trigger] child_at(other, bs, node, depth, i)) is Ok && tree_node(
                    other,
                    bs,
                    child_at(other, bs, node, depth, i)->Ok_0,
                    (depth - 1) as nat,
                    k,
                )));
            if index_at(node, 12 + 12 * i).leaf_block == k {
                lemma_points_within(img, bs, node, depth, k as u64);
            } else {
                lemma_child_same(img, other, bs, node, depth, i);
            }
        }
    }
}

proof fn lemma_child_same(img: Seq<u8>, other: Seq<u8>, bs: int, node: Seq<u8>, depth: nat, i: int)
    requires
        depth > 0,
        0 <= i < header_at(node).entries,
        child_at(img, bs, node, depth, i) is Ok,
        child_at(other, bs, node, depth, i) == child_at(img, bs, node, depth, i),
        forall|k: int| #[trigger] tree_node(img, bs, node, depth, k) ==> block_at(other, bs, k) == block_at(img, bs, k),
    ensures
        ({
            let c = child_at(img, bs, node, depth, i)->Ok_0;
            &&& forall|l: int, p: int| #[trigger]
                tree_maps(other, bs, c, (depth - 1) as nat, l, p) ==> tree_maps(img, bs, c, (depth - 1) as nat, l, p)
            &&& forall|k: int| #[trigger]
                tree_node(other, bs, c, (depth - 1) as nat, k) ==> tree_node(img, bs, c, (depth - 1) as nat, k)
        }),
    decreases depth, 0int,
{
    let c = child_at(img, bs, node, depth, i)->Ok_0;
    assert forall|k: int| #[trigger] tree_node(img, bs, c, (depth - 1) as nat, k) implies block_at(other, bs, k)
        == block_at(img, bs, k) by {
        lemma_under(img, bs, node, depth, i, k);
    }
    lemma_tree_same(img, other, bs, c, (depth - 1) as nat);
}

/// What a lookup finds in a tree that may be trusted, it finds when it checks.
pub(crate) proof fn lemma_lookup_trusted(
    img: Seq<u8>,
    bs: int,
    node: Seq<u8>,
    depth: nat,
    l: int,
    ctx: Option<ExtentVerifyCtx>,
)
    requires
        forall|k: int| #[trigger]
            tree_node(img, bs, node, depth, k) ==> (block_at(img, bs, k) matches Ok(b) ==> node_ok(ctx, b)),
    ensures
        crate::extent::lookup_in(img, bs, node, depth, l, ctx) == crate::extent::lookup_in(
            img,
            bs,
            node,
            depth,
            l,
            None,
        ),
    decreases depth,
{
    let n = header_at(node).entries as int;
    if depth > 0 && child_for(node, n, l) is Some {
        let i = crate::tree_laws::lemma_child_index(node, n, l);
        let b = index_at(node, 12 + 12 * i).leaf_block;
        assert(points_to(node, b));
        lemma_points_within(img, bs, node, depth, b);
        if child_at(img, bs, node, depth, i) is Ok {
            let c = child_at(img, bs, node, depth, i)->Ok_0;
            assert forall|k: int| #[trigger] tree_node(img, bs, c, (depth - 1) as nat, k) implies (block_at(
                img,
                bs,
                k,
            ) matches Ok(x) ==> node_ok(ctx, x)) by {
                lemma_under(img, bs, node, depth, i, k);
            }
            lemma_lookup_trusted(img, bs, c, (depth - 1) as nat, l, ctx);
        }
    }
}

} // verus!
