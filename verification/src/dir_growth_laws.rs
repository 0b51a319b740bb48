//! What a directory that had to grow holds.
use crate::allocator::{law_planned_run_is_free, law_planned_run_within, BlockAllocationPlan};
use crate::bgd::inode_place;
use crate::block_io::{block_at, lemma_with_block};
use crate::bytes::{le16, le32};
use crate::checksum::{dir_tail_present, inode_crc_ok, law_stamped_dir_verifies, law_stamped_inode_verifies};
use crate::commit::committed;
use crate::content_laws::{
    in_use, law_block_in_use_is_not_planned, law_record_reads_back, lemma_same_place, record_block,
};
use crate::dir::{find_from, record_at, type_byte, with_record, DirEntryType};
use crate::dir_laws::{lemma_record_same, lemma_written_record};
use crate::dirops::{dir_blocks, find_entry, find_entry_from, parent_and_base, resolve, EXT4_ROOT_INODE};
use crate::entry_laws::{good_dir, lemma_find_error, lemma_found_error};
use crate::error::Error;
use crate::extent::{extent_for, Extent};
use crate::extent_mut::{deep_insert, DeepInsertView};
use crate::frame_laws::{framed, is_meta, lemma_block_plan_framed};
use crate::fs::{checked_inode, file_block, keeps_types, raw_inode};
use crate::grow::{
    bitmaps_of, empty_dir_block, extend_stage, growth_extent, home_group, one_entry_block, stage_block_plan,
    stage_fresh, stage_growth, stage_nodes, usable_of, volume_plan,
};
use crate::growth_laws::{lemma_insertion, tree_extended};
use crate::inode::{
    block_area_of, extra_isize_of, flags_of, generation_of, inode_fault, mode_is_dir, mode_of, sectors_of, size_of_file,
    FL_EXTENTS,
};
use crate::inode_edit::{with_block_area, with_size_and_blocks};
use crate::name_laws::{lemma_moved_record, lemma_path_steps, lemma_walk_but, own_slot};
use crate::order_laws::{finds_new, lemma_insertion_kept, same_elsewhere, tree_in_order, where_is, FILE_BLOCKS};
use crate::pwrite_laws::{lemma_block_for_found, levels};
use crate::reach_laws::{beside, path_clear, slot_block, slots_apart};
use crate::stage::stage_inode;
use crate::tree_laws::{lemma_lookup_same, lemma_node_number, tree_maps, tree_node};
use crate::volume::{fresh_stage, Stage, Vol};
use vstd::prelude::*;

verus! {

broadcast use crate::bytes::group_fields;

/// A block with one entry holds that entry and no other.
#[verifier::rlimit(40)]
proof fn lemma_one_entry(
    v: Vol,
    ino: u32,
    generation: u32,
    name: Seq<u8>,
    target: u32,
    ft: DirEntryType,
    other: Seq<u8>,
)
    requires
        v.wf(),
        v.csum.enabled ==> keeps_types(v),
        name.len() <= 255,
        target != 0,
    ensures
        ({
            let b = one_entry_block(v, ino, generation, name, target, ft);
            &&& b is Ok
            &&& b->Ok_0.len() == v.bs()
            &&& v.csum.dir_ok(ino, generation, b->Ok_0)
            &&& find_from(b->Ok_0, 0, other, keeps_types(v)) == Ok::<Option<u32>, Error>(
                if other == name {
                    Some(target)
                } else {
                    None
                },
            )
        }),
{
    let has_ft = keeps_types(v);
    let empty = empty_dir_block(v);
    let at = usable_of(v);
    let byte = type_byte(ft, has_ft);
    assert(empty.len() == v.bs());
    assert(le32(empty, 0) == 0 && empty[6] == 0 && (!has_ft ==> le16(empty, 6) == 0)) by {
        reveal(le16);
        reveal(le32);
        reveal(crate::bytes::put16);
    }
    assert(le16(empty, 4) == at % 0x1_0000);
    assert(at % 4 == 0);
    let rec = record_at(empty, 0, at, has_ft);
    assert(rec is Ok && rec->Ok_0.inode == 0 && rec->Ok_0.rec_len == at);
    let plain = with_record(empty, 0, target, at, name, byte);
    lemma_written_record(empty, 0, at, target, at, name, byte, has_ft);
    let b = one_entry_block(v, ino, generation, name, target, ft)->Ok_0;
    reveal_with_fuel(find_from, 3);
    if v.csum.enabled {
        law_stamped_dir_verifies(v.csum, ino, generation, plain);
        assert(dir_tail_present(b));
        assert forall|k: int| 0 <= k < at implies b[k] == plain[k] by {
        }
        lemma_record_same(plain, b, 0, at, has_ft);
        assert(record_at(b, 0, v.bs(), has_ft) == record_at(b, 0, at, has_ft));
    }
}

/// An extent-mapped directory in good order on a volume in good order: its
/// record, its blocks, its tree's nodes and all bookkeeping are marked used, and
/// no block is two of these.
#[verifier::opaque]
pub open spec fn dir_in_place(v: Vol, ino: u32, raw: Seq<u8>) -> bool {
    let area = block_area_of(raw);
    &&& v.wf()
    &&& checked_inode(v, ino) == Ok::<Seq<u8>, Error>(raw)
    &&& v.csum.enabled ==> keeps_types(v)
    &&& good_dir(v, raw)
    &&& tree_in_order(v.img, v.bs(), area)
    &&& !is_meta(v, record_block(v, ino))
    &&& in_use(v, record_block(v, ino))
    &&& forall|k: int| #[trigger] is_meta(v, k) ==> in_use(v, k)
    &&& forall|l: int, p: int| #[trigger]
        tree_maps(v.img, v.bs(), area, levels(area), l, p) ==> in_use(v, p) && !is_meta(v, p) && p != record_block(
            v,
            ino,
        )
    &&& forall|k: int| #[trigger]
        tree_node(v.img, v.bs(), area, levels(area), k) ==> in_use(v, k) && !is_meta(v, k) && k != record_block(v, ino)
}

/// Searching a directory whose blocks are the old ones and one more.
proof fn lemma_find_grown(
    v: Vol,
    w: Vol,
    ino: u32,
    raw: Seq<u8>,
    rec: Seq<u8>,
    b: Seq<u8>,
    p: u64,
    name: Seq<u8>,
    target: u32,
    other: Seq<u8>,
    l: int,
)
    requires
        w.sb == v.sb,
        w.csum == v.csum,
        generation_of(rec) == generation_of(raw),
        dir_blocks(w, rec) == dir_blocks(v, raw) + 1,
        forall|m: int|
            0 <= m < dir_blocks(v, raw) ==> {
                &&& #[trigger] file_block(w, rec, m) == file_block(v, raw, m)
                &&& file_block(v, raw, m) matches Ok(Some(q)) ==> w.block(q as int) == v.block(q as int)
            },
        file_block(w, rec, dir_blocks(v, raw)) == Ok::<Option<u64>, Error>(Some(p)),
        w.block(p as int) == Ok::<Seq<u8>, Error>(b),
        v.csum.dir_ok(ino, generation_of(raw), b),
        find_from(b, 0, other, keeps_types(v)) == Ok::<Option<u32>, Error>(
            if other == name {
                Some(target)
            } else {
                None
            },
        ),
        flags_of(raw) & FL_EXTENTS != 0,
        0 <= l <= dir_blocks(v, raw),
    ensures
        find_entry_from(w, ino, rec, other, l) == (if find_entry_from(v, ino, raw, other, l) == Err::<u32, Error>(
            Error::NotFound,
        ) && other == name {
            Ok(target)
        } else {
            find_entry_from(v, ino, raw, other, l)
        }),
    decreases dir_blocks(v, raw) - l,
{
    let n = dir_blocks(v, raw);
    if l < n {
        lemma_find_grown(v, w, ino, raw, rec, b, p, name, target, other, l + 1);
        assert(file_block(w, rec, l) == file_block(v, raw, l));
        lemma_found_error(v, raw, l);
        if let Ok(Some(q)) = file_block(v, raw, l) {
            if let Ok(x) = v.block(q as int) {
                lemma_find_error(x, 0, other, keeps_types(v));
            }
        }
    } else {
        assert(find_entry_from(w, ino, rec, other, n + 1) == Err::<u32, Error>(Error::NotFound));
    }
}

/// The record of a directory that grew by a block.
proof fn lemma_grown_record(v: Vol, ino: u32, raw: Seq<u8>, root: Seq<u8>, sectors: u64)
    requires
        v.wf(),
        raw.len() == v.sb.inode_size,
        inode_fault(raw) is None,
        root.len() == 60,
        size_of_file(raw) + v.bs() <= u64::MAX,
    ensures
        ({
            let rec = v.csum.stamp_inode_spec(
                ino,
                generation_of(raw),
                with_size_and_blocks(with_block_area(raw, root), (size_of_file(raw) + v.bs()) as u64, sectors),
            );
            &&& rec.len() == raw.len()
            &&& inode_fault(rec) is None
            &&& mode_of(rec) == mode_of(raw)
            &&& flags_of(rec) == flags_of(raw)
            &&& size_of_file(rec) == size_of_file(raw) + v.bs()
            &&& generation_of(rec) == generation_of(raw)
            &&& block_area_of(rec) == root
            &&& v.csum.enabled ==> inode_crc_ok(v.csum.seed, ino, generation_of(rec), rec)
        }),
{
    let a = with_block_area(raw, root);
    assert(mode_of(a) == mode_of(raw) && flags_of(a) == flags_of(raw) && generation_of(a) == generation_of(raw)
        && extra_isize_of(a) == extra_isize_of(raw)) by {
        reveal(le16);
        reveal(le32);
    }
    assert(block_area_of(a) =~= root);
    let bare = with_size_and_blocks(a, (size_of_file(raw) + v.bs()) as u64, sectors);
    assert(block_area_of(bare) =~= root);
    let rec = v.csum.stamp_inode_spec(ino, generation_of(raw), bare);
    assert(block_area_of(rec) =~= root);
    if v.csum.enabled {
        law_stamped_inode_verifies(v.csum, ino, generation_of(raw), bare);
    }
}

/// What a block that is being taken is not.
pub open spec fn taken_apart(v: Vol, ino: u32, raw: Seq<u8>, p: u64) -> bool {
    let area = block_area_of(raw);
    &&& p < 0x1_0000_0000_0000
    &&& !in_use(v, p as int)
    &&& !is_meta(v, p as int)
    &&& p != record_block(v, ino)
    &&& !tree_node(v.img, v.bs(), area, levels(area), p as int)
    &&& forall|l: int| !(#[trigger] tree_maps(v.img, v.bs(), area, levels(area), l, p as int))
}

/// A block that is planned is none that is in use.
proof fn lemma_taken_apart(v: Vol, ino: u32, raw: Seq<u8>, hint: u32, reserved: Seq<u64>)
    requires
        dir_in_place(v, ino, raw),
        volume_plan(v, 1, hint, reserved) is Ok,
    ensures
        taken_apart(v, ino, raw, volume_plan(v, 1, hint, reserved)->Ok_0.first_block),
        volume_plan(v, 1, hint, reserved)->Ok_0.bgd.group_idx < v.groups.len(),
        volume_plan(v, 1, hint, reserved)->Ok_0.count == 1,
        forall|k: int|
            0 <= k < reserved.len() ==> volume_plan(v, 1, hint, reserved)->Ok_0.first_block != #[trigger] reserved[k],
{
    reveal(dir_in_place);
    let p = volume_plan(v, 1, hint, reserved)->Ok_0.first_block;
    let area = block_area_of(raw);
    law_planned_run_is_free(v.sb, v.groups, 1, hint, reserved, bitmaps_of(v));
    law_planned_run_within(v.sb, v.groups, 1, hint, reserved, bitmaps_of(v));
    if in_use(v, p as int) {
        law_block_in_use_is_not_planned(v, 1, hint, reserved, p as int);
    }
    assert(!in_use(v, p as int));
    assert(!is_meta(v, p as int));
}

/// What a stage in which a directory grew has of the blocks that were staged.
pub open spec fn grown_stage(
    v: Vol,
    st1: Stage,
    fin: Stage,
    ino: u32,
    rec: Seq<u8>,
    p: u64,
    b: Seq<u8>,
) -> bool {
    &&& fin.img.len() == v.img.len()
    &&& raw_inode(committed(v, fin), ino) == Ok::<Seq<u8>, Error>(rec)
    &&& block_at(fin.img, v.bs(), p as int) == Ok::<Seq<u8>, Error>(b)
    &&& slots_apart(
        st1.img,
        fin.img,
        v.bs(),
        seq![own_slot(v, ino)],
        v.sb.inode_size as int,
        record_block(v, ino),
    )
    &&& forall|k: int|
        k >= 0 && !is_meta(v, k) && k != record_block(v, ino) && k != p ==> #[trigger] block_at(fin.img, v.bs(), k)
            == block_at(st1.img, v.bs(), k)
}

/// The stages of a growth, once the tree's nodes are staged.
#[verifier::rlimit(40)]
proof fn lemma_grown_stage(
    v: Vol,
    st1: Stage,
    ino: u32,
    rec: Seq<u8>,
    b: Seq<u8>,
    plan: BlockAllocationPlan,
    meta: Option<BlockAllocationPlan>,
    fin: Stage,
)
    requires
        v.wf(),
        st1.img.len() == v.img.len(),
        !is_meta(v, record_block(v, ino)),
        !is_meta(v, plan.first_block as int),
        plan.first_block != record_block(v, ino),
        plan.bgd.group_idx < v.groups.len(),
        meta matches Some(m) ==> m.bgd.group_idx < v.groups.len(),
        rec.len() == v.sb.inode_size,
        b.len() == v.bs(),
        stage_inode(v, st1, ino, rec) is Ok,
        ({
            let st2 = stage_inode(v, st1, ino, rec)->Ok_0;
            let st3 = stage_fresh(v, st2, plan.first_block, b);
            let st4 = stage_block_plan(v, st3->Ok_0, plan);
            &&& st3 is Ok
            &&& st4 is Ok
            &&& (match meta {
                None => st4,
                Some(m) => stage_block_plan(v, st4->Ok_0, m),
            }) == Ok::<Stage, Error>(fin)
        }),
    ensures
        grown_stage(v, st1, fin, ino, rec, plan.first_block, b),
{
    let p = plan.first_block;
    let st2 = stage_inode(v, st1, ino, rec)->Ok_0;
    let st3 = stage_fresh(v, st2, p, b)->Ok_0;
    let st4 = stage_block_plan(v, st3, plan)->Ok_0;
    law_record_reads_back(v, st1, ino, rec, 0);
    lemma_with_block(st2.img, v.bs(), p as int, b, p as int);
    lemma_block_plan_framed(v, st3, plan);
    if let Some(m) = meta {
        lemma_block_plan_framed(v, st4, m);
    }
    assert(framed(v, st3, fin));
    assert forall|k: int|
        k >= 0 && !is_meta(v, k) && k != record_block(v, ino) && k != p implies #[trigger] block_at(fin.img, v.bs(), k)
        == block_at(st1.img, v.bs(), k) by {
        law_record_reads_back(v, st1, ino, rec, k);
        lemma_with_block(st2.img, v.bs(), p as int, b, k);
        assert(block_at(fin.img, v.bs(), k) == block_at(st3.img, v.bs(), k));
    }
    let own = record_block(v, ino);
    lemma_with_block(st2.img, v.bs(), p as int, b, own);
    lemma_same_place(v, st2, ino);
    lemma_same_place(v, fin, ino);
    assert(block_at(fin.img, v.bs(), own) == block_at(st3.img, v.bs(), own));
    let slots = seq![own_slot(v, ino)];
    lemma_moved_record(v, st1, ino, rec, slots, Seq::empty(), 0);
    assert(slots[0].0 == own);
    assert(slot_block(slots, own));
    assert(block_at(fin.img, v.bs(), p as int) == block_at(st3.img, v.bs(), p as int));
}

/// A directory's blocks once its tree has one more.
#[verifier::rlimit(40)]
proof fn lemma_grown_blocks(
    v: Vol,
    ino: u32,
    raw: Seq<u8>,
    new: Extent,
    spare: Option<u64>,
    st1: Stage,
    root: Seq<u8>,
    w: Vol,
    rec: Seq<u8>,
    p: u64,
    m: int,
)
    requires
        dir_in_place(v, ino, raw),
        w.sb == v.sb,
        new.physical_block == p,
        new.length == 1,
        !new.uninitialized,
        taken_apart(v, ino, raw, p),
        spare matches Some(s) ==> taken_apart(v, ino, raw, s) && s != p,
        tree_extended(v, v.img, block_area_of(raw), st1.img, root, new, spare),
        tree_in_order(st1.img, v.bs(), root),
        same_elsewhere(v.img, block_area_of(raw), st1.img, root, v.bs(), new),
        finds_new(extent_for(st1.img, v.bs(), root, new.logical_block as int, None), new),
        flags_of(rec) == flags_of(raw),
        block_area_of(rec) == root,
        forall|k: int|
            k >= 0 && !is_meta(v, k) && k != record_block(v, ino) && k != p ==> #[trigger] block_at(w.img, v.bs(), k)
                == block_at(st1.img, v.bs(), k),
    ensures
        m == new.logical_block ==> file_block(w, rec, m) == Ok::<Option<u64>, Error>(Some(p)),
        m != new.logical_block ==> {
            &&& file_block(w, rec, m) == file_block(v, raw, m)
            &&& file_block(v, raw, m) matches Ok(Some(q)) ==> w.block(q as int) == v.block(q as int)
        },
{
    reveal(dir_in_place);
    let area = block_area_of(raw);
    let bs = v.bs();
    let e = levels(root);
    assert forall|k: int| #[trigger] tree_node(st1.img, bs, root, e, k) implies block_at(w.img, bs, k) == block_at(
        st1.img,
        bs,
        k,
    ) by {
        lemma_node_number(st1.img, bs, root, e, k);
        assert(tree_node(v.img, bs, area, levels(area), k) || spare == Some(k as u64));
    }
    lemma_lookup_same(st1.img, w.img, bs, root, e, m, None);
    assert(extent_for(w.img, bs, root, m, None) == extent_for(st1.img, bs, root, m, None));
    if m != new.logical_block {
        assert(!new.covers(m));
        assert(where_is(extent_for(st1.img, bs, root, m, None), m) == where_is(
            extent_for(v.img, bs, area, m, None),
            m,
        ));
        lemma_block_for_found(v.img, bs, area, m);
        if let Ok(Some(q)) = file_block(v, raw, m) {
            assert(tree_maps(v.img, bs, area, levels(area), m, q as int));
            assert(q != p);
            assert(!tree_node(v.img, bs, area, levels(area), q as int));
            assert(block_at(st1.img, bs, q as int) == block_at(v.img, bs, q as int));
        }
    }
}

/// A name for which a directory had to grow is found in it, and every other
/// name is found as it was.
#[verifier::rlimit(40)]
pub proof fn law_grown_directory_has_the_name(
    v: Vol,
    ino: u32,
    raw: Seq<u8>,
    name: Seq<u8>,
    target: u32,
    ft: DirEntryType,
    other: Seq<u8>,
)
    requires
        dir_in_place(v, ino, raw),
        name.len() <= 255,
        target != 0,
        dir_blocks(v, raw) < FILE_BLOCKS,
        size_of_file(raw) + v.bs() <= v.sb.blocks_count * v.bs(),
        find_entry(v, ino, raw, name) == Err::<u32, Error>(Error::NotFound),
        extend_stage(v, ino, name, target, ft) is Ok,
    ensures
        ({
            let w = committed(v, extend_stage(v, ino, name, target, ft)->Ok_0);
            let rec = checked_inode(w, ino)->Ok_0;
            &&& checked_inode(w, ino) is Ok
            &&& size_of_file(rec) == size_of_file(raw) + v.bs()
            &&& mode_of(rec) == mode_of(raw)
            &&& beside(v, w, elsewhere(v, ino, raw), seq![own_slot(v, ino)])
            &&& find_entry(w, ino, rec, name) == Ok::<u32, Error>(target)
            &&& other != name ==> find_entry(w, ino, rec, other) == find_entry(v, ino, raw, other)
        }),
{
    assert(v.wf() && checked_inode(v, ino) == Ok::<Seq<u8>, Error>(raw)) by {
        reveal(dir_in_place);
    }
    let hint = home_group(v, ino);
    let plan = volume_plan(v, 1, hint, Seq::empty())->Ok_0;
    lemma_taken_apart(v, ino, raw, hint, Seq::empty());
    let new = growth_extent(v, raw, plan);
    let area = block_area_of(raw);
    match deep_insert(v.img, v.bs(), area, new, v.csum.enabled, None)->Ok_0 {
        DeepInsertView::Done { root, writes } => {
            lemma_growth(v, ino, raw, plan, None, root, writes, name, target, ft, name);
            lemma_growth(v, ino, raw, plan, None, root, writes, name, target, ft, other);
        },
        DeepInsertView::NeedsBlock => {
            let reserved = seq![plan.first_block];
            let meta = volume_plan(v, 1, hint, reserved)->Ok_0;
            lemma_taken_apart(v, ino, raw, hint, reserved);
            assert(reserved[0] == plan.first_block);
            let out = deep_insert(v.img, v.bs(), area, new, v.csum.enabled, Some(meta.first_block))->Ok_0;
            lemma_growth(v, ino, raw, plan, Some(meta), out->Done_root, out->writes, name, target, ft, name);
            lemma_growth(v, ino, raw, plan, Some(meta), out->Done_root, out->writes, name, target, ft, other);
        },
    }
}

/// What is so of a directory in place, whatever its blocks are.
pub(crate) proof fn lemma_in_place(v: Vol, ino: u32, raw: Seq<u8>)
    requires
        dir_in_place(v, ino, raw),
    ensures
        v.wf(),
        checked_inode(v, ino) == Ok::<Seq<u8>, Error>(raw),
        raw.len() == v.sb.inode_size,
        inode_fault(raw) is None,
        block_area_of(raw).len() == 60,
        flags_of(raw) & FL_EXTENTS != 0,
        v.csum.enabled ==> keeps_types(v),
        tree_in_order(v.img, v.bs(), block_area_of(raw)),
        !is_meta(v, record_block(v, ino)),
{
    reveal(dir_in_place);
}

/// The tree of a directory with one block more.
proof fn lemma_growth_tree(
    v: Vol,
    ino: u32,
    raw: Seq<u8>,
    new: Extent,
    spare: Option<u64>,
    root: Seq<u8>,
    writes: Seq<(u64, Seq<u8>)>,
)
    requires
        dir_in_place(v, ino, raw),
        new.length == 1,
        new.physical_block < 0x1_0000_0000_0000,
        spare matches Some(s) ==> taken_apart(v, ino, raw, s),
        deep_insert(v.img, v.bs(), block_area_of(raw), new, v.csum.enabled, spare) == Ok::<DeepInsertView, Error>(
            DeepInsertView::Done { root, writes },
        ),
        stage_nodes(v, fresh_stage(v), ino, generation_of(raw), writes) is Ok,
    ensures
        ({
            let st1 = stage_nodes(v, fresh_stage(v), ino, generation_of(raw), writes)->Ok_0;
            &&& root.len() == 60
            &&& st1.img.len() == v.img.len()
            &&& tree_extended(v, v.img, block_area_of(raw), st1.img, root, new, spare)
            &&& tree_in_order(st1.img, v.bs(), root)
            &&& same_elsewhere(v.img, block_area_of(raw), st1.img, root, v.bs(), new)
            &&& finds_new(extent_for(st1.img, v.bs(), root, new.logical_block as int, None), new)
        }),
{
    lemma_in_place(v, ino, raw);
    let area = block_area_of(raw);
    let start = fresh_stage(v);
    lemma_insertion(v, start, ino, generation_of(raw), area, new, spare, None, root, writes);
    lemma_insertion_kept(v, start, ino, generation_of(raw), area, new, spare, root, writes);
}

/// A growth with its tree's new shape known.
#[verifier::rlimit(40)]
proof fn lemma_growth(
    v: Vol,
    ino: u32,
    raw: Seq<u8>,
    plan: BlockAllocationPlan,
    meta: Option<BlockAllocationPlan>,
    root: Seq<u8>,
    writes: Seq<(u64, Seq<u8>)>,
    name: Seq<u8>,
    target: u32,
    ft: DirEntryType,
    other: Seq<u8>,
)
    requires
        dir_in_place(v, ino, raw),
        name.len() <= 255,
        target != 0,
        dir_blocks(v, raw) < FILE_BLOCKS,
        size_of_file(raw) + v.bs() <= v.sb.blocks_count * v.bs(),
        find_entry(v, ino, raw, name) == Err::<u32, Error>(Error::NotFound),
        taken_apart(v, ino, raw, plan.first_block),
        plan.bgd.group_idx < v.groups.len(),
        plan.count == 1,
        meta matches Some(m) ==> {
            &&& taken_apart(v, ino, raw, m.first_block)
            &&& m.first_block != plan.first_block
            &&& m.bgd.group_idx < v.groups.len()
        },
        ({
            let spare = match meta {
                Some(m) => Some(m.first_block),
                None => None,
            };
            deep_insert(v.img, v.bs(), block_area_of(raw), growth_extent(v, raw, plan), v.csum.enabled, spare) == Ok::<
                DeepInsertView,
                Error,
            >(DeepInsertView::Done { root, writes })
        }),
        stage_growth(v, ino, raw, plan, meta, root, writes, name, target, ft) is Ok,
    ensures
        ({
            let w = committed(v, stage_growth(v, ino, raw, plan, meta, root, writes, name, target, ft)->Ok_0);
            let rec = checked_inode(w, ino)->Ok_0;
            &&& checked_inode(w, ino) is Ok
            &&& size_of_file(rec) == size_of_file(raw) + v.bs()
            &&& mode_of(rec) == mode_of(raw)
            &&& beside(v, w, elsewhere(v, ino, raw), seq![own_slot(v, ino)])
            &&& find_entry(w, ino, rec, other) == (if other == name {
                Ok::<u32, Error>(target)
            } else {
                find_entry(v, ino, raw, other)
            })
        }),
{
    let area = block_area_of(raw);
    let start = fresh_stage(v);
    let generation = generation_of(raw);
    let new = growth_extent(v, raw, plan);
    let p = plan.first_block;
    let n = dir_blocks(v, raw);
    let spare = match meta {
        Some(m) => Some(m.first_block),
        None => None,
    };
    let fin = stage_growth(v, ino, raw, plan, meta, root, writes, name, target, ft)->Ok_0;
    let w = committed(v, fin);
    lemma_in_place(v, ino, raw);
    lemma_growth_tree(v, ino, raw, new, spare, root, writes);
    let st1 = stage_nodes(v, start, ino, generation, writes)->Ok_0;
    let consumed = if meta is Some {
        2int
    } else {
        1
    };
    let sectors = (sectors_of(raw) + (v.bs() / 512) * consumed) as u64;
    lemma_grown_record(v, ino, raw, root, sectors);
    let rec = v.csum.stamp_inode_spec(
        ino,
        generation,
        with_size_and_blocks(with_block_area(raw, root), (size_of_file(raw) + v.bs()) as u64, sectors),
    );
    lemma_one_entry(v, ino, generation, name, target, ft, other);
    let b = one_entry_block(v, ino, generation, name, target, ft)->Ok_0;
    lemma_grown_stage(v, st1, ino, rec, b, plan, meta, fin);
    assert(checked_inode(w, ino) == Ok::<Seq<u8>, Error>(rec));
    assert(n >= 0) by (nonlinear_arith)
        requires
            n == (size_of_file(raw) + v.bs() - 1) / v.bs(),
            v.bs() > 0,
    ;
    assert(new.logical_block == n);
    assert forall|m: int| 0 <= m < n implies {
        &&& #[trigger] file_block(w, rec, m) == file_block(v, raw, m)
        &&& file_block(v, raw, m) matches Ok(Some(q)) ==> w.block(q as int) == v.block(q as int)
    } by {
        lemma_grown_blocks(v, ino, raw, new, spare, st1, root, w, rec, p, m);
    }
    lemma_grown_blocks(v, ino, raw, new, spare, st1, root, w, rec, p, n);
    assert(dir_blocks(w, rec) == n + 1) by (nonlinear_arith)
        requires
            dir_blocks(w, rec) == (size_of_file(raw) + v.bs() + v.bs() - 1) / v.bs(),
            n == (size_of_file(raw) + v.bs() - 1) / v.bs(),
            v.bs() > 0,
    ;
    lemma_find_grown(v, w, ino, raw, rec, b, p, name, target, other, 0);
    lemma_grown_beside(v, ino, raw, new, spare, st1, root, fin, rec, p, b);
}

/// The blocks in use that a directory's growth leaves alone.
pub open spec fn elsewhere(v: Vol, ino: u32, raw: Seq<u8>) -> spec_fn(int) -> bool {
    |k: int|
        k >= 0 && in_use(v, k) && !is_meta(v, k) && k != record_block(v, ino) && !tree_node(
            v.img,
            v.bs(),
            block_area_of(raw),
            levels(block_area_of(raw)),
            k,
        )
}

/// A growth leaves everything else alone.
proof fn lemma_grown_beside(
    v: Vol,
    ino: u32,
    raw: Seq<u8>,
    new: Extent,
    spare: Option<u64>,
    st1: Stage,
    root: Seq<u8>,
    fin: Stage,
    rec: Seq<u8>,
    p: u64,
    b: Seq<u8>,
)
    requires
        dir_in_place(v, ino, raw),
        !in_use(v, p as int),
        spare matches Some(s) ==> !in_use(v, s as int) && s != record_block(v, ino),
        tree_extended(v, v.img, block_area_of(raw), st1.img, root, new, spare),
        grown_stage(v, st1, fin, ino, rec, p, b),
    ensures
        beside(v, committed(v, fin), elsewhere(v, ino, raw), seq![own_slot(v, ino)]),
{
    reveal(dir_in_place);
    let w = committed(v, fin);
    let safe = elsewhere(v, ino, raw);
    let slots = seq![own_slot(v, ino)];
    let area = block_area_of(raw);
    assert forall|d: u32| #[trigger] inode_place(w.sb, w.groups, d) == inode_place(v.sb, v.groups, d) by {
        lemma_same_place(v, fin, d);
    }
    assert forall|k: int| #[trigger] safe(k) implies block_at(w.img, v.bs(), k) == block_at(v.img, v.bs(), k) by {
        assert(block_at(fin.img, v.bs(), k) == block_at(st1.img, v.bs(), k));
        assert(block_at(st1.img, v.bs(), k) == block_at(v.img, v.bs(), k));
    }
    let own = record_block(v, ino);
    assert(!tree_node(v.img, v.bs(), area, levels(area), own));
    assert(block_at(st1.img, v.bs(), own) == block_at(v.img, v.bs(), own));
    assert forall|k: int| #[trigger] slot_block(slots, k) implies slots_apart(
        v.img,
        w.img,
        v.bs(),
        slots,
        v.sb.inode_size as int,
        k,
    ) by {
        assert(k == own);
    }
}

/// The path of a name for which its directory had to grow leads to the inode
/// that it was entered for. Nothing on the way to the directory is a node of
/// the directory's tree, or shares a block with its record, its own aside.
pub proof fn law_path_into_a_grown_directory(v: Vol, path: Seq<u8>, ino: u32, raw: Seq<u8>, target: u32, ft: DirEntryType)
    requires
        dir_in_place(v, ino, raw),
        parent_and_base(path) is Ok,
        parent_and_base(path)->Ok_0.1.len() <= 255,
        resolve(v, parent_and_base(path)->Ok_0.0) == Ok::<u32, Error>(ino),
        mode_is_dir(mode_of(raw)),
        path_clear(
            v,
            elsewhere(v, ino, raw),
            seq![own_slot(v, ino)],
            seq![ino],
            parent_and_base(path)->Ok_0.0,
            0,
            EXT4_ROOT_INODE,
        ),
        target != 0,
        dir_blocks(v, raw) < FILE_BLOCKS,
        size_of_file(raw) + v.bs() <= v.sb.blocks_count * v.bs(),
        find_entry(v, ino, raw, parent_and_base(path)->Ok_0.1) == Err::<u32, Error>(Error::NotFound),
        extend_stage(v, ino, parent_and_base(path)->Ok_0.1, target, ft) is Ok,
    ensures
        resolve(
            committed(v, extend_stage(v, ino, parent_and_base(path)->Ok_0.1, target, ft)->Ok_0),
            path,
        ) == Ok::<u32, Error>(target),
{
    let (parent_path, name) = parent_and_base(path)->Ok_0;
    let w = committed(v, extend_stage(v, ino, name, target, ft)->Ok_0);
    lemma_in_place(v, ino, raw);
    law_grown_directory_has_the_name(v, ino, raw, name, target, ft, name);
    let rec = checked_inode(w, ino)->Ok_0;
    assert forall|other: Seq<u8>| other != name && find_entry(v, ino, raw, other) is Ok implies #[trigger] find_entry(
        w,
        ino,
        rec,
        other,
    ) == find_entry(v, ino, raw, other) by {
        law_grown_directory_has_the_name(v, ino, raw, name, target, ft, other);
    }
    lemma_walk_but(
        v,
        w,
        elsewhere(v, ino, raw),
        seq![own_slot(v, ino)],
        ino,
        raw,
        rec,
        name,
        parent_path,
        0,
        EXT4_ROOT_INODE,
        ino,
    );
    lemma_path_steps(w, path);
}

} // verus!
