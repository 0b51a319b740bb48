//! Where a path leads once a name has been entered, or taken out.
use crate::attr::inode_at;
use crate::bgd::inode_place;
use crate::block_io::{block_at, lemma_with_block};
use crate::bytes::splice;
use crate::commit::committed;
use crate::content_laws::{law_record_reads_back, lemma_same_place, record_block};
use crate::dir::DirEntryType;
use crate::dirops::{
    component_end, dir_blocks, find_entry, find_entry_from, last_slash, lemma_component_end, parent_and_base, resolve,
    stage_add_entry, trimmed_len, walk_from, EXT4_ROOT_INODE, SLASH,
};
use crate::entry_laws::{good_block, good_dir, law_entered_name_is_found, lemma_entered_elsewhere};
use crate::error::{Error, Result};
use crate::extent::header_of;
use crate::frame_laws::{framed, is_meta};
use crate::fs::{checked_inode, file_block, raw_inode};
use crate::grow::stage_fresh;
use crate::growth_laws::lemma_tree_same;
use crate::inode::{block_area_of, flags_of, generation_of, mode_is_dir, mode_of, size_of_file};
use crate::pwrite_laws::{lemma_block_for_found, levels};
use crate::reach_laws::{
    beside, dir_clear, in_slot, lemma_dir_beside, lemma_find_beside, lemma_record_beside, path_clear, slot_block,
    slots_apart,
};
use crate::stage::stage_inode;
use crate::tree_laws::{lemma_lookup_same, tree_node};
use crate::volume::{fresh_stage, Stage, Vol};
use vstd::prelude::*;

verus! {

broadcast use crate::bytes::group_fields;

// -- a path is its directory's path and a name ------------------------------

/// The inode that `name` names in the directory that a walk ended in.
pub open spec fn stepped(v: Vol, r: Result<u32>, name: Seq<u8>) -> Result<u32> {
    match r {
        Err(e) => Err(e),
        Ok(d) => match checked_inode(v, d) {
            Err(e) => Err(e),
            Ok(raw) => if !mode_is_dir(mode_of(raw)) {
                Err(Error::NotADirectory)
            } else {
                find_entry(v, d, raw, name)
            },
        },
    }
}

proof fn lemma_trimmed(path: Seq<u8>, n: int)
    requires
        0 <= n <= path.len(),
    ensures
        0 <= trimmed_len(path, n) <= n,
        trimmed_len(path, n) > 0 ==> path[trimmed_len(path, n) - 1] != SLASH,
        forall|k: int| trimmed_len(path, n) <= k < n ==> #[trigger] path[k] == SLASH,
    decreases n,
{
    if n > 0 && path[n - 1] == SLASH {
        lemma_trimmed(path, n - 1);
    }
}

proof fn lemma_last_slash(path: Seq<u8>, n: int)
    requires
        0 <= n <= path.len(),
    ensures
        last_slash(path, n) matches Some(i) ==> 0 <= i < n && path[i] == SLASH && forall|k: int|
            i < k < n ==> #[trigger] path[k] != SLASH,
    decreases n,
{
    if n > 0 && path[n - 1] != SLASH {
        lemma_last_slash(path, n - 1);
    }
}

/// A component ends where the next slash is.
proof fn lemma_component_at(path: Seq<u8>, at: int, end: int)
    requires
        0 <= at <= end <= path.len(),
        forall|k: int| at <= k < end ==> #[trigger] path[k] != SLASH,
        end < path.len() ==> path[end] == SLASH,
    ensures
        component_end(path, at) == end,
    decreases end - at,
{
    if at < end {
        assert(path[at] != SLASH);
        lemma_component_at(path, at + 1, end);
    }
}

/// A component of the front of a path is one of the path.
proof fn lemma_component_front(path: Seq<u8>, i: int, at: int)
    requires
        0 <= at <= i < path.len(),
        path[i] == SLASH,
    ensures
        component_end(path, at) == component_end(path.subrange(0, i), at),
        at <= component_end(path, at) <= i,
    decreases i - at,
{
    if at < i && path[at] != SLASH {
        assert(path.subrange(0, i)[at] == path[at]);
        lemma_component_front(path, i, at + 1);
    } else if at < i {
        assert(path.subrange(0, i)[at] == path[at]);
    }
}

/// Slashes lead nowhere else.
pub(crate) proof fn lemma_slashes(v: Vol, path: Seq<u8>, at: int, d: u32)
    requires
        0 <= at,
        forall|k: int| at <= k < path.len() ==> #[trigger] path[k] == SLASH,
    ensures
        walk_from(v, path, at, d) == Ok::<u32, Error>(d),
    decreases path.len() - at,
{
    if at < path.len() {
        assert(path[at] == SLASH);
        lemma_slashes(v, path, at + 1, d);
    }
}

/// A walk of a path is a walk of its front, and then of the rest.
pub(crate) proof fn lemma_walk_front(v: Vol, path: Seq<u8>, i: int, at: int, d: u32)
    requires
        0 <= at <= i < path.len(),
        path[i] == SLASH,
    ensures
        walk_from(v, path, at, d) == (match walk_from(v, path.subrange(0, i), at, d) {
            Err(e) => Err(e),
            Ok(c) => walk_from(v, path, i, c),
        }),
    decreases i - at,
{
    let front = path.subrange(0, i);
    if at < i {
        assert(front[at] == path[at]);
        if path[at] == SLASH {
            lemma_walk_front(v, path, i, at + 1, d);
        } else {
            lemma_component_front(path, i, at);
            let end = component_end(path, at);
            lemma_component_end(path, at);
            assert(front.subrange(at, end) =~= path.subrange(at, end));
            if let Ok(raw) = checked_inode(v, d) {
                if mode_is_dir(mode_of(raw)) {
                    if let Ok(c) = find_entry(v, d, raw, path.subrange(at, end)) {
                        lemma_walk_front(v, path, i, end, c);
                    }
                }
            }
        }
    }
}

/// A path leads where its last name leads from its directory.
pub proof fn lemma_path_steps(v: Vol, path: Seq<u8>)
    requires
        parent_and_base(path) is Ok,
    ensures
        ({
            let (parent, name) = parent_and_base(path)->Ok_0;
            resolve(v, path) == stepped(v, resolve(v, parent), name)
        }),
{
    let n = trimmed_len(path, path.len() as int);
    lemma_trimmed(path, path.len() as int);
    lemma_last_slash(path, n);
    let i = last_slash(path, n)->Some_0;
    let (parent, name) = parent_and_base(path)->Ok_0;
    let root = EXT4_ROOT_INODE;
    if i == 0 {
        assert(resolve(v, parent) == Ok::<u32, Error>(root)) by {
            lemma_slashes(v, parent, 0, root);
        }
    } else {
        lemma_walk_front(v, path, i, 0, root);
    }
    let r = resolve(v, parent);
    if let Ok(d) = r {
        assert(walk_from(v, path, i, d) == walk_from(v, path, i + 1, d));
        assert(i + 1 < n);
        assert(path[i + 1] != SLASH);
        lemma_component_at(path, i + 1, n);
        if let Ok(raw) = checked_inode(v, d) {
            if mode_is_dir(mode_of(raw)) {
                if let Ok(c) = find_entry(v, d, raw, name) {
                    lemma_slashes(v, path, n, c);
                }
            }
        }
    }
}

// -- the way to the directory -----------------------------------------------

/// A walk that comes to something that is no directory ends there or fails.
pub(crate) proof fn lemma_walk_from_file(v: Vol, path: Seq<u8>, at: int, c: u32)
    requires
        0 <= at,
        checked_inode(v, c) matches Ok(raw) ==> !mode_is_dir(mode_of(raw)),
    ensures
        walk_from(v, path, at, c) is Err || walk_from(v, path, at, c) == Ok::<u32, Error>(c),
    decreases path.len() - at,
{
    if at < path.len() && path[at] == SLASH {
        lemma_walk_from_file(v, path, at + 1, c);
    }
}

/// Whether a walk that ends in `r` can go through `name` in directory `dir`:
/// not if it is not there, nor if it is no directory and `r` is one.
pub open spec fn no_way_through(v: Vol, dir: u32, raw: Seq<u8>, name: Seq<u8>, r: u32) -> bool {
    match find_entry(v, dir, raw, name) {
        Err(_) => true,
        Ok(c) => {
            &&& checked_inode(v, c) matches Ok(craw) ==> !mode_is_dir(mode_of(craw))
            &&& checked_inode(v, r) is Ok
            &&& mode_is_dir(mode_of(checked_inode(v, r)->Ok_0))
        },
    }
}

/// Where a path leads stays the same, though one name in one directory may
/// have changed.
pub(crate) proof fn lemma_walk_but(
    v: Vol,
    w: Vol,
    safe: spec_fn(int) -> bool,
    slots: Seq<(int, int)>,
    dir: u32,
    draw: Seq<u8>,
    after: Seq<u8>,
    name: Seq<u8>,
    path: Seq<u8>,
    at: int,
    d: u32,
    r: u32,
)
    requires
        beside(v, w, safe, slots),
        0 <= at,
        path_clear(v, safe, slots, seq![dir], path, at, d),
        checked_inode(v, dir) == Ok::<Seq<u8>, Error>(draw),
        checked_inode(w, dir) == Ok::<Seq<u8>, Error>(after),
        mode_of(after) == mode_of(draw),
        forall|other: Seq<u8>|
            other != name && find_entry(v, dir, draw, other) is Ok ==> #[trigger] find_entry(w, dir, after, other)
                == find_entry(v, dir, draw, other),
        no_way_through(v, dir, draw, name, r),
        walk_from(v, path, at, d) == Ok::<u32, Error>(r),
    ensures
        walk_from(w, path, at, d) == Ok::<u32, Error>(r),
    decreases path.len() - at,
{
    if at < path.len() {
        if path[at] == SLASH {
            lemma_walk_but(v, w, safe, slots, dir, draw, after, name, path, at + 1, d, r);
        } else {
            lemma_component_end(path, at);
            let raw = checked_inode(v, d)->Ok_0;
            let end = component_end(path, at);
            let part = path.subrange(at, end);
            let c = find_entry(v, d, raw, part)->Ok_0;
            if d == dir {
                if part == name {
                    lemma_walk_from_file(v, path, end, c);
                }
                assert(find_entry(w, dir, after, part) == find_entry(v, dir, draw, part));
            } else {
                lemma_record_beside(v, w, safe, safe, slots, d);
                lemma_dir_beside(v, w, safe, safe, slots, raw);
                lemma_find_beside(v, w, safe, slots, d, raw, part, 0);
            }
            lemma_walk_but(v, w, safe, slots, dir, draw, after, name, path, end, c, r);
        }
    }
}

// -- what is staged ---------------------------------------------------------

/// Where the record of an inode is: its block, and the byte of the block where
/// it starts.
pub open spec fn own_slot(v: Vol, ino: u32) -> (int, int) {
    (record_block(v, ino), inode_place(v.sb, v.groups, ino)->Ok_0.1 as int)
}

/// Block `k` is one of a directory's.
pub open spec fn dir_holds(v: Vol, raw: Seq<u8>, k: int) -> bool {
    exists|l: int|
        0 <= l < dir_blocks(v, raw) && (#[trigger] file_block(v, raw, l)) == Ok::<Option<u64>, Error>(Some(k as u64)) && k
            <= u64::MAX
}

/// Block `k` is one of those in `new`.
pub open spec fn is_new(new: Seq<u64>, k: int) -> bool {
    exists|i: int| 0 <= i < new.len() && #[trigger] new[i] == k
}

/// The blocks that hold neither bookkeeping nor one of some records, and are
/// not new.
pub open spec fn quiet(v: Vol, slots: Seq<(int, int)>, new: Seq<u64>) -> spec_fn(int) -> bool {
    |k: int| k >= 0 && !is_meta(v, k) && !slot_block(slots, k) && !is_new(new, k)
}

/// Of those, the ones that are not the directory's either.
pub open spec fn untouched(v: Vol, slots: Seq<(int, int)>, new: Seq<u64>, raw: Seq<u8>) -> spec_fn(int) -> bool {
    |k: int| k >= 0 && !is_meta(v, k) && !slot_block(slots, k) && !is_new(new, k) && !dir_holds(v, raw, k)
}

/// Between two stages nothing changed but bookkeeping, some records, and the
/// blocks that are new.
pub open spec fn moved(v: Vol, a: Stage, b: Stage, slots: Seq<(int, int)>, new: Seq<u64>) -> bool {
    &&& b.img.len() == a.img.len()
    &&& forall|k: int|
        k >= 0 && !is_meta(v, k) && !slot_block(slots, k) && !is_new(new, k) ==> #[trigger] block_at(b.img, v.bs(), k)
            == block_at(a.img, v.bs(), k)
    &&& forall|k: int| #[trigger]
        slot_block(slots, k) ==> slots_apart(a.img, b.img, v.bs(), slots, v.sb.inode_size as int, k)
}

/// Records that change lie in blocks that hold neither bookkeeping nor
/// anything new, and each within its block.
pub open spec fn slots_stand(v: Vol, slots: Seq<(int, int)>, new: Seq<u64>) -> bool {
    forall|k: int| #[trigger] slot_block(slots, k) ==> k >= 0 && !is_meta(v, k) && !is_new(new, k)
}

pub(crate) proof fn lemma_moved_on(v: Vol, a: Stage, b: Stage, c: Stage, slots: Seq<(int, int)>, new: Seq<u64>)
    requires
        moved(v, a, b, slots, new),
        moved(v, b, c, slots, new),
    ensures
        moved(v, a, c, slots, new),
{
    let size = v.sb.inode_size as int;
    assert forall|k: int| k >= 0 && !is_meta(v, k) && !slot_block(slots, k) && !is_new(new, k) implies #[trigger] block_at(
        c.img,
        v.bs(),
        k,
    ) == block_at(a.img, v.bs(), k) by {
        assert(block_at(b.img, v.bs(), k) == block_at(a.img, v.bs(), k));
    }
    assert forall|k: int| #[trigger] slot_block(slots, k) implies slots_apart(a.img, c.img, v.bs(), slots, size, k) by {
        assert(slots_apart(a.img, b.img, v.bs(), slots, size, k));
        assert(slots_apart(b.img, c.img, v.bs(), slots, size, k));
        if block_at(a.img, v.bs(), k) is Ok {
            let x = block_at(a.img, v.bs(), k)->Ok_0;
            let y = block_at(b.img, v.bs(), k)->Ok_0;
            let z = block_at(c.img, v.bs(), k)->Ok_0;
            assert forall|j: int| 0 <= j < x.len() && !in_slot(slots, size, k, j) implies #[trigger] z[j] == x[j] by {
                assert(y[j] == x[j]);
            }
        }
    }
}

/// Bookkeeping moves nothing else.
pub(crate) proof fn lemma_moved_framed(v: Vol, a: Stage, b: Stage, slots: Seq<(int, int)>, new: Seq<u64>)
    requires
        framed(v, a, b),
        slots_stand(v, slots, new),
    ensures
        moved(v, a, b, slots, new),
{
}

/// Staging a record moves nothing else.
pub(crate) proof fn lemma_moved_record(v: Vol, a: Stage, ino: u32, rec: Seq<u8>, slots: Seq<(int, int)>, new: Seq<u64>, i: int)
    requires
        v.wf(),
        0 <= i < slots.len(),
        slots[i] == own_slot(v, ino),
        rec.len() == v.sb.inode_size,
        stage_inode(v, a, ino, rec) is Ok,
    ensures
        moved(v, a, stage_inode(v, a, ino, rec)->Ok_0, slots, new),
        stage_inode(v, a, ino, rec)->Ok_0.cleared == a.cleared,
        raw_inode(committed(v, stage_inode(v, a, ino, rec)->Ok_0), ino) == Ok::<Seq<u8>, Error>(rec),
{
    let b = stage_inode(v, a, ino, rec)->Ok_0;
    let own = own_slot(v, ino);
    let size = v.sb.inode_size as int;
    let old = block_at(a.img, v.bs(), own.0)->Ok_0;
    let put = splice(old, own.1, rec);
    law_record_reads_back(v, a, ino, rec, 0);
    assert(slot_block(slots, own.0));
    lemma_with_block(a.img, v.bs(), own.0, put, own.0);
    assert forall|k: int| k >= 0 && k != own.0 implies #[trigger] block_at(b.img, v.bs(), k) == block_at(
        a.img,
        v.bs(),
        k,
    ) by {
        law_record_reads_back(v, a, ino, rec, k);
    }
    assert forall|k: int| #[trigger] slot_block(slots, k) implies slots_apart(a.img, b.img, v.bs(), slots, size, k) by {
        if k == own.0 {
            assert forall|j: int| 0 <= j < old.len() && !in_slot(slots, size, k, j) implies #[trigger] put[j] == old[j] by {
                assert(slots[i] == own);
            }
        } else if k < 0 {
            lemma_no_block(a.img, v.bs(), k);
            lemma_no_block(b.img, v.bs(), k);
        }
    }
}

/// There is no block before the first.
proof fn lemma_no_block(img: Seq<u8>, bs: int, k: int)
    requires
        k < 0,
        bs > 0,
    ensures
        block_at(img, bs, k) == Err::<Seq<u8>, Error>(Error::Io),
{
    assert(k * bs < 0) by (nonlinear_arith)
        requires
            k < 0,
            bs > 0,
    ;
}

/// Building a new block moves nothing else.
pub(crate) proof fn lemma_moved_fresh(v: Vol, a: Stage, p: u64, b: Seq<u8>, slots: Seq<(int, int)>, new: Seq<u64>, i: int)
    requires
        v.wf(),
        slots_stand(v, slots, new),
        0 <= i < new.len(),
        new[i] == p,
        b.len() == v.bs(),
        a.img.len() == v.img.len(),
        stage_fresh(v, a, p, b) is Ok,
    ensures
        moved(v, a, stage_fresh(v, a, p, b)->Ok_0, slots, new),
        stage_fresh(v, a, p, b)->Ok_0.cleared == a.cleared,
        block_at(stage_fresh(v, a, p, b)->Ok_0.img, v.bs(), p as int) == Ok::<Seq<u8>, Error>(b),
{
    let c = stage_fresh(v, a, p, b)->Ok_0;
    assert(is_new(new, p as int));
    lemma_with_block(a.img, v.bs(), p as int, b, p as int);
    assert forall|k: int| k >= 0 && k != p implies #[trigger] block_at(c.img, v.bs(), k) == block_at(a.img, v.bs(), k) by {
        lemma_with_block(a.img, v.bs(), p as int, b, k);
    }
}

/// A volume with such a stage committed.
pub(crate) proof fn lemma_moved_beside(v: Vol, a: Stage, b: Stage, slots: Seq<(int, int)>, new: Seq<u64>)
    requires
        v.wf(),
        moved(v, a, b, slots, new),
    ensures
        beside(committed(v, a), committed(v, b), quiet(v, slots, new), slots),
{
    let u = committed(v, a);
    let w = committed(v, b);
    assert forall|d: u32| #[trigger] inode_place(w.sb, w.groups, d) == inode_place(u.sb, u.groups, d) by {
        lemma_same_place(v, a, d);
        lemma_same_place(v, b, d);
    }
}

/// A directory stands while such a stage is committed.
pub(crate) proof fn lemma_dir_stands(
    v: Vol,
    a: Stage,
    b: Stage,
    slots: Seq<(int, int)>,
    new: Seq<u64>,
    parent: u32,
    raw: Seq<u8>,
)
    requires
        v.wf(),
        moved(v, a, b, slots, new),
        good_dir(committed(v, a), raw),
        dir_clear(committed(v, a), quiet(v, slots, new), raw),
    ensures
        good_dir(committed(v, b), raw),
        forall|l: int| #[trigger] file_block(committed(v, b), raw, l) == file_block(committed(v, a), raw, l),
        forall|other: Seq<u8>| #[trigger]
            find_entry(committed(v, b), parent, raw, other) == find_entry(committed(v, a), parent, raw, other),
{
    let u = committed(v, a);
    let w = committed(v, b);
    let safe = quiet(v, slots, new);
    let root = block_area_of(raw);
    let d = levels(root);
    lemma_moved_beside(v, a, b, slots, new);
    lemma_dir_beside(u, w, safe, safe, slots, raw);
    assert forall|k: int| #[trigger] tree_node(u.img, v.bs(), root, d, k) implies block_at(w.img, v.bs(), k) == block_at(
        u.img,
        v.bs(),
        k,
    ) by {
        assert(safe(k));
    }
    lemma_tree_same(u.img, w.img, v.bs(), root, d);
    assert forall|l: int| #[trigger] file_block(w, raw, l) == file_block(u, raw, l) by {
        if header_of(root) is Ok {
            lemma_lookup_same(u.img, w.img, v.bs(), root, d, l, None);
        }
    }
    assert forall|l: int| 0 <= l < dir_blocks(w, raw) implies ((#[trigger] file_block(w, raw, l)) matches Ok(Some(p))
        ==> (w.block(p as int) matches Ok(x) ==> good_block(w, x))) by {
        assert(file_block(w, raw, l) == file_block(u, raw, l));
        if let Ok(Some(p)) = file_block(u, raw, l) {
            assert(safe(p as int));
            assert(w.block(p as int) == u.block(p as int));
        }
    }
    assert forall|other: Seq<u8>| #[trigger] find_entry(w, parent, raw, other) == find_entry(u, parent, raw, other) by {
        lemma_find_beside(u, w, safe, slots, parent, raw, other, 0);
    }
}

// -- entering a name --------------------------------------------------------

/// A directory in good order whose blocks hold nothing else, at the end of a
/// path whose other directories' blocks do not either. `slots` are the records
/// that are about to change, and `new` the blocks that are about to be taken.
#[verifier::opaque]
pub open spec fn way_in(
    v: Vol,
    slots: Seq<(int, int)>,
    new: Seq<u64>,
    parent_path: Seq<u8>,
    parent: u32,
    raw: Seq<u8>,
) -> bool {
    &&& v.wf()
    &&& slots_stand(v, slots, new)
    &&& forall|k: int| #[trigger] slot_block(slots, k) ==> !dir_holds(v, raw, k)
    &&& good_dir(v, raw)
    &&& dir_clear(v, quiet(v, slots, new), raw)
    &&& inode_at(v, parent_path) == Ok::<(u32, Seq<u8>), Error>((parent, raw))
    &&& mode_is_dir(mode_of(raw))
    &&& path_clear(v, untouched(v, slots, new, raw), slots, seq![parent], parent_path, 0, EXT4_ROOT_INODE)
}

/// The records that are about to change lie apart from all else.
pub(crate) proof fn lemma_way_slots(
    v: Vol,
    slots: Seq<(int, int)>,
    new: Seq<u64>,
    parent_path: Seq<u8>,
    parent: u32,
    raw: Seq<u8>,
)
    requires
        way_in(v, slots, new, parent_path, parent, raw),
    ensures
        slots_stand(v, slots, new),
        forall|k: int| #[trigger] slot_block(slots, k) ==> !dir_holds(v, raw, k),
{
    reveal(way_in);
}

/// Two records of a directory that differ in nothing a search goes by.
pub open spec fn alike(raw: Seq<u8>, after: Seq<u8>) -> bool {
    &&& mode_of(after) == mode_of(raw)
    &&& flags_of(after) == flags_of(raw)
    &&& size_of_file(after) == size_of_file(raw)
    &&& generation_of(after) == generation_of(raw)
    &&& block_area_of(after) == block_area_of(raw)
}

pub(crate) proof fn lemma_alike_finds(v: Vol, d: u32, raw: Seq<u8>, after: Seq<u8>, name: Seq<u8>, l: int)
    requires
        alike(raw, after),
    ensures
        find_entry_from(v, d, after, name, l) == find_entry_from(v, d, raw, name, l),
    decreases dir_blocks(v, raw) - l,
{
    if l < dir_blocks(v, raw) {
        lemma_alike_finds(v, d, raw, after, name, l + 1);
    }
}

/// A directory's block changed, and then records only: nothing that is neither
/// a record nor the directory's is different.
pub(crate) proof fn lemma_edited_beside(
    v: Vol,
    st: Stage,
    mid: Stage,
    fin: Stage,
    slots: Seq<(int, int)>,
    new: Seq<u64>,
    raw: Seq<u8>,
    p: u64,
)
    requires
        v.wf(),
        moved(v, fresh_stage(v), st, slots, new),
        slots_stand(v, slots, new),
        forall|k: int| #[trigger] slot_block(slots, k) ==> !dir_holds(v, raw, k),
        dir_holds(v, raw, p as int),
        mid.img.len() == st.img.len(),
        forall|k: int| k >= 0 && k != p ==> #[trigger] block_at(mid.img, v.bs(), k) == block_at(st.img, v.bs(), k),
        moved(v, mid, fin, slots, new),
    ensures
        beside(v, committed(v, fin), untouched(v, slots, new, raw), slots),
{
    let w = committed(v, fin);
    let safe = untouched(v, slots, new, raw);
    let size = v.sb.inode_size as int;
    assert forall|d: u32| #[trigger] inode_place(w.sb, w.groups, d) == inode_place(v.sb, v.groups, d) by {
        lemma_same_place(v, fin, d);
    }
    assert forall|k: int| #[trigger] safe(k) implies block_at(w.img, v.bs(), k) == block_at(v.img, v.bs(), k) by {
        assert(k != p);
        assert(block_at(fin.img, v.bs(), k) == block_at(mid.img, v.bs(), k));
        assert(block_at(mid.img, v.bs(), k) == block_at(st.img, v.bs(), k));
    }
    assert forall|k: int| #[trigger] slot_block(slots, k) implies slots_apart(v.img, w.img, v.bs(), slots, size, k) by {
        assert(k != p);
        assert(block_at(mid.img, v.bs(), k) == block_at(st.img, v.bs(), k));
        assert(slots_apart(v.img, st.img, v.bs(), slots, size, k));
        assert(slots_apart(mid.img, fin.img, v.bs(), slots, size, k));
        if block_at(v.img, v.bs(), k) is Ok {
            let x = block_at(v.img, v.bs(), k)->Ok_0;
            let y = block_at(st.img, v.bs(), k)->Ok_0;
            let z = block_at(fin.img, v.bs(), k)->Ok_0;
            assert forall|j: int| 0 <= j < x.len() && !in_slot(slots, size, k, j) implies #[trigger] z[j] == x[j] by {
                assert(y[j] == x[j]);
            }
        }
    }
}

/// A name entered in a directory that has room for it, and some records
/// changed: its path leads to the inode that it was entered for, and every
/// other name of the directory leads where it did. `after` is the directory's
/// record once all is done.
#[verifier::rlimit(40)]
pub(crate) proof fn lemma_entered_at(
    v: Vol,
    st: Stage,
    fin: Stage,
    slots: Seq<(int, int)>,
    new: Seq<u64>,
    path: Seq<u8>,
    parent: u32,
    raw: Seq<u8>,
    after: Seq<u8>,
    target: u32,
    ft: DirEntryType,
)
    requires
        parent_and_base(path) is Ok,
        way_in(v, slots, new, parent_and_base(path)->Ok_0.0, parent, raw),
        moved(v, fresh_stage(v), st, slots, new),
        parent_and_base(path)->Ok_0.1.len() <= 255,
        target != 0,
        find_entry(v, parent, raw, parent_and_base(path)->Ok_0.1) == Err::<u32, Error>(Error::NotFound),
        stage_add_entry(v, st, parent, raw, parent_and_base(path)->Ok_0.1, target, ft) is Ok,
        moved(
            v,
            stage_add_entry(v, st, parent, raw, parent_and_base(path)->Ok_0.1, target, ft)->Ok_0,
            fin,
            slots,
            new,
        ),
        checked_inode(committed(v, fin), parent) == Ok::<Seq<u8>, Error>(after),
        alike(raw, after),
    ensures
        ({
            let name = parent_and_base(path)->Ok_0.1;
            let w = committed(v, fin);
            &&& resolve(w, path) == Ok::<u32, Error>(target)
            &&& resolve(w, parent_and_base(path)->Ok_0.0) == Ok::<u32, Error>(parent)
            &&& forall|other: Seq<u8>|
                other != name ==> #[trigger] find_entry(w, parent, after, other) == find_entry(v, parent, raw, other)
        }),
{
    reveal(way_in);
    let (parent_path, name) = parent_and_base(path)->Ok_0;
    let start = fresh_stage(v);
    let u = committed(v, st);
    let safe = untouched(v, slots, new, raw);
    assert(committed(v, start) == v);
    lemma_dir_stands(v, start, st, slots, new, parent, raw);
    assert(find_entry(u, parent, raw, name) == find_entry(v, parent, raw, name));
    let m = lemma_entered_elsewhere(v, st, parent, raw, name, target, ft);
    let p = file_block(v, raw, m)->Ok_0->Some_0;
    let mid = stage_add_entry(v, st, parent, raw, name, target, ft)->Ok_0;
    let x = committed(v, mid);
    let w = committed(v, fin);
    assert(file_block(v, raw, m) == Ok::<Option<u64>, Error>(Some(p as int as u64)));
    assert(dir_holds(v, raw, p as int));
    lemma_edited_beside(v, st, mid, fin, slots, new, raw, p);
    lemma_edited_dir(v, st, mid, slots, new, raw, m, p);
    lemma_dir_stands_on(v, mid, fin, slots, new, parent, raw);
    law_entered_name_is_found(v, st, parent, raw, name, target, ft, name);
    assert(find_entry(x, parent, raw, name) == Ok::<u32, Error>(target));
    assert forall|other: Seq<u8>| other != name implies #[trigger] find_entry(w, parent, after, other) == find_entry(
        v,
        parent,
        raw,
        other,
    ) by {
        law_entered_name_is_found(v, st, parent, raw, name, target, ft, other);
        assert(find_entry(u, parent, raw, other) == find_entry(v, parent, raw, other));
        assert(find_entry(w, parent, raw, other) == find_entry(x, parent, raw, other));
        lemma_alike_finds(w, parent, raw, after, other, 0);
    }
    assert(find_entry(w, parent, raw, name) == find_entry(x, parent, raw, name));
    lemma_alike_finds(w, parent, raw, after, name, 0);
    lemma_walk_but(v, w, safe, slots, parent, raw, after, name, parent_path, 0, EXT4_ROOT_INODE, parent);
    lemma_path_steps(w, path);
}

/// Where the directory's blocks are is the same once one of them was edited,
/// and finding them reads no block that changes further on.
pub(crate) proof fn lemma_edited_dir(
    v: Vol,
    st: Stage,
    mid: Stage,
    slots: Seq<(int, int)>,
    new: Seq<u64>,
    raw: Seq<u8>,
    m: int,
    p: u64,
)
    requires
        v.wf(),
        moved(v, fresh_stage(v), st, slots, new),
        good_dir(committed(v, st), raw),
        dir_clear(v, quiet(v, slots, new), raw),
        forall|l: int| #[trigger] file_block(committed(v, st), raw, l) == file_block(v, raw, l),
        0 <= m < dir_blocks(v, raw),
        file_block(v, raw, m) == Ok::<Option<u64>, Error>(Some(p)),
        good_dir(v, raw),
        forall|k: int| k >= 0 && k != p ==> #[trigger] block_at(mid.img, v.bs(), k) == block_at(st.img, v.bs(), k),
    ensures
        dir_clear(committed(v, mid), quiet(v, slots, new), raw),
        forall|l: int| #[trigger] file_block(committed(v, mid), raw, l) == file_block(v, raw, l),
{
    let x = committed(v, mid);
    let safe = quiet(v, slots, new);
    let root = block_area_of(raw);
    let d = levels(root);
    lemma_block_for_found(v.img, v.bs(), root, m);
    assert forall|k: int| #[trigger] tree_node(v.img, v.bs(), root, d, k) implies block_at(x.img, v.bs(), k) == block_at(
        v.img,
        v.bs(),
        k,
    ) by {
        assert(safe(k));
        assert(k != p);
        assert(block_at(mid.img, v.bs(), k) == block_at(st.img, v.bs(), k));
        assert(block_at(st.img, v.bs(), k) == block_at(fresh_stage(v).img, v.bs(), k));
    }
    lemma_tree_same(v.img, x.img, v.bs(), root, d);
    assert forall|l: int| #[trigger] file_block(x, raw, l) == file_block(v, raw, l) by {
        if header_of(root) is Ok {
            lemma_lookup_same(v.img, x.img, v.bs(), root, d, l, None);
        }
    }
    assert forall|k: int| #[trigger] tree_node(x.img, v.bs(), root, d, k) implies safe(k) by {
        assert(tree_node(v.img, v.bs(), root, d, k));
    }
    assert forall|l: int| 0 <= l < dir_blocks(x, raw) implies ((#[trigger] file_block(x, raw, l)) matches Ok(Some(q))
        ==> safe(q as int)) by {
        assert(file_block(x, raw, l) == file_block(v, raw, l));
    }
}

/// Searches of a directory come out the same while records change.
pub(crate) proof fn lemma_dir_stands_on(
    v: Vol,
    a: Stage,
    b: Stage,
    slots: Seq<(int, int)>,
    new: Seq<u64>,
    parent: u32,
    raw: Seq<u8>,
)
    requires
        v.wf(),
        moved(v, a, b, slots, new),
        dir_clear(committed(v, a), quiet(v, slots, new), raw),
    ensures
        forall|other: Seq<u8>| #[trigger]
            find_entry(committed(v, b), parent, raw, other) == find_entry(committed(v, a), parent, raw, other),
{
    let u = committed(v, a);
    let w = committed(v, b);
    let safe = quiet(v, slots, new);
    lemma_moved_beside(v, a, b, slots, new);
    lemma_dir_beside(u, w, safe, safe, slots, raw);
    assert forall|other: Seq<u8>| #[trigger] find_entry(w, parent, raw, other) == find_entry(u, parent, raw, other) by {
        lemma_find_beside(u, w, safe, slots, parent, raw, other, 0);
    }
}

/// Nothing moves while nothing is done.
pub(crate) proof fn lemma_still(v: Vol, a: Stage, slots: Seq<(int, int)>, new: Seq<u64>)
    ensures
        moved(v, a, a, slots, new),
{
}

/// Which block of its directory a name was entered in.
pub(crate) proof fn lemma_entered_in(
    v: Vol,
    st: Stage,
    slots: Seq<(int, int)>,
    new: Seq<u64>,
    path: Seq<u8>,
    parent: u32,
    raw: Seq<u8>,
    target: u32,
    ft: DirEntryType,
) -> (p: u64)
    requires
        parent_and_base(path) is Ok,
        way_in(v, slots, new, parent_and_base(path)->Ok_0.0, parent, raw),
        moved(v, fresh_stage(v), st, slots, new),
        parent_and_base(path)->Ok_0.1.len() <= 255,
        target != 0,
        find_entry(v, parent, raw, parent_and_base(path)->Ok_0.1) == Err::<u32, Error>(Error::NotFound),
        stage_add_entry(v, st, parent, raw, parent_and_base(path)->Ok_0.1, target, ft) is Ok,
    ensures
        dir_holds(v, raw, p as int),
        !is_new(new, p as int),
        ({
            let mid = stage_add_entry(v, st, parent, raw, parent_and_base(path)->Ok_0.1, target, ft)->Ok_0;
            &&& mid.img.len() == st.img.len()
            &&& mid.cleared == st.cleared
            &&& forall|k: int|
                k >= 0 && k != p ==> #[trigger] block_at(mid.img, v.bs(), k) == block_at(st.img, v.bs(), k)
        }),
{
    reveal(way_in);
    let name = parent_and_base(path)->Ok_0.1;
    assert(committed(v, fresh_stage(v)) == v);
    lemma_dir_stands(v, fresh_stage(v), st, slots, new, parent, raw);
    assert(find_entry(committed(v, st), parent, raw, name) == find_entry(v, parent, raw, name));
    let m = lemma_entered_elsewhere(v, st, parent, raw, name, target, ft);
    let p = file_block(v, raw, m)->Ok_0->Some_0;
    assert(file_block(v, raw, m) == Ok::<Option<u64>, Error>(Some(p as int as u64)));
    let safe = quiet(v, slots, new);
    assert(safe(p as int));
    p
}

} // verus!
