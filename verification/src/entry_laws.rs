//! What a directory holds once an entry is added to it or taken out of it.
use crate::block_io::{block_at, lemma_with_block};
use crate::bytes::{le16, le32, put16};
use crate::checksum::{dir_stamped, dir_tail_present, law_stamped_dir_verifies};
use crate::commit::committed;
use crate::dir::{
    add_from, find_from, is_dots, list_from, only_dots_from, record_at, record_size, remove_from, type_byte, DirEntryType,
};
use crate::dir_laws::{
    entries_of, law_added_entry_is_listed, law_added_name_is_found, law_find_is_first_listed,
    law_removed_name_is_gone, lemma_cut_record, lemma_differ_more, lemma_record_same, lemma_swallow,
    lemma_written_record, names_differ, Entry,
};
use crate::dirops::{
    dir_blocks, dir_empty_from, dir_restamped, find_entry, find_entry_from, stage_add_entry, stage_add_from,
    stage_remove_from, tail_of,
};
use crate::error::{Error, Result};
use crate::extent::header_of;
use crate::fs::{file_block, keeps_types};
use crate::inode::{block_area_of, flags_of, generation_of, FL_EXTENTS};
use crate::pwrite_laws::{lemma_block_for_found, levels};
use crate::tree_laws::{lemma_lookup_same, lemma_node_number, tree_maps, tree_node};
use crate::volume::{stage_block, Stage, Vol};
use vstd::prelude::*;

verus! {

broadcast use crate::bytes::group_fields;

// -- blocks with a checksum record ------------------------------------------

/// The records from `at` on fill the block up to byte `end` exactly.
pub open spec fn chain_to(block: Seq<u8>, at: int, end: int, has_ft: bool) -> bool
    decreases end - at,
{
    at == end || (at < end && record_at(block, at, end, has_ft) is Ok && chain_to(
        block,
        at + record_at(block, at, end, has_ft)->Ok_0.rec_len,
        end,
        has_ft,
    ))
}

proof fn lemma_chain_suffix(s: Seq<u8>, t: Seq<u8>, at: int, end: int, has_ft: bool)
    requires
        0 <= at,
        end <= s.len(),
        s.len() == t.len(),
        forall|k: int| at <= k < end ==> s[k] == t[k],
        chain_to(s, at, end, has_ft),
    ensures
        chain_to(t, at, end, has_ft),
    decreases end - at,
{
    if at < end {
        lemma_record_same(s, t, at, end, has_ft);
        lemma_chain_suffix(s, t, at + record_at(s, at, end, has_ft)->Ok_0.rec_len, end, has_ft);
    }
}

/// Adding an entry keeps the chain, and touches nothing behind it.
proof fn lemma_add_chain(block: Seq<u8>, at: int, end: int, ino: u32, name: Seq<u8>, ft: u8, has_ft: bool)
    requires
        0 <= at,
        end <= block.len() <= 65536,
        chain_to(block, at, end, has_ft),
        add_from(block, at, end, ino, name, ft, has_ft) is Ok,
        name.len() <= 255,
        !has_ft ==> ft == 0,
    ensures
        ({
            let b = add_from(block, at, end, ino, name, ft, has_ft)->Ok_0;
            &&& b.len() == block.len()
            &&& chain_to(b, at, end, has_ft)
            &&& forall|k: int| 0 <= k < at || end <= k < block.len() ==> b[k] == block[k]
        }),
    decreases end - at,
{
    let b = add_from(block, at, end, ino, name, ft, has_ft)->Ok_0;
    let rec = record_at(block, at, end, has_ft)->Ok_0;
    let need = record_size(name.len() as int);
    let used = record_size(rec.name.len() as int);
    let next = at + rec.rec_len;
    let len = block.len() as int;
    if rec.inode == 0 && rec.rec_len >= need {
        lemma_written_record(block, at, end, ino, rec.rec_len, name, ft, has_ft);
        lemma_chain_suffix(block, b, next, end, has_ft);
    } else if rec.inode != 0 && rec.rec_len - used >= need {
        let cut = put16(block, at + 4, used as u16);
        lemma_written_record(cut, at + used, end, ino, rec.rec_len - used, name, ft, has_ft);
        assert(forall|k: int| next <= k < len ==> b[k] == block[k]);
        lemma_chain_suffix(block, b, next, end, has_ft);
        lemma_cut_record(block, b, at, used, has_ft);
        assert(chain_to(b, at + used, end, has_ft));
    } else {
        lemma_add_chain(block, next, end, ino, name, ft, has_ft);
        lemma_record_same(block, b, at, end, has_ft);
    }
}

/// Stamping a block that has a checksum record changes nothing that is found
/// in it.
proof fn lemma_find_tail(s: Seq<u8>, t: Seq<u8>, at: int, name: Seq<u8>, has_ft: bool)
    requires
        0 <= at,
        12 <= s.len() <= 65536,
        s.len() == t.len(),
        chain_to(s, at, s.len() - 12, has_ft),
        dir_tail_present(s),
        dir_tail_present(t),
        has_ft,
        forall|k: int| 0 <= k < s.len() - 12 ==> s[k] == t[k],
    ensures
        find_from(t, at, name, has_ft) == find_from(s, at, name, has_ft),
        list_from(t, at, has_ft) is Ok,
        list_from(s, at, has_ft) == list_from(t, at, has_ft),
    decreases s.len() - at,
{
    let end = s.len() - 12;
    let len = s.len() as int;
    if at < end {
        let rec = record_at(s, at, end, has_ft)->Ok_0;
        lemma_record_same(s, t, at, end, has_ft);
        lemma_find_tail(s, t, at + rec.rec_len, name, has_ft);
    } else {
        assert(record_at(s, at, len, has_ft)->Ok_0.inode == 0);
        assert(record_at(t, at, len, has_ft)->Ok_0.inode == 0);
        assert(at + 12 == len);
        assert(find_from(s, len, name, has_ft) == find_from(t, len, name, has_ft));
        assert(list_from(s, len, has_ft) == list_from(t, len, has_ft));
    }
}

/// A directory block in good order: its records can be listed, and on a volume
/// with checksums they fill the block up to its checksum record.
pub open spec fn good_block(v: Vol, b: Seq<u8>) -> bool {
    &&& b.len() == v.bs()
    &&& list_from(b, 0, keeps_types(v)) is Ok
    &&& v.csum.enabled ==> keeps_types(v) && dir_tail_present(b) && chain_to(b, 0, b.len() - 12, keeps_types(v))
}

/// An entry put into a block in good order, and the block restamped.
proof fn lemma_block_added(
    v: Vol,
    ino: u32,
    raw: Seq<u8>,
    b: Seq<u8>,
    name: Seq<u8>,
    target: u32,
    ft: DirEntryType,
    other: Seq<u8>,
)
    requires
        v.wf(),
        good_block(v, b),
        name.len() <= 255,
        target != 0,
        find_from(b, 0, name, keeps_types(v)) == Ok::<Option<u32>, Error>(None),
        add_from(b, 0, b.len() - tail_of(v, b), target, name, type_byte(ft, keeps_types(v)), keeps_types(v)) is Ok,
    ensures
        ({
            let has_ft = keeps_types(v);
            let out = add_from(b, 0, b.len() - tail_of(v, b), target, name, type_byte(ft, has_ft), has_ft)->Ok_0;
            let new = dir_restamped(v, ino, raw, tail_of(v, b), out);
            &&& new.len() == v.bs()
            &&& v.csum.dir_ok(ino, generation_of(raw), new)
            &&& find_from(new, 0, name, has_ft) == Ok::<Option<u32>, Error>(Some(target))
            &&& other != name ==> find_from(new, 0, other, has_ft) == find_from(b, 0, other, has_ft)
            &&& good_block(v, new)
            &&& names_differ(entries_of(list_from(b, 0, has_ft)->Ok_0)) ==> names_differ(
                entries_of(list_from(new, 0, has_ft)->Ok_0),
            )
        }),
{
    let has_ft = keeps_types(v);
    let end = b.len() - tail_of(v, b);
    let byte = type_byte(ft, has_ft);
    let out = add_from(b, 0, end, target, name, byte, has_ft)->Ok_0;
    law_added_name_is_found(b, end, target, name, byte, has_ft, other);
    crate::dir_laws::lemma_add_list(b, 0, end, target, name, byte, has_ft);
    law_added_entry_is_listed(b, end, target, name, byte, has_ft);
    law_find_is_first_listed(b, 0, name, has_ft);
    if names_differ(entries_of(list_from(b, 0, has_ft)->Ok_0)) {
        lemma_differ_more(
            entries_of(list_from(b, 0, has_ft)->Ok_0),
            entries_of(list_from(out, 0, has_ft)->Ok_0),
            Entry { inode: target, name, file_type: byte },
        );
    }
    if v.csum.enabled {
        lemma_add_chain(b, 0, end, target, name, byte, has_ft);
        lemma_tail_kept(b, out);
        law_stamped_dir_verifies(v.csum, ino, generation_of(raw), out);
        let new = dir_stamped(v.csum.seed, ino, generation_of(raw), out);
        lemma_find_tail(out, new, 0, name, has_ft);
        lemma_find_tail(out, new, 0, other, has_ft);
        lemma_chain_suffix(out, new, 0, end, has_ft);
    }
}

proof fn lemma_tail_kept(s: Seq<u8>, t: Seq<u8>)
    requires
        s.len() == t.len(),
        dir_tail_present(s),
        forall|k: int| s.len() - 12 <= k < s.len() ==> t[k] == s[k],
    ensures
        dir_tail_present(t),
{
    reveal(le16);
    reveal(le32);
}

// -- a directory's blocks ---------------------------------------------------

/// An extent-mapped directory in good order: each of its blocks is in good
/// order and is one block of it only, and none of them is a node of its tree.
pub open spec fn good_dir(v: Vol, raw: Seq<u8>) -> bool {
    let root = block_area_of(raw);
    &&& flags_of(raw) & FL_EXTENTS != 0
    &&& forall|l: int|
        0 <= l < dir_blocks(v, raw) ==> ((#[trigger] file_block(v, raw, l)) matches Ok(Some(p)) ==> (v.block(
            p as int,
        ) matches Ok(b) ==> good_block(v, b)))
    &&& forall|l: int, m: int, p: int| #[trigger]
        tree_maps(v.img, v.bs(), root, levels(root), l, p) && #[trigger] tree_maps(
            v.img,
            v.bs(),
            root,
            levels(root),
            m,
            p,
        ) ==> l == m
    &&& forall|l: int, p: int| #[trigger]
        tree_maps(v.img, v.bs(), root, levels(root), l, p) ==> !tree_node(v.img, v.bs(), root, levels(root), p)
}

/// Another image of a volume on which one block of a directory may differ.
pub open spec fn one_block_apart(v: Vol, w: Vol, at: u64) -> bool {
    &&& w.sb == v.sb
    &&& w.csum == v.csum
    &&& forall|k: int| k >= 0 && k != at ==> #[trigger] block_at(w.img, v.bs(), k) == block_at(v.img, v.bs(), k)
}

/// A change to one of its blocks does not move a directory's blocks.
proof fn lemma_blocks_stay(v: Vol, w: Vol, raw: Seq<u8>, m: int, at: u64, l: int)
    requires
        good_dir(v, raw),
        one_block_apart(v, w, at),
        file_block(v, raw, m) == Ok::<Option<u64>, Error>(Some(at)),
    ensures
        file_block(w, raw, l) == file_block(v, raw, l),
        file_block(v, raw, l) == Ok::<Option<u64>, Error>(Some(at)) ==> l == m,
{
    let root = block_area_of(raw);
    lemma_block_for_found(v.img, v.bs(), root, m);
    lemma_block_for_found(v.img, v.bs(), root, l);
    assert forall|k: int| #[trigger] tree_node(v.img, v.bs(), root, levels(root), k) implies block_at(w.img, v.bs(), k)
        == block_at(v.img, v.bs(), k) by {
        lemma_node_number(v.img, v.bs(), root, levels(root), k);
    }
    if header_of(root) is Ok {
        lemma_lookup_same(v.img, w.img, v.bs(), root, levels(root), l, None);
    }
}

/// Behind the block that changed, a directory reads as before.
proof fn lemma_find_behind(v: Vol, w: Vol, ino: u32, raw: Seq<u8>, m: int, at: u64, name: Seq<u8>, l: int)
    requires
        good_dir(v, raw),
        one_block_apart(v, w, at),
        file_block(v, raw, m) == Ok::<Option<u64>, Error>(Some(at)),
        m < l,
    ensures
        find_entry_from(w, ino, raw, name, l) == find_entry_from(v, ino, raw, name, l),
    decreases dir_blocks(v, raw) - l,
{
    if l < dir_blocks(v, raw) {
        lemma_blocks_stay(v, w, raw, m, at, l);
        lemma_find_behind(v, w, ino, raw, m, at, name, l + 1);
    }
}

/// Where the entry went.
proof fn lemma_added_where(
    v: Vol,
    st: Stage,
    ino: u32,
    raw: Seq<u8>,
    name: Seq<u8>,
    target: u32,
    ft: DirEntryType,
    l: int,
) -> (m: int)
    requires
        stage_add_from(v, st, ino, raw, name, target, ft, l) is Ok,
        0 <= l,
    ensures
        l <= m < dir_blocks(v, raw),
        ({
            let p = file_block(v, raw, m)->Ok_0->Some_0;
            let b = block_at(st.img, v.bs(), p as int)->Ok_0;
            let has_ft = keeps_types(v);
            let out = add_from(b, 0, b.len() - tail_of(v, b), target, name, type_byte(ft, has_ft), has_ft);
            &&& file_block(v, raw, m) == Ok::<Option<u64>, Error>(Some(p))
            &&& block_at(st.img, v.bs(), p as int) is Ok
            &&& out is Ok
            &&& stage_add_from(v, st, ino, raw, name, target, ft, l) == Ok::<Stage, Error>(
                stage_block(v, st, p as int, dir_restamped(v, ino, raw, tail_of(v, b), out->Ok_0)),
            )
        }),
    decreases dir_blocks(v, raw) - l,
{
    match file_block(v, raw, l)->Ok_0 {
        None => lemma_added_where(v, st, ino, raw, name, target, ft, l + 1),
        Some(p) => {
            let b = block_at(st.img, v.bs(), p as int)->Ok_0;
            let has_ft = keeps_types(v);
            if add_from(b, 0, b.len() - tail_of(v, b), target, name, type_byte(ft, has_ft), has_ft) is Ok {
                l
            } else {
                lemma_added_where(v, st, ino, raw, name, target, ft, l + 1)
            }
        },
    }
}

/// A name that is nowhere in a directory is in none of its blocks.
proof fn lemma_not_found_in(v: Vol, ino: u32, raw: Seq<u8>, name: Seq<u8>, l: int, m: int)
    requires
        0 <= l <= m < dir_blocks(v, raw),
        find_entry_from(v, ino, raw, name, l) == Err::<u32, Error>(Error::NotFound),
        file_block(v, raw, m) is Ok,
        file_block(v, raw, m)->Ok_0 is Some,
        good_dir(v, raw),
        v.block(file_block(v, raw, m)->Ok_0->Some_0 as int) is Ok,
    ensures
        find_from(v.block(file_block(v, raw, m)->Ok_0->Some_0 as int)->Ok_0, 0, name, keeps_types(v)) == Ok::<
            Option<u32>,
            Error,
        >(None),
        find_entry_from(v, ino, raw, name, m) == Err::<u32, Error>(Error::NotFound),
    decreases m - l,
{
    if l < m {
        assert(file_block(v, raw, l) is Ok) by {
            if file_block(v, raw, l) is Err {
                lemma_found_error(v, raw, l);
            }
        }
        if file_block(v, raw, l)->Ok_0 is Some {
            let b = v.block(file_block(v, raw, l)->Ok_0->Some_0 as int);
            if b is Ok {
                lemma_find_error(b->Ok_0, 0, name, keeps_types(v));
            }
        }
        lemma_not_found_in(v, ino, raw, name, l + 1, m);
    } else {
        lemma_find_error(
            v.block(file_block(v, raw, m)->Ok_0->Some_0 as int)->Ok_0,
            0,
            name,
            keeps_types(v),
        );
    }
}

/// A lookup in a tree never says that it found nothing by failing.
pub(crate) proof fn lemma_found_error(v: Vol, raw: Seq<u8>, l: int)
    requires
        flags_of(raw) & FL_EXTENTS != 0,
    ensures
        file_block(v, raw, l) != Err::<Option<u64>, Error>(Error::NotFound),
{
    let root = block_area_of(raw);
    if header_of(root) is Ok {
        lemma_lookup_error(v.img, v.bs(), root, levels(root), l);
    }
}

proof fn lemma_lookup_error(img: Seq<u8>, bs: int, node: Seq<u8>, depth: nat, l: int)
    ensures
        crate::extent::lookup_in(img, bs, node, depth, l, None) != Err::<Option<crate::extent::Extent>, Error>(
            Error::NotFound,
        ),
    decreases depth,
{
    let n = crate::extent::header_at(node).entries as int;
    if depth > 0 && crate::extent::child_for(node, n, l) is Some {
        let b = crate::extent::child_for(node, n, l)->Some_0.leaf_block;
        if crate::extent::child_node(img, bs, b, depth - 1, None) is Ok {
            lemma_lookup_error(
                img,
                bs,
                crate::extent::child_node(img, bs, b, depth - 1, None)->Ok_0,
                (depth - 1) as nat,
                l,
            );
        }
    }
}

/// A block whose records do not chain does not say that it lacks a name.
pub(crate) proof fn lemma_find_error(b: Seq<u8>, at: int, name: Seq<u8>, has_ft: bool)
    ensures
        find_from(b, at, name, has_ft) != Err::<Option<u32>, Error>(Error::NotFound),
    decreases b.len() - at,
{
    if at < b.len() && record_at(b, at, b.len() as int, has_ft) is Ok {
        lemma_find_error(b, at + record_at(b, at, b.len() as int, has_ft)->Ok_0.rec_len, name, has_ft);
    }
}

/// Before the block that changed, and in it, a name is found as the block says.
proof fn lemma_find_before(
    v: Vol,
    w: Vol,
    ino: u32,
    raw: Seq<u8>,
    m: int,
    at: u64,
    name: Seq<u8>,
    l: int,
    found: Result<u32>,
)
    requires
        good_dir(v, raw),
        one_block_apart(v, w, at),
        file_block(v, raw, m) == Ok::<Option<u64>, Error>(Some(at)),
        0 <= l <= m < dir_blocks(v, raw),
        find_entry_from(w, ino, raw, name, m) == found,
        found == find_entry_from(v, ino, raw, name, m) || find_entry_from(v, ino, raw, name, l) == Err::<u32, Error>(
            Error::NotFound,
        ),
        v.block(at as int) is Ok,
    ensures
        find_entry_from(v, ino, raw, name, l) == Err::<u32, Error>(Error::NotFound) ==> find_entry_from(
            w,
            ino,
            raw,
            name,
            l,
        ) == found,
        found == find_entry_from(v, ino, raw, name, m) ==> find_entry_from(w, ino, raw, name, l) == find_entry_from(
            v,
            ino,
            raw,
            name,
            l,
        ),
    decreases m - l,
{
    if l < m {
        lemma_blocks_stay(v, w, raw, m, at, l);
        if find_entry_from(v, ino, raw, name, l) == Err::<u32, Error>(Error::NotFound) {
            lemma_found_error(v, raw, l);
            if file_block(v, raw, l)->Ok_0 is Some && v.block(file_block(v, raw, l)->Ok_0->Some_0 as int) is Ok {
                lemma_find_error(
                    v.block(file_block(v, raw, l)->Ok_0->Some_0 as int)->Ok_0,
                    0,
                    name,
                    keeps_types(v),
                );
            }
            assert(find_entry_from(v, ino, raw, name, l + 1) == Err::<u32, Error>(Error::NotFound));
        }
        if find_entry_from(v, ino, raw, name, l + 1) == Err::<u32, Error>(Error::NotFound) || found
            == find_entry_from(v, ino, raw, name, m) {
            lemma_find_before(v, w, ino, raw, m, at, name, l + 1, found);
        }
    }
}

/// A name that was not in a directory and is entered there is found there, and
/// every other name is found as it was. `st` is what else is staged.
pub proof fn law_entered_name_is_found(
    v: Vol,
    st: Stage,
    ino: u32,
    raw: Seq<u8>,
    name: Seq<u8>,
    target: u32,
    ft: DirEntryType,
    other: Seq<u8>,
)
    requires
        v.wf(),
        st.img.len() == v.img.len(),
        good_dir(committed(v, st), raw),
        forall|l: int| #[trigger] file_block(committed(v, st), raw, l) == file_block(v, raw, l),
        name.len() <= 255,
        target != 0,
        find_entry(committed(v, st), ino, raw, name) == Err::<u32, Error>(Error::NotFound),
        stage_add_entry(v, st, ino, raw, name, target, ft) is Ok,
    ensures
        ({
            let before = committed(v, st);
            let after = committed(v, stage_add_entry(v, st, ino, raw, name, target, ft)->Ok_0);
            &&& find_entry(after, ino, raw, name) == Ok::<u32, Error>(target)
            &&& other != name ==> find_entry(after, ino, raw, other) == find_entry(before, ino, raw, other)
        }),
{
    let m = lemma_added_where(v, st, ino, raw, name, target, ft, 0);
    let u = committed(v, st);
    let p = file_block(v, raw, m)->Ok_0->Some_0;
    let b = block_at(st.img, v.bs(), p as int)->Ok_0;
    let has_ft = keeps_types(v);
    assert(file_block(u, raw, m) == file_block(v, raw, m));
    assert(good_block(u, b));
    let out = add_from(b, 0, b.len() - tail_of(v, b), target, name, type_byte(ft, has_ft), has_ft)->Ok_0;
    let new = dir_restamped(v, ino, raw, tail_of(v, b), out);
    lemma_not_found_in(u, ino, raw, name, 0, m);
    lemma_block_added(v, ino, raw, b, name, target, ft, other);
    let done = stage_block(v, st, p as int, new);
    let w = committed(v, done);
    assert forall|k: int| k >= 0 && k != p implies #[trigger] block_at(w.img, u.bs(), k) == block_at(u.img, u.bs(), k) by {
        lemma_with_block(st.img, v.bs(), p as int, new, k);
    }
    lemma_with_block(st.img, v.bs(), p as int, new, p as int);
    assert(one_block_apart(u, w, p));
    lemma_blocks_stay(u, w, raw, m, p, m);
    assert(find_entry_from(w, ino, raw, name, m) == Ok::<u32, Error>(target));
    lemma_find_before(u, w, ino, raw, m, p, name, 0, Ok(target));
    if other != name {
        lemma_find_behind(u, w, ino, raw, m, p, other, m + 1);
        lemma_other_here(u, w, ino, raw, m, p, other, new);
    }
}

/// Entering a name changes one block of the directory and nothing else.
pub(crate) proof fn lemma_entered_elsewhere(
    v: Vol,
    st: Stage,
    ino: u32,
    raw: Seq<u8>,
    name: Seq<u8>,
    target: u32,
    ft: DirEntryType,
) -> (m: int)
    requires
        v.wf(),
        st.img.len() == v.img.len(),
        good_dir(committed(v, st), raw),
        forall|l: int| #[trigger] file_block(committed(v, st), raw, l) == file_block(v, raw, l),
        name.len() <= 255,
        target != 0,
        find_entry(committed(v, st), ino, raw, name) == Err::<u32, Error>(Error::NotFound),
        stage_add_entry(v, st, ino, raw, name, target, ft) is Ok,
    ensures
        0 <= m < dir_blocks(v, raw),
        file_block(v, raw, m) is Ok,
        file_block(v, raw, m)->Ok_0 is Some,
        ({
            let p = file_block(v, raw, m)->Ok_0->Some_0;
            let after = stage_add_entry(v, st, ino, raw, name, target, ft)->Ok_0;
            &&& after.img.len() == st.img.len()
            &&& after.cleared == st.cleared
            &&& forall|k: int|
                k >= 0 && k != p ==> #[trigger] block_at(after.img, v.bs(), k) == block_at(st.img, v.bs(), k)
        }),
{
    let m = lemma_added_where(v, st, ino, raw, name, target, ft, 0);
    let u = committed(v, st);
    let p = file_block(v, raw, m)->Ok_0->Some_0;
    let b = block_at(st.img, v.bs(), p as int)->Ok_0;
    let has_ft = keeps_types(v);
    assert(file_block(u, raw, m) == file_block(v, raw, m));
    let out = add_from(b, 0, b.len() - tail_of(v, b), target, name, type_byte(ft, has_ft), has_ft)->Ok_0;
    let new = dir_restamped(v, ino, raw, tail_of(v, b), out);
    lemma_not_found_in(u, ino, raw, name, 0, m);
    lemma_block_added(v, ino, raw, b, name, target, ft, name);
    let after = stage_block(v, st, p as int, new);
    lemma_with_block(st.img, v.bs(), p as int, new, 0);
    assert forall|k: int| k >= 0 && k != p implies #[trigger] block_at(after.img, v.bs(), k) == block_at(
        st.img,
        v.bs(),
        k,
    ) by {
        lemma_with_block(st.img, v.bs(), p as int, new, k);
    }
    m
}

/// A directory in good order stays so when a name is entered, and another name
/// that it had once it still has once.
pub(crate) proof fn lemma_entered_keeps(
    v: Vol,
    st: Stage,
    ino: u32,
    raw: Seq<u8>,
    name: Seq<u8>,
    target: u32,
    ft: DirEntryType,
    other: Seq<u8>,
)
    requires
        v.wf(),
        st.img.len() == v.img.len(),
        good_dir(committed(v, st), raw),
        forall|l: int| #[trigger] file_block(committed(v, st), raw, l) == file_block(v, raw, l),
        name.len() <= 255,
        target != 0,
        find_entry(committed(v, st), ino, raw, name) == Err::<u32, Error>(Error::NotFound),
        stage_add_entry(v, st, ino, raw, name, target, ft) is Ok,
        other != name,
    ensures
        ({
            let w = committed(v, stage_add_entry(v, st, ino, raw, name, target, ft)->Ok_0);
            &&& good_dir(w, raw)
            &&& forall|l: int| #[trigger] file_block(w, raw, l) == file_block(v, raw, l)
            &&& named_once_each(committed(v, st), raw, other) ==> named_once_each(w, raw, other)
        }),
{
    let m = lemma_added_where(v, st, ino, raw, name, target, ft, 0);
    let u = committed(v, st);
    let p = file_block(v, raw, m)->Ok_0->Some_0;
    let b = block_at(st.img, v.bs(), p as int)->Ok_0;
    let has_ft = keeps_types(v);
    assert(file_block(u, raw, m) == file_block(v, raw, m));
    let out = add_from(b, 0, b.len() - tail_of(v, b), target, name, type_byte(ft, has_ft), has_ft)->Ok_0;
    let new = dir_restamped(v, ino, raw, tail_of(v, b), out);
    lemma_not_found_in(u, ino, raw, name, 0, m);
    lemma_block_added(v, ino, raw, b, name, target, ft, other);
    let after = stage_block(v, st, p as int, new);
    let w = committed(v, after);
    assert forall|k: int| k >= 0 && k != p implies #[trigger] block_at(w.img, u.bs(), k) == block_at(u.img, u.bs(), k) by {
        lemma_with_block(st.img, v.bs(), p as int, new, k);
    }
    lemma_with_block(st.img, v.bs(), p as int, new, p as int);
    assert(one_block_apart(u, w, p));
    lemma_edit_keeps(u, w, raw, m, p, new, other);
    assert forall|l: int| #[trigger] file_block(w, raw, l) == file_block(v, raw, l) by {
        lemma_blocks_stay(u, w, raw, m, p, l);
        assert(file_block(u, raw, l) == file_block(v, raw, l));
    }
}

/// A directory with one block edited stays in good order if the block does.
proof fn lemma_edit_keeps(v: Vol, w: Vol, raw: Seq<u8>, m: int, at: u64, new: Seq<u8>, other: Seq<u8>)
    requires
        good_dir(v, raw),
        one_block_apart(v, w, at),
        0 <= m < dir_blocks(v, raw),
        file_block(v, raw, m) == Ok::<Option<u64>, Error>(Some(at)),
        v.block(at as int) is Ok,
        w.block(at as int) == Ok::<Seq<u8>, Error>(new),
        good_block(v, new),
        names_differ(entries_of(list_from(v.block(at as int)->Ok_0, 0, keeps_types(v))->Ok_0)) ==> names_differ(
            entries_of(list_from(new, 0, keeps_types(v))->Ok_0),
        ),
        find_from(new, 0, other, keeps_types(v)) == find_from(v.block(at as int)->Ok_0, 0, other, keeps_types(v)),
    ensures
        good_dir(w, raw),
        named_once_each(v, raw, other) ==> named_once_each(w, raw, other),
{
    let root = block_area_of(raw);
    let d = levels(root);
    lemma_block_for_found(v.img, v.bs(), root, m);
    assert forall|k: int| #[trigger] tree_node(v.img, v.bs(), root, d, k) implies block_at(w.img, v.bs(), k) == block_at(
        v.img,
        v.bs(),
        k,
    ) by {
        lemma_node_number(v.img, v.bs(), root, d, k);
    }
    crate::growth_laws::lemma_tree_same(v.img, w.img, v.bs(), root, d);
    assert forall|l: int| 0 <= l < dir_blocks(w, raw) implies ((#[trigger] file_block(w, raw, l)) matches Ok(Some(p))
        ==> (w.block(p as int) matches Ok(b) ==> good_block(w, b))) by {
        lemma_blocks_stay(v, w, raw, m, at, l);
        if let Ok(Some(p)) = file_block(v, raw, l) {
            if p != at {
                assert(w.block(p as int) == v.block(p as int));
            }
        }
    }
    if named_once_each(v, raw, other) {
        assert forall|l: int, n: int| #[trigger] named_in(w, raw, other, l) && #[trigger] named_in(
            w,
            raw,
            other,
            n,
        ) implies l == n by {
            lemma_blocks_stay(v, w, raw, m, at, l);
            lemma_blocks_stay(v, w, raw, m, at, n);
            assert(named_in(v, raw, other, l) && named_in(v, raw, other, n));
        }
        assert forall|l: int| 0 <= l < dir_blocks(w, raw) implies ((#[trigger] file_block(w, raw, l)) matches Ok(Some(p))
            ==> (w.block(p as int) matches Ok(b) ==> names_differ(
            entries_of(list_from(b, 0, keeps_types(w))->Ok_0),
        ))) by {
            lemma_blocks_stay(v, w, raw, m, at, l);
            assert(file_block(v, raw, l) == file_block(w, raw, l));
        }
    }
}

/// In the block that changed another name is found as before; so it is in the
/// whole directory.
proof fn lemma_other_here(v: Vol, w: Vol, ino: u32, raw: Seq<u8>, m: int, at: u64, other: Seq<u8>, new: Seq<u8>)
    requires
        good_dir(v, raw),
        one_block_apart(v, w, at),
        0 <= m < dir_blocks(v, raw),
        file_block(v, raw, m) == Ok::<Option<u64>, Error>(Some(at)),
        v.block(at as int) is Ok,
        w.block(at as int) == Ok::<Seq<u8>, Error>(new),
        w.csum.dir_ok(ino, generation_of(raw), new),
        v.csum.dir_ok(ino, generation_of(raw), v.block(at as int)->Ok_0) || find_entry_from(v, ino, raw, other, 0)
            == Err::<u32, Error>(Error::NotFound),
        find_from(new, 0, other, keeps_types(v)) == find_from(v.block(at as int)->Ok_0, 0, other, keeps_types(v)),
        find_entry_from(w, ino, raw, other, m + 1) == find_entry_from(v, ino, raw, other, m + 1),
    ensures
        find_entry(w, ino, raw, other) == find_entry(v, ino, raw, other),
{
    lemma_blocks_stay(v, w, raw, m, at, m);
    if find_entry_from(v, ino, raw, other, 0) == Err::<u32, Error>(Error::NotFound) {
        lemma_not_found_in(v, ino, raw, other, 0, m);
    }
    assert(find_entry_from(w, ino, raw, other, m) == find_entry_from(v, ino, raw, other, m));
    lemma_find_before(v, w, ino, raw, m, at, other, 0, find_entry_from(v, ino, raw, other, m));
}

// -- taking an entry out ----------------------------------------------------

/// Taking an entry out keeps the chain, and touches nothing behind it.
proof fn lemma_remove_chain(block: Seq<u8>, prev: Option<int>, at: int, end: int, name: Seq<u8>, has_ft: bool)
    requires
        0 <= at,
        end <= block.len() <= 65536,
        chain_to(block, at, end, has_ft),
        remove_from(block, prev, at, end, name, has_ft) is Ok,
        remove_from(block, prev, at, end, name, has_ft)->Ok_0 is Some,
        prev matches Some(p) ==> 0 <= p && record_at(block, p, end, has_ft) is Ok && p + record_at(
            block,
            p,
            end,
            has_ft,
        )->Ok_0.rec_len == at,
    ensures
        ({
            let b = remove_from(block, prev, at, end, name, has_ft)->Ok_0->Some_0;
            let start = if prev is Some { prev->Some_0 } else { at };
            &&& b.len() == block.len()
            &&& chain_to(b, start, end, has_ft)
            &&& forall|k: int| 0 <= k < start || end <= k < block.len() ==> b[k] == block[k]
        }),
    decreases end - at,
{
    let b = remove_from(block, prev, at, end, name, has_ft)->Ok_0->Some_0;
    let rec = record_at(block, at, end, has_ft)->Ok_0;
    let next = at + rec.rec_len;
    if rec.inode != 0 && rec.name == name {
        match prev {
            None => {
                assert(le16(b, at + 4) == le16(block, at + 4));
                assert(b[at + 6] == block[at + 6]);
                assert(crate::dir::name_len_at(b, at, has_ft) == crate::dir::name_len_at(block, at, has_ft));
                lemma_chain_suffix(block, b, next, end, has_ft);
            },
            Some(p) => {
                lemma_swallow(block, p, at, has_ft);
                lemma_chain_suffix(block, b, next, end, has_ft);
                assert(p + record_at(b, p, end, has_ft)->Ok_0.rec_len == next);
            },
        }
    } else {
        lemma_remove_chain(block, Some(at), next, end, name, has_ft);
        if let Some(p) = prev {
            lemma_record_same(block, b, p, end, has_ft);
        }
    }
}

/// An entry taken out of a block in good order, and the block restamped.
proof fn lemma_block_removed(v: Vol, ino: u32, raw: Seq<u8>, b: Seq<u8>, name: Seq<u8>, other: Seq<u8>)
    requires
        v.wf(),
        good_block(v, b),
        names_differ(entries_of(list_from(b, 0, keeps_types(v))->Ok_0)),
        remove_from(b, None, 0, b.len() - tail_of(v, b), name, keeps_types(v)) is Ok,
        remove_from(b, None, 0, b.len() - tail_of(v, b), name, keeps_types(v))->Ok_0 is Some,
    ensures
        ({
            let has_ft = keeps_types(v);
            let out = remove_from(b, None, 0, b.len() - tail_of(v, b), name, has_ft)->Ok_0->Some_0;
            let new = dir_restamped(v, ino, raw, tail_of(v, b), out);
            &&& new.len() == v.bs()
            &&& v.csum.dir_ok(ino, generation_of(raw), new)
            &&& find_from(new, 0, name, has_ft) == Ok::<Option<u32>, Error>(None)
            &&& other != name ==> find_from(new, 0, other, has_ft) == find_from(b, 0, other, has_ft)
            &&& good_block(v, new)
            &&& names_differ(entries_of(list_from(new, 0, has_ft)->Ok_0))
        }),
{
    let has_ft = keeps_types(v);
    let end = b.len() - tail_of(v, b);
    let out = remove_from(b, None, 0, end, name, has_ft)->Ok_0->Some_0;
    law_removed_name_is_gone(b, end, name, has_ft, other);
    crate::dir_laws::lemma_remove_list(b, None, 0, end, name, has_ft);
    lemma_differ_less(
        entries_of(list_from(b, 0, has_ft)->Ok_0),
        entries_of(list_from(out, 0, has_ft)->Ok_0),
        name,
    );
    if v.csum.enabled {
        lemma_remove_chain(b, None, 0, end, name, has_ft);
        lemma_tail_kept(b, out);
        law_stamped_dir_verifies(v.csum, ino, generation_of(raw), out);
        let new = dir_stamped(v.csum.seed, ino, generation_of(raw), out);
        lemma_find_tail(out, new, 0, name, has_ft);
        lemma_find_tail(out, new, 0, other, has_ft);
        lemma_chain_suffix(out, new, 0, end, has_ft);
    }
}

/// Names still differ when one is gone.
proof fn lemma_differ_less(before: Seq<Entry>, after: Seq<Entry>, name: Seq<u8>)
    requires
        names_differ(before),
        crate::dir_laws::one_less(before, after, name),
    ensures
        names_differ(after),
{
    let p = choose|p: int|
        0 <= p < before.len() && before[p].name == name && after == #[trigger] before.remove(p) && (forall|q: int|
            0 <= q < p ==> (#[trigger] before[q]).name != name);
    assert forall|i: int, j: int| 0 <= i < j < after.len() implies (#[trigger] after[i]).name != (#[trigger] after[j]).name by {
        let a = if i < p { i } else { i + 1 };
        let b = if j < p { j } else { j + 1 };
        assert(after[i] == before[a] && after[j] == before[b]);
    }
}

/// Where the entry was.
proof fn lemma_removed_where(v: Vol, st: Stage, ino: u32, raw: Seq<u8>, name: Seq<u8>, l: int) -> (m: int)
    requires
        stage_remove_from(v, st, ino, raw, name, l) is Ok,
        0 <= l,
    ensures
        l <= m < dir_blocks(v, raw),
        ({
            let p = file_block(v, raw, m)->Ok_0->Some_0;
            let b = block_at(st.img, v.bs(), p as int)->Ok_0;
            let out = remove_from(b, None, 0, b.len() - tail_of(v, b), name, keeps_types(v));
            &&& file_block(v, raw, m) == Ok::<Option<u64>, Error>(Some(p))
            &&& block_at(st.img, v.bs(), p as int) is Ok
            &&& out is Ok
            &&& out->Ok_0 is Some
            &&& stage_remove_from(v, st, ino, raw, name, l) == Ok::<Stage, Error>(
                stage_block(v, st, p as int, dir_restamped(v, ino, raw, tail_of(v, b), out->Ok_0->Some_0)),
            )
        }),
    decreases dir_blocks(v, raw) - l,
{
    match file_block(v, raw, l)->Ok_0 {
        None => lemma_removed_where(v, st, ino, raw, name, l + 1),
        Some(p) => {
            let b = block_at(st.img, v.bs(), p as int)->Ok_0;
            if remove_from(b, None, 0, b.len() - tail_of(v, b), name, keeps_types(v))->Ok_0 is Some {
                l
            } else {
                lemma_removed_where(v, st, ino, raw, name, l + 1)
            }
        },
    }
}

/// Block `l` of a directory has an entry of this name.
pub open spec fn named_in(v: Vol, raw: Seq<u8>, name: Seq<u8>, l: int) -> bool {
    &&& 0 <= l < dir_blocks(v, raw)
    &&& file_block(v, raw, l) matches Ok(Some(p))
    &&& v.block(p as int) matches Ok(b)
    &&& find_from(b, 0, name, keeps_types(v)) is Ok
    &&& find_from(b, 0, name, keeps_types(v))->Ok_0 is Some
}

/// No two entries of a directory have the same name.
pub open spec fn named_once_each(v: Vol, raw: Seq<u8>, name: Seq<u8>) -> bool {
    &&& forall|l: int, m: int| #[trigger] named_in(v, raw, name, l) && #[trigger] named_in(v, raw, name, m) ==> l == m
    &&& forall|l: int|
        0 <= l < dir_blocks(v, raw) ==> ((#[trigger] file_block(v, raw, l)) matches Ok(Some(p)) ==> (v.block(
            p as int,
        ) matches Ok(b) ==> names_differ(entries_of(list_from(b, 0, keeps_types(v))->Ok_0))))
}

/// A name that no block has is not found.
proof fn lemma_never_found(w: Vol, ino: u32, raw: Seq<u8>, name: Seq<u8>, l: int)
    requires
        0 <= l,
        forall|m: int| l <= m ==> !#[trigger] named_in(w, raw, name, m),
    ensures
        find_entry_from(w, ino, raw, name, l) is Err,
    decreases dir_blocks(w, raw) - l,
{
    if l < dir_blocks(w, raw) {
        assert(!named_in(w, raw, name, l));
        lemma_never_found(w, ino, raw, name, l + 1);
    }
}

/// A name that is taken out of a directory is not found there any more, and
/// every other name is found as it was.
pub proof fn law_removed_name_is_not_found(
    v: Vol,
    st: Stage,
    ino: u32,
    raw: Seq<u8>,
    name: Seq<u8>,
    other: Seq<u8>,
)
    requires
        v.wf(),
        st.img.len() == v.img.len(),
        good_dir(committed(v, st), raw),
        named_once_each(committed(v, st), raw, name),
        forall|l: int| #[trigger] file_block(committed(v, st), raw, l) == file_block(v, raw, l),
        stage_remove_from(v, st, ino, raw, name, 0) is Ok,
        find_entry(committed(v, st), ino, raw, other) != Err::<u32, Error>(Error::BadChecksum("directory block")),
    ensures
        ({
            let before = committed(v, st);
            let after = committed(v, stage_remove_from(v, st, ino, raw, name, 0)->Ok_0);
            &&& find_entry(after, ino, raw, name) is Err
            &&& other != name ==> find_entry(after, ino, raw, other) == find_entry(before, ino, raw, other)
        }),
{
    let m = lemma_removed_where(v, st, ino, raw, name, 0);
    let u = committed(v, st);
    let p = file_block(v, raw, m)->Ok_0->Some_0;
    let b = block_at(st.img, v.bs(), p as int)->Ok_0;
    let has_ft = keeps_types(v);
    assert(file_block(u, raw, m) == file_block(v, raw, m));
    assert(good_block(u, b));
    assert(names_differ(entries_of(list_from(b, 0, has_ft)->Ok_0)));
    let out = remove_from(b, None, 0, b.len() - tail_of(v, b), name, has_ft)->Ok_0->Some_0;
    let new = dir_restamped(v, ino, raw, tail_of(v, b), out);
    lemma_block_removed(v, ino, raw, b, name, other);
    let done = stage_block(v, st, p as int, new);
    let w = committed(v, done);
    assert forall|k: int| k >= 0 && k != p implies #[trigger] block_at(w.img, u.bs(), k) == block_at(u.img, u.bs(), k) by {
        lemma_with_block(st.img, v.bs(), p as int, new, k);
    }
    lemma_with_block(st.img, v.bs(), p as int, new, p as int);
    assert(one_block_apart(u, w, p));
    assert(named_in(u, raw, name, m)) by {
        lemma_removed_was_there(b, None, 0, b.len() - tail_of(v, b), name, has_ft);
    }
    assert forall|l: int| 0 <= l implies !#[trigger] named_in(w, raw, name, l) by {
        if named_in(w, raw, name, l) {
            lemma_blocks_stay(u, w, raw, m, p, l);
            if l != m {
                assert(named_in(u, raw, name, l));
            }
        }
    }
    lemma_never_found(w, ino, raw, name, 0);
    if other != name {
        lemma_find_behind(u, w, ino, raw, m, p, other, m + 1);
        lemma_other_kept(u, w, ino, raw, m, p, other, new, 0);
    }
}

/// Taking a name out changes one block of the directory and nothing else.
pub(crate) proof fn lemma_removed_elsewhere(v: Vol, st: Stage, ino: u32, raw: Seq<u8>, name: Seq<u8>) -> (m: int)
    requires
        v.wf(),
        st.img.len() == v.img.len(),
        good_dir(committed(v, st), raw),
        named_once_each(committed(v, st), raw, name),
        forall|l: int| #[trigger] file_block(committed(v, st), raw, l) == file_block(v, raw, l),
        stage_remove_from(v, st, ino, raw, name, 0) is Ok,
    ensures
        0 <= m < dir_blocks(v, raw),
        file_block(v, raw, m) is Ok,
        file_block(v, raw, m)->Ok_0 is Some,
        ({
            let p = file_block(v, raw, m)->Ok_0->Some_0;
            let after = stage_remove_from(v, st, ino, raw, name, 0)->Ok_0;
            &&& after.img.len() == st.img.len()
            &&& after.cleared == st.cleared
            &&& forall|k: int|
                k >= 0 && k != p ==> #[trigger] block_at(after.img, v.bs(), k) == block_at(st.img, v.bs(), k)
        }),
{
    let m = lemma_removed_where(v, st, ino, raw, name, 0);
    let u = committed(v, st);
    let p = file_block(v, raw, m)->Ok_0->Some_0;
    let b = block_at(st.img, v.bs(), p as int)->Ok_0;
    let has_ft = keeps_types(v);
    assert(file_block(u, raw, m) == file_block(v, raw, m));
    assert(good_block(u, b));
    assert(names_differ(entries_of(list_from(b, 0, has_ft)->Ok_0)));
    let out = remove_from(b, None, 0, b.len() - tail_of(v, b), name, has_ft)->Ok_0->Some_0;
    let new = dir_restamped(v, ino, raw, tail_of(v, b), out);
    lemma_block_removed(v, ino, raw, b, name, name);
    let after = stage_block(v, st, p as int, new);
    lemma_with_block(st.img, v.bs(), p as int, new, 0);
    assert forall|k: int| k >= 0 && k != p implies #[trigger] block_at(after.img, v.bs(), k) == block_at(
        st.img,
        v.bs(),
        k,
    ) by {
        lemma_with_block(st.img, v.bs(), p as int, new, k);
    }
    m
}

/// A directory in good order stays so when a name is taken out, and another
/// name that it had once it still has once.
pub(crate) proof fn lemma_removed_keeps(v: Vol, st: Stage, ino: u32, raw: Seq<u8>, name: Seq<u8>, other: Seq<u8>)
    requires
        v.wf(),
        st.img.len() == v.img.len(),
        good_dir(committed(v, st), raw),
        named_once_each(committed(v, st), raw, name),
        forall|l: int| #[trigger] file_block(committed(v, st), raw, l) == file_block(v, raw, l),
        stage_remove_from(v, st, ino, raw, name, 0) is Ok,
        other != name,
    ensures
        ({
            let w = committed(v, stage_remove_from(v, st, ino, raw, name, 0)->Ok_0);
            &&& good_dir(w, raw)
            &&& forall|l: int| #[trigger] file_block(w, raw, l) == file_block(v, raw, l)
            &&& named_once_each(committed(v, st), raw, other) ==> named_once_each(w, raw, other)
        }),
{
    let m = lemma_removed_where(v, st, ino, raw, name, 0);
    let u = committed(v, st);
    let p = file_block(v, raw, m)->Ok_0->Some_0;
    let b = block_at(st.img, v.bs(), p as int)->Ok_0;
    let has_ft = keeps_types(v);
    assert(file_block(u, raw, m) == file_block(v, raw, m));
    assert(good_block(u, b));
    assert(names_differ(entries_of(list_from(b, 0, has_ft)->Ok_0)));
    let out = remove_from(b, None, 0, b.len() - tail_of(v, b), name, has_ft)->Ok_0->Some_0;
    let new = dir_restamped(v, ino, raw, tail_of(v, b), out);
    lemma_block_removed(v, ino, raw, b, name, other);
    let w = committed(v, stage_block(v, st, p as int, new));
    assert forall|k: int| k >= 0 && k != p implies #[trigger] block_at(w.img, u.bs(), k) == block_at(u.img, u.bs(), k) by {
        lemma_with_block(st.img, v.bs(), p as int, new, k);
    }
    lemma_with_block(st.img, v.bs(), p as int, new, p as int);
    assert(one_block_apart(u, w, p));
    lemma_edit_keeps(u, w, raw, m, p, new, other);
    assert forall|l: int| #[trigger] file_block(w, raw, l) == file_block(v, raw, l) by {
        lemma_blocks_stay(u, w, raw, m, p, l);
        assert(file_block(u, raw, l) == file_block(v, raw, l));
    }
}

/// What was taken out was there.
proof fn lemma_removed_was_there(block: Seq<u8>, prev: Option<int>, at: int, end: int, name: Seq<u8>, has_ft: bool)
    requires
        0 <= at,
        end <= block.len(),
        remove_from(block, prev, at, end, name, has_ft) is Ok,
        remove_from(block, prev, at, end, name, has_ft)->Ok_0 is Some,
    ensures
        find_from(block, at, name, has_ft) is Ok,
        find_from(block, at, name, has_ft)->Ok_0 is Some,
    decreases end - at,
{
    let rec = record_at(block, at, end, has_ft)->Ok_0;
    assert(record_at(block, at, block.len() as int, has_ft) == record_at(block, at, end, has_ft));
    if !(rec.inode != 0 && rec.name == name) {
        lemma_removed_was_there(block, Some(at), at + rec.rec_len, end, name, has_ft);
    }
}

/// A name that is found in the changed block as before is found in the whole
/// directory as before, unless a checksum stood in the way.
proof fn lemma_other_kept(
    v: Vol,
    w: Vol,
    ino: u32,
    raw: Seq<u8>,
    m: int,
    at: u64,
    other: Seq<u8>,
    new: Seq<u8>,
    l: int,
)
    requires
        good_dir(v, raw),
        one_block_apart(v, w, at),
        0 <= l <= m < dir_blocks(v, raw),
        file_block(v, raw, m) == Ok::<Option<u64>, Error>(Some(at)),
        v.block(at as int) is Ok,
        w.block(at as int) == Ok::<Seq<u8>, Error>(new),
        w.csum.dir_ok(ino, generation_of(raw), new),
        find_from(new, 0, other, keeps_types(v)) == find_from(v.block(at as int)->Ok_0, 0, other, keeps_types(v)),
        find_entry_from(w, ino, raw, other, m + 1) == find_entry_from(v, ino, raw, other, m + 1),
        find_entry_from(v, ino, raw, other, l) != Err::<u32, Error>(Error::BadChecksum("directory block")),
    ensures
        find_entry_from(w, ino, raw, other, l) == find_entry_from(v, ino, raw, other, l),
    decreases m - l,
{
    lemma_blocks_stay(v, w, raw, m, at, l);
    if l < m {
        if find_entry_from(v, ino, raw, other, l + 1) != Err::<u32, Error>(Error::BadChecksum("directory block")) {
            lemma_other_kept(v, w, ino, raw, m, at, other, new, l + 1);
        }
    }
}

// -- an entry put in and taken out ------------------------------------------

/// A removal finds in a block what a search finds there. The block is one whose
/// records fill it, or fill it up to its checksum record.
proof fn lemma_remove_agrees(b: Seq<u8>, prev: Option<int>, at: int, end: int, name: Seq<u8>, has_ft: bool)
    requires
        0 <= at,
        b.len() <= 65536,
        find_from(b, at, name, has_ft) is Ok,
        end == b.len() || (end == b.len() - 12 && has_ft && dir_tail_present(b) && chain_to(b, at, end, has_ft)),
    ensures
        remove_from(b, prev, at, end, name, has_ft) is Ok,
        remove_from(b, prev, at, end, name, has_ft)->Ok_0 is Some == find_from(b, at, name, has_ft)->Ok_0 is Some,
    decreases b.len() - at,
{
    let len = b.len() as int;
    if at < end {
        let rec = record_at(b, at, len, has_ft)->Ok_0;
        assert(record_at(b, at, end, has_ft) == record_at(b, at, len, has_ft));
        if !(rec.inode != 0 && rec.name == name) {
            lemma_remove_agrees(b, Some(at), at + rec.rec_len, end, name, has_ft);
        }
    } else if at < len {
        assert(at == end);
        let rec = record_at(b, at, len, has_ft)->Ok_0;
        assert(rec.inode == 0);
        assert(at + rec.rec_len == len);
        assert(find_from(b, len, name, has_ft) == Ok::<Option<u32>, Error>(None));
    }
}

/// A name that a search finds in a directory in good order can be taken out.
pub(crate) proof fn lemma_found_name_goes(v: Vol, st: Stage, ino: u32, raw: Seq<u8>, name: Seq<u8>, l: int)
    requires
        v.wf(),
        0 <= l,
        good_dir(committed(v, st), raw),
        forall|m: int| #[trigger] file_block(committed(v, st), raw, m) == file_block(v, raw, m),
        find_entry_from(committed(v, st), ino, raw, name, l) is Ok,
    ensures
        stage_remove_from(v, st, ino, raw, name, l) is Ok,
    decreases dir_blocks(v, raw) - l,
{
    let u = committed(v, st);
    assert(file_block(u, raw, l) == file_block(v, raw, l));
    match file_block(v, raw, l)->Ok_0 {
        None => {
            lemma_found_name_goes(v, st, ino, raw, name, l + 1);
        },
        Some(p) => {
            let b = u.block(p as int)->Ok_0;
            assert(good_block(u, b));
            lemma_remove_agrees(b, None, 0, b.len() - tail_of(v, b), name, keeps_types(v));
            if find_from(b, 0, name, keeps_types(v))->Ok_0 is None {
                lemma_found_name_goes(v, st, ino, raw, name, l + 1);
            }
        },
    }
}

/// A name that was not in a directory is there once when it was entered.
pub(crate) proof fn lemma_entered_once(
    v: Vol,
    st: Stage,
    ino: u32,
    raw: Seq<u8>,
    name: Seq<u8>,
    target: u32,
    ft: DirEntryType,
)
    requires
        v.wf(),
        st.img.len() == v.img.len(),
        good_dir(committed(v, st), raw),
        named_once_each(committed(v, st), raw, name),
        forall|l: int| #[trigger] file_block(committed(v, st), raw, l) == file_block(v, raw, l),
        name.len() <= 255,
        target != 0,
        find_entry(committed(v, st), ino, raw, name) == Err::<u32, Error>(Error::NotFound),
        stage_add_entry(v, st, ino, raw, name, target, ft) is Ok,
    ensures
        ({
            let w = committed(v, stage_add_entry(v, st, ino, raw, name, target, ft)->Ok_0);
            &&& good_dir(w, raw)
            &&& forall|l: int| #[trigger] file_block(w, raw, l) == file_block(v, raw, l)
            &&& named_once_each(w, raw, name)
        }),
{
    let other = name.push(0u8);
    assert(other.len() != name.len());
    lemma_entered_keeps(v, st, ino, raw, name, target, ft, other);
    let m = lemma_added_where(v, st, ino, raw, name, target, ft, 0);
    let u = committed(v, st);
    let p = file_block(v, raw, m)->Ok_0->Some_0;
    let b = block_at(st.img, v.bs(), p as int)->Ok_0;
    let has_ft = keeps_types(v);
    assert(file_block(u, raw, m) == file_block(v, raw, m));
    let out = add_from(b, 0, b.len() - tail_of(v, b), target, name, type_byte(ft, has_ft), has_ft)->Ok_0;
    let new = dir_restamped(v, ino, raw, tail_of(v, b), out);
    lemma_not_found_in(u, ino, raw, name, 0, m);
    lemma_block_added(v, ino, raw, b, name, target, ft, other);
    let w = committed(v, stage_block(v, st, p as int, new));
    assert forall|k: int| k >= 0 && k != p implies #[trigger] block_at(w.img, u.bs(), k) == block_at(u.img, u.bs(), k) by {
        lemma_with_block(st.img, v.bs(), p as int, new, k);
    }
    lemma_with_block(st.img, v.bs(), p as int, new, p as int);
    assert(one_block_apart(u, w, p));
    assert forall|l: int| #[trigger] named_in(w, raw, name, l) implies l == m by {
        if l != m {
            lemma_blocks_stay(u, w, raw, m, p, l);
            lemma_not_found_in(u, ino, raw, name, 0, l);
        }
    }
    assert forall|l: int| 0 <= l < dir_blocks(w, raw) implies ((#[trigger] file_block(w, raw, l)) matches Ok(Some(q))
        ==> (w.block(q as int) matches Ok(c) ==> names_differ(entries_of(list_from(c, 0, keeps_types(w))->Ok_0)))) by {
        lemma_blocks_stay(u, w, raw, m, p, l);
        assert(file_block(u, raw, l) == file_block(w, raw, l));
    }
}

/// Where one name is not found every block passed its checksum, so no other
/// name fails on one.
pub(crate) proof fn lemma_all_pass(v: Vol, ino: u32, raw: Seq<u8>, name: Seq<u8>, other: Seq<u8>, l: int)
    requires
        find_entry_from(v, ino, raw, name, l) == Err::<u32, Error>(Error::NotFound),
    ensures
        find_entry_from(v, ino, raw, other, l) != Err::<u32, Error>(Error::BadChecksum("directory block")),
    decreases dir_blocks(v, raw) - l,
{
    if l < dir_blocks(v, raw) {
        if let Ok(Some(p)) = file_block(v, raw, l) {
            if let Ok(b) = v.block(p as int) {
                lemma_find_error(b, 0, name, keeps_types(v));
                lemma_find_sound(b, 0, name, other, keeps_types(v));
                if v.csum.dir_ok(ino, generation_of(raw), b) && find_from(b, 0, name, keeps_types(v)) == Ok::<
                    Option<u32>,
                    Error,
                >(None) {
                    lemma_all_pass(v, ino, raw, name, other, l + 1);
                }
            }
        } else if file_block(v, raw, l) is Ok {
            lemma_all_pass(v, ino, raw, name, other, l + 1);
        }
    }
}

/// A block in which one name is looked for to the end fails no other search.
proof fn lemma_find_sound(b: Seq<u8>, at: int, name: Seq<u8>, other: Seq<u8>, has_ft: bool)
    ensures
        find_from(b, at, name, has_ft) == Ok::<Option<u32>, Error>(None) ==> find_from(b, at, other, has_ft) is Ok,
    decreases b.len() - at,
{
    if at < b.len() && record_at(b, at, b.len() as int, has_ft) is Ok {
        lemma_find_sound(b, at + record_at(b, at, b.len() as int, has_ft)->Ok_0.rec_len, name, other, has_ft);
    }
}

// -- directories that name something ----------------------------------------

/// A block with an entry of some name names more than `.` and `..`, unless it
/// is one of those.
proof fn lemma_named_block(b: Seq<u8>, at: int, name: Seq<u8>, has_ft: bool)
    requires
        !is_dots(name),
        find_from(b, at, name, has_ft) is Ok,
    ensures
        only_dots_from(b, at, has_ft) is Ok,
        find_from(b, at, name, has_ft)->Ok_0 is Some ==> only_dots_from(b, at, has_ft) == Ok::<bool, Error>(false),
    decreases b.len() - at,
{
    if at < b.len() {
        let rec = record_at(b, at, b.len() as int, has_ft)->Ok_0;
        if !(rec.inode != 0 && rec.name == name) {
            lemma_named_block(b, at + rec.rec_len, name, has_ft);
        }
    }
}

/// A directory in which a search finds a name other than `.` and `..` is not
/// empty.
pub(crate) proof fn lemma_named_dir(v: Vol, ino: u32, raw: Seq<u8>, name: Seq<u8>, l: int)
    requires
        !is_dots(name),
        find_entry_from(v, ino, raw, name, l) is Ok,
    ensures
        dir_empty_from(v, ino, raw, l) == Ok::<bool, Error>(false),
    decreases dir_blocks(v, raw) - l,
{
    match file_block(v, raw, l)->Ok_0 {
        None => {
            lemma_named_dir(v, ino, raw, name, l + 1);
        },
        Some(p) => {
            let b = v.block(p as int)->Ok_0;
            lemma_named_block(b, 0, name, keeps_types(v));
            if find_from(b, 0, name, keeps_types(v))->Ok_0 is None {
                lemma_named_dir(v, ino, raw, name, l + 1);
            }
        },
    }
}

} // verus!
