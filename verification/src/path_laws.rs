//! Where a path leads: from the root, name by name.
use crate::dirops::{
    find_entry, last_slash, parent_and_base, resolve, trimmed_len, walk_from, EXT4_ROOT_INODE, SLASH,
};
use crate::error::Error;
use crate::fs::checked_inode;
use crate::inode::{mode_is_dir, mode_of};
use crate::name_laws::{lemma_path_steps, lemma_slashes, lemma_walk_front};
use crate::volume::Vol;
use vstd::prelude::*;

verus! {

/// A name as it is in a path: not empty, and without a slash.
pub open spec fn is_name(name: Seq<u8>) -> bool {
    &&& name.len() > 0
    &&& forall|i: int| 0 <= i < name.len() ==> #[trigger] name[i] != 0x2F
}

/// Slashes alone lead to the root, which is inode two.
pub proof fn law_root_is_where_paths_start(v: Vol, path: Seq<u8>)
    requires
        forall|i: int| 0 <= i < path.len() ==> #[trigger] path[i] == 0x2F,
    ensures
        resolve(v, path) == Ok::<u32, Error>(2),
{
    lemma_slashes(v, path, 0, EXT4_ROOT_INODE);
}

/// A slash behind a path leads nowhere else.
pub proof fn law_trailing_slash_leads_nowhere_else(v: Vol, path: Seq<u8>)
    ensures
        resolve(v, path.push(0x2F)) == resolve(v, path),
{
    let longer = path.push(0x2Fu8);
    let n = path.len() as int;
    lemma_walk_front(v, longer, n, 0, EXT4_ROOT_INODE);
    assert(longer.subrange(0, n) =~= path);
    if let Ok(c) = walk_from(v, path, 0, EXT4_ROOT_INODE) {
        lemma_slashes(v, longer, n, c);
    }
}

proof fn lemma_slash_before(path: Seq<u8>, i: int, n: int)
    requires
        0 <= i < n <= path.len(),
        path[i] == 0x2F,
        forall|k: int| i < k < n ==> #[trigger] path[k] != 0x2F,
    ensures
        last_slash(path, n) == Some(i),
    decreases n - i,
{
    if n - 1 > i {
        assert(path[n - 1] != 0x2F);
        lemma_slash_before(path, i, n - 1);
    }
}

/// A path is split at its last slash: the name behind it, and the directory that
/// is before it, which is the root where nothing is.
pub proof fn law_path_is_split_at_its_last_name(dir: Seq<u8>, name: Seq<u8>)
    requires
        is_name(name),
    ensures
        parent_and_base(dir.push(0x2F) + name) == Ok::<(Seq<u8>, Seq<u8>), Error>(
            (if dir.len() == 0 {
                seq![0x2Fu8]
            } else {
                dir
            }, name),
        ),
{
    let path = dir.push(0x2Fu8) + name;
    let n = path.len() as int;
    let i = dir.len() as int;
    assert(path[n - 1] == name[name.len() - 1]);
    assert(trimmed_len(path, n) == n);
    assert forall|k: int| i < k < n implies #[trigger] path[k] != 0x2F by {
        assert(path[k] == name[k - i - 1]);
    }
    lemma_slash_before(path, i, n);
    assert(path.subrange(0, i) =~= dir);
    assert(path.subrange(i + 1, n) =~= name);
}

/// A path leads to what its last name is in the directory that the rest of it
/// leads to, and nowhere if there is no such directory or no such name in it.
pub proof fn law_path_is_walked_name_by_name(v: Vol, dir: Seq<u8>, name: Seq<u8>, ino: u32)
    requires
        is_name(name),
    ensures
        resolve(v, dir.push(0x2F) + name) == Ok::<u32, Error>(ino) <==> {
            let d = resolve(v, dir);
            &&& d is Ok
            &&& checked_inode(v, d->Ok_0) is Ok
            &&& mode_is_dir(mode_of(checked_inode(v, d->Ok_0)->Ok_0))
            &&& find_entry(v, d->Ok_0, checked_inode(v, d->Ok_0)->Ok_0, name) == Ok::<u32, Error>(ino)
        },
        resolve(v, dir) matches Ok(d) ==> (checked_inode(v, d) matches Ok(raw) ==> !mode_is_dir(mode_of(raw)) ==> resolve(
            v,
            dir.push(0x2F) + name,
        ) == Err::<u32, Error>(Error::NotADirectory)),
{
    let path = dir.push(0x2Fu8) + name;
    law_path_is_split_at_its_last_name(dir, name);
    lemma_path_steps(v, path);
    if dir.len() == 0 {
        lemma_slashes(v, dir, 0, EXT4_ROOT_INODE);
        lemma_slashes(v, seq![SLASH], 0, EXT4_ROOT_INODE);
    }
}

} // verus!
