//! Listing a directory, finding a name in it, and auditing it.
use crate::capi::{block_listing, host_inode, host_listing, listed_in};
use crate::dir::{find_from, list_from, record_at, RecordView};
use crate::dirops::{dir_blocks, find_entry, find_entry_from};
use crate::error::Error;
use crate::fs::{file_block, keeps_types};
use crate::fsck::{dir_entries, entries_in, readable_from};
use crate::inode::{block_area_of, flags_of, generation_of, mode_is_dir, mode_of, FL_EXTENTS, FL_INLINE_DATA};
use crate::volume::Vol;
use vstd::prelude::*;

verus! {

/// Entry `k` is the first of some that has the name, and names `ino`.
pub open spec fn first_at(es: Seq<RecordView>, name: Seq<u8>, ino: u32, k: int) -> bool {
    &&& 0 <= k < es.len()
    &&& es[k].name == name
    &&& es[k].inode == ino
    &&& forall|j: int| 0 <= j < k ==> (#[trigger] es[j]).name != name
}

/// No entry of some has the name.
pub open spec fn unlisted(es: Seq<RecordView>, name: Seq<u8>) -> bool {
    forall|j: int| 0 <= j < es.len() ==> (#[trigger] es[j]).name != name
}

/// A search against a listing: what it finds is the first entry listed under the
/// name, and what it does not find is not listed.
pub open spec fn search_agrees(es: Seq<RecordView>, name: Seq<u8>, found: Option<u32>) -> bool {
    if found is Some {
        exists|k: int| #[trigger] first_at(es, name, found->0, k)
    } else {
        unlisted(es, name)
    }
}

proof fn lemma_joined(a: Seq<RecordView>, b: Seq<RecordView>, name: Seq<u8>, found: Option<u32>)
    ensures
        search_agrees(a, name, found) && found is Some ==> search_agrees(a + b, name, found),
        unlisted(a, name) && search_agrees(b, name, found) ==> search_agrees(a + b, name, found),
{
    let c = a + b;
    if search_agrees(a, name, found) && found is Some {
        let k = choose|k: int| #[trigger] first_at(a, name, found->0, k);
        assert forall|j: int| 0 <= j < k implies (#[trigger] c[j]).name != name by {
            assert(a[j].name != name);
        }
        assert(first_at(c, name, found->0, k));
    }
    if unlisted(a, name) && search_agrees(b, name, found) {
        if found is Some {
            let k = choose|k: int| #[trigger] first_at(b, name, found->0, k);
            assert forall|j: int| 0 <= j < a.len() + k implies (#[trigger] c[j]).name != name by {
                if j < a.len() {
                    assert(a[j].name != name);
                } else {
                    assert(b[j - a.len()].name != name);
                }
            }
            assert(first_at(c, name, found->0, a.len() + k));
        } else {
            assert forall|j: int| 0 <= j < c.len() implies (#[trigger] c[j]).name != name by {
                if j < a.len() {
                    assert(a[j].name != name);
                } else {
                    assert(b[j - a.len()].name != name);
                }
            }
        }
    }
}

proof fn lemma_first(es: Seq<RecordView>, name: Seq<u8>, ino: u32, k: int)
    requires
        first_at(es, name, ino, k),
    ensures
        search_agrees(es, name, Some(ino)),
{
    let found = Some(ino);
    assert(first_at(es, name, found->0, k));
}

/// A search of one block against a listing of it.
proof fn lemma_block_search(b: Seq<u8>, at: int, name: Seq<u8>, has_ft: bool)
    requires
        list_from(b, at, has_ft) is Ok,
    ensures
        find_from(b, at, name, has_ft) is Ok,
        search_agrees(list_from(b, at, has_ft)->Ok_0, name, find_from(b, at, name, has_ft)->Ok_0),
    decreases b.len() - at,
{
    if at < b.len() {
        let rec = record_at(b, at, b.len() as int, has_ft)->Ok_0;
        lemma_block_search(b, at + rec.rec_len, name, has_ft);
        let rest = list_from(b, at + rec.rec_len, has_ft)->Ok_0;
        let found = find_from(b, at, name, has_ft)->Ok_0;
        if rec.inode != 0 {
            if rec.name == name {
                assert(found == Some(rec.inode));
                assert(seq![rec][0] == rec);
                lemma_first(seq![rec], name, rec.inode, 0);
            } else {
                assert(unlisted(seq![rec], name));
            }
            lemma_joined(seq![rec], rest, name, found);
        }
    }
}

/// A block that can be listed is read to its end by an audit.
proof fn lemma_block_audit(b: Seq<u8>, at: int, has_ft: bool)
    requires
        list_from(b, at, has_ft) is Ok,
    ensures
        readable_from(b, at, has_ft) == (list_from(b, at, has_ft)->Ok_0, false),
    decreases b.len() - at,
{
    if at < b.len() {
        let rec = record_at(b, at, b.len() as int, has_ft)->Ok_0;
        lemma_block_audit(b, at + rec.rec_len, has_ft);
    }
}

/// The listing of a directory holds the listing of its first blocks.
proof fn lemma_listed_ok(v: Vol, raw: Seq<u8>, m: nat, n: nat)
    requires
        m <= n,
        listed_in(v, raw, n) is Ok,
    ensures
        listed_in(v, raw, m) is Ok,
    decreases n,
{
    if m < n {
        lemma_listed_ok(v, raw, m, (n - 1) as nat);
    }
}

/// A search from block `l` on, against the listing up to there and of the rest.
proof fn lemma_search(v: Vol, ino: u32, raw: Seq<u8>, name: Seq<u8>, l: int)
    requires
        0 <= l <= dir_blocks(v, raw),
        flags_of(raw) & FL_EXTENTS != 0,
        listed_in(v, raw, dir_blocks(v, raw) as nat) is Ok,
        listed_in(v, raw, l as nat) is Ok,
        unlisted(listed_in(v, raw, l as nat)->Ok_0, name),
    ensures
        ({
            let es = listed_in(v, raw, dir_blocks(v, raw) as nat)->Ok_0;
            match find_entry_from(v, ino, raw, name, l) {
                Ok(t) => search_agrees(es, name, Some(t)),
                Err(e) => (e == Error::NotFound && unlisted(es, name)) || e == Error::BadChecksum("directory block"),
            }
        }),
    decreases dir_blocks(v, raw) - l,
{
    if l < dir_blocks(v, raw) {
        let n = dir_blocks(v, raw) as nat;
        lemma_listed_ok(v, raw, (l + 1) as nat, n);
        let before = listed_in(v, raw, l as nat)->Ok_0;
        let here = block_listing(v, block_area_of(raw), l)->Ok_0;
        let upto = listed_in(v, raw, (l + 1) as nat)->Ok_0;
        assert(upto == before + here);
        match file_block(v, raw, l)->Ok_0 {
            None => {
                assert(upto =~= before);
                lemma_search(v, ino, raw, name, l + 1);
            },
            Some(p) => {
                let b = v.block(p as int)->Ok_0;
                if v.csum.dir_ok(ino, generation_of(raw), b) {
                    lemma_block_search(b, 0, name, keeps_types(v));
                    let found = find_from(b, 0, name, keeps_types(v))->Ok_0;
                    lemma_joined(before, here, name, found);
                    if found is None {
                        lemma_search(v, ino, raw, name, l + 1);
                    } else {
                        lemma_prefix(v, raw, (l + 1) as nat, n, name, found);
                    }
                }
            },
        }
    }
}

/// What is found in the first blocks is found in all.
proof fn lemma_prefix(v: Vol, raw: Seq<u8>, m: nat, n: nat, name: Seq<u8>, found: Option<u32>)
    requires
        m <= n,
        listed_in(v, raw, n) is Ok,
        listed_in(v, raw, m) is Ok,
        found is Some,
        search_agrees(listed_in(v, raw, m)->Ok_0, name, found),
    ensures
        search_agrees(listed_in(v, raw, n)->Ok_0, name, found),
    decreases n,
{
    if m < n {
        lemma_prefix(v, raw, m, (n - 1) as nat, name, found);
        lemma_joined(
            listed_in(v, raw, (n - 1) as nat)->Ok_0,
            block_listing(v, block_area_of(raw), n - 1)->Ok_0,
            name,
            found,
        );
    }
}

/// Listing a directory lists what can be found in it: a name that is found leads
/// where the first entry listed under it does, and one that is not found is not
/// listed. A search can fail where a listing does not: at a block whose checksum
/// is wrong.
pub proof fn law_listed_names_are_found(v: Vol, path: Seq<u8>, ino: u32, raw: Seq<u8>, name: Seq<u8>)
    requires
        host_inode(v, path) == Ok::<(u32, Seq<u8>), Error>((ino, raw)),
        flags_of(raw) & FL_INLINE_DATA == 0,
        host_listing(v, path) is Ok,
    ensures
        match find_entry(v, ino, raw, name) {
            Ok(t) => exists|k: int| #[trigger] first_at(host_listing(v, path)->Ok_0, name, t, k),
            Err(e) => (e == Error::NotFound && unlisted(host_listing(v, path)->Ok_0, name)) || e == Error::BadChecksum(
                "directory block",
            ),
        },
{
    assert(listed_in(v, raw, 0)->Ok_0 =~= Seq::empty());
    if dir_blocks(v, raw) >= 0 {
        lemma_search(v, ino, raw, name, 0);
    } else {
        assert(listed_in(v, raw, dir_blocks(v, raw) as nat) is Ok);
    }
}

/// An audit looks at the entries that a listing gives.
pub proof fn law_listed_entries_are_audited(v: Vol, path: Seq<u8>, ino: u32, raw: Seq<u8>)
    requires
        host_inode(v, path) == Ok::<(u32, Seq<u8>), Error>((ino, raw)),
        flags_of(raw) & FL_INLINE_DATA == 0,
        host_listing(v, path) is Ok,
    ensures
        mode_is_dir(mode_of(raw)),
        dir_entries(v, raw) == Some(host_listing(v, path)->Ok_0),
{
    lemma_audited_blocks(v, raw, dir_blocks(v, raw) as nat);
}

proof fn lemma_audited_blocks(v: Vol, raw: Seq<u8>, n: nat)
    requires
        listed_in(v, raw, n) is Ok,
    ensures
        entries_in(v, raw, n) == Some(listed_in(v, raw, n)->Ok_0),
    decreases n,
{
    if n > 0 {
        lemma_audited_blocks(v, raw, (n - 1) as nat);
        let before = listed_in(v, raw, (n - 1) as nat)->Ok_0;
        match crate::extent::block_for(v.img, v.bs(), block_area_of(raw), n - 1)->Ok_0 {
            None => {
                assert(before + Seq::<RecordView>::empty() =~= before);
            },
            Some(p) => {
                lemma_block_audit(v.block(p as int)->Ok_0, 0, keeps_types(v));
            },
        }
    }
}

} // verus!
