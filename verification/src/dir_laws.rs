//! What adding and removing an entry does to what a directory block lists.
use crate::bytes::{le16, le32, put16, put32, splice};
use crate::dir::{
    add_from, find_from, list_from, name_len_at, rec_len_of, record_at, record_size, remove_from, with_record, RecordView,
};
use crate::error::Error;
use vstd::prelude::*;

verus! {

broadcast use crate::bytes::group_fields;

/// An entry without regard to the room it takes.
pub struct Entry {
    pub inode: u32,
    pub name: Seq<u8>,
    pub file_type: u8,
}

pub open spec fn entry_of(r: RecordView) -> Entry {
    Entry { inode: r.inode, name: r.name, file_type: r.file_type }
}

/// Records without regard to the room they take.
pub open spec fn entries_of(rs: Seq<RecordView>) -> Seq<Entry> {
    Seq::new(rs.len(), |i: int| entry_of(rs[i]))
}

/// The first entry with a name.
pub open spec fn first_named(es: Seq<Entry>, name: Seq<u8>) -> Option<u32>
    decreases es.len(),
{
    if es.len() == 0 {
        None
    } else if es[0].name == name {
        Some(es[0].inode)
    } else {
        first_named(es.drop_first(), name)
    }
}

proof fn lemma_entries_cons(r: RecordView, rest: Seq<RecordView>)
    ensures
        entries_of(seq![r] + rest) == seq![entry_of(r)] + entries_of(rest),
{
    assert(entries_of(seq![r] + rest) =~= seq![entry_of(r)] + entries_of(rest));
}

/// Looking a name up finds the first entry listed under it.
pub proof fn law_find_is_first_listed(block: Seq<u8>, at: int, name: Seq<u8>, has_ft: bool)
    requires
        list_from(block, at, has_ft) is Ok,
    ensures
        find_from(block, at, name, has_ft) == Ok::<Option<u32>, Error>(
            first_named(entries_of(list_from(block, at, has_ft)->Ok_0), name),
        ),
    decreases block.len() - at,
{
    if at < block.len() {
        let rec = record_at(block, at, block.len() as int, has_ft)->Ok_0;
        law_find_is_first_listed(block, at + rec.rec_len, name, has_ft);
        let rest = list_from(block, at + rec.rec_len, has_ft)->Ok_0;
        if rec.inode != 0 {
            lemma_entries_cons(rec, rest);
            let es = seq![entry_of(rec)] + entries_of(rest);
            assert(es[0] == entry_of(rec));
            assert(es.drop_first() =~= entries_of(rest));
        }
    }
}

/// A record reads the same wherever its own bytes do.
pub(crate) proof fn lemma_record_same(s: Seq<u8>, t: Seq<u8>, at: int, end: int, has_ft: bool)
    requires
        0 <= at,
        end <= s.len(),
        s.len() == t.len(),
        record_at(s, at, end, has_ft) is Ok,
        forall|k: int|
            at <= k < at + 8 + record_at(s, at, end, has_ft)->Ok_0.name.len() ==> s[k] == t[k],
    ensures
        record_at(t, at, end, has_ft) == record_at(s, at, end, has_ft),
{
    reveal(le16);
    reveal(le32);
    let rec = record_at(s, at, end, has_ft)->Ok_0;
    let n = name_len_at(s, at, has_ft);
    assert(rec.name.len() == n);
    assert(t.subrange(at + 8, at + 8 + n) =~= s.subrange(at + 8, at + 8 + n));
}

/// Where two blocks agree from a byte on, they list the same from there on.
proof fn lemma_list_suffix(s: Seq<u8>, t: Seq<u8>, at: int, has_ft: bool)
    requires
        0 <= at,
        s.len() == t.len(),
        forall|k: int| at <= k < s.len() ==> s[k] == t[k],
        list_from(s, at, has_ft) is Ok,
    ensures
        list_from(t, at, has_ft) == list_from(s, at, has_ft),
    decreases s.len() - at,
{
    if at < s.len() {
        let rec = record_at(s, at, s.len() as int, has_ft)->Ok_0;
        lemma_record_same(s, t, at, s.len() as int, has_ft);
        lemma_list_suffix(s, t, at + rec.rec_len, has_ft);
    }
}

/// A record that was written reads back.
pub(crate) proof fn lemma_written_record(
    block: Seq<u8>,
    at: int,
    end: int,
    ino: u32,
    rec_len: int,
    name: Seq<u8>,
    ft: u8,
    has_ft: bool,
)
    requires
        0 <= at,
        at + rec_len <= end <= block.len(),
        block.len() <= 65536,
        rec_len % 4 == 0,
        8 + name.len() <= rec_len,
        name.len() <= 255,
        !has_ft ==> ft == 0,
    ensures
        ({
            let b = with_record(block, at, ino, rec_len, name, ft);
            &&& b.len() == block.len()
            &&& record_at(b, at, end, has_ft) == Ok::<RecordView, Error>(
                RecordView { inode: ino, rec_len, name, file_type: ft },
            )
            &&& forall|k: int| 0 <= k < block.len() && !(at <= k < at + 8 + name.len()) ==> b[k] == block[k]
        }),
{
    let h1 = put32(block, at, ino);
    let h2 = put16(h1, at + 4, (rec_len % 0x1_0000) as u16);
    let h3 = h2.update(at + 6, name.len() as u8).update(at + 7, ft);
    let b = splice(h3, at + 8, name);
    assert(b == with_record(block, at, ino, rec_len, name, ft));
    assert(forall|k: int| at <= k < at + 6 ==> b[k] == h2[k]);
    assert(le32(b, at) == ino && le16(b, at + 4) == (rec_len % 0x1_0000) as u16) by {
        assert(le32(h2, at) == ino);
        assert(le16(h2, at + 4) == (rec_len % 0x1_0000) as u16);
        reveal(le16);
        reveal(le32);
    }
    assert(name_len_at(b, at, has_ft) == name.len()) by {
        reveal(le16);
    }
    assert(b.subrange(at + 8, at + 8 + name.len()) =~= name);
    assert forall|k: int| 0 <= k < block.len() && !(at <= k < at + 8 + name.len()) implies b[k] == block[k] by {
        assert(h2[k] == block[k]);
    }
}

proof fn lemma_shorter_end(block: Seq<u8>, at: int, end: int, has_ft: bool)
    requires
        end <= block.len(),
        record_at(block, at, end, has_ft) is Ok,
    ensures
        record_at(block, at, block.len() as int, has_ft) == record_at(block, at, end, has_ft),
{
}

/// `after` is `before` with one entry more.
pub open spec fn one_more(before: Seq<Entry>, after: Seq<Entry>, e: Entry) -> bool {
    exists|p: int| 0 <= p <= before.len() && after == #[trigger] before.insert(p, e)
}

proof fn lemma_one_more_behind(x: Entry, before: Seq<Entry>, after: Seq<Entry>, e: Entry)
    requires
        one_more(before, after, e),
    ensures
        one_more(seq![x] + before, seq![x] + after, e),
{
    let p = choose|p: int| 0 <= p <= before.len() && after == #[trigger] before.insert(p, e);
    assert(seq![x] + after =~= (seq![x] + before).insert(p + 1, e));
}

/// A live record cut down to what it needs keeps its entry.
pub(crate) proof fn lemma_cut_record(block: Seq<u8>, b: Seq<u8>, at: int, used: int, has_ft: bool)
    requires
        0 <= at,
        block.len() <= 65536,
        b.len() == block.len(),
        record_at(block, at, block.len() as int, has_ft) is Ok,
        used == record_size(record_at(block, at, block.len() as int, has_ft)->Ok_0.name.len() as int),
        used < record_at(block, at, block.len() as int, has_ft)->Ok_0.rec_len,
        forall|k: int| at <= k < at + used ==> b[k] == put16(block, at + 4, used as u16)[k],
    ensures
        record_at(b, at, block.len() as int, has_ft) == Ok::<RecordView, Error>(
            RecordView { rec_len: used, ..record_at(block, at, block.len() as int, has_ft)->Ok_0 },
        ),
{
    let cut = put16(block, at + 4, used as u16);
    let n = name_len_at(block, at, has_ft);
    assert(0 <= n);
    assert(used >= 8 + n && used % 4 == 0 && used < 65536);
    assert(rec_len_of(used as u16) == used);
    assert(le16(cut, at + 4) == used as u16);
    assert(le32(cut, at) == le32(block, at));
    assert(cut[at + 6] == block[at + 6] && cut[at + 7] == block[at + 7]);
    assert(le16(b, at + 4) == le16(cut, at + 4) && le32(b, at) == le32(cut, at) && name_len_at(b, at, has_ft) == n)
        by {
        reveal(le16);
        reveal(le32);
    }
    assert(b.subrange(at + 8, at + 8 + n) =~= block.subrange(at + 8, at + 8 + n)) by {
        assert forall|k: int| at + 8 <= k < at + 8 + n implies b[k] == block[k] by {
            assert(cut[k] == block[k]);
        }
    }
}

/// What a new entry in a free record does to the list.
proof fn lemma_fill_free(block: Seq<u8>, at: int, ino: u32, name: Seq<u8>, ft: u8, has_ft: bool)
    requires
        0 <= at < block.len() <= 65536,
        list_from(block, at, has_ft) is Ok,
        record_at(block, at, block.len() as int, has_ft)->Ok_0.inode == 0,
        record_at(block, at, block.len() as int, has_ft)->Ok_0.rec_len >= record_size(name.len() as int),
        ino != 0,
        name.len() <= 255,
        !has_ft ==> ft == 0,
    ensures
        ({
            let rec = record_at(block, at, block.len() as int, has_ft)->Ok_0;
            let b = with_record(block, at, ino, rec.rec_len, name, ft);
            &&& b.len() == block.len()
            &&& forall|k: int| 0 <= k < at ==> b[k] == block[k]
            &&& list_from(b, at, has_ft) is Ok
            &&& one_more(
                entries_of(list_from(block, at, has_ft)->Ok_0),
                entries_of(list_from(b, at, has_ft)->Ok_0),
                Entry { inode: ino, name, file_type: ft },
            )
        }),
{
    let e = Entry { inode: ino, name, file_type: ft };
    let len = block.len() as int;
    let rec = record_at(block, at, len, has_ft)->Ok_0;
    let b = with_record(block, at, ino, rec.rec_len, name, ft);
    let next = at + rec.rec_len;
    let rest = list_from(block, next, has_ft)->Ok_0;
    lemma_written_record(block, at, len, ino, rec.rec_len, name, ft, has_ft);
    lemma_list_suffix(block, b, next, has_ft);
    let new = RecordView { inode: ino, rec_len: rec.rec_len, name, file_type: ft };
    lemma_entries_cons(new, rest);
    assert(list_from(b, at, has_ft) == Ok::<Seq<RecordView>, Error>(seq![new] + rest));
    assert(list_from(block, at, has_ft) == Ok::<Seq<RecordView>, Error>(rest));
    assert(seq![e] + entries_of(rest) =~= entries_of(rest).insert(0, e));
}

/// What a new entry behind a live one does to the list.
proof fn lemma_fill_slack(block: Seq<u8>, at: int, ino: u32, name: Seq<u8>, ft: u8, has_ft: bool)
    requires
        0 <= at < block.len() <= 65536,
        list_from(block, at, has_ft) is Ok,
        record_at(block, at, block.len() as int, has_ft)->Ok_0.inode != 0,
        ({
            let rec = record_at(block, at, block.len() as int, has_ft)->Ok_0;
            rec.rec_len - record_size(rec.name.len() as int) >= record_size(name.len() as int)
        }),
        ino != 0,
        name.len() <= 255,
        !has_ft ==> ft == 0,
    ensures
        ({
            let rec = record_at(block, at, block.len() as int, has_ft)->Ok_0;
            let used = record_size(rec.name.len() as int);
            let b = with_record(put16(block, at + 4, used as u16), at + used, ino, rec.rec_len - used, name, ft);
            &&& b.len() == block.len()
            &&& forall|k: int| 0 <= k < at ==> b[k] == block[k]
            &&& list_from(b, at, has_ft) is Ok
            &&& one_more(
                entries_of(list_from(block, at, has_ft)->Ok_0),
                entries_of(list_from(b, at, has_ft)->Ok_0),
                Entry { inode: ino, name, file_type: ft },
            )
        }),
{
    let e = Entry { inode: ino, name, file_type: ft };
    let len = block.len() as int;
    let rec = record_at(block, at, len, has_ft)->Ok_0;
    let used = record_size(rec.name.len() as int);
    let cut = put16(block, at + 4, used as u16);
    let b = with_record(cut, at + used, ino, rec.rec_len - used, name, ft);
    let next = at + rec.rec_len;
    let rest = list_from(block, next, has_ft)->Ok_0;
    assert(forall|k: int| 0 <= k < at || at + used <= k < len ==> cut[k] == block[k]);
    lemma_written_record(cut, at + used, len, ino, rec.rec_len - used, name, ft, has_ft);
    assert(forall|k: int| next <= k < len ==> b[k] == block[k]);
    lemma_list_suffix(block, b, next, has_ft);
    lemma_cut_record(block, b, at, used, has_ft);
    let kept = RecordView { rec_len: used, ..rec };
    let new = RecordView { inode: ino, rec_len: rec.rec_len - used, name, file_type: ft };
    assert(list_from(b, at + used, has_ft) == Ok::<Seq<RecordView>, Error>(seq![new] + rest));
    assert(list_from(b, at, has_ft) == Ok::<Seq<RecordView>, Error>(seq![kept] + (seq![new] + rest)));
    assert(list_from(block, at, has_ft) == Ok::<Seq<RecordView>, Error>(seq![rec] + rest));
    lemma_entries_cons(new, rest);
    lemma_entries_cons(kept, seq![new] + rest);
    lemma_entries_cons(rec, rest);
    assert(entry_of(kept) == entry_of(rec));
    assert(seq![entry_of(rec)] + (seq![e] + entries_of(rest)) =~= (seq![entry_of(rec)] + entries_of(rest)).insert(
        1,
        e,
    ));
}

pub(crate) proof fn lemma_add_list(
    block: Seq<u8>,
    at: int,
    end: int,
    ino: u32,
    name: Seq<u8>,
    ft: u8,
    has_ft: bool,
)
    requires
        0 <= at,
        end <= block.len() <= 65536,
        list_from(block, at, has_ft) is Ok,
        add_from(block, at, end, ino, name, ft, has_ft) is Ok,
        ino != 0,
        name.len() <= 255,
        !has_ft ==> ft == 0,
    ensures
        ({
            let b = add_from(block, at, end, ino, name, ft, has_ft)->Ok_0;
            &&& b.len() == block.len()
            &&& forall|k: int| 0 <= k < at ==> b[k] == block[k]
            &&& list_from(b, at, has_ft) is Ok
            &&& one_more(
                entries_of(list_from(block, at, has_ft)->Ok_0),
                entries_of(list_from(b, at, has_ft)->Ok_0),
                Entry { inode: ino, name, file_type: ft },
            )
        }),
    decreases end - at,
{
    let e = Entry { inode: ino, name, file_type: ft };
    let b = add_from(block, at, end, ino, name, ft, has_ft)->Ok_0;
    let rec = record_at(block, at, end, has_ft)->Ok_0;
    lemma_shorter_end(block, at, end, has_ft);
    let need = record_size(name.len() as int);
    let used = record_size(rec.name.len() as int);
    let next = at + rec.rec_len;
    let len = block.len() as int;
    if rec.inode == 0 && rec.rec_len >= need {
        lemma_fill_free(block, at, ino, name, ft, has_ft);
    } else if rec.inode != 0 && rec.rec_len - used >= need {
        lemma_fill_slack(block, at, ino, name, ft, has_ft);
    } else {
        let rest = list_from(block, next, has_ft)->Ok_0;
        lemma_add_list(block, next, end, ino, name, ft, has_ft);
        lemma_record_same(block, b, at, len, has_ft);
        if rec.inode != 0 {
            lemma_entries_cons(rec, rest);
            let after = list_from(b, next, has_ft)->Ok_0;
            lemma_entries_cons(rec, after);
            lemma_one_more_behind(entry_of(rec), entries_of(rest), entries_of(after), e);
        }
    }
}

/// A block with an entry added lists what it listed before, in the same order,
/// and the new entry.
pub proof fn law_added_entry_is_listed(block: Seq<u8>, end: int, ino: u32, name: Seq<u8>, ft: u8, has_ft: bool)
    requires
        end <= block.len() <= 65536,
        list_from(block, 0, has_ft) is Ok,
        add_from(block, 0, end, ino, name, ft, has_ft) is Ok,
        ino != 0,
        name.len() <= 255,
        !has_ft ==> ft == 0,
    ensures
        ({
            let b = add_from(block, 0, end, ino, name, ft, has_ft)->Ok_0;
            list_from(b, 0, has_ft) is Ok && one_more(
                entries_of(list_from(block, 0, has_ft)->Ok_0),
                entries_of(list_from(b, 0, has_ft)->Ok_0),
                Entry { inode: ino, name, file_type: ft },
            )
        }),
{
    lemma_add_list(block, 0, end, ino, name, ft, has_ft);
}

proof fn lemma_first_of_more(before: Seq<Entry>, p: int, e: Entry, name: Seq<u8>)
    requires
        0 <= p <= before.len(),
    ensures
        name != e.name ==> first_named(before.insert(p, e), name) == first_named(before, name),
        name == e.name && first_named(before, name) is None ==> first_named(before.insert(p, e), name) == Some(
            e.inode,
        ),
    decreases before.len(),
{
    let after = before.insert(p, e);
    if p == 0 {
        assert(after[0] == e);
        assert(after.drop_first() =~= before);
    } else {
        assert(after[0] == before[0]);
        assert(after.drop_first() =~= before.drop_first().insert(p - 1, e));
        lemma_first_of_more(before.drop_first(), p - 1, e, name);
    }
}

/// A name that was not there is found once it is added, and every other name is
/// found as it was.
pub proof fn law_added_name_is_found(
    block: Seq<u8>,
    end: int,
    ino: u32,
    name: Seq<u8>,
    ft: u8,
    has_ft: bool,
    other: Seq<u8>,
)
    requires
        end <= block.len() <= 65536,
        list_from(block, 0, has_ft) is Ok,
        add_from(block, 0, end, ino, name, ft, has_ft) is Ok,
        ino != 0,
        name.len() <= 255,
        !has_ft ==> ft == 0,
        find_from(block, 0, name, has_ft) == Ok::<Option<u32>, Error>(None),
    ensures
        ({
            let b = add_from(block, 0, end, ino, name, ft, has_ft)->Ok_0;
            &&& find_from(b, 0, name, has_ft) == Ok::<Option<u32>, Error>(Some(ino))
            &&& other != name ==> find_from(b, 0, other, has_ft) == find_from(block, 0, other, has_ft)
        }),
{
    let b = add_from(block, 0, end, ino, name, ft, has_ft)->Ok_0;
    let e = Entry { inode: ino, name, file_type: ft };
    law_added_entry_is_listed(block, end, ino, name, ft, has_ft);
    let before = entries_of(list_from(block, 0, has_ft)->Ok_0);
    let after = entries_of(list_from(b, 0, has_ft)->Ok_0);
    let p = choose|p: int| 0 <= p <= before.len() && after == #[trigger] before.insert(p, e);
    law_find_is_first_listed(block, 0, name, has_ft);
    law_find_is_first_listed(b, 0, name, has_ft);
    law_find_is_first_listed(block, 0, other, has_ft);
    law_find_is_first_listed(b, 0, other, has_ft);
    lemma_first_of_more(before, p, e, name);
    lemma_first_of_more(before, p, e, other);
}

/// `after` is `before` without its first entry named `name`.
pub open spec fn one_less(before: Seq<Entry>, after: Seq<Entry>, name: Seq<u8>) -> bool {
    exists|p: int|
        0 <= p < before.len() && before[p].name == name && after == #[trigger] before.remove(p) && (forall|q: int|
            0 <= q < p ==> (#[trigger] before[q]).name != name)
}

proof fn lemma_one_less_behind(x: Entry, before: Seq<Entry>, after: Seq<Entry>, name: Seq<u8>)
    requires
        one_less(before, after, name),
        x.name != name,
    ensures
        one_less(seq![x] + before, seq![x] + after, name),
{
    let p = choose|p: int|
        0 <= p < before.len() && before[p].name == name && after == #[trigger] before.remove(p) && (forall|q: int|
            0 <= q < p ==> (#[trigger] before[q]).name != name);
    let longer = seq![x] + before;
    assert(seq![x] + after =~= longer.remove(p + 1));
    assert forall|q: int| 0 <= q < p + 1 implies (#[trigger] longer[q]).name != name by {
        if q > 0 {
            assert(longer[q] == before[q - 1]);
        }
    }
}

/// A record that swallows the one behind it keeps its entry.
pub(crate) proof fn lemma_swallow(block: Seq<u8>, p: int, at: int, has_ft: bool)
    requires
        0 <= p,
        at < block.len() <= 65536,
        record_at(block, p, block.len() as int, has_ft) is Ok,
        p + record_at(block, p, block.len() as int, has_ft)->Ok_0.rec_len == at,
        record_at(block, at, block.len() as int, has_ft) is Ok,
    ensures
        ({
            let gone = record_at(block, at, block.len() as int, has_ft)->Ok_0;
            let b = put16(block, p + 4, ((at - p + gone.rec_len) % 0x1_0000) as u16);
            &&& b.len() == block.len()
            &&& forall|k: int| 0 <= k < p || at <= k < block.len() ==> b[k] == block[k]
            &&& record_at(b, p, block.len() as int, has_ft) == Ok::<RecordView, Error>(
                RecordView {
                    rec_len: at - p + gone.rec_len,
                    ..record_at(block, p, block.len() as int, has_ft)->Ok_0
                },
            )
        }),
{
    let len = block.len() as int;
    let rec = record_at(block, p, len, has_ft)->Ok_0;
    let gone = record_at(block, at, len, has_ft)->Ok_0;
    let total = at - p + gone.rec_len;
    let b = put16(block, p + 4, (total % 0x1_0000) as u16);
    let n = name_len_at(block, p, has_ft);
    assert(0 <= total <= 65536 && total % 4 == 0);
    assert(rec_len_of((total % 0x1_0000) as u16) == total);
    assert(le16(b, p + 4) == (total % 0x1_0000) as u16);
    assert(le32(b, p) == le32(block, p));
    assert(b[p + 6] == block[p + 6] && b[p + 7] == block[p + 7]);
    assert(name_len_at(b, p, has_ft) == n) by {
        reveal(le16);
    }
    assert(b.subrange(p + 8, p + 8 + n) =~= block.subrange(p + 8, p + 8 + n));
}

/// What the first removal does to the list, at the record that goes.
proof fn lemma_remove_here(block: Seq<u8>, prev: Option<int>, at: int, end: int, name: Seq<u8>, has_ft: bool)
    requires
        0 <= at < end <= block.len() <= 65536,
        record_at(block, at, end, has_ft) is Ok,
        record_at(block, at, end, has_ft)->Ok_0.inode != 0,
        record_at(block, at, end, has_ft)->Ok_0.name == name,
        list_from(block, at, has_ft) is Ok,
        prev matches Some(p) ==> 0 <= p && record_at(block, p, block.len() as int, has_ft) is Ok && p + record_at(
            block,
            p,
            block.len() as int,
            has_ft,
        )->Ok_0.rec_len == at && (record_at(block, p, block.len() as int, has_ft)->Ok_0.inode == 0 || record_at(
            block,
            p,
            block.len() as int,
            has_ft,
        )->Ok_0.name != name),
    ensures
        ({
            let b = remove_from(block, prev, at, end, name, has_ft)->Ok_0->Some_0;
            let start = if prev is Some { prev->Some_0 } else { at };
            &&& b.len() == block.len()
            &&& forall|k: int| 0 <= k < start ==> b[k] == block[k]
            &&& list_from(block, start, has_ft) is Ok
            &&& list_from(b, start, has_ft) is Ok
            &&& one_less(
                entries_of(list_from(block, start, has_ft)->Ok_0),
                entries_of(list_from(b, start, has_ft)->Ok_0),
                name,
            )
        }),
{
    lemma_shorter_end(block, at, end, has_ft);
    let len = block.len() as int;
    let rec = record_at(block, at, len, has_ft)->Ok_0;
    let next = at + rec.rec_len;
    let rest = list_from(block, next, has_ft)->Ok_0;
    let b = remove_from(block, prev, at, end, name, has_ft)->Ok_0->Some_0;
    lemma_entries_cons(rec, rest);
    let here = seq![entry_of(rec)] + entries_of(rest);
    assert(list_from(block, at, has_ft) == Ok::<Seq<RecordView>, Error>(seq![rec] + rest));
    assert(here[0].name == name);
    assert(entries_of(rest) =~= here.remove(0));
    assert(one_less(here, entries_of(rest), name));
    match prev {
        None => {
            assert(b == put32(block, at, 0));
            assert(le32(b, at) == 0);
            assert(le16(b, at + 4) == le16(block, at + 4));
            assert(b[at + 6] == block[at + 6]);
            assert(name_len_at(b, at, has_ft) == name_len_at(block, at, has_ft));
            lemma_list_suffix(block, b, next, has_ft);
        },
        Some(p) => {
            let before = record_at(block, p, len, has_ft)->Ok_0;
            lemma_swallow(block, p, at, has_ft);
            let longer = record_at(b, p, len, has_ft)->Ok_0;
            lemma_list_suffix(block, b, next, has_ft);
            assert(p + longer.rec_len == next);
            if before.inode != 0 {
                lemma_entries_cons(before, seq![rec] + rest);
                lemma_entries_cons(longer, rest);
                lemma_one_less_behind(entry_of(before), here, entries_of(rest), name);
                assert(list_from(b, p, has_ft) == Ok::<Seq<RecordView>, Error>(seq![longer] + rest));
            }
        },
    }
}

pub(crate) proof fn lemma_remove_list(block: Seq<u8>, prev: Option<int>, at: int, end: int, name: Seq<u8>, has_ft: bool)
    requires
        0 <= at,
        end <= block.len() <= 65536,
        remove_from(block, prev, at, end, name, has_ft) is Ok,
        remove_from(block, prev, at, end, name, has_ft)->Ok_0 is Some,
        list_from(block, at, has_ft) is Ok,
        prev matches Some(p) ==> 0 <= p && record_at(block, p, block.len() as int, has_ft) is Ok && p + record_at(
            block,
            p,
            block.len() as int,
            has_ft,
        )->Ok_0.rec_len == at && (record_at(block, p, block.len() as int, has_ft)->Ok_0.inode == 0 || record_at(
            block,
            p,
            block.len() as int,
            has_ft,
        )->Ok_0.name != name),
    ensures
        ({
            let b = remove_from(block, prev, at, end, name, has_ft)->Ok_0->Some_0;
            let start = if prev is Some { prev->Some_0 } else { at };
            &&& b.len() == block.len()
            &&& forall|k: int| 0 <= k < start ==> b[k] == block[k]
            &&& list_from(block, start, has_ft) is Ok
            &&& list_from(b, start, has_ft) is Ok
            &&& one_less(
                entries_of(list_from(block, start, has_ft)->Ok_0),
                entries_of(list_from(b, start, has_ft)->Ok_0),
                name,
            )
        }),
    decreases end - at,
{
    let len = block.len() as int;
    let rec = record_at(block, at, end, has_ft)->Ok_0;
    lemma_shorter_end(block, at, end, has_ft);
    if rec.inode != 0 && rec.name == name {
        lemma_remove_here(block, prev, at, end, name, has_ft);
    } else {
        let b = remove_from(block, prev, at, end, name, has_ft)->Ok_0->Some_0;
        lemma_remove_list(block, Some(at), at + rec.rec_len, end, name, has_ft);
        if let Some(p) = prev {
            let before = record_at(block, p, len, has_ft)->Ok_0;
            lemma_record_same(block, b, p, len, has_ft);
            if before.inode != 0 {
                let l1 = list_from(block, at, has_ft)->Ok_0;
                let l2 = list_from(b, at, has_ft)->Ok_0;
                lemma_entries_cons(before, l1);
                lemma_entries_cons(before, l2);
                lemma_one_less_behind(entry_of(before), entries_of(l1), entries_of(l2), name);
            }
        }
    }
}

/// A block with an entry removed lists what it listed before, in the same
/// order, without the first entry of that name.
pub proof fn law_removed_entry_is_not_listed(block: Seq<u8>, end: int, name: Seq<u8>, has_ft: bool)
    requires
        end <= block.len() <= 65536,
        list_from(block, 0, has_ft) is Ok,
        remove_from(block, None, 0, end, name, has_ft) is Ok,
        remove_from(block, None, 0, end, name, has_ft)->Ok_0 is Some,
    ensures
        ({
            let b = remove_from(block, None, 0, end, name, has_ft)->Ok_0->Some_0;
            list_from(b, 0, has_ft) is Ok && one_less(
                entries_of(list_from(block, 0, has_ft)->Ok_0),
                entries_of(list_from(b, 0, has_ft)->Ok_0),
                name,
            )
        }),
{
    lemma_remove_list(block, None, 0, end, name, has_ft);
}

/// No two entries have the same name.
pub open spec fn names_differ(es: Seq<Entry>) -> bool {
    forall|i: int, j: int| 0 <= i < j < es.len() ==> (#[trigger] es[i]).name != (#[trigger] es[j]).name
}

/// A name that is not found first is not there.
pub(crate) proof fn lemma_none_named(es: Seq<Entry>, name: Seq<u8>, i: int)
    requires
        first_named(es, name) is None,
        0 <= i < es.len(),
    ensures
        es[i].name != name,
    decreases es.len(),
{
    if i > 0 {
        assert(es.drop_first()[i - 1] == es[i]);
        lemma_none_named(es.drop_first(), name, i - 1);
    }
}

/// Names still differ when a new one is added.
pub(crate) proof fn lemma_differ_more(before: Seq<Entry>, after: Seq<Entry>, e: Entry)
    requires
        names_differ(before),
        one_more(before, after, e),
        first_named(before, e.name) is None,
    ensures
        names_differ(after),
{
    let p = choose|p: int| 0 <= p <= before.len() && after == #[trigger] before.insert(p, e);
    assert forall|i: int, j: int| 0 <= i < j < after.len() implies (#[trigger] after[i]).name != (
    #[trigger] after[j]).name by {
        if i == p {
            lemma_none_named(before, e.name, j - 1);
        } else if j == p {
            lemma_none_named(before, e.name, i);
        } else {
            let a = if i < p {
                i
            } else {
                i - 1
            };
            let b = if j < p {
                j
            } else {
                j - 1
            };
            assert(before[a].name != before[b].name);
        }
    }
}

proof fn lemma_first_none(es: Seq<Entry>, name: Seq<u8>)
    requires
        forall|i: int| 0 <= i < es.len() ==> (#[trigger] es[i]).name != name,
    ensures
        first_named(es, name) is None,
    decreases es.len(),
{
    if es.len() > 0 {
        let rest = es.drop_first();
        assert forall|i: int| 0 <= i < rest.len() implies (#[trigger] rest[i]).name != name by {
            assert(rest[i] == es[i + 1]);
        }
        lemma_first_none(rest, name);
    }
}

/// A name that stood in a directory block once is not found once it is
/// removed, and every other name is found as it was.
pub proof fn law_removed_name_is_gone(block: Seq<u8>, end: int, name: Seq<u8>, has_ft: bool, other: Seq<u8>)
    requires
        end <= block.len() <= 65536,
        list_from(block, 0, has_ft) is Ok,
        names_differ(entries_of(list_from(block, 0, has_ft)->Ok_0)),
        remove_from(block, None, 0, end, name, has_ft) is Ok,
        remove_from(block, None, 0, end, name, has_ft)->Ok_0 is Some,
    ensures
        ({
            let b = remove_from(block, None, 0, end, name, has_ft)->Ok_0->Some_0;
            &&& find_from(b, 0, name, has_ft) == Ok::<Option<u32>, Error>(None)
            &&& other != name ==> find_from(b, 0, other, has_ft) == find_from(block, 0, other, has_ft)
        }),
{
    let b = remove_from(block, None, 0, end, name, has_ft)->Ok_0->Some_0;
    law_removed_entry_is_not_listed(block, end, name, has_ft);
    let before = entries_of(list_from(block, 0, has_ft)->Ok_0);
    let after = entries_of(list_from(b, 0, has_ft)->Ok_0);
    let p = choose|p: int|
        0 <= p < before.len() && before[p].name == name && after == #[trigger] before.remove(p) && (forall|q: int|
            0 <= q < p ==> (#[trigger] before[q]).name != name);
    law_find_is_first_listed(b, 0, name, has_ft);
    law_find_is_first_listed(block, 0, other, has_ft);
    law_find_is_first_listed(b, 0, other, has_ft);
    assert forall|i: int| 0 <= i < after.len() implies (#[trigger] after[i]).name != name by {
        if i < p {
            assert(after[i] == before[i]);
        } else {
            assert(after[i] == before[i + 1]);
        }
    }
    lemma_first_none(after, name);
    assert(before =~= after.insert(p, before[p]));
    lemma_first_of_more(after, p, before[p], other);
}

} // verus!
