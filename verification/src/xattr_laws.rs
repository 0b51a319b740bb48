//! What reading an attribute gives once it was set or removed.
use crate::attr::inode_at;
use crate::block_io::{block_at, lemma_with_block};
use crate::bytes::{le16, le32, put32, zeros};
use crate::checksum::{inode_crc_ok, law_stamped_inode_verifies, xattr_stamped};
use crate::commit::committed;
use crate::content_laws::{in_use, law_block_in_use_is_not_planned, law_record_reads_back, record_block};
use crate::error::Error;
use crate::fs::{checked_inode, raw_inode};
use crate::grow::{home_group, stage_block_plan, stage_fresh, volume_plan};
use crate::inline_data::attr_region;
use crate::inode::{
    extra_isize_of, file_acl_of, generation_of, inode_fault, mode_of, sectors_of, size_of_file,
};
use crate::inode_edit::{with_file_acl, with_size_and_blocks};
use crate::pwrite_laws::{is_kept, lemma_kept_same, lemma_totals_other};
use crate::stage::{stage_counters, stage_free_blocks, stage_inode, stage_mark_blocks, stage_totals};
use crate::use_laws::{flags_agree, lemma_counters_keep, lemma_marked, tables_apart};
use crate::volume::{fresh_stage, Vol};
use crate::xattr::{
    attr_index, attrs_fit, block_attrs, block_with, law_block_round_trip, law_region_round_trip,
    law_set_then_find, law_unset_is_gone, lemma_attrs_read_back, lemma_fit_prefix, lemma_put_attrs_len,
    lemma_read_storable, lemma_sizes, lemma_without_storable, put_attr, put_attrs, region_attrs, region_with,
    storable_attrs, table_size, values_size, with_attr, without_attr, Attr, XATTR_MAGIC,
};
use crate::xattr_ops::{
    all_attrs, block_set, block_stamped, block_unset, found_attr, lemma_region_apart, lemma_with_storable,
    name_parts, region_set, region_unset, retimed, set_outside, set_stage, unset_outside, unset_stage,
    with_region, Leftover,
};
use vstd::prelude::*;

verus! {

broadcast use crate::bytes::group_fields;

/// Looking through one list and then another.
proof fn lemma_index_joined(a: Seq<Attr>, b: Seq<Attr>, index: u8, name: Seq<u8>)
    ensures
        attr_index(a + b, index, name) == (match attr_index(a, index, name) {
            Some(i) => Some(i),
            None => match attr_index(b, index, name) {
                Some(j) => Some(a.len() + j),
                None => None,
            },
        }),
    decreases b.len(),
{
    if b.len() == 0 {
        assert(a + b =~= a);
    } else {
        assert((a + b).drop_last() =~= a + b.drop_last());
        lemma_index_joined(a, b.drop_last(), index, name);
    }
}

/// What is set fits no place that is too small for its value.
proof fn lemma_value_fits(attrs: Seq<Attr>, index: u8, name: Seq<u8>, value: Seq<u8>, ordered: bool, start: int, len: int)
    requires
        attrs_fit(with_attr(attrs, index, name, value, ordered), start, len),
        start >= 0,
    ensures
        value.len() <= len,
{
    let after = with_attr(attrs, index, name, value, ordered);
    law_set_then_find(attrs, index, name, value, ordered);
    let i = attr_index(after, index, name)->Some_0;
    lemma_sizes(after);
    lemma_value_within(after, i);
}

proof fn lemma_value_within(attrs: Seq<Attr>, i: int)
    requires
        0 <= i < attrs.len(),
    ensures
        attrs[i].value.len() <= values_size(attrs),
    decreases attrs.len(),
{
    lemma_sizes(attrs.drop_last());
    if i < attrs.len() - 1 {
        assert(attrs.drop_last()[i] == attrs[i]);
        lemma_value_within(attrs.drop_last(), i);
    }
}

/// The checksum field of a block is apart from everything its attributes take.
proof fn lemma_checksum_apart(s: Seq<u8>, attrs: Seq<Attr>, c: u32)
    requires
        32 <= s.len() <= 0x1_0000,
        attrs_fit(attrs, 32, s.len() as int),
    ensures
        put_attrs(put32(s, 0x10, c), 0, 32, attrs) == put32(put_attrs(s, 0, 32, attrs), 0x10, c),
    decreases attrs.len(),
{
    if attrs.len() > 0 {
        let front = attrs.drop_last();
        lemma_fit_prefix(attrs, attrs.len() - 1, 32, s.len() as int);
        assert(attrs.take(attrs.len() - 1) =~= front);
        lemma_checksum_apart(s, front, c);
        let before = put_attrs(s, 0, 32, front);
        lemma_put_attrs_len(s, 0, 32, front);
        lemma_sizes(front);
        lemma_sizes(attrs);
        let at = 32 + table_size(front);
        let place = s.len() - values_size(attrs);
        let a = attrs.last();
        let left = put_attr(put32(before, 0x10, c), 0, at, place, a);
        let right = put32(put_attr(before, 0, at, place, a), 0x10, c);
        assert(left =~= right) by {
            reveal(put32);
            reveal(crate::bytes::put16);
        }
    }
}

/// A stamped attribute block reads as the attributes it was made from.
proof fn lemma_stamped_block(v: Vol, n: u64, attrs: Seq<Attr>, len: int)
    requires
        32 <= len <= 0x1_0000,
        attrs_fit(attrs, 32, len),
        storable_attrs(attrs),
    ensures
        block_stamped(v, n, block_with(attrs, len)).len() == len,
        block_attrs(block_stamped(v, n, block_with(attrs, len))) == Ok::<Seq<Attr>, Error>(attrs),
{
    law_block_round_trip(attrs, len);
    if v.csum.enabled {
        let s = put32(put32(put32(zeros(len as nat), 0, XATTR_MAGIC), 4, 1), 8, 1);
        let b = block_with(attrs, len);
        let out = xattr_stamped(v.csum.seed, n, b);
        let c = le32(out, 0x10);
        assert(out == put32(put32(b, 0x10, 0), 0x10, c));
        assert(put32(put32(b, 0x10, 0), 0x10, c) =~= put32(b, 0x10, c)) by {
            reveal(put32);
        }
        let t = put32(s, 0x10, c);
        lemma_checksum_apart(s, attrs, c);
        assert(forall|x: int| 32 <= x < t.len() ==> t[x] == 0);
        lemma_attrs_read_back(t, 0, 32, attrs);
        assert(le32(t, 0) == XATTR_MAGIC);
        assert(le32(out, 0) == le32(t, 0)) by {
            reveal(le32);
        }
    }
}

/// A record that is like one that could be trusted, and is stamped, can be
/// trusted.
proof fn lemma_trusted_like(v: Vol, w: Vol, ino: u32, raw: Seq<u8>, raw2: Seq<u8>)
    requires
        checked_inode(v, ino) == Ok::<Seq<u8>, Error>(raw),
        raw_inode(w, ino) == Ok::<Seq<u8>, Error>(raw2),
        w.sb == v.sb,
        w.csum == v.csum,
        inode_fault(raw2) is None,
        mode_of(raw2) == mode_of(raw),
        size_of_file(raw2) == size_of_file(raw),
        v.csum.enabled ==> inode_crc_ok(v.csum.seed, ino, generation_of(raw2), raw2),
    ensures
        checked_inode(w, ino) == Ok::<Seq<u8>, Error>(raw2),
{
}

/// A record's own attribute region is apart from its checksum.
pub open spec fn region_apart(raw: Seq<u8>) -> bool {
    extra_isize_of(raw) >= 4 || raw.len() < 132
}

/// Stamping a record changes nothing but its checksum.
proof fn lemma_stamped_record(v: Vol, ino: u32, raw: Seq<u8>)
    requires
        raw.len() >= 128,
        inode_fault(raw) is None,
        region_apart(raw),
    ensures
        ({
            let out = v.csum.stamp_inode_spec(ino, generation_of(raw), raw);
            &&& out.len() == raw.len()
            &&& inode_fault(out) is None
            &&& mode_of(out) == mode_of(raw)
            &&& size_of_file(out) == size_of_file(raw)
            &&& generation_of(out) == generation_of(raw)
            &&& file_acl_of(out) == file_acl_of(raw)
            &&& attr_region(out) == attr_region(raw)
            &&& v.csum.enabled ==> inode_crc_ok(v.csum.seed, ino, generation_of(out), out)
        }),
{
    let out = v.csum.stamp_inode_spec(ino, generation_of(raw), raw);
    assert(extra_isize_of(out) == extra_isize_of(raw));
    assert(attr_region(out) =~= attr_region(raw));
    if v.csum.enabled {
        law_stamped_inode_verifies(v.csum, ino, generation_of(raw), raw);
    }
}

/// A name stands for an attribute with this value.
pub open spec fn reads_attr(v: Vol, ino: u32, name: Seq<u8>, value: Seq<u8>) -> bool {
    &&& checked_inode(v, ino) matches Ok(raw)
    &&& found_attr(v, raw, name) matches Ok(Some(a))
    &&& a.value == value
    &&& a.inum == 0
}

/// The attributes of an inode are some that it had, but for those of one name.
pub open spec fn keeps_others(v: Vol, ino: u32, name: Seq<u8>, had: Seq<Attr>) -> bool {
    &&& checked_inode(v, ino) matches Ok(raw)
    &&& all_attrs(v, raw) matches Ok(attrs)
    &&& others_alike(had, attrs, name)
}

/// Two lists hold the same attributes, but for those of one name.
pub open spec fn others_alike(a: Seq<Attr>, b: Seq<Attr>, name: Seq<u8>) -> bool {
    forall|x: Attr|
        !(x.index == name_parts(name)->Ok_0.0 && x.name == name_parts(name)->Ok_0.1) ==> (#[trigger] b.contains(x)
            <==> a.contains(x))
}

proof fn lemma_joined(a: Seq<Attr>, b: Seq<Attr>, x: Attr)
    ensures
        (a + b).contains(x) <==> a.contains(x) || b.contains(x),
{
    let all = a + b;
    if a.contains(x) {
        let k = choose|k: int| 0 <= k < a.len() && a[k] == x;
        assert(all[k] == x);
    }
    if b.contains(x) {
        let k = choose|k: int| 0 <= k < b.len() && b[k] == x;
        assert(all[a.len() + k] == x);
    }
    if all.contains(x) {
        let k = choose|k: int| 0 <= k < all.len() && all[k] == x;
        if k < a.len() {
            assert(a[k] == x);
        } else {
            assert(b[k - a.len()] == x);
        }
    }
}

/// Two pairs of lists, alike one by one, are alike together.
proof fn lemma_alike_joined(a: Seq<Attr>, b: Seq<Attr>, c: Seq<Attr>, d: Seq<Attr>, name: Seq<u8>)
    requires
        others_alike(a, c, name),
        others_alike(b, d, name),
    ensures
        others_alike(a + b, c + d, name),
{
    assert forall|x: Attr|
        !(x.index == name_parts(name)->Ok_0.0 && x.name == name_parts(name)->Ok_0.1) implies (#[trigger] (c
        + d).contains(x) <==> (a + b).contains(x)) by {
        lemma_joined(a, b, x);
        lemma_joined(c, d, x);
        assert(c.contains(x) <==> a.contains(x));
        assert(d.contains(x) <==> b.contains(x));
    }
}

/// What is set or removed leaves the others.
proof fn lemma_others_alike(attrs: Seq<Attr>, name: Seq<u8>, value: Seq<u8>, ordered: bool)
    ensures
        ({
            let (index, rest) = name_parts(name)->Ok_0;
            &&& others_alike(attrs, with_attr(attrs, index, rest, value, ordered), name)
            &&& others_alike(attrs, without_attr(attrs, index, rest), name)
        }),
{
    let (index, rest) = name_parts(name)->Ok_0;
    law_set_then_find(attrs, index, rest, value, ordered);
    law_unset_is_gone(attrs, index, rest);
    let set = with_attr(attrs, index, rest, value, ordered);
    assert forall|x: Attr| !(x.index == index && x.name == rest) implies (#[trigger] set.contains(x)
        <==> attrs.contains(x)) by {
        assert(set.contains(x) == attrs.contains(x));
    }
    let gone = without_attr(attrs, index, rest);
    assert forall|x: Attr| !(x.index == index && x.name == rest) implies (#[trigger] gone.contains(x)
        <==> attrs.contains(x)) by {
        assert(gone.contains(x) == attrs.contains(x));
    }
}

/// Set in the record's own region.
proof fn lemma_set_inside(v: Vol, ino: u32, raw: Seq<u8>, name: Seq<u8>, value: Seq<u8>)
    requires
        v.wf(),
        checked_inode(v, ino) == Ok::<Seq<u8>, Error>(raw),
        all_attrs(v, raw) is Ok,
        region_apart(raw),
        file_acl_of(raw) != record_block(v, ino),
        name_parts(name) is Ok,
        ({
            let (index, rest) = name_parts(name)->Ok_0;
            let out = region_set(attr_region(raw), index, rest, value);
            &&& out is Ok
            &&& stage_inode(
                v,
                fresh_stage(v),
                ino,
                v.csum.stamp_inode_spec(ino, generation_of(raw), with_region(raw, out->Ok_0)),
            ) is Ok
        }),
    ensures
        ({
            let (index, rest) = name_parts(name)->Ok_0;
            let out = region_set(attr_region(raw), index, rest, value)->Ok_0;
            let st = stage_inode(
                v,
                fresh_stage(v),
                ino,
                v.csum.stamp_inode_spec(ino, generation_of(raw), with_region(raw, out)),
            )->Ok_0;
            &&& reads_attr(committed(v, st), ino, name, value)
            &&& keeps_others(committed(v, st), ino, name, all_attrs(v, raw)->Ok_0)
        }),
{
    let (index, rest) = name_parts(name)->Ok_0;
    lemma_parts_short(name);
    let region = attr_region(raw);
    let own = region_attrs(region)->Ok_0;
    let after = with_attr(own, index, rest, value, false);
    let out = region_with(after, region.len() as int);
    lemma_read_storable(region, 4, 4);
    assert(storable_attrs(own));
    lemma_value_fits(own, index, rest, value, false, 4, region.len() as int);
    lemma_with_storable(own, index, rest, value, false);
    law_region_round_trip(after, region.len() as int);
    lemma_region_apart(raw, out);
    let plain = with_region(raw, out);
    assert(mode_of(plain) == mode_of(raw)) by {
        reveal(le16);
    }
    let raw2 = v.csum.stamp_inode_spec(ino, generation_of(raw), plain);
    lemma_stamped_record(v, ino, plain);
    let st = stage_inode(v, fresh_stage(v), ino, raw2)->Ok_0;
    law_record_reads_back(v, fresh_stage(v), ino, raw2, file_acl_of(raw) as int);
    let w = committed(v, st);
    lemma_trusted_like(v, w, ino, raw, raw2);
    law_set_then_find(own, index, rest, value, false);
    lemma_others_alike(own, name, value, false);
    if file_acl_of(raw) != 0 {
        let more = block_attrs(v.block(file_acl_of(raw) as int)->Ok_0)->Ok_0;
        lemma_index_joined(after, more, index, rest);
        lemma_alike_joined(own, more, after, more, name);
        let i = attr_index(after, index, rest)->Some_0;
        assert((after + more)[i] == after[i]);
    }
}

proof fn lemma_parts_short(name: Seq<u8>)
    ensures
        name_parts(name) matches Ok(p) ==> p.0 != 0 && p.1.len() <= 255,
{
}

/// The attributes of a record that has none of a name in its own region, and
/// one in its block.
proof fn lemma_found_outside(w: Vol, ino: u32, raw: Seq<u8>, name: Seq<u8>, value: Seq<u8>, own: Seq<Attr>, more: Seq<Attr>)
    requires
        checked_inode(w, ino) == Ok::<Seq<u8>, Error>(raw),
        name_parts(name) is Ok,
        region_attrs(attr_region(raw)) == Ok::<Seq<Attr>, Error>(own),
        file_acl_of(raw) != 0,
        w.block(file_acl_of(raw) as int) is Ok,
        block_attrs(w.block(file_acl_of(raw) as int)->Ok_0) == Ok::<Seq<Attr>, Error>(more),
        attr_index(own, name_parts(name)->Ok_0.0, name_parts(name)->Ok_0.1) is None,
        attr_index(more, name_parts(name)->Ok_0.0, name_parts(name)->Ok_0.1) matches Some(i) && 0 <= i < more.len()
            && more[i].value == value && more[i].inum == 0,
    ensures
        reads_attr(w, ino, name, value),
{
    let (index, rest) = name_parts(name)->Ok_0;
    lemma_index_joined(own, more, index, rest);
    let i = attr_index(more, index, rest)->Some_0;
    assert((own + more)[own.len() + i] == more[i]);
}

/// Set in a block that the record has already.
proof fn lemma_set_in_block(
    v: Vol,
    ino: u32,
    first: Seq<u8>,
    raw: Seq<u8>,
    name: Seq<u8>,
    value: Seq<u8>,
    now: u32,
    own: Seq<Attr>,
)
    requires
        v.wf(),
        checked_inode(v, ino) == Ok::<Seq<u8>, Error>(first),
        raw.len() == first.len(),
        inode_fault(raw) is None,
        mode_of(raw) == mode_of(first),
        size_of_file(raw) == size_of_file(first),
        generation_of(raw) == generation_of(first),
        region_apart(raw),
        file_acl_of(raw) != 0,
        file_acl_of(raw) != record_block(v, ino),
        name_parts(name) is Ok,
        region_attrs(attr_region(raw)) == Ok::<Seq<Attr>, Error>(own),
        attr_index(own, name_parts(name)->Ok_0.0, name_parts(name)->Ok_0.1) is None,
        set_outside(v, ino, raw, name_parts(name)->Ok_0.0, name_parts(name)->Ok_0.1, value, now) is Ok,
    ensures
        reads_attr(
            committed(
                v,
                set_outside(v, ino, raw, name_parts(name)->Ok_0.0, name_parts(name)->Ok_0.1, value, now)->Ok_0,
            ),
            ino,
            name,
            value,
        ),
        keeps_others(
            committed(
                v,
                set_outside(v, ino, raw, name_parts(name)->Ok_0.0, name_parts(name)->Ok_0.1, value, now)->Ok_0,
            ),
            ino,
            name,
            own + block_attrs(v.block(file_acl_of(raw) as int)->Ok_0)->Ok_0,
        ),
{
    let bs = v.bs();
    let (index, rest) = name_parts(name)->Ok_0;
    lemma_parts_short(name);
    let acl = file_acl_of(raw);
    let b = v.block(acl as int)->Ok_0;
    let had = block_attrs(b)->Ok_0;
    let more = with_attr(had, index, rest, value, true);
    let out = block_set(v, acl, b, index, rest, value)->Ok_0;
    lemma_read_storable(b, 0, 32);
    assert(storable_attrs(had));
    lemma_value_fits(had, index, rest, value, true, 32, bs);
    lemma_with_storable(had, index, rest, value, true);
    lemma_stamped_block(v, acl, more, bs);
    let st = stage_fresh(v, fresh_stage(v), acl, out)->Ok_0;
    lemma_with_block(v.img, bs, acl as int, out, acl as int);
    let plain = put32(raw, 0x0C, now);
    assert(attr_region(plain) =~= attr_region(raw));
    let raw2 = retimed(v, ino, raw, now);
    lemma_stamped_record(v, ino, plain);
    let done = stage_inode(v, st, ino, raw2)->Ok_0;
    law_record_reads_back(v, st, ino, raw2, acl as int);
    let w = committed(v, done);
    lemma_trusted_like(v, w, ino, first, raw2);
    law_set_then_find(had, index, rest, value, true);
    lemma_found_outside(w, ino, raw2, name, value, own, more);
    lemma_others_alike(had, name, value, true);
    lemma_alike_joined(own, had, own, more, name);
}

/// What a volume in good order marks used, for the sake of inode `ino`.
pub open spec fn kept_in_use(v: Vol, ino: u32) -> bool {
    &&& in_use(v, 0)
    &&& forall|k: int| #[trigger] is_kept(v, ino, k) ==> in_use(v, k)
}

/// A block taken for attributes holds what was put there, whatever else the
/// taking edits.
proof fn lemma_block_taken(v: Vol, ino: u32, out: Seq<u8>)
    requires
        v.wf(),
        tables_apart(v),
        flags_agree(v),
        kept_in_use(v, ino),
        out.len() == v.bs(),
        volume_plan(v, 1, home_group(v, ino), Seq::empty()) is Ok,
        ({
            let plan = volume_plan(v, 1, home_group(v, ino), Seq::empty())->Ok_0;
            let st1 = stage_fresh(v, fresh_stage(v), plan.first_block, out);
            &&& st1 is Ok
            &&& stage_block_plan(v, st1->Ok_0, plan) is Ok
        }),
    ensures
        ({
            let plan = volume_plan(v, 1, home_group(v, ino), Seq::empty())->Ok_0;
            let st1 = stage_fresh(v, fresh_stage(v), plan.first_block, out)->Ok_0;
            let st2 = stage_block_plan(v, st1, plan)->Ok_0;
            &&& 0 < plan.first_block < 0x1_0000_0000_0000
            &&& plan.first_block != record_block(v, ino)
            &&& block_at(st2.img, v.bs(), plan.first_block as int) == Ok::<Seq<u8>, Error>(out)
        }),
{
    let bs = v.bs();
    let hint = home_group(v, ino);
    let plan = volume_plan(v, 1, hint, Seq::empty())->Ok_0;
    let p = plan.first_block as int;
    crate::allocator::law_planned_run_is_free(v.sb, v.groups, 1, hint, Seq::empty(), crate::grow::bitmaps_of(v));
    crate::allocator::law_planned_run_within(v.sb, v.groups, 1, hint, Seq::empty(), crate::grow::bitmaps_of(v));
    assert forall|n: int| #[trigger] in_use(v, n) implies n != p by {
        law_block_in_use_is_not_planned(v, 1, hint, Seq::empty(), n);
    }
    assert(!is_kept(v, ino, p));
    assert(committed(v, fresh_stage(v)) == v);
    let st1 = stage_fresh(v, fresh_stage(v), plan.first_block, out)->Ok_0;
    lemma_with_block(v.img, bs, p, out, p);
    assert forall|k: int| #[trigger] is_kept(v, ino, k) && k >= 0 implies block_at(st1.img, bs, k) == block_at(
        v.img,
        bs,
        k,
    ) by {
        lemma_with_block(v.img, bs, p, out, k);
    }
    lemma_kept_same(v, ino, fresh_stage(v), st1);
    let gi = plan.bgd.group_idx as int;
    let a = stage_mark_blocks(v, st1, plan.first_block, 1)->Ok_0;
    lemma_marked(v, st1, plan.first_block, 1);
    let home = crate::stage::group_of_block(v, plan.first_block)->Some_0;
    let g1 = v.groups[home];
    assert(p != crate::stage::desc_block(v.sb, home) && p != g1.block_bitmap);
    let b = stage_counters(
        v,
        a,
        gi,
        plan.bgd.free_blocks_delta as int,
        plan.bgd.free_inodes_delta as int,
        plan.bgd.used_dirs_delta as int,
    )->Ok_0;
    lemma_counters_keep(
        v,
        a,
        gi,
        plan.bgd.free_blocks_delta as int,
        plan.bgd.free_inodes_delta as int,
        plan.bgd.used_dirs_delta as int,
    );
    let g2 = v.groups[gi];
    assert(p != crate::stage::desc_block(v.sb, gi));
    lemma_totals_other(v, b, plan.sb.free_blocks_delta as int, plan.sb.free_inodes_delta as int, p);
}

/// Set in a block that is taken for it.
proof fn lemma_set_in_new_block(
    v: Vol,
    ino: u32,
    first: Seq<u8>,
    raw: Seq<u8>,
    name: Seq<u8>,
    value: Seq<u8>,
    now: u32,
    own: Seq<Attr>,
)
    requires
        v.wf(),
        tables_apart(v),
        flags_agree(v),
        kept_in_use(v, ino),
        checked_inode(v, ino) == Ok::<Seq<u8>, Error>(first),
        raw.len() == first.len(),
        inode_fault(raw) is None,
        mode_of(raw) == mode_of(first),
        size_of_file(raw) == size_of_file(first),
        generation_of(raw) == generation_of(first),
        region_apart(raw),
        file_acl_of(raw) == 0,
        name_parts(name) is Ok,
        region_attrs(attr_region(raw)) == Ok::<Seq<Attr>, Error>(own),
        attr_index(own, name_parts(name)->Ok_0.0, name_parts(name)->Ok_0.1) is None,
        set_outside(v, ino, raw, name_parts(name)->Ok_0.0, name_parts(name)->Ok_0.1, value, now) is Ok,
    ensures
        reads_attr(
            committed(
                v,
                set_outside(v, ino, raw, name_parts(name)->Ok_0.0, name_parts(name)->Ok_0.1, value, now)->Ok_0,
            ),
            ino,
            name,
            value,
        ),
        keeps_others(
            committed(
                v,
                set_outside(v, ino, raw, name_parts(name)->Ok_0.0, name_parts(name)->Ok_0.1, value, now)->Ok_0,
            ),
            ino,
            name,
            own,
        ),
{
    let bs = v.bs();
    let (index, rest) = name_parts(name)->Ok_0;
    lemma_parts_short(name);
    let plan = volume_plan(v, 1, home_group(v, ino), Seq::empty())->Ok_0;
    let acl = plan.first_block;
    let b = zeros(bs as nat);
    assert(le32(b, 0) == 0) by {
        reveal(le32);
    }
    let had = Seq::<Attr>::empty();
    assert(block_attrs(b) == Ok::<Seq<Attr>, Error>(had));
    let more = with_attr(had, index, rest, value, true);
    let out = block_set(v, acl, b, index, rest, value)->Ok_0;
    lemma_value_fits(had, index, rest, value, true, 32, bs);
    lemma_with_storable(had, index, rest, value, true);
    lemma_stamped_block(v, acl, more, bs);
    lemma_block_taken(v, ino, out);
    let st1 = stage_fresh(v, fresh_stage(v), acl, out)->Ok_0;
    let st2 = stage_block_plan(v, st1, plan)->Ok_0;
    let pointed = with_file_acl(raw, acl)->Ok_0;
    crate::inode_edit::law_file_acl_round_trip(raw, acl);
    let sized = with_size_and_blocks(pointed, size_of_file(raw), (sectors_of(raw) + bs / 512) as u64);
    let plain = put32(sized, 0x0C, now);
    assert(extra_isize_of(plain) == extra_isize_of(raw));
    assert(attr_region(plain) =~= attr_region(raw));
    assert(generation_of(sized) == generation_of(raw));
    let raw2 = retimed(v, ino, sized, now);
    lemma_stamped_record(v, ino, plain);
    let done = stage_inode(v, st2, ino, raw2)->Ok_0;
    law_record_reads_back(v, st2, ino, raw2, acl as int);
    let w = committed(v, done);
    lemma_trusted_like(v, w, ino, first, raw2);
    law_set_then_find(had, index, rest, value, true);
    lemma_found_outside(w, ino, raw2, name, value, own, more);
    lemma_others_alike(had, name, value, true);
    lemma_alike_joined(own, had, own, more, name);
    assert(own + had =~= own);
}

/// An attribute that was set is the one that is read, with the value it was
/// given, wherever there was room for it. Those of other names stay, and none
/// comes.
pub proof fn law_set_attribute_is_read(
    v: Vol,
    path: Seq<u8>,
    ino: u32,
    raw: Seq<u8>,
    name: Seq<u8>,
    value: Seq<u8>,
    now: u32,
)
    requires
        v.wf(),
        tables_apart(v),
        flags_agree(v),
        kept_in_use(v, ino),
        inode_at(v, path) == Ok::<(u32, Seq<u8>), Error>((ino, raw)),
        all_attrs(v, raw) is Ok,
        region_apart(raw),
        file_acl_of(raw) != record_block(v, ino),
        set_stage(v, path, name, value, now) is Ok,
    ensures
        reads_attr(committed(v, set_stage(v, path, name, value, now)->Ok_0), ino, name, value),
        keeps_others(committed(v, set_stage(v, path, name, value, now)->Ok_0), ino, name, all_attrs(v, raw)->Ok_0),
{
    let (index, rest) = name_parts(name)->Ok_0;
    lemma_parts_short(name);
    let region = attr_region(raw);
    let own = region_attrs(region)->Ok_0;
    if region.len() < 8 {
        assert(own =~= Seq::<Attr>::empty());
        if file_acl_of(raw) != 0 {
            lemma_set_in_block(v, ino, raw, raw, name, value, now, own);
        } else {
            lemma_set_in_new_block(v, ino, raw, raw, name, value, now, own);
        }
    } else {
        match region_set(region, index, rest, value) {
            Ok(_) => {
                lemma_set_inside(v, ino, raw, name, value);
            },
            Err(_) => {
                match region_unset(region, index, rest)->Ok_0 {
                    None => {
                        if file_acl_of(raw) != 0 {
                            lemma_set_in_block(v, ino, raw, raw, name, value, now, own);
                        } else {
                            lemma_set_in_new_block(v, ino, raw, raw, name, value, now, own);
                        }
                    },
                    Some(left) => {
                        let kept = without_attr(own, index, rest);
                        lemma_read_storable(region, 4, 4);
                        lemma_without_storable(own, index, rest);
                        law_region_round_trip(kept, region.len() as int);
                        law_unset_is_gone(own, index, rest);
                        lemma_region_apart(raw, left);
                        let plain = with_region(raw, left);
                        assert(mode_of(plain) == mode_of(raw)) by {
                            reveal(le16);
                        }
                        lemma_others_alike(own, name, value, false);
                        if file_acl_of(raw) != 0 {
                            let had = block_attrs(v.block(file_acl_of(raw) as int)->Ok_0)->Ok_0;
                            lemma_alike_joined(own, had, kept, had, name);
                            lemma_set_in_block(v, ino, raw, plain, name, value, now, kept);
                        } else {
                            lemma_set_in_new_block(v, ino, raw, plain, name, value, now, kept);
                        }
                    },
                }
            },
        }
    }
}

/// A name stands for no attribute.
pub open spec fn reads_no_attr(v: Vol, ino: u32, name: Seq<u8>) -> bool {
    &&& checked_inode(v, ino) matches Ok(raw)
    &&& found_attr(v, raw, name) == Ok::<Option<Attr>, Error>(None)
}

/// A record has a name in its own region or in its block, but not in both.
pub open spec fn named_once(v: Vol, raw: Seq<u8>, name: Seq<u8>) -> bool {
    let (index, rest) = name_parts(name)->Ok_0;
    file_acl_of(raw) == 0 || attr_index(region_attrs(attr_region(raw))->Ok_0, index, rest) is None || attr_index(
        block_attrs(v.block(file_acl_of(raw) as int)->Ok_0)->Ok_0,
        index,
        rest,
    ) is None
}

/// Gone from the record's own region.
proof fn lemma_unset_inside(v: Vol, path: Seq<u8>, ino: u32, raw: Seq<u8>, name: Seq<u8>, now: u32)
    requires
        v.wf(),
        inode_at(v, path) == Ok::<(u32, Seq<u8>), Error>((ino, raw)),
        all_attrs(v, raw) is Ok,
        region_apart(raw),
        file_acl_of(raw) != record_block(v, ino),
        named_once(v, raw, name),
        unset_stage(v, path, name, now) is Ok,
        name_parts(name) is Ok,
        attr_index(
            region_attrs(attr_region(raw))->Ok_0,
            name_parts(name)->Ok_0.0,
            name_parts(name)->Ok_0.1,
        ) is Some,
    ensures
        reads_no_attr(committed(v, unset_stage(v, path, name, now)->Ok_0), ino, name),
        keeps_others(committed(v, unset_stage(v, path, name, now)->Ok_0), ino, name, all_attrs(v, raw)->Ok_0),
{
    let (index, rest) = name_parts(name)->Ok_0;
    let region = attr_region(raw);
    let own = region_attrs(region)->Ok_0;
    let kept = without_attr(own, index, rest);
    let left = region_with(kept, region.len() as int);
    lemma_read_storable(region, 4, 4);
    lemma_without_storable(own, index, rest);
    law_region_round_trip(kept, region.len() as int);
    law_unset_is_gone(own, index, rest);
    lemma_region_apart(raw, left);
    let plain = with_region(raw, left);
    assert(mode_of(plain) == mode_of(raw)) by {
        reveal(le16);
    }
    let raw2 = v.csum.stamp_inode_spec(ino, generation_of(raw), plain);
    lemma_stamped_record(v, ino, plain);
    let st = stage_inode(v, fresh_stage(v), ino, raw2)->Ok_0;
    law_record_reads_back(v, fresh_stage(v), ino, raw2, file_acl_of(raw) as int);
    let w = committed(v, st);
    lemma_trusted_like(v, w, ino, raw, raw2);
    lemma_others_alike(own, name, Seq::empty(), false);
    if file_acl_of(raw) != 0 {
        let more = block_attrs(v.block(file_acl_of(raw) as int)->Ok_0)->Ok_0;
        lemma_index_joined(kept, more, index, rest);
        lemma_alike_joined(own, more, kept, more, name);
    }
}

/// Gone from the block behind the record.
proof fn lemma_unset_outside(v: Vol, ino: u32, raw: Seq<u8>, name: Seq<u8>, now: u32)
    requires
        v.wf(),
        checked_inode(v, ino) == Ok::<Seq<u8>, Error>(raw),
        all_attrs(v, raw) is Ok,
        region_apart(raw),
        file_acl_of(raw) != record_block(v, ino),
        name_parts(name) is Ok,
        attr_index(
            region_attrs(attr_region(raw))->Ok_0,
            name_parts(name)->Ok_0.0,
            name_parts(name)->Ok_0.1,
        ) is None,
        unset_outside(v, ino, raw, name_parts(name)->Ok_0.0, name_parts(name)->Ok_0.1, now) is Ok,
    ensures
        reads_no_attr(
            committed(v, unset_outside(v, ino, raw, name_parts(name)->Ok_0.0, name_parts(name)->Ok_0.1, now)->Ok_0),
            ino,
            name,
        ),
        keeps_others(
            committed(v, unset_outside(v, ino, raw, name_parts(name)->Ok_0.0, name_parts(name)->Ok_0.1, now)->Ok_0),
            ino,
            name,
            all_attrs(v, raw)->Ok_0,
        ),
{
    let bs = v.bs();
    let (index, rest) = name_parts(name)->Ok_0;
    let own = region_attrs(attr_region(raw))->Ok_0;
    let acl = file_acl_of(raw);
    let b = v.block(acl as int)->Ok_0;
    let had = block_attrs(b)->Ok_0;
    let kept = without_attr(had, index, rest);
    lemma_read_storable(b, 0, 32);
    lemma_without_storable(had, index, rest);
    law_unset_is_gone(had, index, rest);
    lemma_others_alike(had, name, Seq::empty(), false);
    lemma_alike_joined(own, had, own, kept, name);
    match block_unset(v, acl, b, index, rest)->Ok_0 {
        Leftover::Same => {},
        Leftover::Rest(out) => {
            lemma_stamped_block(v, acl, kept, bs);
            let st = stage_fresh(v, fresh_stage(v), acl, out)->Ok_0;
            lemma_with_block(v.img, bs, acl as int, out, acl as int);
            let plain = put32(raw, 0x0C, now);
            assert(attr_region(plain) =~= attr_region(raw));
            let raw2 = retimed(v, ino, raw, now);
            lemma_stamped_record(v, ino, plain);
            let done = stage_inode(v, st, ino, raw2)->Ok_0;
            law_record_reads_back(v, st, ino, raw2, acl as int);
            let w = committed(v, done);
            lemma_trusted_like(v, w, ino, raw, raw2);
            lemma_index_joined(own, kept, index, rest);
        },
        Leftover::Nothing => {
            let st1 = stage_free_blocks(v, fresh_stage(v), acl, 1)->Ok_0;
            let st2 = stage_totals(v, st1, 1, 0)->Ok_0;
            let pointed = with_file_acl(raw, 0)->Ok_0;
            crate::inode_edit::law_file_acl_round_trip(raw, 0);
            let sized = with_size_and_blocks(pointed, size_of_file(raw), crate::attr::less(sectors_of(raw), bs / 512));
            let plain = put32(sized, 0x0C, now);
            assert(extra_isize_of(plain) == extra_isize_of(raw));
            assert(attr_region(plain) =~= attr_region(raw));
            let raw2 = retimed(v, ino, sized, now);
            lemma_stamped_record(v, ino, plain);
            let done = stage_inode(v, st2, ino, raw2)->Ok_0;
            law_record_reads_back(v, st2, ino, raw2, 0);
            let w = committed(v, done);
            lemma_trusted_like(v, w, ino, raw, raw2);
            assert(own + kept =~= own);
        },
    }
}

/// An attribute that was removed is not found, and those of other names stay. It
/// was named once: not both in the inode and in the block behind it.
pub proof fn law_removed_attribute_is_gone(v: Vol, path: Seq<u8>, ino: u32, raw: Seq<u8>, name: Seq<u8>, now: u32)
    requires
        v.wf(),
        inode_at(v, path) == Ok::<(u32, Seq<u8>), Error>((ino, raw)),
        all_attrs(v, raw) is Ok,
        region_apart(raw),
        file_acl_of(raw) != record_block(v, ino),
        name_parts(name) is Ok,
        named_once(v, raw, name),
        unset_stage(v, path, name, now) is Ok,
    ensures
        reads_no_attr(committed(v, unset_stage(v, path, name, now)->Ok_0), ino, name),
        keeps_others(committed(v, unset_stage(v, path, name, now)->Ok_0), ino, name, all_attrs(v, raw)->Ok_0),
{
    let (index, rest) = name_parts(name)->Ok_0;
    let own = region_attrs(attr_region(raw))->Ok_0;
    if attr_index(own, index, rest) is Some {
        lemma_unset_inside(v, path, ino, raw, name, now);
    } else {
        lemma_unset_outside(v, ino, raw, name, now);
    }
}

} // verus!
