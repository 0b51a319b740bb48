//! What a host is told of a file, and what it gets to read.
use crate::capi::{
    cut_to, fitting, fs_ext4_attr_t, fs_ext4_file_type_t, host_inode, is_attr_of, names_of, packed,
    read_file_agrees, read_link_agrees, written,
};
use crate::content_laws::{in_use, law_replaced_contents_read_back, reads_back, record_block};
use crate::dirops::resolve;
use crate::error::{Error, Result};
use crate::extent::ExtentVerifyCtx;
use crate::fs::checked_inode;
use crate::inline_data::inline_contents;
use crate::inode::{
    block_area_of, extra_field, flags_of, generation_of, links_of, mode_is_dir, mode_is_file, mode_is_symlink,
    mode_of, size_of_file, time_of, FL_EXTENTS, FL_INLINE_DATA,
};
use crate::range_laws::{file_byte, law_read_is_made_of_blocks, readable};
use crate::volume::Vol;
use crate::xattr::{attr_index, Attr};
use crate::xattr_ops::{
    acl_access_name, acl_default_name, all_attrs, found_attr, name_parts, prefix_of, security_prefix,
    stripped, system_prefix, trusted_prefix, user_prefix,
};
use vstd::prelude::*;

verus! {

/// The checks that a read of a file makes on the nodes of its tree.
pub open spec fn own_checks(v: Vol, ino: u32, raw: Seq<u8>) -> Option<ExtentVerifyCtx> {
    Some(ExtentVerifyCtx { ino, generation: generation_of(raw), csum: v.csum })
}

/// How many bytes a read gives: as many as were asked for, but none behind the
/// end of the file.
pub open spec fn bytes_given(size: int, offset: int, length: int) -> int {
    if offset >= size {
        0
    } else if offset + length <= size {
        length
    } else {
        size - offset
    }
}

/// Reading a file gives the bytes that its blocks hold from the offset on, as
/// many as were asked for or as there are, and does not fail where those blocks
/// can be read.
pub proof fn law_read_gives_what_the_file_holds(
    v: Vol,
    path: Seq<u8>,
    ino: u32,
    raw: Seq<u8>,
    offset: u64,
    length: usize,
    r: Result<Seq<u8>>,
)
    requires
        v.wf(),
        host_inode(v, path) == Ok::<(u32, Seq<u8>), Error>((ino, raw)),
        mode_is_file(mode_of(raw)),
        flags_of(raw) & FL_INLINE_DATA == 0,
        flags_of(raw) & FL_EXTENTS != 0,
        readable(
            v,
            block_area_of(raw),
            own_checks(v, ino, raw),
            offset as int,
            offset + bytes_given(size_of_file(raw) as int, offset as int, length as int),
        ),
        read_file_agrees(v, path, offset, length, r),
    ensures
        r == Ok::<Seq<u8>, Error>(
            Seq::new(
                bytes_given(size_of_file(raw) as int, offset as int, length as int) as nat,
                |i: int| file_byte(v, block_area_of(raw), own_checks(v, ino, raw), offset + i),
            ),
        ),
{
    let n = bytes_given(size_of_file(raw) as int, offset as int, length as int);
    let area = block_area_of(raw);
    let ctx = own_checks(v, ino, raw);
    law_read_is_made_of_blocks(v, area, ctx, offset as int, offset + n);
    if n == 0 {
        assert(Seq::new(0nat, |i: int| file_byte(v, area, ctx, offset + i)) =~= Seq::<u8>::empty());
    }
}

/// Reading a file that is kept in its inode gives its bytes from the offset on,
/// as many as were asked for or as there are. The first sixty of them are in the
/// record's block area.
pub proof fn law_read_gives_what_the_inode_holds(
    v: Vol,
    path: Seq<u8>,
    ino: u32,
    raw: Seq<u8>,
    offset: u64,
    length: usize,
    r: Result<Seq<u8>>,
)
    requires
        host_inode(v, path) == Ok::<(u32, Seq<u8>), Error>((ino, raw)),
        mode_is_file(mode_of(raw)),
        flags_of(raw) & FL_INLINE_DATA != 0,
        raw.len() >= 128,
        inline_contents(raw) is Ok,
        read_file_agrees(v, path, offset, length, r),
    ensures
        ({
            let all = inline_contents(raw)->Ok_0;
            &&& all.len() == size_of_file(raw)
            &&& forall|i: int| 0 <= i < all.len() && i < 60 ==> #[trigger] all[i] == raw[0x28 + i]
            &&& r is Ok
            &&& r->Ok_0.len() == bytes_given(size_of_file(raw) as int, offset as int, length as int)
            &&& forall|i: int| 0 <= i < r->Ok_0.len() ==> #[trigger] r->Ok_0[i] == all[offset + i]
        }),
{
    assert(block_area_of(raw).len() == 60);
}

/// Reading is for regular files, and for those that are there.
pub proof fn law_only_files_are_read(v: Vol, path: Seq<u8>, offset: u64, length: usize, r: Result<Seq<u8>>)
    requires
        read_file_agrees(v, path, offset, length, r),
    ensures
        host_inode(v, path) is Err ==> r is Err && r->Err_0 == host_inode(v, path)->Err_0,
        host_inode(v, path) matches Ok((ino, raw)) ==> !mode_is_file(mode_of(raw)) ==> r is Err,
{
}

/// What a link leads to: a target of up to 59 bytes is in its record, and a
/// longer one in its blocks. What is no link leads nowhere.
pub proof fn law_link_is_read_in_full(v: Vol, path: Seq<u8>, ino: u32, raw: Seq<u8>, r: Result<Seq<u8>>)
    requires
        v.wf(),
        host_inode(v, path) == Ok::<(u32, Seq<u8>), Error>((ino, raw)),
        read_link_agrees(v, path, r),
    ensures
        !mode_is_symlink(mode_of(raw)) ==> r is Err,
        mode_is_symlink(mode_of(raw)) && size_of_file(raw) < 60 ==> r == Ok::<Seq<u8>, Error>(
            block_area_of(raw).subrange(0, size_of_file(raw) as int),
        ),
        mode_is_symlink(mode_of(raw)) && 60 <= size_of_file(raw) <= u32::MAX && flags_of(raw) & FL_INLINE_DATA == 0
            && flags_of(raw) & FL_EXTENTS != 0 && readable(
            v,
            block_area_of(raw),
            own_checks(v, ino, raw),
            0,
            size_of_file(raw) as int,
        ) ==> r == Ok::<Seq<u8>, Error>(
            Seq::new(
                size_of_file(raw) as nat,
                |i: int| file_byte(v, block_area_of(raw), own_checks(v, ino, raw), i),
            ),
        ),
{
    let size = size_of_file(raw) as int;
    let area = block_area_of(raw);
    let ctx = own_checks(v, ino, raw);
    if mode_is_symlink(mode_of(raw)) && 60 <= size <= u32::MAX && flags_of(raw) & FL_INLINE_DATA == 0 && flags_of(raw)
        & FL_EXTENTS != 0 && readable(v, area, ctx, 0, size) {
        law_read_is_made_of_blocks(v, area, ctx, 0, size);
        let b = Seq::new(size as nat, |i: int| file_byte(v, area, ctx, 0 + i));
        let want = Seq::new(size as nat, |i: int| file_byte(v, area, ctx, i));
        assert(b =~= want);
        assert(crate::bytes::splice(crate::bytes::zeros(size as nat), 0, b) =~= want);
    }
}

/// A path leads where its names do. One that ends in a slash leads to a
/// directory or nowhere.
pub proof fn law_host_path_leads_where_its_names_do(v: Vol, path: Seq<u8>)
    ensures
        host_inode(v, path) matches Ok((ino, raw)) ==> resolve(v, path) == Ok::<u32, Error>(ino) && checked_inode(v, ino)
            == Ok::<Seq<u8>, Error>(raw),
        resolve(v, path) is Ok && checked_inode(v, resolve(v, path)->Ok_0) is Ok ==> (host_inode(v, path) is Ok <==> !(
        path.len() > 1 && path.last() == 0x2F && !mode_is_dir(mode_of(checked_inode(v, resolve(v, path)->Ok_0)->Ok_0)))),
        resolve(v, path) is Err ==> host_inode(v, path) is Err && host_inode(v, path)->Err_0 == resolve(v, path)->Err_0,
{
}

/// What a host is told of a file is what its record says.
pub proof fn law_attributes_are_those_of_the_record(a: fs_ext4_attr_t, ino: u32, raw: Seq<u8>)
    requires
        is_attr_of(a, ino, raw),
    ensures
        a.inode == ino,
        a.size == size_of_file(raw),
        a.mode == mode_of(raw) & 0x0FFF,
        a.link_count == links_of(raw),
        a.uid == crate::bytes::le16(raw, 0x02) + 0x1_0000 * crate::bytes::le16(raw, 0x78),
        a.gid == crate::bytes::le16(raw, 0x18) + 0x1_0000 * crate::bytes::le16(raw, 0x7A),
        a.atime == time_of(crate::bytes::le32(raw, 0x08), extra_field(raw, 16, 0x8C)) % 0x1_0000_0000,
        a.ctime == time_of(crate::bytes::le32(raw, 0x0C), extra_field(raw, 8, 0x84)) % 0x1_0000_0000,
        a.mtime == time_of(crate::bytes::le32(raw, 0x10), extra_field(raw, 12, 0x88)) % 0x1_0000_0000,
        a.crtime == time_of(extra_field(raw, 20, 0x90), extra_field(raw, 24, 0x94)) % 0x1_0000_0000,
        (a.file_type == fs_ext4_file_type_t::RegFile) <==> mode_of(raw) & 0xF000 == 0x8000,
        (a.file_type == fs_ext4_file_type_t::Dir) <==> mode_of(raw) & 0xF000 == 0x4000,
        (a.file_type == fs_ext4_file_type_t::ChrDev) <==> mode_of(raw) & 0xF000 == 0x2000,
        (a.file_type == fs_ext4_file_type_t::BlkDev) <==> mode_of(raw) & 0xF000 == 0x6000,
        (a.file_type == fs_ext4_file_type_t::Fifo) <==> mode_of(raw) & 0xF000 == 0x1000,
        (a.file_type == fs_ext4_file_type_t::Sock) <==> mode_of(raw) & 0xF000 == 0xC000,
        (a.file_type == fs_ext4_file_type_t::Symlink) <==> mode_of(raw) & 0xF000 == 0xA000,
{
}

/// A file whose contents were replaced is as long as the new contents, and a read
/// of any part of it gives that part of them; the answer is their length.
/// Anything but a regular file is refused, and stays.
pub proof fn law_written_file_reads_back(
    writable: bool,
    v: Vol,
    path: Seq<u8>,
    ino: u32,
    raw: Seq<u8>,
    data: Seq<u8>,
    now: u32,
    ctx: Option<ExtentVerifyCtx>,
)
    requires
        v.wf(),
        host_inode(v, path) == Ok::<(u32, Seq<u8>), Error>((ino, raw)),
        data.len() <= u64::MAX,
        in_use(v, record_block(v, ino)),
    ensures
        ({
            let (w, r) = written(writable, v, path, data, now);
            &&& r is Err ==> w == v
            &&& !mode_is_file(mode_of(raw)) ==> r is Err
            &&& !writable ==> r is Err
            &&& r is Ok && flags_of(raw) & FL_EXTENTS != 0 ==> r->Ok_0 == data.len() && reads_back(
                w,
                ino,
                data.len() as int,
                0,
                data,
                ctx,
            )
        }),
{
    let (w, r) = written(writable, v, path, data, now);
    if r is Ok && flags_of(raw) & FL_EXTENTS != 0 {
        law_replaced_contents_read_back(v, ino, raw, data, now, ctx);
    }
}

// -- lists of names ---------------------------------------------------------

/// As many names are packed as fit: all of them, or those before the first that
/// does not.
pub proof fn law_names_that_fit_are_packed(names: Seq<Seq<u8>>, room: int, n: nat)
    requires
        n <= names.len(),
        packed(names.take(n as int)).len() <= room,
    ensures
        n <= fitting(names, room, n) <= names.len(),
        packed(names.take(fitting(names, room, n) as int)).len() <= room,
        fitting(names, room, n) == names.len() || packed(names.take(fitting(names, room, n) as int + 1)).len() > room,
    decreases names.len() - n,
{
    if n < names.len() && packed(names.take(n as int + 1)).len() <= room {
        law_names_that_fit_are_packed(names, room, n + 1);
    }
}

/// Each of some packed names is where those before it end, with a zero behind it.
pub proof fn law_packed_names_follow_each_other(names: Seq<Seq<u8>>, i: int)
    requires
        0 <= i < names.len(),
    ensures
        ({
            let at = packed(names.take(i)).len() as int;
            let all = packed(names);
            &&& at + names[i].len() + 1 <= all.len()
            &&& all.subrange(at, at + names[i].len()) == names[i]
            &&& all[at + names[i].len()] == 0
            &&& i + 1 == names.len() ==> at + names[i].len() + 1 == all.len()
        }),
    decreases names.len(),
{
    let front = names.drop_last();
    let all = packed(names);
    let at = packed(names.take(i)).len() as int;
    if i < front.len() {
        assert(front.take(i) =~= names.take(i));
        law_packed_names_follow_each_other(front, i);
        assert(all.subrange(at, at + names[i].len()) =~= packed(front).subrange(at, at + names[i].len()));
    } else {
        assert(names.take(i) =~= front);
        assert(all.subrange(at, at + names[i].len()) =~= names[i]);
    }
}

/// Text that fits a buffer with the zero that ends it is all there; text that
/// does not is cut to fit.
pub proof fn law_text_ends_in_a_zero(text: Seq<u8>, room: int)
    requires
        room > 0,
    ensures
        cut_to(text, room).len() <= room,
        cut_to(text, room).last() == 0,
        text.len() < room ==> cut_to(text, room).drop_last() == text,
        text.len() >= room ==> cut_to(text, room).drop_last() == text.subrange(0, room - 1),
{
    if text.len() < room {
        assert(cut_to(text, room).drop_last() =~= text);
    } else {
        assert(cut_to(text, room).drop_last() =~= text.subrange(0, room - 1));
    }
}

/// A name that was split into its namespace and the rest is the two put together.
pub proof fn law_split_name_joins_again(name: Seq<u8>)
    ensures
        name_parts(name) matches Ok((index, rest)) ==> prefix_of(index) + rest == name,
{
    if let Ok((index, rest)) = name_parts(name) {
        assert(prefix_of(index) + rest =~= name);
    }
}

/// An attribute has a name that a host can say: one in a known namespace, not
/// too long, and under one namespace only.
pub open spec fn can_be_said(a: Attr) -> bool {
    if a.index == 2 || a.index == 3 {
        a.name.len() == 0
    } else {
        &&& a.index == 1 || a.index == 4 || a.index == 6 || a.index == 7
        &&& 1 <= a.name.len() <= 255
        &&& a.index == 7 ==> a.name != acl_access_name() && a.name != acl_default_name()
    }
}

proof fn lemma_name_again(a: Attr)
    requires
        can_be_said(a),
    ensures
        name_parts(prefix_of(a.index) + a.name) == Ok::<(u8, Seq<u8>), Error>((a.index, a.name)),
{
    let prefix = prefix_of(a.index);
    let name = prefix + a.name;
    assert(prefix.len() >= 5);
    assert(name[0] == prefix[0] && name[1] == prefix[1]);
    let head = if a.index == 2 || a.index == 3 {
        system_prefix()
    } else {
        prefix
    };
    let n = head.len() as int;
    assert(name.subrange(0, n) =~= head);
    let rest = name.subrange(n, name.len() as int);
    if a.index == 2 {
        assert(rest =~= acl_access_name());
        assert(a.name =~= Seq::<u8>::empty());
    } else if a.index == 3 {
        assert(rest =~= acl_default_name());
        assert(a.name =~= Seq::<u8>::empty());
        assert(acl_default_name().len() != acl_access_name().len() || acl_default_name()[10] != acl_access_name()[10]);
    } else {
        assert(rest =~= a.name);
    }
    lemma_other_head(name, user_prefix(), head);
    lemma_other_head(name, trusted_prefix(), head);
    lemma_other_head(name, security_prefix(), head);
}

/// A name with one namespace before it has no other.
proof fn lemma_other_head(name: Seq<u8>, prefix: Seq<u8>, head: Seq<u8>)
    requires
        2 <= head.len() <= name.len(),
        name.subrange(0, head.len() as int) == head,
        2 <= prefix.len(),
    ensures
        prefix[0] != head[0] || prefix[1] != head[1] ==> stripped(name, prefix) is None,
{
    assert(name[0] == name.subrange(0, head.len() as int)[0]);
    assert(name[1] == name.subrange(0, head.len() as int)[1]);
    if stripped(name, prefix) is Some {
        assert(name.subrange(0, prefix.len() as int) == prefix);
        assert(name.subrange(0, prefix.len() as int)[0] == name[0]);
        assert(name.subrange(0, prefix.len() as int)[1] == name[1]);
    }
}

proof fn lemma_there_is_one(attrs: Seq<Attr>, i: int)
    requires
        0 <= i < attrs.len(),
    ensures
        attr_index(attrs, attrs[i].index, attrs[i].name) matches Some(k) && 0 <= k <= i && attrs[k].index
            == attrs[i].index && attrs[k].name == attrs[i].name,
    decreases attrs.len(),
{
    let front = attrs.drop_last();
    if i < front.len() {
        assert(front[i] == attrs[i]);
        lemma_there_is_one(front, i);
    } else {
        lemma_earlier_one(front, attrs[i].index, attrs[i].name);
    }
}

proof fn lemma_earlier_one(attrs: Seq<Attr>, index: u8, name: Seq<u8>)
    ensures
        attr_index(attrs, index, name) matches Some(k) ==> 0 <= k < attrs.len() && attrs[k].index == index
            && attrs[k].name == name,
    decreases attrs.len(),
{
    if attrs.len() > 0 {
        lemma_earlier_one(attrs.drop_last(), index, name);
    }
}

/// Every attribute of a file is listed, and by the name under which it is listed
/// it is found: it, or one of the same name before it.
pub proof fn law_listed_attributes_are_found(v: Vol, raw: Seq<u8>, attrs: Seq<Attr>, i: int)
    requires
        all_attrs(v, raw) == Ok::<Seq<Attr>, Error>(attrs),
        0 <= i < attrs.len(),
        can_be_said(attrs[i]),
    ensures
        names_of(attrs).len() == attrs.len(),
        found_attr(v, raw, names_of(attrs)[i]) matches Ok(Some(b)) && b.index == attrs[i].index && b.name
            == attrs[i].name && attrs.take(i + 1).contains(b),
{
    lemma_name_again(attrs[i]);
    lemma_there_is_one(attrs, i);
    let k = attr_index(attrs, attrs[i].index, attrs[i].name)->Some_0;
    assert(attrs.take(i + 1)[k] == attrs[k]);
}

} // verus!
