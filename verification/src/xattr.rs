//! Extended attributes as they are stored: a table of entries that grows up,
//! and their values that grow down from the end.
use crate::bytes::{copy_range, get_u16, get_u32, le16, le32, overlay, put16, put32, same_bytes, set_u16, set_u32, splice, zeroed, zeros};
use crate::error::{Error, Result};
use vstd::prelude::*;

verus! {

broadcast use crate::bytes::group_fields;

/// What an attribute region and an attribute block begin with.
pub const XATTR_MAGIC: u32 = 0xEA02_0000;

/// Where the entries of an inode's own region start.
pub const REGION_START: usize = 4;

/// Where the entries of an attribute block start.
pub const BLOCK_START: usize = 32;

/// One attribute: its namespace, its name in it, and its value. A value that
/// is kept in an inode of its own is not here: `inum` names the inode.
#[derive(Debug)]
pub struct XattrEntry {
    pub index: u8,
    pub name: Vec<u8>,
    pub value: Vec<u8>,
    pub inum: u32,
    pub size: u32,
    pub hash: u32,
}

/// An attribute as a value.
#[verifier::ext_equal]
pub struct Attr {
    pub index: u8,
    pub name: Seq<u8>,
    pub value: Seq<u8>,
    pub inum: u32,
    pub size: u32,
    pub hash: u32,
}

impl View for XattrEntry {
    type V = Attr;

    open spec fn view(&self) -> Attr {
        Attr {
            index: self.index,
            name: self.name@,
            value: self.value@,
            inum: self.inum,
            size: self.size,
            hash: self.hash,
        }
    }
}

/// Attributes as values.
pub open spec fn attrs_view(s: Seq<XattrEntry>) -> Seq<Attr> {
    Seq::new(s.len(), |i: int| s[i]@)
}

/// A length rounded up to a multiple of four.
pub open spec fn padded(n: int) -> int {
    (n + 3) / 4 * 4
}

/// Bytes that an entry with a name of this length takes.
pub open spec fn entry_len(name_len: int) -> int {
    16 + padded(name_len)
}

// -- reading ----------------------------------------------------------------

/// The attribute whose entry is at byte `at`; value offsets count from `base`.
pub open spec fn attr_at(s: Seq<u8>, base: int, at: int) -> Result<Attr> {
    let name_len = s[at] as int;
    let offs = le16(s, at + 2);
    let inum = le32(s, at + 4);
    let size = le32(s, at + 8);
    if at + 16 + name_len > s.len() {
        Err(Error::Corrupt("xattr: name runs off the end"))
    } else if inum == 0 && base + offs + size > s.len() {
        Err(Error::Corrupt("xattr: value runs off the end"))
    } else if name_len == 0 && s[at + 1] == 0 {
        Err(Error::Corrupt("xattr: entry without a name"))
    } else {
        Ok(
            Attr {
                index: s[at + 1],
                name: s.subrange(at + 16, at + 16 + name_len),
                value: if inum == 0 {
                    s.subrange(base + offs, base + offs + size)
                } else {
                    Seq::empty()
                },
                inum,
                size,
                hash: le32(s, at + 12),
            },
        )
    }
}

/// The attributes whose entries start at byte `at`, up to the first empty
/// entry or the end.
pub open spec fn attrs_from(s: Seq<u8>, base: int, at: int) -> Result<Seq<Attr>>
    decreases
            (if s.len() > at {
                s.len() - at
            } else {
                0
            }),
{
    if at < 0 || at + 4 > s.len() || le32(s, at) == 0 {
        Ok(Seq::empty())
    } else if at + 16 > s.len() {
        Err(Error::Corrupt("xattr: entry runs off the end"))
    } else {
        match attr_at(s, base, at) {
            Err(e) => Err(e),
            Ok(a) => match attrs_from(s, base, at + entry_len(s[at] as int)) {
                Err(e) => Err(e),
                Ok(rest) => Ok(seq![a] + rest),
            },
        }
    }
}

/// The attributes in an inode's own region; none where it was never used.
pub open spec fn region_attrs(s: Seq<u8>) -> Result<Seq<Attr>> {
    if s.len() < 4 || le32(s, 0) != XATTR_MAGIC {
        Ok(Seq::empty())
    } else {
        attrs_from(s, 4, 4)
    }
}

/// The attributes in an attribute block; none in one that is all new.
pub open spec fn block_attrs(s: Seq<u8>) -> Result<Seq<Attr>> {
    if le32(s, 0) == 0 {
        Ok(Seq::empty())
    } else if le32(s, 0) != XATTR_MAGIC {
        Err(Error::Corrupt("xattr block: bad magic"))
    } else {
        attrs_from(s, 0, 32)
    }
}

fn read_attr(s: &[u8], base: usize, at: usize) -> (r: Result<XattrEntry>)
    requires
        at + 16 <= s@.len(),
        base <= s@.len(),
    ensures
        match r {
            Ok(a) => attr_at(s@, base as int, at as int) == Ok::<Attr, Error>(a@),
            Err(e) => attr_at(s@, base as int, at as int) == Err::<Attr, Error>(e),
        },
{
    assert(s.len() == s@.len());
    let len: usize = s.len();
    let name_len: usize = s[at] as usize;
    let offs: usize = get_u16(s, at + 2) as usize;
    let inum: u32 = get_u32(s, at + 4);
    let size: u32 = get_u32(s, at + 8);
    if name_len > len - at - 16 {
        return Err(Error::Corrupt("xattr: name runs off the end"));
    }
    if inum == 0 && (offs > len - base || size as u64 > (len - base - offs) as u64) {
        return Err(Error::Corrupt("xattr: value runs off the end"));
    }
    if name_len == 0 && s[at + 1] == 0 {
        return Err(Error::Corrupt("xattr: entry without a name"));
    }
    let name: Vec<u8> = copy_range(s, at + 16, at + 16 + name_len);
    let value: Vec<u8> = if inum == 0 {
        copy_range(s, base + offs, base + offs + size as usize)
    } else {
        Vec::new()
    };
    let r = XattrEntry { index: s[at + 1], name, value, inum, size, hash: get_u32(s, at + 12) };
    proof {
        if inum != 0 {
            assert(r.value@ =~= Seq::<u8>::empty());
        }
    }
    Ok(r)
}

fn read_attrs(s: &[u8], base: usize, from: usize) -> (r: Result<Vec<XattrEntry>>)
    requires
        base <= s@.len(),
        s@.len() <= 0x1_0000,
    ensures
        match r {
            Ok(a) => attrs_from(s@, base as int, from as int) == Ok::<Seq<Attr>, Error>(attrs_view(a@)),
            Err(e) => attrs_from(s@, base as int, from as int) == Err::<Seq<Attr>, Error>(e),
        },
{
    let mut out: Vec<XattrEntry> = Vec::new();
    let mut at: usize = from;
    let len: usize = s.len();
    proof {
        if let Ok(rest) = attrs_from(s@, base as int, from as int) {
            assert(attrs_view(out@) + rest =~= rest);
        }
    }
    while at <= len && len - at >= 4 && get_u32(s, at) != 0
        invariant
            len == s@.len(),
            len <= 0x1_0000,
            base <= len,
            attrs_from(s@, base as int, from as int) == (match attrs_from(s@, base as int, at as int) {
                Ok(rest) => Ok::<Seq<Attr>, Error>(attrs_view(out@) + rest),
                Err(e) => Err(e),
            }),
        decreases 0x2_0000 - at,
    {
        if len - at < 16 {
            return Err(Error::Corrupt("xattr: entry runs off the end"));
        }
        let a: XattrEntry = match read_attr(s, base, at) {
            Ok(a) => a,
            Err(e) => {
                return Err(e);
            },
        };
        let name_len: usize = s[at] as usize;
        let next: usize = at + 16 + (name_len + 3) / 4 * 4;
        let ghost before = attrs_view(out@);
        out.push(a);
        proof {
            assert(attrs_view(out@) =~= before.push(a@));
            if let Ok(rest) = attrs_from(s@, base as int, next as int) {
                assert(before + (seq![a@] + rest) =~= attrs_view(out@) + rest);
            }
        }
        at = next;
    }
    assert(attrs_view(out@) + Seq::<Attr>::empty() =~= attrs_view(out@));
    Ok(out)
}

/// Read the attributes in an inode's own region.
pub fn read_region(s: &[u8]) -> (r: Result<Vec<XattrEntry>>)
    requires
        s@.len() <= 0x1_0000,
    ensures
        match r {
            Ok(a) => region_attrs(s@) == Ok::<Seq<Attr>, Error>(attrs_view(a@)),
            Err(e) => region_attrs(s@) == Err::<Seq<Attr>, Error>(e),
        },
{
    if s.len() < 4 || get_u32(s, 0) != XATTR_MAGIC {
        let none: Vec<XattrEntry> = Vec::new();
        assert(attrs_view(none@) =~= Seq::<Attr>::empty());
        return Ok(none);
    }
    read_attrs(s, 4, 4)
}

/// Read the attributes in an attribute block.
pub fn read_block_attrs(s: &[u8]) -> (r: Result<Vec<XattrEntry>>)
    requires
        1024 <= s@.len() <= 0x1_0000,
    ensures
        match r {
            Ok(a) => block_attrs(s@) == Ok::<Seq<Attr>, Error>(attrs_view(a@)),
            Err(e) => block_attrs(s@) == Err::<Seq<Attr>, Error>(e),
        },
{
    let magic: u32 = get_u32(s, 0);
    if magic == 0 {
        let none: Vec<XattrEntry> = Vec::new();
        assert(attrs_view(none@) =~= Seq::<Attr>::empty());
        return Ok(none);
    }
    if magic != XATTR_MAGIC {
        return Err(Error::Corrupt("xattr block: bad magic"));
    }
    read_attrs(s, 0, 32)
}

// -- finding ----------------------------------------------------------------

/// The place of the first attribute with a name, if there is one.
pub open spec fn attr_index(attrs: Seq<Attr>, index: u8, name: Seq<u8>) -> Option<int>
    decreases attrs.len(),
{
    if attrs.len() == 0 {
        None
    } else {
        match attr_index(attrs.drop_last(), index, name) {
            Some(i) => Some(i),
            None => if attrs.last().index == index && attrs.last().name == name {
                Some(attrs.len() - 1)
            } else {
                None
            },
        }
    }
}

/// The first attribute with a name, if there is one.
pub fn find_attr(attrs: &[XattrEntry], index: u8, name: &[u8]) -> (r: Option<usize>)
    ensures
        match r {
            Some(i) => attr_index(attrs_view(attrs@), index, name@) == Some(i as int) && i < attrs@.len(),
            None => attr_index(attrs_view(attrs@), index, name@) is None,
        },
{
    let ghost all = attrs_view(attrs@);
    let mut i: usize = 0;
    assert(all.take(0) =~= Seq::<Attr>::empty());
    while i < attrs.len()
        invariant
            i <= attrs@.len(),
            all == attrs_view(attrs@),
            attr_index(all.take(i as int), index, name@) is None,
        decreases attrs@.len() - i,
    {
        proof {
            assert(all.take(i + 1).drop_last() =~= all.take(i as int));
            assert(all.take(i + 1).last() == attrs@[i as int]@);
        }
        if attrs[i].index == index && same_bytes(&attrs[i].name, name) {
            proof {
                lemma_found_early(all, i + 1, index, name@);
            }
            return Some(i);
        }
        i += 1;
    }
    assert(all.take(i as int) =~= all);
    None
}

proof fn lemma_found_early(attrs: Seq<Attr>, k: int, index: u8, name: Seq<u8>)
    requires
        0 <= k <= attrs.len(),
        attr_index(attrs.take(k), index, name) is Some,
    ensures
        attr_index(attrs, index, name) == attr_index(attrs.take(k), index, name),
    decreases attrs.len() - k,
{
    if k < attrs.len() {
        assert(attrs.take(k + 1).drop_last() =~= attrs.take(k));
        lemma_found_early(attrs, k + 1, index, name);
    } else {
        assert(attrs.take(k) =~= attrs);
    }
}

// -- writing ----------------------------------------------------------------

/// A hash moved on by one byte of a name.
pub open spec fn hash_byte(h: u32, c: u8) -> u32 {
    (h << 5u32) ^ (h >> 27u32) ^ (c as u32)
}

/// A hash moved on by one word of a value.
pub open spec fn hash_word(h: u32, w: u32) -> u32 {
    (h << 16u32) ^ (h >> 16u32) ^ w
}

/// The hash of a name.
pub open spec fn name_hash(name: Seq<u8>) -> u32
    decreases name.len(),
{
    if name.len() == 0 {
        0
    } else {
        hash_byte(name_hash(name.drop_last()), name.last())
    }
}

/// A value with zeros up to the next whole word.
pub open spec fn padded_value(value: Seq<u8>) -> Seq<u8> {
    value + zeros((padded(value.len() as int) - value.len()) as nat)
}

/// A hash moved on by the first `n` words of some bytes.
pub open spec fn words_hash(h: u32, b: Seq<u8>, n: nat) -> u32
    decreases n,
{
    if n == 0 {
        h
    } else {
        hash_word(words_hash(h, b, (n - 1) as nat), le32(b, 4 * (n - 1)))
    }
}

/// The hash that an entry carries.
pub open spec fn attr_hash(name: Seq<u8>, value: Seq<u8>) -> u32 {
    words_hash(name_hash(name), padded_value(value), (padded(value.len() as int) / 4) as nat)
}

/// A fresh attribute.
pub open spec fn new_attr(index: u8, name: Seq<u8>, value: Seq<u8>) -> Attr {
    Attr { index, name, value, inum: 0, size: value.len() as u32, hash: attr_hash(name, value) }
}

/// Bytes that the entries of some attributes take.
pub open spec fn table_size(attrs: Seq<Attr>) -> int
    decreases attrs.len(),
{
    if attrs.len() == 0 {
        0
    } else {
        table_size(attrs.drop_last()) + entry_len(attrs.last().name.len() as int)
    }
}

/// Bytes that the values of some attributes take.
pub open spec fn values_size(attrs: Seq<Attr>) -> int
    decreases attrs.len(),
{
    if attrs.len() == 0 {
        0
    } else {
        values_size(attrs.drop_last()) + padded(attrs.last().value.len() as int)
    }
}

/// Whether entries from byte `start` on, the empty entry behind them and the
/// values fit in `len` bytes.
pub open spec fn attrs_fit(attrs: Seq<Attr>, start: int, len: int) -> bool {
    start + table_size(attrs) + 4 + values_size(attrs) <= len
}

/// An entry at byte `at` with its value at byte `place`.
pub open spec fn put_attr(s: Seq<u8>, base: int, at: int, place: int, a: Attr) -> Seq<u8> {
    let offs = if a.value.len() > 0 {
        (place - base) as u16
    } else {
        0u16
    };
    let head = put32(
        put32(
            put32(
                put16(s.update(at, a.name.len() as u8).update(at + 1, a.index), at + 2, offs),
                at + 4,
                a.inum,
            ),
            at + 8,
            a.size,
        ),
        at + 12,
        a.hash,
    );
    splice(splice(head, at + 16, a.name), place, a.value)
}

/// Attributes written out: the entries from byte `start` on, the values from
/// the end down.
pub open spec fn put_attrs(s: Seq<u8>, base: int, start: int, attrs: Seq<Attr>) -> Seq<u8>
    decreases attrs.len(),
{
    if attrs.len() == 0 {
        s
    } else {
        put_attr(
            put_attrs(s, base, start, attrs.drop_last()),
            base,
            start + table_size(attrs.drop_last()),
            s.len() - values_size(attrs),
            attrs.last(),
        )
    }
}

/// An inode's own region with these attributes, `len` bytes long.
pub open spec fn region_with(attrs: Seq<Attr>, len: int) -> Seq<u8> {
    put_attrs(put32(zeros(len as nat), 0, XATTR_MAGIC), 4, 4, attrs)
}

/// An attribute block with these attributes, in use by one inode.
pub open spec fn block_with(attrs: Seq<Attr>, len: int) -> Seq<u8> {
    put_attrs(
        put32(put32(put32(zeros(len as nat), 0, XATTR_MAGIC), 4, 1), 8, 1),
        0,
        32,
        attrs,
    )
}

/// The attributes can be stored: names are short, and a value is either here
/// or in its own inode.
pub open spec fn storable_attr(a: Attr) -> bool {
    &&& a.name.len() <= 255
    &&& a.index != 0 || a.name.len() > 0
    &&& if a.inum == 0 {
        a.value.len() == a.size
    } else {
        a.value.len() == 0
    }
}

pub open spec fn storable_attrs(attrs: Seq<Attr>) -> bool {
    forall|i: int| 0 <= i < attrs.len() ==> storable_attr(#[trigger] attrs[i])
}

pub proof fn lemma_sizes(attrs: Seq<Attr>)
    ensures
        table_size(attrs) >= 16 * attrs.len(),
        values_size(attrs) >= 0,
    decreases attrs.len(),
{
    if attrs.len() > 0 {
        lemma_sizes(attrs.drop_last());
    }
}

pub(crate) proof fn lemma_put_attrs_len(s: Seq<u8>, base: int, start: int, attrs: Seq<Attr>)
    requires
        start >= 0,
        attrs_fit(attrs, start, s.len() as int),
    ensures
        put_attrs(s, base, start, attrs).len() == s.len(),
    decreases attrs.len(),
{
    if attrs.len() > 0 {
        lemma_sizes(attrs);
        lemma_sizes(attrs.drop_last());
        lemma_put_attrs_len(s, base, start, attrs.drop_last());
    }
}

fn hash_entry(name: &[u8], value: &[u8]) -> (r: u32)
    requires
        value@.len() <= 0x1_0000,
    ensures
        r == attr_hash(name@, value@),
{
    let mut h: u32 = 0;
    let mut i: usize = 0;
    assert(name@.take(0) =~= Seq::<u8>::empty());
    while i < name.len()
        invariant
            i <= name@.len(),
            h == name_hash(name@.take(i as int)),
        decreases name@.len() - i,
    {
        proof {
            assert(name@.take(i + 1).drop_last() =~= name@.take(i as int));
        }
        h = (h << 5u32) ^ (h >> 27u32) ^ (name[i] as u32);
        i += 1;
    }
    assert(name@.take(i as int) =~= name@);
    let ghost h0 = h;
    let len: usize = (value.len() + 3) / 4 * 4;
    let mut words: Vec<u8> = zeroed(len);
    overlay(&mut words, 0, value);
    assert(words@ =~= padded_value(value@));
    let n: usize = len / 4;
    let mut k: usize = 0;
    while k < n
        invariant
            k <= n,
            4 * n == words@.len(),
            words@.len() <= 0x1_0004,
            h == words_hash(h0, words@, k as nat),
        decreases n - k,
    {
        h = (h << 16u32) ^ (h >> 16u32) ^ get_u32(&words, 4 * k);
        k += 1;
    }
    h
}

/// A fresh attribute.
pub fn make_attr(index: u8, name: &[u8], value: &[u8]) -> (r: XattrEntry)
    requires
        value@.len() <= 0x1_0000,
    ensures
        r@ == new_attr(index, name@, value@),
{
    let r = XattrEntry {
        index,
        name: copy_range(name, 0, name.len()),
        value: copy_range(value, 0, value.len()),
        inum: 0,
        size: value.len() as u32,
        hash: hash_entry(name, value),
    };
    assert(r.name@ =~= name@);
    assert(r.value@ =~= value@);
    r
}

fn do_attrs_fit(attrs: &[XattrEntry], start: usize, len: usize) -> (r: bool)
    requires
        start <= 0x1_0000,
        len <= 0x1_0000,
    ensures
        r == attrs_fit(attrs_view(attrs@), start as int, len as int),
{
    let ghost all = attrs_view(attrs@);
    let mut need: usize = start + 4;
    let mut i: usize = 0;
    assert(all.take(0) =~= Seq::<Attr>::empty());
    while i < attrs.len()
        invariant
            i <= attrs@.len(),
            all == attrs_view(attrs@),
            start <= 0x1_0000,
            len <= 0x1_0000,
            need == start + 4 + table_size(all.take(i as int)) + values_size(all.take(i as int)),
            need <= 0x1_0004,
        decreases attrs@.len() - i,
    {
        proof {
            assert(all.take(i + 1).drop_last() =~= all.take(i as int));
            assert(all.take(i + 1).last() == attrs@[i as int]@);
            lemma_fit_prefix(all, i + 1, start as int, len as int);
        }
        let name_len: usize = attrs[i].name.len();
        let value_len: usize = attrs[i].value.len();
        if name_len > len || value_len > len {
            return false;
        }
        need = need + 16 + (name_len + 3) / 4 * 4 + (value_len + 3) / 4 * 4;
        if need > len {
            return false;
        }
        i += 1;
    }
    assert(all.take(i as int) =~= all);
    need <= len
}

pub(crate) proof fn lemma_fit_prefix(attrs: Seq<Attr>, k: int, start: int, len: int)
    requires
        0 <= k <= attrs.len(),
    ensures
        attrs_fit(attrs, start, len) ==> attrs_fit(attrs.take(k), start, len),
        table_size(attrs.take(k)) <= table_size(attrs),
        values_size(attrs.take(k)) <= values_size(attrs),
    decreases attrs.len() - k,
{
    if k < attrs.len() {
        assert(attrs.take(k + 1).drop_last() =~= attrs.take(k));
        lemma_fit_prefix(attrs, k + 1, start, len);
    } else {
        assert(attrs.take(k) =~= attrs);
    }
}

fn write_attrs(out: &mut Vec<u8>, base: usize, start: usize, attrs: &[XattrEntry])
    requires
        base <= start,
        old(out)@.len() <= 0x1_0000,
        attrs_fit(attrs_view(attrs@), start as int, old(out)@.len() as int),
        storable_attrs(attrs_view(attrs@)),
    ensures
        final(out)@ == put_attrs(old(out)@, base as int, start as int, attrs_view(attrs@)),
        final(out)@.len() == old(out)@.len(),
{
    let ghost s0 = out@;
    let ghost all = attrs_view(attrs@);
    let len: usize = out.len();
    let mut at: usize = start;
    let mut place: usize = len;
    let mut i: usize = 0;
    proof {
        assert(all.take(0) =~= Seq::<Attr>::empty());
        lemma_sizes(all);
    }
    while i < attrs.len()
        invariant
            i <= attrs@.len(),
            all == attrs_view(attrs@),
            storable_attrs(all),
            len == s0.len(),
            len <= 0x1_0000,
            base <= start,
            out@.len() == len,
            attrs_fit(all, start as int, len as int),
            at == start + table_size(all.take(i as int)),
            place == len - values_size(all.take(i as int)),
            out@ == put_attrs(s0, base as int, start as int, all.take(i as int)),
        decreases attrs@.len() - i,
    {
        let ghost upto = all.take(i + 1);
        proof {
            assert(upto.drop_last() =~= all.take(i as int));
            assert(upto.last() == attrs@[i as int]@);
            assert(storable_attr(all[i as int]));
            lemma_fit_prefix(all, i + 1, start as int, len as int);
            lemma_sizes(all.take(i as int));
            lemma_sizes(upto);
        }
        let a: &XattrEntry = &attrs[i];
        let name_len: usize = a.name.len();
        let value_len: usize = a.value.len();
        let room: usize = (value_len + 3) / 4 * 4;
        let to: usize = place - room;
        let offs: u16 = if value_len > 0 {
            (to - base) as u16
        } else {
            0
        };
        out.set(at, name_len as u8);
        out.set(at + 1, a.index);
        set_u16(out, at + 2, offs);
        set_u32(out, at + 4, a.inum);
        set_u32(out, at + 8, a.size);
        set_u32(out, at + 12, a.hash);
        overlay(out, at + 16, &a.name);
        overlay(out, to, &a.value);
        assert(out@ == put_attr(
            put_attrs(s0, base as int, start as int, all.take(i as int)),
            base as int,
            at as int,
            to as int,
            a@,
        ));
        at = at + 16 + (name_len + 3) / 4 * 4;
        place = to;
        i += 1;
    }
    assert(all.take(i as int) =~= all);
}

/// Write out an inode's own region; `None` where it does not all fit.
pub fn write_region(attrs: &[XattrEntry], len: usize) -> (r: Option<Vec<u8>>)
    requires
        len <= 0x1_0000,
        storable_attrs(attrs_view(attrs@)),
    ensures
        match r {
            Some(b) => attrs_fit(attrs_view(attrs@), 4, len as int) && b@ == region_with(
                attrs_view(attrs@),
                len as int,
            ) && b@.len() == len,
            None => !attrs_fit(attrs_view(attrs@), 4, len as int),
        },
{
    if !do_attrs_fit(attrs, REGION_START, len) {
        return None;
    }
    proof {
        lemma_sizes(attrs_view(attrs@));
    }
    let mut out: Vec<u8> = zeroed(len);
    set_u32(&mut out, 0, XATTR_MAGIC);
    write_attrs(&mut out, REGION_START, REGION_START, attrs);
    Some(out)
}

/// Write out an attribute block; `None` where it does not all fit.
pub fn write_block_attrs(attrs: &[XattrEntry], len: usize) -> (r: Option<Vec<u8>>)
    requires
        len <= 0x1_0000,
        storable_attrs(attrs_view(attrs@)),
    ensures
        match r {
            Some(b) => attrs_fit(attrs_view(attrs@), 32, len as int) && b@ == block_with(
                attrs_view(attrs@),
                len as int,
            ) && b@.len() == len,
            None => !attrs_fit(attrs_view(attrs@), 32, len as int),
        },
{
    if !do_attrs_fit(attrs, BLOCK_START, len) {
        return None;
    }
    proof {
        lemma_sizes(attrs_view(attrs@));
    }
    let mut out: Vec<u8> = zeroed(len);
    set_u32(&mut out, 0, XATTR_MAGIC);
    set_u32(&mut out, 4, 1);
    set_u32(&mut out, 8, 1);
    write_attrs(&mut out, 0, BLOCK_START, attrs);
    Some(out)
}

// -- changing ---------------------------------------------------------------

/// The attributes but those with a name.
pub open spec fn without_attr(attrs: Seq<Attr>, index: u8, name: Seq<u8>) -> Seq<Attr>
    decreases attrs.len(),
{
    if attrs.len() == 0 {
        Seq::empty()
    } else {
        let before = without_attr(attrs.drop_last(), index, name);
        if attrs.last().index == index && attrs.last().name == name {
            before
        } else {
            before.push(attrs.last())
        }
    }
}

/// Whether one byte string comes before another of the same length.
pub open spec fn bytes_before(a: Seq<u8>, b: Seq<u8>) -> bool
    decreases a.len(),
{
    if a.len() == 0 || b.len() == 0 {
        false
    } else if a[0] != b[0] {
        a[0] < b[0]
    } else {
        bytes_before(a.drop_first(), b.drop_first())
    }
}

/// The order of entries in an attribute block.
pub open spec fn attr_before(a: Attr, b: Attr) -> bool {
    if a.index != b.index {
        a.index < b.index
    } else if a.name.len() != b.name.len() {
        a.name.len() < b.name.len()
    } else {
        bytes_before(a.name, b.name)
    }
}

/// The first place from `i` on whose attribute does not come before `a`.
pub open spec fn place_from(attrs: Seq<Attr>, a: Attr, i: int) -> int
    decreases attrs.len() - i,
{
    if i >= attrs.len() || !attr_before(attrs[i], a) {
        i
    } else {
        place_from(attrs, a, i + 1)
    }
}

/// Attributes with one of them set: in its place where they are kept in order,
/// at the end where they are not.
pub open spec fn with_attr(attrs: Seq<Attr>, index: u8, name: Seq<u8>, value: Seq<u8>, ordered: bool) -> Seq<Attr> {
    let rest = without_attr(attrs, index, name);
    let a = new_attr(index, name, value);
    if ordered {
        rest.insert(place_from(rest, a, 0), a)
    } else {
        rest.push(a)
    }
}

pub proof fn lemma_place_from(attrs: Seq<Attr>, a: Attr, i: int)
    requires
        0 <= i <= attrs.len(),
    ensures
        i <= place_from(attrs, a, i) <= attrs.len(),
    decreases attrs.len() - i,
{
    if i < attrs.len() && attr_before(attrs[i], a) {
        lemma_place_from(attrs, a, i + 1);
    }
}

/// What is read can be written.
pub proof fn lemma_read_storable(s: Seq<u8>, base: int, at: int)
    requires
        0 <= base,
    ensures
        attrs_from(s, base, at) matches Ok(attrs) ==> storable_attrs(attrs),
    decreases
            (if s.len() > at {
                s.len() - at
            } else {
                0
            }),
{
    if 0 <= at && at + 16 <= s.len() && le32(s, at) != 0 {
        if let Ok(a) = attr_at(s, base, at) {
            lemma_read_storable(s, base, at + entry_len(s[at] as int));
            if let Ok(rest) = attrs_from(s, base, at + entry_len(s[at] as int)) {
                let all = seq![a] + rest;
                assert forall|i: int| 0 <= i < all.len() implies storable_attr(#[trigger] all[i]) by {
                    if i > 0 {
                        assert(all[i] == rest[i - 1]);
                    }
                }
            }
        }
    }
}

pub proof fn lemma_without_storable(attrs: Seq<Attr>, index: u8, name: Seq<u8>)
    requires
        storable_attrs(attrs),
    ensures
        storable_attrs(without_attr(attrs, index, name)),
        without_attr(attrs, index, name).len() <= attrs.len(),
        attr_index(attrs, index, name) is None ==> without_attr(attrs, index, name) == attrs,
    decreases attrs.len(),
{
    if attrs.len() > 0 {
        let front = attrs.drop_last();
        assert forall|i: int| 0 <= i < front.len() implies storable_attr(#[trigger] front[i]) by {
            assert(front[i] == attrs[i]);
        }
        lemma_without_storable(front, index, name);
        assert(storable_attr(attrs[attrs.len() - 1]));
        assert(front.push(attrs.last()) =~= attrs);
    } else {
        assert(attrs =~= Seq::<Attr>::empty());
    }
}

/// Drop the attributes with a name.
pub fn drop_attr(attrs: &mut Vec<XattrEntry>, index: u8, name: &[u8])
    ensures
        attrs_view(final(attrs)@) == without_attr(attrs_view(old(attrs)@), index, name@),
{
    let ghost all = attrs_view(attrs@);
    let ghost mut k: int = 0;
    let mut i: usize = 0;
    proof {
        assert(all.take(0) =~= Seq::<Attr>::empty());
        assert(attrs_view(attrs@) =~= without_attr(all.take(0), index, name@) + all.skip(0));
    }
    while i < attrs.len()
        invariant
            0 <= k <= all.len(),
            all == attrs_view(old(attrs)@),
            i <= attrs@.len(),
            i == without_attr(all.take(k), index, name@).len(),
            attrs_view(attrs@) == without_attr(all.take(k), index, name@) + all.skip(k),
        decreases attrs@.len() - i,
    {
        let ghost kept = without_attr(all.take(k), index, name@);
        let ghost now = attrs_view(attrs@);
        proof {
            assert(now.len() == kept.len() + all.skip(k).len());
            assert(now[i as int] == all.skip(k)[0]);
            assert(attrs@[i as int]@ == all[k]);
            assert(all.take(k + 1).drop_last() =~= all.take(k));
            assert(all.take(k + 1).last() == all[k]);
        }
        if attrs[i].index == index && same_bytes(&attrs[i].name, name) {
            let _gone: XattrEntry = attrs.remove(i);
            assert(attrs_view(attrs@) =~= now.remove(i as int));
            assert(now.remove(i as int) =~= kept + all.skip(k + 1));
        } else {
            i += 1;
            assert(attrs_view(attrs@) =~= kept.push(all[k]) + all.skip(k + 1));
        }
        proof {
            k = k + 1;
        }
    }
    proof {
        assert(k == all.len()) by {
            assert(attrs_view(attrs@).len() == i + all.skip(k).len());
        }
        assert(all.take(k) =~= all);
        assert(attrs_view(attrs@) =~= without_attr(all, index, name@));
    }
}

fn comes_before(a: &XattrEntry, b: &XattrEntry) -> (r: bool)
    ensures
        r == attr_before(a@, b@),
{
    if a.index != b.index {
        return a.index < b.index;
    }
    if a.name.len() != b.name.len() {
        return a.name.len() < b.name.len();
    }
    let mut i: usize = 0;
    assert(a.name@.skip(0) =~= a.name@);
    assert(b.name@.skip(0) =~= b.name@);
    while i < a.name.len()
        invariant
            i <= a.name@.len(),
            a.index == b.index,
            a.name@.len() == b.name@.len(),
            bytes_before(a.name@, b.name@) == bytes_before(a.name@.skip(i as int), b.name@.skip(i as int)),
        decreases a.name@.len() - i,
    {
        assert(a.name@.skip(i as int)[0] == a.name@[i as int]);
        assert(b.name@.skip(i as int)[0] == b.name@[i as int]);
        if a.name[i] != b.name[i] {
            return a.name[i] < b.name[i];
        }
        proof {
            assert(a.name@.skip(i as int).drop_first() =~= a.name@.skip(i + 1));
            assert(b.name@.skip(i as int).drop_first() =~= b.name@.skip(i + 1));
        }
        i += 1;
    }
    false
}

/// Set one attribute.
pub fn set_attr(attrs: &mut Vec<XattrEntry>, index: u8, name: &[u8], value: &[u8], ordered: bool)
    requires
        value@.len() <= 0x1_0000,
    ensures
        attrs_view(final(attrs)@) == with_attr(attrs_view(old(attrs)@), index, name@, value@, ordered),
{
    drop_attr(attrs, index, name);
    let ghost rest = attrs_view(attrs@);
    let a: XattrEntry = make_attr(index, name, value);
    if !ordered {
        attrs.push(a);
        assert(attrs_view(attrs@) =~= rest.push(a@));
        return;
    }
    let mut i: usize = 0;
    while i < attrs.len() && comes_before(&attrs[i], &a)
        invariant
            i <= attrs@.len(),
            rest == attrs_view(attrs@),
            place_from(rest, a@, 0) == place_from(rest, a@, i as int),
        decreases attrs@.len() - i,
    {
        i += 1;
    }
    attrs.insert(i, a);
    assert(attrs_view(attrs@) =~= rest.insert(i as int, a@));
}

// -- laws -------------------------------------------------------------------

/// An entry reads the same wherever its own bytes and its value's do.
proof fn lemma_attr_same(s: Seq<u8>, t: Seq<u8>, base: int, at: int, a: Attr)
    requires
        s.len() == t.len(),
        0 <= at,
        0 <= base,
        at + 16 <= s.len(),
        attr_at(s, base, at) == Ok::<Attr, Error>(a),
        forall|x: int| at <= x < at + 16 + a.name.len() ==> s[x] == t[x],
        a.inum == 0 ==> forall|x: int|
            base + le16(s, at + 2) <= x < base + le16(s, at + 2) + a.value.len() ==> s[x] == t[x],
    ensures
        attr_at(t, base, at) == Ok::<Attr, Error>(a),
        t[at] == s[at],
        le16(t, at + 2) == le16(s, at + 2),
{
    reveal(le16);
    reveal(le32);
    let n = s[at] as int;
    let from = base + le16(s, at + 2);
    assert(t.subrange(at + 16, at + 16 + n) =~= s.subrange(at + 16, at + 16 + n));
    if a.inum == 0 {
        assert(t.subrange(from, from + a.size) =~= s.subrange(from, from + a.size));
    }
}

/// Bytes between the entries and the values are left as they were.
proof fn lemma_gap_kept(s: Seq<u8>, base: int, start: int, attrs: Seq<Attr>, x: int)
    requires
        0 <= start,
        attrs_fit(attrs, start, s.len() as int),
        storable_attrs(attrs),
        0 <= x < s.len(),
        x < start || start + table_size(attrs) <= x < s.len() - values_size(attrs),
    ensures
        put_attrs(s, base, start, attrs)[x] == s[x],
    decreases attrs.len(),
{
    if attrs.len() > 0 {
        let front = attrs.drop_last();
        lemma_sizes(attrs);
        lemma_sizes(front);
        lemma_put_attrs_len(s, base, start, front);
        assert forall|i: int| 0 <= i < front.len() implies storable_attr(#[trigger] front[i]) by {
            assert(front[i] == attrs[i]);
        }
        lemma_gap_kept(s, base, start, front, x);
        assert(storable_attr(attrs[attrs.len() - 1]));
    }
}

/// Each entry that was written reads back as what was written.
proof fn lemma_each_attr(s: Seq<u8>, base: int, start: int, attrs: Seq<Attr>, i: int)
    requires
        0 <= base <= start,
        s.len() <= 0x1_0000,
        attrs_fit(attrs, start, s.len() as int),
        storable_attrs(attrs),
        0 <= i < attrs.len(),
    ensures
        ({
            let t = put_attrs(s, base, start, attrs);
            let at = start + table_size(attrs.take(i));
            &&& attr_at(t, base, at) == Ok::<Attr, Error>(attrs[i])
            &&& t[at] == attrs[i].name.len()
            &&& t[at + 1] == attrs[i].index
            &&& attrs[i].value.len() > 0 ==> base + le16(t, at + 2) == s.len() - values_size(
                attrs.take(i + 1),
            )
            &&& attrs[i].value.len() == 0 ==> le16(t, at + 2) == 0
        }),
    decreases attrs.len(),
{
    let front = attrs.drop_last();
    let last = attrs.last();
    let n = attrs.len() as int;
    let before = put_attrs(s, base, start, front);
    let at = start + table_size(front);
    let place = s.len() - values_size(attrs);
    let t = put_attr(before, base, at, place, last);
    lemma_sizes(attrs);
    lemma_sizes(front);
    lemma_put_attrs_len(s, base, start, front);
    assert(storable_attr(attrs[n - 1]));
    assert forall|k: int| 0 <= k < front.len() implies storable_attr(#[trigger] front[k]) by {
        assert(front[k] == attrs[k]);
    }
    if i == n - 1 {
        assert(attrs.take(i) =~= front);
        assert(attrs.take(i + 1) =~= attrs);
        let offs = if last.value.len() > 0 {
            (place - base) as u16
        } else {
            0u16
        };
        let s1 = before.update(at, last.name.len() as u8).update(at + 1, last.index);
        let s2 = put16(s1, at + 2, offs);
        let s3 = put32(s2, at + 4, last.inum);
        let s4 = put32(s3, at + 8, last.size);
        let head = put32(s4, at + 12, last.hash);
        assert(forall|x: int| at <= x < at + 16 ==> t[x] == head[x]);
        assert(le16(t, at + 2) == offs && le32(t, at + 4) == last.inum && le32(t, at + 8) == last.size && le32(
            t,
            at + 12,
        ) == last.hash && t[at] == last.name.len() && t[at + 1] == last.index) by {
            assert(le16(head, at + 2) == offs);
            assert(le32(head, at + 4) == last.inum);
            assert(le32(head, at + 8) == last.size);
            assert(le32(head, at + 12) == last.hash);
            reveal(le16);
            reveal(le32);
        }
        assert(t.subrange(at + 16, at + 16 + last.name.len()) =~= last.name);
        if last.inum == 0 {
            assert(t.subrange(base + offs, base + offs + last.size) =~= last.value);
        } else {
            assert(last.value =~= Seq::<u8>::empty());
        }
    } else {
        lemma_each_attr(s, base, start, front, i);
        assert(front.take(i) =~= attrs.take(i));
        assert(front.take(i + 1) =~= attrs.take(i + 1));
        let here = start + table_size(attrs.take(i));
        lemma_fit_prefix(front, i + 1, start, s.len() as int);
        lemma_fit_prefix(front, i, start, s.len() as int);
        lemma_sizes(front.take(i));
        assert(front.take(i + 1).drop_last() =~= front.take(i));
        assert(front.take(i + 1).last() == attrs[i]);
        lemma_sizes(front.take(i + 1));
        assert(storable_attr(attrs[i]));
        assert(t.len() == s.len());
        let a = attrs[i];
        lemma_attr_same(before, t, base, here, a);
    }
}

/// Entries that each read back, with an empty one behind them, are read as a
/// list.
proof fn lemma_list_reads(t: Seq<u8>, base: int, start: int, attrs: Seq<Attr>, i: int)
    requires
        0 <= start,
        0 <= i <= attrs.len(),
        attrs_fit(attrs, start, t.len() as int),
        forall|k: int|
            0 <= k < attrs.len() ==> {
                let at = start + table_size(#[trigger] attrs.take(k));
                attr_at(t, base, at) == Ok::<Attr, Error>(attrs[k]) && t[at] == attrs[k].name.len() && le32(
                    t,
                    at,
                ) != 0
            },
        le32(t, start + table_size(attrs)) == 0,
    ensures
        attrs_from(t, base, start + table_size(attrs.take(i))) == Ok::<Seq<Attr>, Error>(attrs.skip(i)),
    decreases attrs.len() - i,
{
    lemma_sizes(attrs);
    if i == attrs.len() {
        assert(attrs.take(i) =~= attrs);
        assert(attrs.skip(i) =~= Seq::<Attr>::empty());
    } else {
        let at = start + table_size(attrs.take(i));
        lemma_list_reads(t, base, start, attrs, i + 1);
        assert(attrs.take(i + 1).drop_last() =~= attrs.take(i));
        assert(attrs.take(i + 1).last() == attrs[i]);
        lemma_fit_prefix(attrs, i + 1, start, t.len() as int);
        lemma_sizes(attrs.take(i));
        lemma_sizes(attrs.take(i + 1));
        assert(attr_at(t, base, at) == Ok::<Attr, Error>(attrs[i]));
        assert(seq![attrs[i]] + attrs.skip(i + 1) =~= attrs.skip(i));
    }
}

pub(crate) proof fn lemma_attrs_read_back(s: Seq<u8>, base: int, start: int, attrs: Seq<Attr>)
    requires
        0 <= base <= start,
        s.len() <= 0x1_0000,
        attrs_fit(attrs, start, s.len() as int),
        storable_attrs(attrs),
        forall|x: int| start <= x < s.len() ==> s[x] == 0,
    ensures
        attrs_from(put_attrs(s, base, start, attrs), base, start) == Ok::<Seq<Attr>, Error>(attrs),
        forall|x: int| 0 <= x < start ==> put_attrs(s, base, start, attrs)[x] == s[x],
        put_attrs(s, base, start, attrs).len() == s.len(),
{
    let t = put_attrs(s, base, start, attrs);
    lemma_sizes(attrs);
    lemma_put_attrs_len(s, base, start, attrs);
    assert forall|x: int| 0 <= x < start implies t[x] == s[x] by {
        lemma_gap_kept(s, base, start, attrs, x);
    }
    let end = start + table_size(attrs);
    assert(le32(t, end) == 0) by {
        lemma_gap_kept(s, base, start, attrs, end);
        lemma_gap_kept(s, base, start, attrs, end + 1);
        lemma_gap_kept(s, base, start, attrs, end + 2);
        lemma_gap_kept(s, base, start, attrs, end + 3);
        reveal(le32);
    }
    assert forall|k: int| 0 <= k < attrs.len() implies ({
        let at = start + table_size(#[trigger] attrs.take(k));
        attr_at(t, base, at) == Ok::<Attr, Error>(attrs[k]) && t[at] == attrs[k].name.len() && le32(t, at)
            != 0
    }) by {
        lemma_each_attr(s, base, start, attrs, k);
        assert(storable_attr(attrs[k]));
        reveal(le32);
    }
    lemma_list_reads(t, base, start, attrs, 0);
    assert(attrs.take(0) =~= Seq::<Attr>::empty());
    assert(attrs.skip(0) =~= attrs);
}

/// The attributes written to an inode's region are the ones read back from it.
pub proof fn law_region_round_trip(attrs: Seq<Attr>, len: int)
    requires
        len <= 0x1_0000,
        attrs_fit(attrs, 4, len),
        storable_attrs(attrs),
    ensures
        region_attrs(region_with(attrs, len)) == Ok::<Seq<Attr>, Error>(attrs),
        region_with(attrs, len).len() == len,
{
    lemma_sizes(attrs);
    let s = put32(zeros(len as nat), 0, XATTR_MAGIC);
    lemma_attrs_read_back(s, 4, 4, attrs);
    let t = region_with(attrs, len);
    assert(le32(s, 0) == XATTR_MAGIC);
    assert(le32(t, 0) == le32(s, 0)) by {
        reveal(le32);
    }
}

/// The attributes written to an attribute block are the ones read back from it.
pub proof fn law_block_round_trip(attrs: Seq<Attr>, len: int)
    requires
        len <= 0x1_0000,
        attrs_fit(attrs, 32, len),
        storable_attrs(attrs),
    ensures
        block_attrs(block_with(attrs, len)) == Ok::<Seq<Attr>, Error>(attrs),
        block_with(attrs, len).len() == len,
{
    lemma_sizes(attrs);
    let s = put32(put32(put32(zeros(len as nat), 0, XATTR_MAGIC), 4, 1), 8, 1);
    lemma_attrs_read_back(s, 0, 32, attrs);
    let t = block_with(attrs, len);
    assert(le32(s, 0) == XATTR_MAGIC);
    assert(le32(t, 0) == le32(s, 0)) by {
        reveal(le32);
    }
}

/// An attribute that is set is found with its value, and every other is as it
/// was.
pub proof fn law_set_then_find(attrs: Seq<Attr>, index: u8, name: Seq<u8>, value: Seq<u8>, ordered: bool)
    ensures
        ({
            let after = with_attr(attrs, index, name, value, ordered);
            attr_index(after, index, name) matches Some(i) && 0 <= i < after.len() && after[i].value == value
                && after[i].inum == 0
        }),
        forall|a: Attr|
            !(a.index == index && a.name == name) ==> (with_attr(attrs, index, name, value, ordered).contains(a)
                == #[trigger] attrs.contains(a)),
{
    let rest = without_attr(attrs, index, name);
    let a = new_attr(index, name, value);
    law_unset_is_gone(attrs, index, name);
    lemma_place_from(rest, a, 0);
    let p = if ordered {
        place_from(rest, a, 0)
    } else {
        rest.len() as int
    };
    let after = with_attr(attrs, index, name, value, ordered);
    assert(after =~= rest.insert(p, a));
    lemma_find_inserted(rest, p, a);
    assert forall|b: Attr| !(b.index == index && b.name == name) implies after.contains(b)
        == #[trigger] attrs.contains(b) by {
        assert(rest.contains(b) == attrs.contains(b));
        if rest.contains(b) {
            let k = choose|k: int| 0 <= k < rest.len() && rest[k] == b;
            if k < p {
                assert(after[k] == b);
            } else {
                assert(after[k + 1] == b);
            }
        }
        if after.contains(b) {
            let k = choose|k: int| 0 <= k < after.len() && after[k] == b;
            if k < p {
                assert(rest[k] == b);
            } else if k > p {
                assert(rest[k - 1] == b);
            }
        }
    }
}

proof fn lemma_find_inserted(rest: Seq<Attr>, p: int, a: Attr)
    requires
        0 <= p <= rest.len(),
        attr_index(rest, a.index, a.name) is None,
    ensures
        attr_index(rest.insert(p, a), a.index, a.name) == Some(p),
    decreases rest.len(),
{
    let after = rest.insert(p, a);
    if p == rest.len() {
        assert(after.drop_last() =~= rest);
    } else {
        let front = rest.drop_last();
        assert(after.drop_last() =~= front.insert(p, a));
        lemma_find_inserted(front, p, a);
    }
}

/// An attribute that is dropped is not found, and every other is as it was.
pub proof fn law_unset_is_gone(attrs: Seq<Attr>, index: u8, name: Seq<u8>)
    ensures
        attr_index(without_attr(attrs, index, name), index, name) is None,
        forall|a: Attr|
            !(a.index == index && a.name == name) ==> (without_attr(attrs, index, name).contains(a)
                == #[trigger] attrs.contains(a)),
    decreases attrs.len(),
{
    if attrs.len() > 0 {
        let front = attrs.drop_last();
        let last = attrs.last();
        law_unset_is_gone(front, index, name);
        let before = without_attr(front, index, name);
        let after = without_attr(attrs, index, name);
        assert(before.push(last).drop_last() =~= before);
        assert forall|a: Attr| !(a.index == index && a.name == name) implies after.contains(a)
            == #[trigger] attrs.contains(a) by {
            assert(front.contains(a) == before.contains(a));
            if attrs.contains(a) {
                let k = choose|k: int| 0 <= k < attrs.len() && attrs[k] == a;
                if k < front.len() {
                    assert(front[k] == a);
                    let m = choose|m: int| 0 <= m < before.len() && before[m] == a;
                    assert(after[m] == a);
                } else {
                    assert(after[before.len() as int] == a);
                }
            }
            if after.contains(a) {
                let k = choose|k: int| 0 <= k < after.len() && after[k] == a;
                if k < before.len() {
                    assert(before[k] == a);
                    let m = choose|m: int| 0 <= m < front.len() && front[m] == a;
                    assert(attrs[m] == a);
                } else {
                    assert(attrs[attrs.len() - 1] == a);
                }
            }
        }
    }
}

} // verus!
