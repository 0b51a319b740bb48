//! Reading, setting and removing extended attributes.
use crate::allocator::BlockAllocationPlan;
use crate::attr::{inode_at, less, path_bytes, unless_refused};
use crate::block_io::BlockDevice;
use crate::bytes::{copy_range, overlay, put32, same_bytes, set_u32, splice, zeros};
use crate::checksum::xattr_stamped;
use crate::commit::{came_out, done, only_in, same_mount, stage_blocks, unit_stage};
use crate::ea_inode::{read_value_inode, value_agrees};
use crate::error::{Error, Result};
use crate::fs::Filesystem;
use crate::grow::{home_group, stage_block_plan, stage_fresh, volume_plan};
use crate::inline_data::{attr_region, region_start};
use crate::inode::{extra_isize_of, file_acl_of, generation_of, sectors_of, size_of_file, Inode};
use crate::inode_edit::{with_file_acl, with_size_and_blocks};
use crate::stage::{stage_free_blocks, stage_inode, stage_totals};
use crate::volume::{fresh_stage, BlockBuffer, Stage, Vol};
use crate::xattr::{
    attr_index, attrs_fit, attrs_view, block_attrs, block_with, drop_attr, find_attr, lemma_place_from,
    lemma_read_storable, lemma_sizes, lemma_without_storable, read_block_attrs, read_region, region_attrs, region_with,
    set_attr, storable_attr, storable_attrs, with_attr, without_attr, write_block_attrs, write_region, Attr,
    XattrEntry,
};
use vstd::prelude::*;
use vstd::string::*;

verus! {

broadcast use crate::bytes::group_fields;

// -- names ------------------------------------------------------------------

pub open spec fn user_prefix() -> Seq<u8> {
    seq![0x75u8, 0x73u8, 0x65u8, 0x72u8, 0x2Eu8]
}

pub open spec fn trusted_prefix() -> Seq<u8> {
    seq![0x74u8, 0x72u8, 0x75u8, 0x73u8, 0x74u8, 0x65u8, 0x64u8, 0x2Eu8]
}

pub open spec fn security_prefix() -> Seq<u8> {
    seq![0x73u8, 0x65u8, 0x63u8, 0x75u8, 0x72u8, 0x69u8, 0x74u8, 0x79u8, 0x2Eu8]
}

pub open spec fn system_prefix() -> Seq<u8> {
    seq![0x73u8, 0x79u8, 0x73u8, 0x74u8, 0x65u8, 0x6Du8, 0x2Eu8]
}

/// `posix_acl_access`.
pub open spec fn acl_access_name() -> Seq<u8> {
    seq![
        0x70u8, 0x6Fu8, 0x73u8, 0x69u8, 0x78u8, 0x5Fu8, 0x61u8, 0x63u8, 0x6Cu8, 0x5Fu8, 0x61u8, 0x63u8, 0x63u8,
        0x65u8, 0x73u8, 0x73u8,
    ]
}

/// `posix_acl_default`.
pub open spec fn acl_default_name() -> Seq<u8> {
    seq![
        0x70u8, 0x6Fu8, 0x73u8, 0x69u8, 0x78u8, 0x5Fu8, 0x61u8, 0x63u8, 0x6Cu8, 0x5Fu8, 0x64u8, 0x65u8, 0x66u8,
        0x61u8, 0x75u8, 0x6Cu8, 0x74u8,
    ]
}

/// What follows a prefix.
pub open spec fn stripped(name: Seq<u8>, prefix: Seq<u8>) -> Option<Seq<u8>> {
    if prefix.len() <= name.len() && name.subrange(0, prefix.len() as int) == prefix {
        Some(name.subrange(prefix.len() as int, name.len() as int))
    } else {
        None
    }
}

/// A name in a namespace.
pub open spec fn named(index: u8, rest: Seq<u8>) -> Result<(u8, Seq<u8>)> {
    if rest.len() == 0 {
        Err(Error::InvalidArgument("xattr: empty name"))
    } else if rest.len() > 255 {
        Err(Error::NameTooLong)
    } else {
        Ok((index, rest))
    }
}

/// The namespace that a full name begins with, and the rest of the name. The
/// two access control lists have namespaces of their own.
pub open spec fn name_parts(name: Seq<u8>) -> Result<(u8, Seq<u8>)> {
    match stripped(name, user_prefix()) {
        Some(rest) => named(1, rest),
        None => match stripped(name, trusted_prefix()) {
            Some(rest) => named(4, rest),
            None => match stripped(name, security_prefix()) {
                Some(rest) => named(6, rest),
                None => match stripped(name, system_prefix()) {
                    Some(rest) => if rest == acl_access_name() {
                        Ok((2, Seq::empty()))
                    } else if rest == acl_default_name() {
                        Ok((3, Seq::empty()))
                    } else {
                        named(7, rest)
                    },
                    None => Err(Error::InvalidArgument("xattr: unknown namespace prefix")),
                },
            },
        },
    }
}

fn strip(name: &[u8], prefix: &[u8]) -> (r: Option<Vec<u8>>)
    ensures
        match r {
            Some(rest) => stripped(name@, prefix@) == Some(rest@),
            None => stripped(name@, prefix@) is None,
        },
{
    if prefix.len() > name.len() {
        return None;
    }
    let head: Vec<u8> = copy_range(name, 0, prefix.len());
    if same_bytes(&head, prefix) {
        Some(copy_range(name, prefix.len(), name.len()))
    } else {
        None
    }
}

fn in_namespace(index: u8, rest: Vec<u8>) -> (r: Result<(u8, Vec<u8>)>)
    ensures
        match r {
            Ok((i, n)) => named(index, rest@) == Ok::<(u8, Seq<u8>), Error>((i, n@)),
            Err(e) => named(index, rest@) == Err::<(u8, Seq<u8>), Error>(e),
        },
{
    if rest.len() == 0 {
        Err(Error::InvalidArgument("xattr: empty name"))
    } else if rest.len() > 255 {
        Err(Error::NameTooLong)
    } else {
        Ok((index, rest))
    }
}

/// Split a full name into its namespace and the rest.
pub fn split_name(name: &[u8]) -> (r: Result<(u8, Vec<u8>)>)
    ensures
        match r {
            Ok((i, n)) => name_parts(name@) == Ok::<(u8, Seq<u8>), Error>((i, n@)) && n@.len() <= 255 && i > 0,
            Err(e) => name_parts(name@) == Err::<(u8, Seq<u8>), Error>(e),
        },
{
    let user: Vec<u8> = vec![0x75u8, 0x73u8, 0x65u8, 0x72u8, 0x2Eu8];
    assert(user@ =~= user_prefix());
    if let Some(rest) = strip(name, &user) {
        return in_namespace(1, rest);
    }
    let trusted: Vec<u8> = vec![0x74u8, 0x72u8, 0x75u8, 0x73u8, 0x74u8, 0x65u8, 0x64u8, 0x2Eu8];
    assert(trusted@ =~= trusted_prefix());
    if let Some(rest) = strip(name, &trusted) {
        return in_namespace(4, rest);
    }
    let security: Vec<u8> = vec![0x73u8, 0x65u8, 0x63u8, 0x75u8, 0x72u8, 0x69u8, 0x74u8, 0x79u8, 0x2Eu8];
    assert(security@ =~= security_prefix());
    if let Some(rest) = strip(name, &security) {
        return in_namespace(6, rest);
    }
    let system: Vec<u8> = vec![0x73u8, 0x79u8, 0x73u8, 0x74u8, 0x65u8, 0x6Du8, 0x2Eu8];
    assert(system@ =~= system_prefix());
    match strip(name, &system) {
        None => Err(Error::InvalidArgument("xattr: unknown namespace prefix")),
        Some(rest) => {
            let access: Vec<u8> = vec![
                0x70u8, 0x6Fu8, 0x73u8, 0x69u8, 0x78u8, 0x5Fu8, 0x61u8, 0x63u8, 0x6Cu8, 0x5Fu8, 0x61u8, 0x63u8, 0x63u8,
                0x65u8, 0x73u8, 0x73u8,
            ];
            assert(access@ =~= acl_access_name());
            let default: Vec<u8> = vec![
                0x70u8, 0x6Fu8, 0x73u8, 0x69u8, 0x78u8, 0x5Fu8, 0x61u8, 0x63u8, 0x6Cu8, 0x5Fu8, 0x64u8, 0x65u8, 0x66u8,
                0x61u8, 0x75u8, 0x6Cu8, 0x74u8,
            ];
            assert(default@ =~= acl_default_name());
            let none: Vec<u8> = Vec::new();
            assert(none@ =~= Seq::<u8>::empty());
            if same_bytes(&rest, &access) {
                Ok((2, none))
            } else if same_bytes(&rest, &default) {
                Ok((3, none))
            } else {
                in_namespace(7, rest)
            }
        },
    }
}

/// The prefix of a namespace.
pub open spec fn prefix_of(index: u8) -> Seq<u8> {
    if index == 1 {
        user_prefix()
    } else if index == 2 {
        system_prefix() + acl_access_name()
    } else if index == 3 {
        system_prefix() + acl_default_name()
    } else if index == 4 {
        trusted_prefix()
    } else if index == 6 {
        security_prefix()
    } else if index == 7 {
        system_prefix()
    } else {
        Seq::empty()
    }
}

impl XattrEntry {
    /// The attribute's name with its namespace.
    pub fn full_name(&self) -> (r: Vec<u8>)
        ensures
            r@ == prefix_of(self.index) + self.name@,
    {
        let mut out: Vec<u8> = if self.index == 1 {
            vec![0x75u8, 0x73u8, 0x65u8, 0x72u8, 0x2Eu8]
        } else if self.index == 2 {
            vec![
                0x73u8, 0x79u8, 0x73u8, 0x74u8, 0x65u8, 0x6Du8, 0x2Eu8, 0x70u8, 0x6Fu8, 0x73u8, 0x69u8, 0x78u8, 0x5Fu8,
                0x61u8, 0x63u8, 0x6Cu8, 0x5Fu8, 0x61u8, 0x63u8, 0x63u8, 0x65u8, 0x73u8, 0x73u8,
            ]
        } else if self.index == 3 {
            vec![
                0x73u8, 0x79u8, 0x73u8, 0x74u8, 0x65u8, 0x6Du8, 0x2Eu8, 0x70u8, 0x6Fu8, 0x73u8, 0x69u8, 0x78u8, 0x5Fu8,
                0x61u8, 0x63u8, 0x6Cu8, 0x5Fu8, 0x64u8, 0x65u8, 0x66u8, 0x61u8, 0x75u8, 0x6Cu8, 0x74u8,
            ]
        } else if self.index == 4 {
            vec![0x74u8, 0x72u8, 0x75u8, 0x73u8, 0x74u8, 0x65u8, 0x64u8, 0x2Eu8]
        } else if self.index == 6 {
            vec![0x73u8, 0x65u8, 0x63u8, 0x75u8, 0x72u8, 0x69u8, 0x74u8, 0x79u8, 0x2Eu8]
        } else if self.index == 7 {
            vec![0x73u8, 0x79u8, 0x73u8, 0x74u8, 0x65u8, 0x6Du8, 0x2Eu8]
        } else {
            Vec::new()
        };
        assert(out@ =~= prefix_of(self.index));
        let mut rest: Vec<u8> = copy_range(&self.name, 0, self.name.len());
        assert(rest@ =~= self.name@);
        out.append(&mut rest);
        out
    }
}

// -- one region, one block --------------------------------------------------

/// Whether the value of some attribute is kept in an inode of its own.
pub open spec fn any_outside(attrs: Seq<Attr>) -> bool {
    exists|i: int| 0 <= i < attrs.len() && (#[trigger] attrs[i]).inum != 0
}

/// Why attributes cannot be written anew: what is in an inode of its own cannot
/// be packed again.
pub open spec fn outside_error() -> Error {
    Error::Unsupported("xattr: an entry's value is in an inode of its own")
}

fn has_outside(attrs: &[XattrEntry]) -> (r: bool)
    ensures
        r == any_outside(attrs_view(attrs@)),
{
    let ghost all = attrs_view(attrs@);
    let mut i: usize = 0;
    while i < attrs.len()
        invariant
            i <= attrs@.len(),
            all == attrs_view(attrs@),
            forall|k: int| 0 <= k < i ==> (#[trigger] all[k]).inum == 0,
        decreases attrs@.len() - i,
    {
        assert(all[i as int] == attrs@[i as int]@);
        if attrs[i].inum != 0 {
            return true;
        }
        i += 1;
    }
    false
}

/// A region with an attribute set.
pub open spec fn region_set(region: Seq<u8>, index: u8, name: Seq<u8>, value: Seq<u8>) -> Result<Seq<u8>> {
    match region_attrs(region) {
        Err(e) => Err(e),
        Ok(attrs) => {
            let after = with_attr(attrs, index, name, value, false);
            if any_outside(attrs) {
                Err(outside_error())
            } else if attrs_fit(after, 4, region.len() as int) {
                Ok(region_with(after, region.len() as int))
            } else {
                Err(Error::NoSpaceLeftOnDevice)
            }
        },
    }
}

/// A region with an attribute gone; `None` where it has no such attribute.
pub open spec fn region_unset(region: Seq<u8>, index: u8, name: Seq<u8>) -> Result<Option<Seq<u8>>> {
    match region_attrs(region) {
        Err(e) => Err(e),
        Ok(attrs) => if attr_index(attrs, index, name) is None {
            Ok(None)
        } else {
            let after = without_attr(attrs, index, name);
            if any_outside(attrs) {
                Err(outside_error())
            } else if attrs_fit(after, 4, region.len() as int) {
                Ok(Some(region_with(after, region.len() as int)))
            } else {
                Err(Error::NoSpaceLeftOnDevice)
            }
        },
    }
}

/// A block with an attribute set, as it is written out to block `n`.
pub open spec fn block_set(v: Vol, n: u64, b: Seq<u8>, index: u8, name: Seq<u8>, value: Seq<u8>) -> Result<Seq<u8>> {
    match block_attrs(b) {
        Err(e) => Err(e),
        Ok(attrs) => {
            let after = with_attr(attrs, index, name, value, true);
            if any_outside(attrs) {
                Err(outside_error())
            } else if attrs_fit(after, 32, b.len() as int) {
                Ok(block_stamped(v, n, block_with(after, b.len() as int)))
            } else {
                Err(Error::NoSpaceLeftOnDevice)
            }
        },
    }
}

/// An attribute block as it is written out.
pub open spec fn block_stamped(v: Vol, n: u64, b: Seq<u8>) -> Seq<u8> {
    if v.csum.enabled {
        xattr_stamped(v.csum.seed, n, b)
    } else {
        b
    }
}

/// What is left of a block when an attribute goes.
pub enum Leftover {
    /// It has no such attribute.
    Same,
    /// Nothing is left.
    Nothing,
    /// Others are left.
    Rest(Seq<u8>),
}

/// A block with an attribute gone.
pub open spec fn block_unset(v: Vol, n: u64, b: Seq<u8>, index: u8, name: Seq<u8>) -> Result<Leftover> {
    match block_attrs(b) {
        Err(e) => Err(e),
        Ok(attrs) => {
            let after = without_attr(attrs, index, name);
            if attr_index(attrs, index, name) is None {
                Ok(Leftover::Same)
            } else if any_outside(attrs) {
                Err(outside_error())
            } else if after.len() == 0 {
                Ok(Leftover::Nothing)
            } else if attrs_fit(after, 32, b.len() as int) {
                Ok(Leftover::Rest(block_stamped(v, n, block_with(after, b.len() as int))))
            } else {
                Err(Error::NoSpaceLeftOnDevice)
            }
        },
    }
}

pub(crate) proof fn lemma_with_storable(attrs: Seq<Attr>, index: u8, name: Seq<u8>, value: Seq<u8>, ordered: bool)
    requires
        storable_attrs(attrs),
        index > 0,
        name.len() <= 255,
        value.len() <= u32::MAX,
    ensures
        storable_attrs(with_attr(attrs, index, name, value, ordered)),
{
    lemma_without_storable(attrs, index, name);
    let rest = without_attr(attrs, index, name);
    let a = crate::xattr::new_attr(index, name, value);
    lemma_place_from(rest, a, 0);
    let after = with_attr(attrs, index, name, value, ordered);
    let p = if ordered {
        crate::xattr::place_from(rest, a, 0)
    } else {
        rest.len() as int
    };
    assert(after =~= rest.insert(p, a));
    assert forall|i: int| 0 <= i < after.len() implies storable_attr(#[trigger] after[i]) by {
        if i < p {
            assert(storable_attr(rest[i]));
        } else if i > p {
            assert(storable_attr(rest[i - 1]));
        }
    }
}

/// A value that is longer than a block does not fit.
proof fn lemma_long_value(attrs: Seq<Attr>, index: u8, name: Seq<u8>, value: Seq<u8>, ordered: bool, start: int, len: int)
    requires
        start >= 0,
        value.len() > len,
    ensures
        !attrs_fit(with_attr(attrs, index, name, value, ordered), start, len),
{
    let rest = without_attr(attrs, index, name);
    let a = crate::xattr::new_attr(index, name, value);
    lemma_place_from(rest, a, 0);
    let after = with_attr(attrs, index, name, value, ordered);
    let p = if ordered {
        crate::xattr::place_from(rest, a, 0)
    } else {
        rest.len() as int
    };
    assert(after =~= rest.insert(p, a));
    lemma_sizes(after);
    lemma_one_value(after, p);
}

proof fn lemma_one_value(attrs: Seq<Attr>, i: int)
    requires
        0 <= i < attrs.len(),
    ensures
        crate::xattr::values_size(attrs) >= attrs[i].value.len(),
    decreases attrs.len(),
{
    lemma_sizes(attrs.drop_last());
    if i < attrs.len() - 1 {
        lemma_one_value(attrs.drop_last(), i);
    }
}

proof fn lemma_region_storable(region: Seq<u8>)
    ensures
        region_attrs(region) matches Ok(attrs) ==> storable_attrs(attrs),
{
    lemma_read_storable(region, 4, 4);
}

proof fn lemma_block_storable(b: Seq<u8>)
    ensures
        block_attrs(b) matches Ok(attrs) ==> storable_attrs(attrs),
{
    lemma_read_storable(b, 0, 32);
}

fn set_in_region(region: &[u8], index: u8, name: &[u8], value: &[u8]) -> (r: Result<Vec<u8>>)
    requires
        region@.len() <= 0x1_0000,
        index > 0,
        name@.len() <= 255,
    ensures
        match r {
            Ok(b) => region_set(region@, index, name@, value@) == Ok::<Seq<u8>, Error>(b@) && b@.len()
                == region@.len(),
            Err(e) => region_set(region@, index, name@, value@) == Err::<Seq<u8>, Error>(e),
        },
{
    let mut attrs: Vec<XattrEntry> = match read_region(region) {
        Ok(a) => a,
        Err(e) => {
            return Err(e);
        },
    };
    let ghost was = attrs_view(attrs@);
    if has_outside(&attrs) {
        return Err(Error::Unsupported("xattr: an entry's value is in an inode of its own"));
    }
    if value.len() > region.len() {
        proof {
            lemma_long_value(was, index, name@, value@, false, 4, region@.len() as int);
        }
        return Err(Error::NoSpaceLeftOnDevice);
    }
    proof {
        lemma_region_storable(region@);
        lemma_with_storable(was, index, name@, value@, false);
    }
    set_attr(&mut attrs, index, name, value, false);
    match write_region(&attrs, region.len()) {
        Some(b) => Ok(b),
        None => Err(Error::NoSpaceLeftOnDevice),
    }
}

fn unset_in_region(region: &[u8], index: u8, name: &[u8]) -> (r: Result<Option<Vec<u8>>>)
    requires
        region@.len() <= 0x1_0000,
    ensures
        match r {
            Ok(Some(b)) => region_unset(region@, index, name@) == Ok::<Option<Seq<u8>>, Error>(Some(b@))
                && b@.len() == region@.len(),
            Ok(None) => region_unset(region@, index, name@) == Ok::<Option<Seq<u8>>, Error>(None),
            Err(e) => region_unset(region@, index, name@) == Err::<Option<Seq<u8>>, Error>(e),
        },
{
    let mut attrs: Vec<XattrEntry> = match read_region(region) {
        Ok(a) => a,
        Err(e) => {
            return Err(e);
        },
    };
    if find_attr(&attrs, index, name).is_none() {
        return Ok(None);
    }
    if has_outside(&attrs) {
        return Err(Error::Unsupported("xattr: an entry's value is in an inode of its own"));
    }
    proof {
        lemma_region_storable(region@);
        lemma_without_storable(attrs_view(attrs@), index, name@);
    }
    drop_attr(&mut attrs, index, name);
    match write_region(&attrs, region.len()) {
        Some(b) => Ok(Some(b)),
        None => Err(Error::NoSpaceLeftOnDevice),
    }
}

/// What removing an attribute did.
#[derive(Debug, Clone, Copy, PartialEq, Eq)]
pub enum RemoveOutcome {
    Removed,
    NotFound,
}

/// Set an attribute in an inode's own region, in place. A region that is left
/// as it was comes with the reason.
pub fn plan_set_in_inode_region(region: &mut Vec<u8>, name: &str, value: &[u8]) -> (r: Result<()>)
    requires
        old(region)@.len() <= 0x1_0000,
    ensures
        match name_parts(path_bytes(name)) {
            Err(e) => r == Err::<(), Error>(e) && final(region)@ == old(region)@,
            Ok((index, rest)) => match region_set(old(region)@, index, rest, value@) {
                Ok(b) => r is Ok && final(region)@ == b,
                Err(e) => r == Err::<(), Error>(e) && final(region)@ == old(region)@,
            },
        },
{
    let (index, rest): (u8, Vec<u8>) = match split_name(name.as_bytes()) {
        Ok(p) => p,
        Err(e) => {
            return Err(e);
        },
    };
    match set_in_region(region, index, &rest, value) {
        Ok(b) => {
            *region = b;
            Ok(())
        },
        Err(e) => Err(e),
    }
}

/// Remove an attribute from an inode's own region, in place.
pub fn plan_remove_in_inode_region(region: &mut Vec<u8>, name: &str) -> (r: Result<RemoveOutcome>)
    requires
        old(region)@.len() <= 0x1_0000,
    ensures
        match name_parts(path_bytes(name)) {
            Err(e) => r == Err::<RemoveOutcome, Error>(e) && final(region)@ == old(region)@,
            Ok((index, rest)) => match region_unset(old(region)@, index, rest) {
                Ok(Some(b)) => r == Ok::<RemoveOutcome, Error>(RemoveOutcome::Removed) && final(region)@ == b,
                Ok(None) => r == Ok::<RemoveOutcome, Error>(RemoveOutcome::NotFound) && final(region)@
                    == old(region)@,
                Err(e) => r == Err::<RemoveOutcome, Error>(e) && final(region)@ == old(region)@,
            },
        },
{
    let (index, rest): (u8, Vec<u8>) = match split_name(name.as_bytes()) {
        Ok(p) => p,
        Err(e) => {
            return Err(e);
        },
    };
    match unset_in_region(region, index, &rest) {
        Ok(Some(b)) => {
            *region = b;
            Ok(RemoveOutcome::Removed)
        },
        Ok(None) => Ok(RemoveOutcome::NotFound),
        Err(e) => Err(e),
    }
}

/// What is left of a block when an attribute goes, as bytes.
enum Left {
    Same,
    Nothing,
    Rest(Vec<u8>),
}

impl Left {
    spec fn leftover(&self) -> Leftover {
        match *self {
            Left::Same => Leftover::Same,
            Left::Nothing => Leftover::Nothing,
            Left::Rest(b) => Leftover::Rest(b@),
        }
    }
}

impl<D: BlockDevice> Filesystem<D> {
    fn set_in_block(&self, n: u64, b: &[u8], index: u8, name: &[u8], value: &[u8]) -> (r: Result<Vec<u8>>)
        requires
            1024 <= b@.len() <= 0x1_0000,
            index > 0,
            name@.len() <= 255,
        ensures
            match r {
                Ok(out) => block_set(self@, n, b@, index, name@, value@) == Ok::<Seq<u8>, Error>(out@)
                    && out@.len() == b@.len(),
                Err(e) => block_set(self@, n, b@, index, name@, value@) == Err::<Seq<u8>, Error>(e),
            },
    {
        let mut attrs: Vec<XattrEntry> = match read_block_attrs(b) {
            Ok(a) => a,
            Err(e) => {
                return Err(e);
            },
        };
        let ghost was = attrs_view(attrs@);
        if has_outside(&attrs) {
            return Err(Error::Unsupported("xattr: an entry's value is in an inode of its own"));
        }
        if value.len() > b.len() {
            proof {
                lemma_long_value(was, index, name@, value@, true, 32, b@.len() as int);
            }
            return Err(Error::NoSpaceLeftOnDevice);
        }
        proof {
            lemma_block_storable(b@);
            lemma_with_storable(was, index, name@, value@, true);
        }
        set_attr(&mut attrs, index, name, value, true);
        match write_block_attrs(&attrs, b.len()) {
            Some(out) => {
                let mut out: Vec<u8> = out;
                if self.csum.enabled {
                    self.csum.patch_xattr_block(n, &mut out);
                }
                Ok(out)
            },
            None => Err(Error::NoSpaceLeftOnDevice),
        }
    }

    fn unset_in_block(&self, n: u64, b: &[u8], index: u8, name: &[u8]) -> (r: Result<Left>)
        requires
            1024 <= b@.len() <= 0x1_0000,
        ensures
            match r {
                Ok(l) => block_unset(self@, n, b@, index, name@) == Ok::<Leftover, Error>(l.leftover()) && (
                l matches Left::Rest(out) ==> out@.len() == b@.len()),
                Err(e) => block_unset(self@, n, b@, index, name@) == Err::<Leftover, Error>(e),
            },
    {
        let mut attrs: Vec<XattrEntry> = match read_block_attrs(b) {
            Ok(a) => a,
            Err(e) => {
                return Err(e);
            },
        };
        if find_attr(&attrs, index, name).is_none() {
            return Ok(Left::Same);
        }
        if has_outside(&attrs) {
            return Err(Error::Unsupported("xattr: an entry's value is in an inode of its own"));
        }
        proof {
            lemma_block_storable(b@);
            lemma_without_storable(attrs_view(attrs@), index, name@);
        }
        drop_attr(&mut attrs, index, name);
        assert(attrs@.len() == attrs_view(attrs@).len());
        if attrs.len() == 0 {
            return Ok(Left::Nothing);
        }
        match write_block_attrs(&attrs, b.len()) {
            Some(out) => {
                let mut out: Vec<u8> = out;
                if self.csum.enabled {
                    self.csum.patch_xattr_block(n, &mut out);
                }
                Ok(Left::Rest(out))
            },
            None => Err(Error::NoSpaceLeftOnDevice),
        }
    }
}

// -- reading ----------------------------------------------------------------

/// The attributes in a record's own region, and those in its block behind
/// them.
pub open spec fn all_attrs(v: Vol, raw: Seq<u8>) -> Result<Seq<Attr>> {
    match region_attrs(attr_region(raw)) {
        Err(e) => Err(e),
        Ok(own) => if file_acl_of(raw) == 0 {
            Ok(own)
        } else {
            match v.block(file_acl_of(raw) as int) {
                Err(e) => Err(e),
                Ok(b) => match block_attrs(b) {
                    Err(e) => Err(e),
                    Ok(more) => Ok(own + more),
                },
            }
        },
    }
}

/// The attribute of a record that a name stands for, if there is one.
pub open spec fn found_attr(v: Vol, raw: Seq<u8>, name: Seq<u8>) -> Result<Option<Attr>> {
    match name_parts(name) {
        Err(e) => Err(e),
        Ok((index, rest)) => match all_attrs(v, raw) {
            Err(e) => Err(e),
            Ok(attrs) => match attr_index(attrs, index, rest) {
                None => Ok(None),
                Some(i) => Ok(Some(attrs[i])),
            },
        },
    }
}

impl<D: BlockDevice> Filesystem<D> {
    /// The attributes of an inode, those in its own region first.
    fn read_xattrs(&self, inode: &Inode, raw: &[u8]) -> (r: Result<Vec<XattrEntry>>)
        requires
            self.wf(),
            inode.decodes(raw@),
            128 <= raw@.len() <= 0x1_0000,
            128 + extra_isize_of(raw@) <= raw@.len(),
        ensures
            match r {
                Ok(a) => all_attrs(self@, raw@) == Ok::<Seq<Attr>, Error>(attrs_view(a@)),
                Err(e) => all_attrs(self@, raw@) == Err::<Seq<Attr>, Error>(e) || (!self.dev.healthy() && e
                    == Error::Io),
            },
    {
        let start: usize = region_start(raw);
        let region: Vec<u8> = copy_range(raw, start, raw.len());
        let mut own: Vec<XattrEntry> = match read_region(&region) {
            Ok(a) => a,
            Err(e) => {
                return Err(e);
            },
        };
        if inode.file_acl == 0 {
            return Ok(own);
        }
        let b: Vec<u8> = match self.read_block(inode.file_acl) {
            Ok(b) => b,
            Err(e) => {
                return Err(e);
            },
        };
        let mut more: Vec<XattrEntry> = match read_block_attrs(&b) {
            Ok(a) => a,
            Err(e) => {
                return Err(e);
            },
        };
        let ghost joined = attrs_view(own@) + attrs_view(more@);
        own.append(&mut more);
        assert(attrs_view(own@) =~= joined);
        Ok(own)
    }
}

/// The attributes of an inode as they are stored, those in its own region
/// first. A value in an inode of its own is not followed.
pub fn read_all<D: BlockDevice>(fs: &Filesystem<D>, inode: &Inode, raw: &[u8]) -> (r: Result<Vec<XattrEntry>>)
    requires
        fs.wf(),
        inode.decodes(raw@),
        128 <= raw@.len() <= 0x1_0000,
        128 + extra_isize_of(raw@) <= raw@.len(),
    ensures
        match r {
            Ok(a) => all_attrs(fs@, raw@) == Ok::<Seq<Attr>, Error>(attrs_view(a@)),
            Err(e) => all_attrs(fs@, raw@) == Err::<Seq<Attr>, Error>(e) || (!fs.dev.healthy() && e
                == Error::Io),
        },
{
    fs.read_xattrs(inode, raw)
}

/// An attribute with its value, wherever that is kept.
pub open spec fn followed(v: Vol, a: Attr, b: Attr, healthy: bool) -> bool {
    &&& b.index == a.index
    &&& b.name == a.name
    &&& b.inum == a.inum
    &&& b.size == a.size
    &&& b.hash == a.hash
    &&& if a.inum == 0 {
        b.value == a.value
    } else {
        value_agrees(v, a.inum, a.size, Ok(b.value), healthy)
    }
}

/// The value of an attribute can be had, wherever it is kept.
pub open spec fn value_found(v: Vol, a: Attr, healthy: bool) -> bool {
    a.inum != 0 ==> exists|b: Seq<u8>| #[trigger] value_agrees(v, a.inum, a.size, Ok(b), healthy)
}

/// The first value that cannot be had is kept in an inode of its own, and fails
/// for this reason.
pub open spec fn some_value_fails(v: Vol, attrs: Seq<Attr>, e: Error, healthy: bool) -> bool {
    exists|i: int|
        0 <= i < attrs.len() && (#[trigger] attrs[i]).inum != 0 && value_agrees(
            v,
            attrs[i].inum,
            attrs[i].size,
            Err(e),
            healthy,
        ) && forall|k: int| 0 <= k < i ==> value_found(v, #[trigger] attrs[k], healthy)
}

/// The attributes of an inode, each with its value wherever that is kept.
pub fn read_all_resolved<D: BlockDevice>(fs: &Filesystem<D>, inode: &Inode, raw: &[u8]) -> (r: Result<
    Vec<XattrEntry>,
>)
    requires
        fs.wf(),
        inode.decodes(raw@),
        128 <= raw@.len() <= 0x1_0000,
        128 + extra_isize_of(raw@) <= raw@.len(),
    ensures
        match r {
            Ok(list) => all_attrs(fs@, raw@) matches Ok(attrs) && list@.len() == attrs.len() && forall|i: int|
                0 <= i < attrs.len() ==> followed(fs@, #[trigger] attrs[i], list@[i]@, fs.dev.healthy()),
            Err(e) => all_attrs(fs@, raw@) == Err::<Seq<Attr>, Error>(e) || (!fs.dev.healthy() && e
                == Error::Io) || (all_attrs(fs@, raw@) matches Ok(attrs) && some_value_fails(
                fs@,
                attrs,
                e,
                fs.dev.healthy(),
            )),
        },
{
    let mut list: Vec<XattrEntry> = match fs.read_xattrs(inode, raw) {
        Ok(a) => a,
        Err(e) => {
            return Err(e);
        },
    };
    let ghost attrs = attrs_view(list@);
    let mut i: usize = 0;
    while i < list.len()
        invariant
            fs.wf(),
            i <= list@.len(),
            list@.len() == attrs.len(),
            all_attrs(fs@, raw@) == Ok::<Seq<Attr>, Error>(attrs),
            forall|k: int|
                0 <= k < i ==> followed(fs@, #[trigger] attrs[k], list@[k]@, fs.dev.healthy()),
            forall|k: int| i <= k < attrs.len() ==> #[trigger] attrs[k] == list@[k]@,
        decreases list@.len() - i,
    {
        let inum: u32 = list[i].inum;
        let size: u32 = list[i].size;
        assert(attrs[i as int] == list@[i as int]@);
        if inum != 0 {
            let value: Vec<u8> = match read_value_inode(fs, inum, size) {
                Ok(b) => b,
                Err(e) => {
                    assert(attrs[i as int].inum != 0 && value_agrees(
                        fs@,
                        attrs[i as int].inum,
                        attrs[i as int].size,
                        Err::<Seq<u8>, Error>(e),
                        fs.dev.healthy(),
                    ));
                    assert forall|k: int| 0 <= k < i implies value_found(
                        fs@,
                        #[trigger] attrs[k],
                        fs.dev.healthy(),
                    ) by {
                        assert(followed(fs@, attrs[k], list@[k]@, fs.dev.healthy()));
                    }
                    assert(some_value_fails(fs@, attrs, e, fs.dev.healthy()));
                    return Err(e);
                },
            };
            let index: u8 = list[i].index;
            let hash: u32 = list[i].hash;
            let name: Vec<u8> = copy_range(&list[i].name, 0, list[i].name.len());
            assert(name@ =~= list@[i as int].name@);
            list.set(i, XattrEntry { index, name, value, inum, size, hash });
        }
        i += 1;
    }
    Ok(list)
}

/// The value of the extended attribute `name` of an inode, wherever it is
/// kept; `None` where there is no such attribute. Of two with one name the one
/// in the inode's own region counts.
pub fn get_resolved<D: BlockDevice>(fs: &Filesystem<D>, inode: &Inode, raw: &[u8], name: &str) -> (r: Result<
    Option<Vec<u8>>,
>)
    requires
        fs.wf(),
        inode.decodes(raw@),
        128 <= raw@.len() <= 0x1_0000,
        128 + extra_isize_of(raw@) <= raw@.len(),
    ensures
        (!fs.dev.healthy() && r == Err::<Option<Vec<u8>>, Error>(Error::Io)) || (match found_attr(
            fs@,
            raw@,
            path_bytes(name),
        ) {
            Err(e) => r == Err::<Option<Vec<u8>>, Error>(e),
            Ok(None) => r matches Ok(None),
            Ok(Some(a)) => if a.inum == 0 {
                r matches Ok(Some(b)) && b@ == a.value
            } else {
                value_agrees(
                    fs@,
                    a.inum,
                    a.size,
                    match r {
                        Ok(Some(b)) => Ok(b@),
                        Ok(None) => Ok(Seq::empty()),
                        Err(e) => Err(e),
                    },
                    fs.dev.healthy(),
                ) && !(r matches Ok(None))
            },
        }),
{
    let (index, rest): (u8, Vec<u8>) = match split_name(name.as_bytes()) {
        Ok(p) => p,
        Err(e) => {
            return Err(e);
        },
    };
    let attrs: Vec<XattrEntry> = match fs.read_xattrs(inode, raw) {
        Ok(a) => a,
        Err(e) => {
            return Err(e);
        },
    };
    match find_attr(&attrs, index, &rest) {
        None => Ok(None),
        Some(i) => {
            let a: &XattrEntry = &attrs[i];
            if a.inum != 0 {
                return match read_value_inode(fs, a.inum, a.size) {
                    Ok(b) => Ok(Some(b)),
                    Err(e) => Err(e),
                };
            }
            let value: Vec<u8> = copy_range(&a.value, 0, a.value.len());
            assert(value@ =~= a.value@);
            Ok(Some(value))
        },
    }
}

// -- setting ----------------------------------------------------------------

/// A record with its own attribute region replaced.
pub open spec fn with_region(raw: Seq<u8>, region: Seq<u8>) -> Seq<u8> {
    splice(raw, 128 + extra_isize_of(raw), region)
}

/// A record as a change to its attribute block leaves it.
pub open spec fn retimed(v: Vol, ino: u32, raw: Seq<u8>, now: u32) -> Seq<u8> {
    v.csum.stamp_inode_spec(ino, generation_of(raw), put32(raw, 0x0C, now))
}

/// What setting an attribute in the block behind a record comes to: the block
/// is rewritten, or one is taken where there is none.
pub open spec fn set_outside(
    v: Vol,
    ino: u32,
    raw: Seq<u8>,
    index: u8,
    name: Seq<u8>,
    value: Seq<u8>,
    now: u32,
) -> Result<Stage> {
    let acl = file_acl_of(raw);
    if acl != 0 {
        match v.block(acl as int) {
            Err(e) => Err(e),
            Ok(b) => match block_set(v, acl, b, index, name, value) {
                Err(e) => Err(e),
                Ok(out) => match stage_fresh(v, fresh_stage(v), acl, out) {
                    Err(e) => Err(e),
                    Ok(st) => stage_inode(v, st, ino, retimed(v, ino, raw, now)),
                },
            },
        }
    } else {
        match volume_plan(v, 1, home_group(v, ino), Seq::empty()) {
            Err(e) => Err(e),
            Ok(plan) => match block_set(
                v,
                plan.first_block,
                zeros(v.bs() as nat),
                index,
                name,
                value,
            ) {
                Err(e) => Err(e),
                Ok(out) => match stage_fresh(v, fresh_stage(v), plan.first_block, out) {
                    Err(e) => Err(e),
                    Ok(st1) => match stage_block_plan(v, st1, plan) {
                        Err(e) => Err(e),
                        Ok(st2) => match with_file_acl(raw, plan.first_block) {
                            Err(e) => Err(e),
                            Ok(pointed) => stage_inode(
                                v,
                                st2,
                                ino,
                                retimed(
                                    v,
                                    ino,
                                    with_size_and_blocks(
                                        pointed,
                                        size_of_file(raw),
                                        (sectors_of(raw) + v.bs() / 512) as u64,
                                    ),
                                    now,
                                ),
                            ),
                        },
                    },
                },
            },
        }
    }
}

/// What setting an attribute comes to: in the record's own region if it fits
/// there, else in a block, and then not in the region too.
pub open spec fn set_stage(v: Vol, path: Seq<u8>, name: Seq<u8>, value: Seq<u8>, now: u32) -> Result<Stage> {
    match inode_at(v, path) {
        Err(e) => Err(e),
        Ok((ino, raw)) => match name_parts(name) {
            Err(e) => Err(e),
            Ok((index, rest)) => {
                let region = attr_region(raw);
                if region.len() < 8 {
                    set_outside(v, ino, raw, index, rest, value, now)
                } else {
                    match region_set(region, index, rest, value) {
                        Ok(out) => stage_inode(
                            v,
                            fresh_stage(v),
                            ino,
                            v.csum.stamp_inode_spec(ino, generation_of(raw), with_region(raw, out)),
                        ),
                        Err(Error::NoSpaceLeftOnDevice) => match region_unset(region, index, rest) {
                            Err(e) => Err(e),
                            Ok(None) => set_outside(v, ino, raw, index, rest, value, now),
                            Ok(Some(left)) => set_outside(
                                v,
                                ino,
                                with_region(raw, left),
                                index,
                                rest,
                                value,
                                now,
                            ),
                        },
                        Err(e) => Err(e),
                    }
                }
            },
        },
    }
}

/// What removing an attribute from the block behind a record comes to. A block
/// with nothing left in it is released.
pub open spec fn unset_outside(v: Vol, ino: u32, raw: Seq<u8>, index: u8, name: Seq<u8>, now: u32) -> Result<Stage> {
    let acl = file_acl_of(raw);
    if acl == 0 {
        Err(Error::NotFound)
    } else {
        match v.block(acl as int) {
            Err(e) => Err(e),
            Ok(b) => match block_unset(v, acl, b, index, name) {
                Err(e) => Err(e),
                Ok(Leftover::Same) => Err(Error::NotFound),
                Ok(Leftover::Rest(out)) => match stage_fresh(v, fresh_stage(v), acl, out) {
                    Err(e) => Err(e),
                    Ok(st) => stage_inode(v, st, ino, retimed(v, ino, raw, now)),
                },
                Ok(Leftover::Nothing) => match stage_free_blocks(v, fresh_stage(v), acl, 1) {
                    Err(e) => Err(e),
                    Ok(st1) => match stage_totals(v, st1, 1, 0) {
                        Err(e) => Err(e),
                        Ok(st2) => match with_file_acl(raw, 0) {
                            Err(e) => Err(e),
                            Ok(pointed) => stage_inode(
                                v,
                                st2,
                                ino,
                                retimed(
                                    v,
                                    ino,
                                    with_size_and_blocks(
                                        pointed,
                                        size_of_file(raw),
                                        less(sectors_of(raw), v.bs() / 512),
                                    ),
                                    now,
                                ),
                            ),
                        },
                    },
                },
            },
        }
    }
}

/// What removing an attribute comes to: from the record's own region, else
/// from the block behind it.
pub open spec fn unset_stage(v: Vol, path: Seq<u8>, name: Seq<u8>, now: u32) -> Result<Stage> {
    match inode_at(v, path) {
        Err(e) => Err(e),
        Ok((ino, raw)) => match name_parts(name) {
            Err(e) => Err(e),
            Ok((index, rest)) => match region_unset(attr_region(raw), index, rest) {
                Err(e) => Err(e),
                Ok(Some(left)) => stage_inode(
                    v,
                    fresh_stage(v),
                    ino,
                    v.csum.stamp_inode_spec(ino, generation_of(raw), with_region(raw, left)),
                ),
                Ok(None) => unset_outside(v, ino, raw, index, rest, now),
            },
        },
    }
}

/// A change of the attribute region leaves the rest of the record alone.
pub proof fn lemma_region_apart(raw: Seq<u8>, region: Seq<u8>)
    requires
        raw.len() >= 128,
        128 + extra_isize_of(raw) + region.len() == raw.len(),
    ensures
        with_region(raw, region).len() == raw.len(),
        generation_of(with_region(raw, region)) == generation_of(raw),
        size_of_file(with_region(raw, region)) == size_of_file(raw),
        sectors_of(with_region(raw, region)) == sectors_of(raw),
        file_acl_of(with_region(raw, region)) == file_acl_of(raw),
        extra_isize_of(raw) >= 0,
        extra_isize_of(raw) >= 4 || raw.len() < 132 ==> extra_isize_of(with_region(raw, region))
            == extra_isize_of(raw) && attr_region(with_region(raw, region)) == region,
{
    reveal(crate::bytes::le16);
    reveal(crate::bytes::le32);
    let t = with_region(raw, region);
    if extra_isize_of(raw) >= 4 || raw.len() < 132 {
        assert(attr_region(t) =~= region);
    }
}

impl<D: BlockDevice> Filesystem<D> {
    /// Stage an attribute in the block behind a record: `raw` is the record,
    /// `inode` what its fixed part says.
    fn buffer_set_outside(
        &self,
        buf: &mut BlockBuffer,
        ino: u32,
        inode: &Inode,
        raw: Vec<u8>,
        index: u8,
        name: &[u8],
        value: &[u8],
        now: u32,
    ) -> (r: Result<()>)
        requires
            self.wf(),
            old(buf).wf(self@),
            old(buf).stage(self@) == fresh_stage(self@),
            ino > 0,
            raw@.len() == self.sb.inode_size,
            inode.file_acl == file_acl_of(raw@),
            inode.generation == generation_of(raw@),
            inode.size == size_of_file(raw@),
            inode.blocks == sectors_of(raw@),
            index > 0,
            name@.len() <= 255,
        ensures
            final(buf).wf(self@),
            crate::stage::staged(
                set_outside(self@, ino, raw@, index, name@, value@, now),
                r,
                final(buf).stage(self@),
                self.dev.healthy(),
            ),
    {
        let mut out: Vec<u8> = raw;
        let bs: u64 = self.sb.block_size() as u64;
        if inode.file_acl != 0 {
            let b: Vec<u8> = match self.read_block(inode.file_acl) {
                Ok(b) => b,
                Err(e) => {
                    return Err(e);
                },
            };
            let block: Vec<u8> = match self.set_in_block(inode.file_acl, &b, index, name, value) {
                Ok(b) => b,
                Err(e) => {
                    return Err(e);
                },
            };
            if let Err(e) = self.buffer_put_fresh(buf, inode.file_acl, block) {
                return Err(e);
            }
        } else {
            let none: Vec<u64> = Vec::new();
            assert(none@ =~= Seq::<u64>::empty());
            let plan: BlockAllocationPlan = match self.plan_blocks(
                1,
                (ino - 1) / self.sb.inodes_per_group,
                &none,
            ) {
                Ok(p) => p,
                Err(e) => {
                    return Err(e);
                },
            };
            let empty: Vec<u8> = crate::bytes::zeroed(bs as usize);
            let block: Vec<u8> = match self.set_in_block(plan.first_block, &empty, index, name, value) {
                Ok(b) => b,
                Err(e) => {
                    return Err(e);
                },
            };
            if let Err(e) = self.buffer_put_fresh(buf, plan.first_block, block) {
                return Err(e);
            }
            if let Err(e) = self.buffer_apply_block_plan(buf, &plan) {
                return Err(e);
            }
            if let Err(e) = Self::write_file_acl(&mut out, plan.first_block) {
                return Err(e);
            }
            let patched = Self::patch_inode_size_and_blocks(
                &mut out,
                inode.size,
                inode.blocks + bs / 512,
            );
        }
        set_u32(&mut out, 0x0C, now);
        self.finalize_inode_raw(ino, inode.generation, &mut out);
        self.buffer_write_inode(buf, ino, &out)
    }

    fn buffer_set(&self, buf: &mut BlockBuffer, path: &str, name: &str, value: &[u8], now: u32) -> (r: Result<()>)
        requires
            self.wf(),
            old(buf).wf(self@),
            old(buf).stage(self@) == fresh_stage(self@),
        ensures
            final(buf).wf(self@),
            crate::stage::staged(
                set_stage(self@, path_bytes(path), path_bytes(name), value@, now),
                r,
                final(buf).stage(self@),
                self.dev.healthy(),
            ),
    {
        let (ino, inode, raw): (u32, Inode, Vec<u8>) = match self.inode_at_path(path.as_bytes()) {
            Ok(p) => p,
            Err(e) => {
                return Err(e);
            },
        };
        let (index, rest): (u8, Vec<u8>) = match split_name(name.as_bytes()) {
            Ok(p) => p,
            Err(e) => {
                return Err(e);
            },
        };
        let start: usize = region_start(&raw);
        let region: Vec<u8> = copy_range(&raw, start, raw.len());
        let mut out: Vec<u8> = raw;
        let ghost raw0 = out@;
        if region.len() < 8 {
            return self.buffer_set_outside(buf, ino, &inode, out, index, &rest, value, now);
        }
        match set_in_region(&region, index, &rest, value) {
            Ok(b) => {
                overlay(&mut out, start, &b);
                self.finalize_inode_raw(ino, inode.generation, &mut out);
                self.buffer_write_inode(buf, ino, &out)
            },
            Err(Error::NoSpaceLeftOnDevice) => match unset_in_region(&region, index, &rest) {
                Err(e) => Err(e),
                Ok(None) => self.buffer_set_outside(buf, ino, &inode, out, index, &rest, value, now),
                Ok(Some(left)) => {
                    overlay(&mut out, start, &left);
                    proof {
                        lemma_region_apart(raw0, left@);
                    }
                    self.buffer_set_outside(buf, ino, &inode, out, index, &rest, value, now)
                },
            },
            Err(e) => Err(e),
        }
    }

    /// Set (create or replace) the extended attribute `name` with `value` on
    /// the inode at `path`. `name` must carry a known namespace prefix.
    ///
    /// The inode's own region is tried first. Where that is full the attribute
    /// goes to the block that `i_file_acl` names, taken afresh where there is
    /// none; where not even a whole block can hold it,
    /// `Error::NoSpaceLeftOnDevice`.
    pub fn apply_setxattr(&mut self, path: &str, name: &str, value: &[u8], now: u32) -> (r: Result<()>)
        requires
            old(self).wf(),
        ensures
            final(self).wf(),
            same_mount(*final(self), *old(self)),
            came_out(
                unless_refused(
                    old(self).takes_writes(),
                    old(self)@,
                    done(
                        old(self)@,
                        unit_stage(
                            set_stage(old(self)@, path_bytes(path), path_bytes(name), value@, now),
                        ),
                    ),
                ),
                r,
                final(self)@,
                old(self).dev.healthy(),
            ),
            r matches Err(Error::Io) ==> only_in(
                old(self)@,
                final(self)@,
                stage_blocks(unit_stage(set_stage(old(self)@, path_bytes(path), path_bytes(name), value@, now))),
            ),
    {
        if let Err(e) = self.refuse_write() {
            return Err(e);
        }
        let mut buf: BlockBuffer = BlockBuffer::new(self.sb.block_size());
        assert(buf.wf(self@));
        if let Err(e) = self.buffer_set(&mut buf, path, name, value, now) {
            return Err(e);
        }
        self.commit_block_buffer(buf)
    }

    fn buffer_unset_outside(
        &self,
        buf: &mut BlockBuffer,
        ino: u32,
        inode: &Inode,
        raw: Vec<u8>,
        index: u8,
        name: &[u8],
        now: u32,
    ) -> (r: Result<()>)
        requires
            self.wf(),
            old(buf).wf(self@),
            old(buf).stage(self@) == fresh_stage(self@),
            raw@.len() == self.sb.inode_size,
            inode.decodes(raw@),
        ensures
            final(buf).wf(self@),
            crate::stage::staged(
                unset_outside(self@, ino, raw@, index, name@, now),
                r,
                final(buf).stage(self@),
                self.dev.healthy(),
            ),
    {
        let acl: u64 = inode.file_acl;
        if acl == 0 {
            return Err(Error::NotFound);
        }
        let b: Vec<u8> = match self.read_block(acl) {
            Ok(b) => b,
            Err(e) => {
                return Err(e);
            },
        };
        let mut out: Vec<u8> = raw;
        match self.unset_in_block(acl, &b, index, name) {
            Err(e) => {
                return Err(e);
            },
            Ok(Left::Same) => {
                return Err(Error::NotFound);
            },
            Ok(Left::Rest(block)) => {
                if let Err(e) = self.buffer_put_fresh(buf, acl, block) {
                    return Err(e);
                }
            },
            Ok(Left::Nothing) => {
                if let Err(e) = self.buffer_free_block_run_and_bgd(buf, acl, 1) {
                    return Err(e);
                }
                if let Err(e) = self.buffer_patch_sb_counters(buf, 1, 0) {
                    return Err(e);
                }
                if let Err(e) = Self::write_file_acl(&mut out, 0) {
                    return Err(e);
                }
                let per: u64 = self.sb.block_size() as u64 / 512;
                let left: u64 = if inode.blocks < per {
                    0
                } else {
                    inode.blocks - per
                };
                let patched = Self::patch_inode_size_and_blocks(&mut out, inode.size, left);
            },
        }
        set_u32(&mut out, 0x0C, now);
        self.finalize_inode_raw(ino, inode.generation, &mut out);
        self.buffer_write_inode(buf, ino, &out)
    }

    fn buffer_unset(&self, buf: &mut BlockBuffer, path: &str, name: &str, now: u32) -> (r: Result<()>)
        requires
            self.wf(),
            old(buf).wf(self@),
            old(buf).stage(self@) == fresh_stage(self@),
        ensures
            final(buf).wf(self@),
            crate::stage::staged(
                unset_stage(self@, path_bytes(path), path_bytes(name), now),
                r,
                final(buf).stage(self@),
                self.dev.healthy(),
            ),
    {
        let (ino, inode, raw): (u32, Inode, Vec<u8>) = match self.inode_at_path(path.as_bytes()) {
            Ok(p) => p,
            Err(e) => {
                return Err(e);
            },
        };
        let (index, rest): (u8, Vec<u8>) = match split_name(name.as_bytes()) {
            Ok(p) => p,
            Err(e) => {
                return Err(e);
            },
        };
        let start: usize = region_start(&raw);
        let region: Vec<u8> = copy_range(&raw, start, raw.len());
        let mut out: Vec<u8> = raw;
        match unset_in_region(&region, index, &rest) {
            Err(e) => Err(e),
            Ok(Some(left)) => {
                overlay(&mut out, start, &left);
                self.finalize_inode_raw(ino, inode.generation, &mut out);
                self.buffer_write_inode(buf, ino, &out)
            },
            Ok(None) => self.buffer_unset_outside(buf, ino, &inode, out, index, &rest, now),
        }
    }

    /// Remove the extended attribute named `name` from the inode at `path`:
    /// from the inode's own region, else from its attribute block. A block
    /// that is empty after that is freed. `Error::NotFound` where neither has
    /// it.
    pub fn apply_removexattr(&mut self, path: &str, name: &str, now: u32) -> (r: Result<()>)
        requires
            old(self).wf(),
        ensures
            final(self).wf(),
            same_mount(*final(self), *old(self)),
            came_out(
                unless_refused(
                    old(self).takes_writes(),
                    old(self)@,
                    done(
                        old(self)@,
                        unit_stage(
                            unset_stage(old(self)@, path_bytes(path), path_bytes(name), now),
                        ),
                    ),
                ),
                r,
                final(self)@,
                old(self).dev.healthy(),
            ),
            r matches Err(Error::Io) ==> only_in(
                old(self)@,
                final(self)@,
                stage_blocks(unit_stage(unset_stage(old(self)@, path_bytes(path), path_bytes(name), now))),
            ),
    {
        if let Err(e) = self.refuse_write() {
            return Err(e);
        }
        let mut buf: BlockBuffer = BlockBuffer::new(self.sb.block_size());
        assert(buf.wf(self@));
        if let Err(e) = self.buffer_unset(&mut buf, path, name, now) {
            return Err(e);
        }
        self.commit_block_buffer(buf)
    }
}

} // verus!
