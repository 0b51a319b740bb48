//! Renaming.
use crate::attr::{path_bytes, unless_refused};
use crate::block_io::BlockDevice;
use crate::bytes::{copy_range, same_bytes};
use crate::commit::{came_out, committed, done, only_in, same_mount, stage_blocks, unit_stage};
use crate::dir::{is_dots, DirEntryType};
use crate::dirops::{
    component_end, dir_empty_from, find_entry, lemma_component_end, parent_and_base, resolve, split_parent_and_base,
    stage_add_entry, stage_dotdot, stage_remove_from, walk_from, EXT4_ROOT_INODE, NAME_MAX, SLASH,
};
use crate::entry_laws::lemma_named_dir;
use crate::error::{Error, Result};
use crate::fs::{checked_inode, Filesystem};
use crate::grow::{extend_cut, extend_dir};
use crate::inode::{links_of, mode_is_dir, mode_is_file, mode_is_symlink, mode_of, Inode};
use crate::names::{dir_runs, file_runs, stage_links, stage_reap};
use crate::stage::staged;
use crate::volume::{fresh_stage, BlockBuffer, Stage, Vol};
use vstd::prelude::*;
use vstd::string::*;

verus! {

/// One end of a rename: the directory, its record and the name in it.
pub struct End {
    pub dir: u32,
    pub raw: Seq<u8>,
    pub name: Seq<u8>,
}

/// A rename that nothing forbids.
pub struct Move {
    pub src: End,
    pub dst: End,
    pub ino: u32,
    pub raw: Seq<u8>,
    /// The inode that has the new name now, with its record.
    pub replaced: Option<(u32, Seq<u8>)>,
}

/// What a rename turns out to be.
pub enum Intent {
    /// Nothing is to be done.
    Nothing,
    Move(Move),
}

/// Whether the rest of a path, from inode `d` on, leads through inode `ino` or
/// to it.
pub open spec fn passes(v: Vol, path: Seq<u8>, at: int, d: u32, ino: u32) -> bool
    decreases path.len() - at via passes_decreases
{
    if d == ino {
        true
    } else if at < 0 || at >= path.len() {
        false
    } else if path[at] == SLASH {
        passes(v, path, at + 1, d, ino)
    } else {
        match checked_inode(v, d) {
            Err(_) => false,
            Ok(raw) => mode_is_dir(mode_of(raw)) && match find_entry(v, d, raw, path.subrange(at, component_end(path, at))) {
                Err(_) => false,
                Ok(child) => passes(v, path, component_end(path, at), child, ino),
            },
        }
    }
}

#[via_fn]
proof fn passes_decreases(v: Vol, path: Seq<u8>, at: int, d: u32, ino: u32) {
    if 0 <= at < path.len() {
        lemma_component_end(path, at);
    }
}

/// Whether the way to a path goes through inode `ino`: a directory that is
/// moved there would be moved into itself, or below itself.
pub open spec fn leads_below(v: Vol, path: Seq<u8>, ino: u32) -> bool {
    passes(v, parent_and_base(path)->Ok_0.0, 0, EXT4_ROOT_INODE, ino)
}

/// The entry type that a moved file's entry gets.
pub open spec fn moved_type(mode: u16) -> DirEntryType {
    if mode_is_file(mode) {
        DirEntryType::RegFile
    } else if mode_is_dir(mode) {
        DirEntryType::Directory
    } else if mode_is_symlink(mode) {
        DirEntryType::Symlink
    } else {
        DirEntryType::Unknown
    }
}

/// The two ends of a rename.
pub open spec fn rename_ends(v: Vol, src: Seq<u8>, dst: Seq<u8>) -> Result<(End, End)> {
    match parent_and_base(src) {
        Err(e) => Err(e),
        Ok((sp, sname)) => match parent_and_base(dst) {
            Err(e) => Err(e),
            Ok((dp, dname)) => if dname.len() > NAME_MAX {
                Err(Error::NameTooLong)
            } else {
                match resolve(v, sp) {
                    Err(e) => Err(e),
                    Ok(sdir) => match resolve(v, dp) {
                        Err(e) => Err(e),
                        Ok(ddir) => match checked_inode(v, sdir) {
                            Err(e) => Err(e),
                            Ok(sraw) => match checked_inode(v, ddir) {
                                Err(e) => Err(e),
                                Ok(draw) => if !mode_is_dir(mode_of(sraw)) || !mode_is_dir(
                                    mode_of(draw),
                                ) {
                                    Err(Error::NotADirectory)
                                } else {
                                    Ok(
                                        (
                                            End { dir: sdir, raw: sraw, name: sname },
                                            End { dir: ddir, raw: draw, name: dname },
                                        ),
                                    )
                                },
                            },
                        },
                    },
                }
            },
        },
    }
}

/// Whether one file may take another's name: both directories or neither, and
/// a directory only an empty one's.
pub open spec fn may_replace(v: Vol, raw: Seq<u8>, old: u32, oraw: Seq<u8>) -> Result<()> {
    let src_dir = mode_is_dir(mode_of(raw));
    let dst_dir = mode_is_dir(mode_of(oraw));
    if !src_dir && dst_dir {
        Err(Error::IsADirectory)
    } else if src_dir && !dst_dir {
        Err(Error::NotADirectory)
    } else if dst_dir {
        match dir_empty_from(v, old, oraw, 0) {
            Err(e) => Err(e),
            Ok(false) => Err(Error::DirectoryNotEmpty),
            Ok(true) => Ok(()),
        }
    } else {
        Ok(())
    }
}

/// What is to be moved where, or why it may not be.
pub open spec fn rename_intent(v: Vol, src: Seq<u8>, dst: Seq<u8>, replace: bool) -> Result<Intent> {
    if src == dst {
        Ok(Intent::Nothing)
    } else {
        match rename_ends(v, src, dst) {
            Err(e) => Err(e),
            Ok((s, d)) => match find_entry(v, s.dir, s.raw, s.name) {
                Err(e) => Err(e),
                Ok(ino) => {
                    let found = find_entry(v, d.dir, d.raw, d.name);
                    if found is Err && found->Err_0 != Error::NotFound {
                        Err(found->Err_0)
                    } else if found is Ok && !replace {
                        Err(Error::AlreadyExists)
                    } else {
                        match checked_inode(v, ino) {
                            Err(e) => Err(e),
                            Ok(raw) => if mode_is_dir(mode_of(raw)) && leads_below(v, dst, ino) {
                                Err(
                                    Error::InvalidArgument(
                                        "rename: cannot move directory into its own subtree",
                                    ),
                                )
                            } else {
                                match found {
                                    Err(_) => Ok(
                                        Intent::Move(
                                            Move { src: s, dst: d, ino, raw, replaced: None },
                                        ),
                                    ),
                                    Ok(old) => if old == ino {
                                        Ok(Intent::Nothing)
                                    } else {
                                        match checked_inode(v, old) {
                                            Err(e) => Err(e),
                                            Ok(oraw) => match may_replace(v, raw, old, oraw) {
                                                Err(e) => Err(e),
                                                Ok(_) => Ok(
                                                    Intent::Move(
                                                        Move {
                                                            src: s,
                                                            dst: d,
                                                            ino,
                                                            raw,
                                                            replaced: Some((old, oraw)),
                                                        },
                                                    ),
                                                ),
                                            },
                                        }
                                    },
                                }
                            },
                        }
                    }
                },
            },
        }
    }
}

/// The stage with a directory's link count moved; a count that stays is not
/// written.
pub open spec fn stage_link_delta(v: Vol, st: Stage, ino: u32, delta: int) -> Result<Stage> {
    if delta == 0 {
        Ok(st)
    } else {
        match checked_inode(v, ino) {
            Err(e) => Err(e),
            Ok(raw) => stage_links(v, st, ino, raw, delta),
        }
    }
}

/// The stage with the link counts of both directories moved, each read and
/// written once, in the order of their numbers.
pub open spec fn stage_link_deltas(v: Vol, st: Stage, a: u32, da: int, b: u32, db: int) -> Result<Stage> {
    if a == b {
        stage_link_delta(v, st, a, da + db)
    } else if a < b {
        match stage_link_delta(v, st, a, da) {
            Err(e) => Err(e),
            Ok(st1) => stage_link_delta(v, st1, b, db),
        }
    } else {
        match stage_link_delta(v, st, b, db) {
            Err(e) => Err(e),
            Ok(st1) => stage_link_delta(v, st1, a, da),
        }
    }
}

/// The runs of a replaced inode.
pub open spec fn replaced_runs(v: Vol, raw: Seq<u8>) -> Result<Seq<(u64, u32)>> {
    if mode_is_dir(mode_of(raw)) {
        dir_runs(v, raw)
    } else {
        file_runs(v, raw)
    }
}

/// The stage with the replaced inode one link poorer: a directory, or a file
/// with no link left, is gone.
pub open spec fn stage_replaced(v: Vol, st: Stage, ino: u32, raw: Seq<u8>, now: u32) -> Result<Stage> {
    let dir = mode_is_dir(mode_of(raw));
    if links_of(raw) > 1 && !dir {
        stage_links(v, st, ino, raw, -1)
    } else {
        match replaced_runs(v, raw) {
            Err(e) => Err(e),
            Ok(runs) => stage_reap(v, st, ino, raw, runs, dir, now),
        }
    }
}

/// Whether a move takes a directory from one parent to another.
pub open spec fn changes_parent(m: Move) -> bool {
    mode_is_dir(mode_of(m.raw)) && m.src.dir != m.dst.dir
}

/// By how much the new parent's link count changes.
pub open spec fn dst_links(m: Move) -> int {
    (if changes_parent(m) {
        1int
    } else {
        0
    }) - (match m.replaced {
        Some((_, oraw)) => if mode_is_dir(mode_of(oraw)) {
            1int
        } else {
            0
        },
        None => 0,
    })
}

/// By how much the old parent's link count changes.
pub open spec fn src_links(m: Move) -> int {
    if changes_parent(m) {
        -1
    } else {
        0
    }
}

/// The second half of a rename, once the new entry is in: the old entry goes,
/// a moved directory's `..` follows, the replaced inode loses its link, and the
/// parents' link counts are set right.
pub open spec fn stage_move_rest(v: Vol, st: Stage, m: Move, now: u32) -> Result<Stage> {
    match stage_remove_from(v, st, m.src.dir, m.src.raw, m.src.name, 0) {
        Err(e) => Err(e),
        Ok(st1) => match (if changes_parent(m) {
            stage_dotdot(v, st1, m.ino, m.raw, m.dst.dir)
        } else {
            Ok(st1)
        }) {
            Err(e) => Err(e),
            Ok(st2) => match (match m.replaced {
                Some((old, oraw)) => stage_replaced(v, st2, old, oraw, now),
                None => Ok(st2),
            }) {
                Err(e) => Err(e),
                Ok(st3) => stage_link_deltas(
                    v,
                    st3,
                    m.src.dir,
                    src_links(m),
                    m.dst.dir,
                    dst_links(m),
                ),
            },
        },
    }
}

/// The stage before the new entry is added: the entry it replaces is gone.
pub open spec fn stage_make_way(v: Vol, m: Move) -> Result<Stage> {
    match m.replaced {
        Some(_) => stage_remove_from(v, fresh_stage(v), m.dst.dir, m.dst.raw, m.dst.name, 0),
        None => Ok(fresh_stage(v)),
    }
}

/// What carrying out a move comes to: one commit, unless the directory it
/// goes to has to grow, which splits it in two with the growth between them.
pub open spec fn moved(v: Vol, m: Move, now: u32) -> (Vol, Result<()>) {
    match stage_make_way(v, m) {
        Err(e) => (v, Err(e)),
        Ok(st) => match stage_add_entry(
            v,
            st,
            m.dst.dir,
            m.dst.raw,
            m.dst.name,
            m.ino,
            moved_type(mode_of(m.raw)),
        ) {
            Ok(st1) => done(v, unit_stage(stage_move_rest(v, st1, m, now))),
            Err(e) => if e == Error::OutOfBounds {
                let (v1, r) = extend_dir(
                    committed(v, st),
                    m.dst.dir,
                    m.dst.name,
                    m.ino,
                    moved_type(mode_of(m.raw)),
                );
                match r {
                    Err(e) => (v1, Err(e)),
                    Ok(_) => done(v1, unit_stage(stage_move_rest(v1, fresh_stage(v1), m, now))),
                }
            } else {
                (v, Err(e))
            },
        },
    }
}

/// What a device that fails a move may leave.
pub open spec fn moved_cut(v: Vol, m: Move, now: u32, post: Vol) -> bool {
    post == v || match stage_make_way(v, m) {
        Err(_) => false,
        Ok(st) => {
            let ft = moved_type(mode_of(m.raw));
            match stage_add_entry(v, st, m.dst.dir, m.dst.raw, m.dst.name, m.ino, ft) {
                Ok(st1) => only_in(v, post, stage_blocks(unit_stage(stage_move_rest(v, st1, m, now)))),
                Err(e) => e == Error::OutOfBounds && {
                    let (v1, r) = extend_dir(committed(v, st), m.dst.dir, m.dst.name, m.ino, ft);
                    ||| only_in(v, post, st.touched)
                    ||| extend_cut(committed(v, st), m.dst.dir, m.dst.name, m.ino, ft, post)
                    ||| r is Ok && only_in(
                        v1,
                        post,
                        stage_blocks(unit_stage(stage_move_rest(v1, fresh_stage(v1), m, now))),
                    )
                },
            }
        },
    }
}

/// What a device that fails a rename may leave.
pub open spec fn renamed_cut(v: Vol, src: Seq<u8>, dst: Seq<u8>, replace: bool, now: u32, post: Vol) -> bool {
    post == v || match rename_intent(v, src, dst, replace) {
        Ok(Intent::Move(m)) => moved_cut(v, m, now, post),
        _ => false,
    }
}

/// What a rename comes to.
pub open spec fn renamed(v: Vol, src: Seq<u8>, dst: Seq<u8>, replace: bool, now: u32) -> (Vol, Result<()>) {
    match rename_intent(v, src, dst, replace) {
        Err(e) => (v, Err(e)),
        Ok(Intent::Nothing) => (v, Ok(())),
        Ok(Intent::Move(m)) => moved(v, m, now),
    }
}

/// One end of a rename, as the code carries it.
struct EndPoint {
    dir: u32,
    inode: Inode,
    raw: Vec<u8>,
    name: Vec<u8>,
}

impl EndPoint {
    spec fn ok(&self) -> bool {
        self.inode.decodes(self.raw@)
    }

    spec fn end(&self) -> End {
        End { dir: self.dir, raw: self.raw@, name: self.name@ }
    }
}

/// A move, as the code carries it.
struct MovePlan {
    src: EndPoint,
    dst: EndPoint,
    ino: u32,
    inode: Inode,
    raw: Vec<u8>,
    replaced: Option<(u32, Inode, Vec<u8>)>,
}

impl MovePlan {
    spec fn ok(&self) -> bool {
        &&& self.src.ok()
        &&& self.dst.ok()
        &&& self.inode.decodes(self.raw@)
        &&& self.dst.name@.len() <= NAME_MAX
        &&& self.replaced matches Some((old, oinode, oraw)) ==> oinode.decodes(oraw@) && oraw@.len() >= 128
            && old > 0
    }

    spec fn as_move(&self) -> Move {
        Move {
            src: self.src.end(),
            dst: self.dst.end(),
            ino: self.ino,
            raw: self.raw@,
            replaced: match self.replaced {
                Some((old, _, oraw)) => Some((old, oraw@)),
                None => None,
            },
        }
    }
}

impl<D: BlockDevice> Filesystem<D> {
    /// Whether a path that leads somewhere leads through inode `target`, or to
    /// it.
    fn path_passes(&self, path: &[u8], target: u32) -> (r: Result<bool>)
        requires
            self.wf(),
        ensures
            match r {
                Ok(b) => b == passes(self@, path@, 0, EXT4_ROOT_INODE, target),
                Err(e) => resolve(self@, path@) == Err::<u32, Error>(e) || (!self.dev.healthy() && e == Error::Io),
            },
    {
        let mut ino: u32 = EXT4_ROOT_INODE;
        let mut at: usize = 0;
        while at < path.len() && ino != target
            invariant
                self.wf(),
                at <= path@.len(),
                resolve(self@, path@) == walk_from(self@, path@, at as int, ino),
                passes(self@, path@, 0, EXT4_ROOT_INODE, target) == passes(self@, path@, at as int, ino, target),
            decreases path@.len() - at,
        {
            if path[at] == SLASH {
                at += 1;
            } else {
                proof {
                    lemma_component_end(path@, at as int);
                }
                let mut end: usize = at;
                while end < path.len() && path[end] != SLASH
                    invariant
                        at <= end <= path@.len(),
                        component_end(path@, at as int) == component_end(path@, end as int),
                    decreases path@.len() - end,
                {
                    end += 1;
                }
                let (inode, raw): (Inode, Vec<u8>) = match self.read_inode_verified(ino) {
                    Ok(p) => p,
                    Err(e) => {
                        return Err(e);
                    },
                };
                if !inode.is_dir() {
                    return Err(Error::NotADirectory);
                }
                let name: Vec<u8> = copy_range(path, at, end);
                ino = match self.find_entry_in_dir(ino, &inode, Ghost(raw@), &name) {
                    Ok(i) => i,
                    Err(e) => {
                        return Err(e);
                    },
                };
                at = end;
            }
        }
        Ok(ino == target)
    }

    fn find_ends(&self, src: &[u8], dst: &[u8]) -> (r: Result<(EndPoint, EndPoint)>)
        requires
            self.wf(),
        ensures
            match r {
                Ok((s, d)) => rename_ends(self@, src@, dst@) == Ok::<(End, End), Error>(
                    (s.end(), d.end()),
                ) && s.ok() && d.ok() && d.name@.len() <= NAME_MAX,
                Err(e) => rename_ends(self@, src@, dst@) == Err::<(End, End), Error>(e) || (
                !self.dev.healthy() && e == Error::Io),
            },
    {
        let (sp, sname): (Vec<u8>, Vec<u8>) = match split_parent_and_base(src) {
            Ok(p) => p,
            Err(e) => {
                return Err(e);
            },
        };
        let (dp, dname): (Vec<u8>, Vec<u8>) = match split_parent_and_base(dst) {
            Ok(p) => p,
            Err(e) => {
                return Err(e);
            },
        };
        if dname.len() > NAME_MAX {
            return Err(Error::NameTooLong);
        }
        let sdir: u32 = match self.lookup_path(&sp) {
            Ok(i) => i,
            Err(e) => {
                return Err(e);
            },
        };
        let ddir: u32 = match self.lookup_path(&dp) {
            Ok(i) => i,
            Err(e) => {
                return Err(e);
            },
        };
        let (sinode, sraw): (Inode, Vec<u8>) = match self.read_inode_verified(sdir) {
            Ok(p) => p,
            Err(e) => {
                return Err(e);
            },
        };
        let (dinode, draw): (Inode, Vec<u8>) = match self.read_inode_verified(ddir) {
            Ok(p) => p,
            Err(e) => {
                return Err(e);
            },
        };
        if !sinode.is_dir() || !dinode.is_dir() {
            return Err(Error::NotADirectory);
        }
        Ok(
            (
                EndPoint { dir: sdir, inode: sinode, raw: sraw, name: sname },
                EndPoint { dir: ddir, inode: dinode, raw: draw, name: dname },
            ),
        )
    }

    fn check_replace(&self, inode: &Inode, Ghost(raw): Ghost<Seq<u8>>, old: u32, oinode: &Inode, Ghost(oraw): Ghost<Seq<u8>>) -> (r: Result<
        (),
    >)
        requires
            self.wf(),
            inode.decodes(raw),
            oinode.decodes(oraw),
        ensures
            r == may_replace(self@, raw, old, oraw) || (!self.dev.healthy() && r == Err::<(), Error>(
                Error::Io,
            )),
    {
        let src_dir: bool = inode.is_dir();
        let dst_dir: bool = oinode.is_dir();
        if !src_dir && dst_dir {
            return Err(Error::IsADirectory);
        }
        if src_dir && !dst_dir {
            return Err(Error::NotADirectory);
        }
        if dst_dir {
            return match self.dir_is_empty(old, oinode, Ghost(oraw)) {
                Err(e) => Err(e),
                Ok(false) => Err(Error::DirectoryNotEmpty),
                Ok(true) => Ok(()),
            };
        }
        Ok(())
    }

    /// Decide what a rename is to do; `None` where there is nothing to do.
    fn plan_rename(&self, src: &[u8], dst: &[u8], replace: bool) -> (r: Result<Option<MovePlan>>)
        requires
            self.wf(),
        ensures
            match r {
                Ok(Some(m)) => rename_intent(self@, src@, dst@, replace) == Ok::<Intent, Error>(
                    Intent::Move(m.as_move()),
                ) && m.ok(),
                Ok(None) => rename_intent(self@, src@, dst@, replace) == Ok::<Intent, Error>(
                    Intent::Nothing,
                ),
                Err(e) => rename_intent(self@, src@, dst@, replace) == Err::<Intent, Error>(e) || (
                !self.dev.healthy() && e == Error::Io),
            },
    {
        if same_bytes(src, dst) {
            return Ok(None);
        }
        let (s, d): (EndPoint, EndPoint) = match self.find_ends(src, dst) {
            Ok(p) => p,
            Err(e) => {
                return Err(e);
            },
        };
        let ino: u32 = match self.find_entry_in_dir(s.dir, &s.inode, Ghost(s.raw@), &s.name) {
            Ok(i) => i,
            Err(e) => {
                return Err(e);
            },
        };
        let existing: Option<u32> = match self.find_entry_in_dir(
            d.dir,
            &d.inode,
            Ghost(d.raw@),
            &d.name,
        ) {
            Ok(i) => Some(i),
            Err(Error::NotFound) => None,
            Err(e) => {
                return Err(e);
            },
        };
        if existing.is_some() && !replace {
            return Err(Error::AlreadyExists);
        }
        let (inode, raw): (Inode, Vec<u8>) = match self.read_inode_verified(ino) {
            Ok(p) => p,
            Err(e) => {
                return Err(e);
            },
        };
        if inode.is_dir() {
            let (dp, _dname): (Vec<u8>, Vec<u8>) = match split_parent_and_base(dst) {
                Ok(p) => p,
                Err(e) => {
                    return Err(e);
                },
            };
            match self.path_passes(&dp, ino) {
                Err(e) => {
                    return Err(e);
                },
                Ok(true) => {
                    return Err(
                        Error::InvalidArgument("rename: cannot move directory into its own subtree"),
                    );
                },
                Ok(false) => {},
            }
        }
        match existing {
            None => Ok(
                Some(MovePlan { src: s, dst: d, ino, inode, raw, replaced: None }),
            ),
            Some(old) => {
                if old == ino {
                    return Ok(None);
                }
                let (oinode, oraw): (Inode, Vec<u8>) = match self.read_inode_verified(old) {
                    Ok(p) => p,
                    Err(e) => {
                        return Err(e);
                    },
                };
                if let Err(e) = self.check_replace(&inode, Ghost(raw@), old, &oinode, Ghost(oraw@)) {
                    return Err(e);
                }
                Ok(
                    Some(
                        MovePlan {
                            src: s,
                            dst: d,
                            ino,
                            inode,
                            raw,
                            replaced: Some((old, oinode, oraw)),
                        },
                    ),
                )
            },
        }
    }

    fn buffer_link_delta(&self, buf: &mut BlockBuffer, ino: u32, delta: i32) -> (r: Result<()>)
        requires
            self.wf(),
            old(buf).wf(self@),
        ensures
            final(buf).wf(self@),
            staged(
                stage_link_delta(self@, old(buf).stage(self@), ino, delta as int),
                r,
                final(buf).stage(self@),
                self.dev.healthy(),
            ),
    {
        if delta == 0 {
            return Ok(());
        }
        let (inode, raw): (Inode, Vec<u8>) = match self.read_inode_verified(ino) {
            Ok(p) => p,
            Err(e) => {
                return Err(e);
            },
        };
        self.buffer_links(buf, ino, &inode, &raw, delta)
    }

    /// Stage the link counts of two directories moved, one read and one write
    /// per inode: two edits of one record staged apart would each start from
    /// the record on the device.
    fn apply_parent_nlink_deltas(&self, buf: &mut BlockBuffer, a: u32, da: i32, b: u32, db: i32) -> (r: Result<()>)
        requires
            self.wf(),
            old(buf).wf(self@),
            -2 <= da <= 2,
            -2 <= db <= 2,
        ensures
            final(buf).wf(self@),
            staged(
                stage_link_deltas(self@, old(buf).stage(self@), a, da as int, b, db as int),
                r,
                final(buf).stage(self@),
                self.dev.healthy(),
            ),
    {
        if a == b {
            return self.buffer_link_delta(buf, a, da + db);
        }
        let (first, dfirst, second, dsecond): (u32, i32, u32, i32) = if a < b {
            (a, da, b, db)
        } else {
            (b, db, a, da)
        };
        if let Err(e) = self.buffer_link_delta(buf, first, dfirst) {
            return Err(e);
        }
        self.buffer_link_delta(buf, second, dsecond)
    }

    fn buffer_replaced(&self, buf: &mut BlockBuffer, ino: u32, inode: &Inode, raw: &[u8], now: u32) -> (r: Result<()>)
        requires
            self.wf(),
            old(buf).wf(self@),
            ino > 0,
            inode.decodes(raw@),
            raw@.len() >= 128,
        ensures
            final(buf).wf(self@),
            staged(
                stage_replaced(self@, old(buf).stage(self@), ino, raw@, now),
                r,
                final(buf).stage(self@),
                self.dev.healthy(),
            ),
    {
        let dir: bool = inode.is_dir();
        if inode.links_count > 1 && !dir {
            return self.buffer_links(buf, ino, inode, raw, -1);
        }
        let planned = if dir {
            self.plan_dir_runs(inode, Ghost(raw@))
        } else {
            self.plan_file_runs(inode, Ghost(raw@))
        };
        let runs: Vec<(u64, u32)> = match planned {
            Ok(x) => x,
            Err(e) => {
                return Err(e);
            },
        };
        self.buffer_reap(buf, ino, inode.generation, Ghost(raw@), &runs, dir, now)
    }

    fn buffer_move_rest(&self, buf: &mut BlockBuffer, m: &MovePlan, now: u32) -> (r: Result<()>)
        requires
            self.wf(),
            old(buf).wf(self@),
            m.ok(),
        ensures
            final(buf).wf(self@),
            staged(
                stage_move_rest(self@, old(buf).stage(self@), m.as_move(), now),
                r,
                final(buf).stage(self@),
                self.dev.healthy(),
            ),
    {
        if let Err(e) = self.buffer_remove_dir_entry(
            buf,
            m.src.dir,
            &m.src.inode,
            Ghost(m.src.raw@),
            &m.src.name,
        ) {
            return Err(e);
        }
        let mut dsrc: i32 = 0;
        let mut ddst: i32 = 0;
        if m.inode.is_dir() && m.src.dir != m.dst.dir {
            if let Err(e) = self.buffer_update_dotdot(buf, m.ino, &m.inode, Ghost(m.raw@), m.dst.dir) {
                return Err(e);
            }
            dsrc = dsrc - 1;
            ddst = ddst + 1;
        }
        if let Some((old, oinode, oraw)) = &m.replaced {
            if let Err(e) = self.buffer_replaced(buf, *old, oinode, oraw, now) {
                return Err(e);
            }
            if oinode.is_dir() {
                ddst = ddst - 1;
            }
        }
        self.apply_parent_nlink_deltas(buf, m.src.dir, dsrc, m.dst.dir, ddst)
    }

    /// Carry out a move.
    fn carry_out(&mut self, m: MovePlan, now: u32) -> (r: Result<()>)
        requires
            old(self).wf(),
            old(self).takes_writes(),
            m.ok(),
        ensures
            final(self).wf(),
            same_mount(*final(self), *old(self)),
            came_out(moved(old(self)@, m.as_move(), now), r, final(self)@, old(self).dev.healthy()),
            r matches Err(Error::Io) ==> moved_cut(old(self)@, m.as_move(), now, final(self)@),
    {
        let file_type: DirEntryType = if m.inode.is_file() {
            DirEntryType::RegFile
        } else if m.inode.is_dir() {
            DirEntryType::Directory
        } else if m.inode.is_symlink() {
            DirEntryType::Symlink
        } else {
            DirEntryType::Unknown
        };
        let mut buf: BlockBuffer = BlockBuffer::new(self.sb.block_size());
        assert(buf.wf(self@));
        if m.replaced.is_some() {
            if let Err(e) = self.buffer_remove_dir_entry(
                &mut buf,
                m.dst.dir,
                &m.dst.inode,
                Ghost(m.dst.raw@),
                &m.dst.name,
            ) {
                return Err(e);
            }
        }
        match self.buffer_add_dir_entry_inplace(
            &mut buf,
            m.dst.dir,
            &m.dst.inode,
            Ghost(m.dst.raw@),
            &m.dst.name,
            m.ino,
            file_type,
        ) {
            Ok(_) => {},
            Err(Error::OutOfBounds) => {
                if let Err(e) = self.commit_block_buffer(buf) {
                    return Err(e);
                }
                if let Err(e) = self.extend_dir_and_add_entry(
                    m.dst.dir,
                    &m.dst.name,
                    m.ino,
                    file_type,
                ) {
                    return Err(e);
                }
                buf = BlockBuffer::new(self.sb.block_size());
                assert(buf.wf(self@));
            },
            Err(e) => {
                return Err(e);
            },
        }
        if let Err(e) = self.buffer_move_rest(&mut buf, &m, now) {
            return Err(e);
        }
        self.commit_block_buffer(buf)
    }

    /// Rename `src` to `dst` within the same filesystem.
    ///
    /// Works for files and directories; a directory may not go into its own
    /// subtree. The same path, or two names of one inode, is a no-op. Where
    /// `dst` exists: refused with `AlreadyExists` unless `replace_if_exists`;
    /// then file and directory may not replace one another
    /// (`IsADirectory`, `NotADirectory`), nor may a directory that is not empty
    /// be replaced (`DirectoryNotEmpty`).
    ///
    /// One commit, unless the destination directory has to grow.
    pub fn apply_rename(&mut self, src: &str, dst: &str, replace_if_exists: bool, now: u32) -> (r: Result<()>)
        requires
            old(self).wf(),
        ensures
            final(self).wf(),
            same_mount(*final(self), *old(self)),
            came_out(
                unless_refused(
                    old(self).takes_writes(),
                    old(self)@,
                    renamed(
                        old(self)@,
                        path_bytes(src),
                        path_bytes(dst),
                        replace_if_exists,
                        now,
                    ),
                ),
                r,
                final(self)@,
                old(self).dev.healthy(),
            ),
            r matches Err(Error::Io) ==> renamed_cut(
                old(self)@,
                path_bytes(src),
                path_bytes(dst),
                replace_if_exists,
                now,
                final(self)@,
            ),
    {
        if let Err(e) = self.refuse_write() {
            return Err(e);
        }
        match self.plan_rename(src.as_bytes(), dst.as_bytes(), replace_if_exists) {
            Err(e) => Err(e),
            Ok(None) => Ok(()),
            Ok(Some(m)) => self.carry_out(m, now),
        }
    }
}

/// Renaming a path to itself does nothing.
pub proof fn law_rename_to_itself(v: Vol, path: Seq<u8>, replace: bool, now: u32)
    ensures
        renamed(v, path, path, replace, now) == (v, Ok::<(), Error>(())),
{
}

/// A directory is not moved to a path that leads through it: the rename is
/// refused, and changes nothing.
pub proof fn law_no_directory_moves_below_itself(v: Vol, src: Seq<u8>, dst: Seq<u8>, replace: bool, now: u32)
    requires
        src != dst,
        rename_ends(v, src, dst) is Ok,
        ({
            let (s, d) = rename_ends(v, src, dst)->Ok_0;
            let ino = find_entry(v, s.dir, s.raw, s.name)->Ok_0;
            let found = find_entry(v, d.dir, d.raw, d.name);
            &&& find_entry(v, s.dir, s.raw, s.name) is Ok
            &&& checked_inode(v, ino) is Ok
            &&& mode_is_dir(mode_of(checked_inode(v, ino)->Ok_0))
            &&& found == Err::<u32, Error>(Error::NotFound) || (found is Ok && replace)
            &&& leads_below(v, dst, ino)
        }),
    ensures
        renamed(v, src, dst, replace, now) == (
            v,
            Err::<(), Error>(Error::InvalidArgument("rename: cannot move directory into its own subtree")),
        ),
{
}

/// Without leave to replace, a rename onto a name that is taken changes
/// nothing.
pub proof fn law_rename_keeps_existing(v: Vol, src: Seq<u8>, dst: Seq<u8>, now: u32)
    requires
        src != dst,
        rename_ends(v, src, dst) is Ok,
        ({
            let (s, d) = rename_ends(v, src, dst)->Ok_0;
            find_entry(v, s.dir, s.raw, s.name) is Ok && find_entry(v, d.dir, d.raw, d.name) is Ok
        }),
    ensures
        renamed(v, src, dst, false, now) == (v, Err::<(), Error>(Error::AlreadyExists)),
{
}

/// A path names `name` in the directory `dir`, whose record is `raw`.
pub open spec fn names_in(v: Vol, path: Seq<u8>, dir: u32, raw: Seq<u8>, name: Seq<u8>) -> bool {
    &&& parent_and_base(path) is Ok
    &&& parent_and_base(path)->Ok_0.1 == name
    &&& resolve(v, parent_and_base(path)->Ok_0.0) == Ok::<u32, Error>(dir)
    &&& checked_inode(v, dir) == Ok::<Seq<u8>, Error>(raw)
    &&& mode_is_dir(mode_of(raw))
}

/// A path leads to the inode `ino`, whose record is `raw`, by a name in a
/// directory.
pub open spec fn leads_to(v: Vol, path: Seq<u8>, ino: u32, raw: Seq<u8>) -> bool {
    &&& checked_inode(v, ino) == Ok::<Seq<u8>, Error>(raw)
    &&& exists|dir: u32, draw: Seq<u8>, name: Seq<u8>| #[trigger]
        names_in(v, path, dir, draw, name) && find_entry(v, dir, draw, name) == Ok::<u32, Error>(ino)
}

/// A directory that names something besides itself and its parent is not
/// replaced: a rename over it, of whatever else there is, fails and changes
/// nothing. Of a directory that is not on the way to it, the answer is that it
/// is not empty.
pub proof fn law_directory_that_names_something_is_not_replaced(
    v: Vol,
    src: Seq<u8>,
    dst: Seq<u8>,
    replace: bool,
    now: u32,
    ino: u32,
    raw: Seq<u8>,
    old: u32,
    oraw: Seq<u8>,
    inner: Seq<u8>,
)
    requires
        leads_to(v, src, ino, raw),
        leads_to(v, dst, old, oraw),
        ino != old,
        mode_is_dir(mode_of(oraw)),
        !is_dots(inner),
        find_entry(v, old, oraw, inner) is Ok,
    ensures
        renamed(v, src, dst, replace, now).0 == v,
        renamed(v, src, dst, replace, now).1 is Err,
        replace && mode_is_dir(mode_of(raw)) && !leads_below(v, dst, ino) && parent_and_base(dst)->Ok_0.1.len()
            <= 255 ==> renamed(v, src, dst, replace, now).1 == Err::<(), Error>(Error::DirectoryNotEmpty),
{
    lemma_named_dir(v, old, oraw, inner, 0);
}

/// Only like replaces like: nothing but a directory takes the name of a
/// directory, and a directory takes the name of nothing else. Otherwise the
/// rename fails and changes nothing, and the answer says which of the two is
/// the directory.
pub proof fn law_like_replaces_like(
    v: Vol,
    src: Seq<u8>,
    dst: Seq<u8>,
    replace: bool,
    now: u32,
    ino: u32,
    raw: Seq<u8>,
    old: u32,
    oraw: Seq<u8>,
)
    requires
        leads_to(v, src, ino, raw),
        leads_to(v, dst, old, oraw),
        mode_is_dir(mode_of(raw)) != mode_is_dir(mode_of(oraw)),
    ensures
        renamed(v, src, dst, replace, now).0 == v,
        renamed(v, src, dst, replace, now).1 is Err,
        replace && !mode_is_dir(mode_of(raw)) && parent_and_base(dst)->Ok_0.1.len() <= 255 ==> renamed(
            v,
            src,
            dst,
            replace,
            now,
        ).1 == Err::<(), Error>(Error::IsADirectory),
        replace && mode_is_dir(mode_of(raw)) && !leads_below(v, dst, ino) && parent_and_base(dst)->Ok_0.1.len()
            <= 255 ==> renamed(v, src, dst, replace, now).1 == Err::<(), Error>(Error::NotADirectory),
{
}

/// Two names of one file: to rename one to the other does nothing, where that is
/// allowed, and fails where it is not; either way both stay.
pub proof fn law_rename_between_links_does_nothing(
    v: Vol,
    src: Seq<u8>,
    dst: Seq<u8>,
    replace: bool,
    now: u32,
    ino: u32,
    raw: Seq<u8>,
)
    requires
        leads_to(v, src, ino, raw),
        leads_to(v, dst, ino, raw),
    ensures
        renamed(v, src, dst, replace, now).0 == v,
{
}

/// A rename of what is not there, or to what has no directory to be in, fails
/// and changes nothing.
pub proof fn law_rename_needs_both_ends(v: Vol, src: Seq<u8>, dst: Seq<u8>, replace: bool, now: u32)
    requires
        src != dst,
        (forall|ino: u32, raw: Seq<u8>| !leads_to(v, src, ino, raw)) || (forall|dir: u32, draw: Seq<u8>, name: Seq<u8>|
            !names_in(v, dst, dir, draw, name)) || (parent_and_base(dst) is Ok && parent_and_base(dst)->Ok_0.1.len()
            > 255),
    ensures
        renamed(v, src, dst, replace, now).0 == v,
        renamed(v, src, dst, replace, now).1 is Err,
{
    if let Ok((s, d)) = rename_ends(v, src, dst) {
        assert(names_in(v, src, s.dir, s.raw, s.name));
        assert(names_in(v, dst, d.dir, d.raw, d.name));
        if let Ok(ino) = find_entry(v, s.dir, s.raw, s.name) {
            if let Ok(raw) = checked_inode(v, ino) {
                assert(leads_to(v, src, ino, raw));
            }
        }
    }
}

} // verus!
