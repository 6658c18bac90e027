//! VFS: a table of mounted filesystems keyed by absolute path prefix.
//!
//! Each mount is keyed by a canonical prefix (`""` is the root, `"/tmp"`,
//! `"/dev"`, ...). Path resolution is longest-prefix match on `/`-aligned
//! boundaries; a backend sees paths relative to its mount point, always
//! starting with `/`.

use vstd::prelude::*;
use crate::block::BlockDevice;
use crate::path::{chars_of, chars_eq, canonical_prefix, prefix_then_slash, direct_child, string_of,
    strings_view, spec_direct_child, trim_trailing_slashes, starts_with_slash};
use crate::path::segments;
use crate::fat::{FatFs, changes_only, spec_split_parent};
use crate::tmp::{TmpFs, Outcome, spec_create_file, spec_write_file, spec_append_file, spec_create_dir, spec_remove, applied, unit_of};
use crate::tree::{spec_read, spec_list, sets};
use crate::tmp::{law_read_after_write as tmp_read_after_write, law_removed_is_gone as tmp_removed_is_gone};
use crate::ram::{RamFs, seed, seed_node};
use crate::tree::lookup;
use crate::block::block_of;
use crate::fat::parse_bpb;
use crate::dev::{DevFs, write_file_effect, read_at_effect, write_at_effect, flat_name, node_names};
use crate::names::names_sorted;

verus! {

#[derive(Debug, Clone, Copy, PartialEq, Eq, Structural)]
pub enum FsError {
    NotFound,
    NotADir,
    IsADir,
    /// Disk I/O or filesystem-format failure.
    Io,
    /// Operation is not implemented for this filesystem (e.g. a write on a
    /// read-only mount).
    Unsupported,
}

/// Largest number of simultaneous mounts.
pub const MAX_MOUNTS: usize = 8;

/// A filesystem that can be mounted.
pub enum MountedFs {
    Fat(FatFs),
    Tmp(TmpFs),
    Ram(RamFs),
    Dev(DevFs),
}

impl MountedFs {
    pub open spec fn wf(&self) -> bool {
        match self {
            MountedFs::Fat(f) => f.wf(),
            MountedFs::Tmp(t) => t.wf(),
            MountedFs::Ram(r) => r.wf(),
            MountedFs::Dev(_) => true,
        }
    }

    /// Whether any write can succeed on this filesystem.
    pub open spec fn spec_writable(&self) -> bool {
        match self {
            MountedFs::Ram(_) => false,
            _ => true,
        }
    }

    /// The backing-store description shown by `mount`.
    pub open spec fn spec_backing(&self) -> Seq<char> {
        match self {
            MountedFs::Fat(_) => "fat32 on /dev/ata1"@,
            MountedFs::Tmp(_) => "tmpfs"@,
            MountedFs::Ram(_) => "ramfs (no data disk)"@,
            MountedFs::Dev(_) => "devfs"@,
        }
    }

    pub fn writable(&self) -> (r: bool)
        ensures
            r == self.spec_writable(),
    {
        match self {
            MountedFs::Fat(f) => f.writable(),
            MountedFs::Tmp(t) => t.writable(),
            MountedFs::Ram(r) => r.writable(),
            MountedFs::Dev(d) => d.writable(),
        }
    }

    pub fn backing(&self) -> (r: &'static str)
        ensures
            r@ == self.spec_backing(),
    {
        match self {
            MountedFs::Fat(f) => f.backing(),
            MountedFs::Tmp(t) => t.backing(),
            MountedFs::Ram(r) => r.backing(),
            MountedFs::Dev(d) => d.backing(),
        }
    }
}

/// A mounted filesystem and the canonical prefix it is mounted at (`""` for
/// the root).
pub struct Mount {
    pub prefix: Vec<char>,
    pub fs: MountedFs,
}

/// The canonical prefixes of a mount table.
pub open spec fn prefixes_of(ms: Seq<Mount>) -> Seq<Seq<char>> {
    ms.map_values(|m: Mount| m.prefix@)
}

/// Mount prefix `p` covers the absolute path `abs`: `p` is the root, or
/// `abs` is `p` or lies below it.
pub open spec fn covers(p: Seq<char>, abs: Seq<char>) -> bool {
    ||| p.len() == 0
    ||| abs == p
    ||| (p.len() + 1 <= abs.len() && abs.take(p.len() as int) == p && abs[p.len() as int] == '/')
}

/// Mount `i` is the longest prefix covering `abs`.
pub open spec fn is_best(ps: Seq<Seq<char>>, abs: Seq<char>, i: int) -> bool {
    &&& 0 <= i < ps.len()
    &&& covers(ps[i], abs)
    &&& forall|j: int| 0 <= j < ps.len() && covers(#[trigger] ps[j], abs) ==> ps[j].len() <= ps[i].len()
}

/// The mount `abs` resolves to, if any.
pub open spec fn resolve_index(ps: Seq<Seq<char>>, abs: Seq<char>) -> Option<int> {
    if starts_with_slash(abs) && exists|i: int| is_best(ps, abs, i) {
        Some(choose|i: int| is_best(ps, abs, i))
    } else {
        None
    }
}

/// The path of `abs` relative to the mount prefix `p`.
pub open spec fn rel_path(p: Seq<char>, abs: Seq<char>) -> Seq<char> {
    if p.len() == 0 {
        abs
    } else {
        let tail = abs.skip(p.len() as int);
        if tail.len() == 0 {
            seq!['/']
        } else {
            tail
        }
    }
}

/// No two mounts share a prefix.
pub open spec fn distinct(ps: Seq<Seq<char>>) -> bool {
    forall|i: int, j: int| 0 <= i < j < ps.len() ==> ps[i] != ps[j]
}

/// With distinct prefixes, the longest covering prefix is unique.
pub proof fn lemma_best_unique(ps: Seq<Seq<char>>, abs: Seq<char>, i: int, j: int)
    requires
        distinct(ps),
        is_best(ps, abs, i),
        is_best(ps, abs, j),
    ensures
        i == j,
{
    assert(ps[i].len() == ps[j].len());
    if i != j {
        if ps[i].len() == 0 {
            assert(ps[i] =~= ps[j]);
        } else if ps[i] == abs || ps[j] == abs {
            if ps[i] == abs && ps[j] != abs {
                assert(ps[j] == abs.take(ps[j].len() as int));
                assert(ps[j].len() + 1 <= abs.len());
            } else if ps[j] == abs && ps[i] != abs {
                assert(ps[i].len() + 1 <= abs.len());
            }
        } else {
            assert(ps[i] == abs.take(ps[i].len() as int));
            assert(ps[j] == abs.take(ps[j].len() as int));
        }
        if i < j {
            assert(ps[i] != ps[j]);
        } else {
            assert(ps[j] != ps[i]);
        }
    }
}

/// The names of the mount points directly below the directory `parent`
/// (canonical), added to `entries` when missing, in mount order.
pub open spec fn with_mount_children(entries: Seq<Seq<char>>, parent: Seq<char>, ps: Seq<Seq<char>>) -> Seq<Seq<char>>
    decreases ps.len(),
{
    if ps.len() == 0 {
        entries
    } else {
        let acc = with_mount_children(entries, parent, ps.drop_last());
        match spec_direct_child(parent, ps.last()) {
            Some(c) => if acc.contains(c) {
                acc
            } else {
                acc.push(c)
            },
            None => acc,
        }
    }
}

/// A write-like request on a path.
pub enum Change {
    CreateFile,
    WriteFile(Seq<u8>),
    AppendFile(Seq<u8>),
    CreateDir,
    Remove,
}

/// The outcome of the request `c` (other than `Remove`) on a tmpfs table.
pub open spec fn tmp_outcome(es: Seq<(Seq<Seq<char>>, crate::tree::NodeView)>, segs: Seq<Seq<char>>, c: Change) -> Outcome {
    match c {
        Change::CreateFile => spec_create_file(es, segs),
        Change::WriteFile(d) => spec_write_file(es, segs, d),
        Change::AppendFile(d) => spec_append_file(es, segs, d),
        Change::CreateDir => spec_create_dir(es, segs),
        Change::Remove => Err(FsError::Unsupported),
    }
}

/// What the request `c` at `rel` may do to a FAT volume's disk contents
/// (`d0` → `d1`, on a disk that is `reliable` or not): only the FATs, the
/// FsInfo sector and the data area change; a path without a parent and name
/// is `Io`; a parent that is not a directory is `NotADir`; on a reliable
/// disk, the errors that the entry already there (or its absence) calls for.
pub open spec fn fat_effect(f: FatFs, d0: Seq<u8>, d1: Seq<u8>, reliable: bool, rel: Seq<char>, c: Change, r: Result<(), FsError>) -> bool {
    let child = f.child_lookup(d0, rel);
    &&& changes_only(d0, d1, f.writable_area())
    &&& match c {
        Change::AppendFile(data) => {
            &&& r is Ok ==> (spec_split_parent(rel) matches Some((p, n)) && f.spec_is_dir(d0, p))
            &&& reliable && f.spec_read_file(d0, rel) is Err && f.spec_read_file(d0, rel)->Err_0 != FsError::NotFound
                ==> r == Err::<(), FsError>(f.spec_read_file(d0, rel)->Err_0) && d1 == d0
            &&& r is Ok && f.write_ready(d0, rel) && f.appended(d0, rel, data).len() <= u32::MAX ==> f.spec_read_file(d1, rel)
                == Ok::<Seq<u8>, FsError>(f.appended(d0, rel, data)) && f.frame(d0, d1, f.write_touch(d0, rel), f.write_touch(d0, rel)) && f.keeps_siblings(d0, d1, rel)
                && f.keeps_in_use(d0, d1, f.replaced_chain(d0, rel)) && f.keeps_mirrored(d0, d1)
            &&& reliable && (f.spec_read_file(d0, rel) is Ok || f.spec_read_file(d0, rel) == Err::<Seq<u8>, FsError>(FsError::NotFound))
                && f.write_owed(d0, rel, f.appended(d0, rel, data).len()) ==> r is Ok
        },
        Change::Remove => {
            &&& spec_split_parent(rel) is None ==> r == Err::<(), FsError>(FsError::Io) && d1 == d0
            &&& reliable && spec_split_parent(rel) is Some && !f.spec_is_dir(d0, spec_split_parent(rel)->Some_0.0) ==> r
                == match f.spec_lookup(d0, spec_split_parent(rel)->Some_0.0) {
                Err(e) => Err::<(), FsError>(e),
                Ok(_) => Err(FsError::NotADir),
            } && d1 == d0
            &&& reliable && child is Some && child->Some_0 is Err ==> r == Err::<(), FsError>(child->Some_0->Err_0) && d1
                == d0
            &&& (child matches Some(Ok(e)) && e.is_dir && reliable && !(f.dir_entries(d0, e.cluster as int) matches Some(
                ks,
            ) && ks.len() == 0)) ==> r == Err::<(), FsError>(FsError::Io) && d1 == d0
            &&& r is Ok && f.remove_ready(d0, rel) ==> f.spec_lookup(d1, rel) == Err::<crate::fat::DirEntryView, FsError>(
                FsError::NotFound,
            ) && f.frame(d0, d1, f.remove_touch(d0, rel), f.remove_touch(d0, rel)) && f.keeps_siblings(d0, d1, rel) && forall|x: int|
                #[trigger] f.removed_chain(d0, rel).contains(x) && f.fat_entry_on_disk(x, d0.len()) ==> f.fat_entry(d1, x) == 0
            &&& r is Ok && f.remove_ready(d0, rel) ==> f.keeps_in_use(d0, d1, f.removed_chain(d0, rel)) && f.keeps_mirrored(d0, d1)
            &&& reliable && f.remove_owed(d0, rel) ==> r is Ok
        },
        _ => {
            &&& spec_split_parent(rel) is None ==> r == Err::<(), FsError>(FsError::Io) && d1 == d0
            &&& (spec_split_parent(rel) matches Some((p, n)) && !f.spec_is_dir(d0, p)) ==> r == Err::<(), FsError>(
                FsError::NotADir,
            ) && d1 == d0
            &&& r is Ok ==> (spec_split_parent(rel) matches Some((p, n)) && f.spec_is_dir(d0, p))
            &&& reliable && child == Some(Err::<crate::fat::DirEntryView, FsError>(FsError::Io)) ==> r == Err::<
                (),
                FsError,
            >(FsError::Io) && d1 == d0
            &&& reliable && child is Some && child->Some_0 is Ok && c is CreateDir ==> r == Err::<(), FsError>(FsError::Io)
                && d1 == d0
            &&& reliable && child is Some && child->Some_0 is Ok && child->Some_0->Ok_0.is_dir && !(c is CreateDir) ==> r
                == Err::<(), FsError>(FsError::IsADir) && d1 == d0
            &&& (c matches Change::WriteFile(data) && r is Ok && f.write_ready(d0, rel) && data.len() <= u32::MAX) ==> f.spec_read_file(
                d1,
                rel,
            ) == Ok::<Seq<u8>, FsError>(c->WriteFile_0) && f.frame(d0, d1, f.write_touch(d0, rel), f.write_touch(d0, rel)) && f.keeps_siblings(d0, d1, rel)
                && f.keeps_in_use(d0, d1, f.replaced_chain(d0, rel)) && f.keeps_mirrored(d0, d1)
            &&& (c matches Change::WriteFile(data) && r is Ok && f.write_ready(d0, rel) && data.len() <= u32::MAX) ==> f.spec_lookup(
                d1,
                rel,
            ) is Ok && forall|y: int|
                #[trigger] f.replaced_chain(d0, rel).contains(y) && f.fat_entry_on_disk(y, d0.len()) && !f.reach_set(
                    d1,
                    f.spec_lookup(d1, rel)->Ok_0.cluster as int,
                ).contains(y) ==> f.fat_entry(d1, y) == 0
            &&& c is CreateFile && r is Ok && f.write_ready(d0, rel) ==> f.spec_read_file(d1, rel) == Ok::<Seq<u8>, FsError>(
                Seq::empty(),
            ) && f.frame(d0, d1, f.write_touch(d0, rel), f.write_touch(d0, rel)) && f.keeps_siblings(d0, d1, rel)
                && f.keeps_in_use(d0, d1, f.replaced_chain(d0, rel)) && f.keeps_mirrored(d0, d1)
            &&& c is CreateDir && r is Ok && f.write_ready(d0, rel) ==> f.spec_is_dir(d1, rel) && f.spec_list_dir(d1, rel) == Ok::<
                Seq<Seq<char>>,
                FsError,
            >(Seq::empty()) && f.frame(d0, d1, f.write_touch(d0, rel), f.write_touch(d0, rel)) && f.keeps_siblings(d0, d1, rel)
                && f.keeps_in_use(d0, d1, Set::empty()) && f.keeps_mirrored(d0, d1) && (f.spec_lookup(d1, rel) matches Ok(e) && f.cluster_data(d1, e.cluster as int)
                == f.dir_block(
                e.cluster,
                if spec_split_parent(rel)->Some_0.0 == seq!['/'] {
                    0u32
                } else {
                    f.dir_cluster(d0, spec_split_parent(rel)->Some_0.0) as u32
                },
            ))
            &&& (c matches Change::WriteFile(data) && reliable && f.write_owed(d0, rel, data.len())) ==> r is Ok
            &&& c is CreateFile && reliable && f.write_owed(d0, rel, 0) ==> r is Ok
            &&& c is CreateDir && reliable && f.write_ready(d0, rel) && (spec_split_parent(rel) matches Some((p, n)) && f.spec_is_dir(
                d0,
                p,
            )) && child == Some(Err::<crate::fat::DirEntryView, FsError>(FsError::NotFound)) && f.room(d0, 2) ==> r is Ok
        },
    }
}

/// What the request `c` at the mount-relative path `rel` does to the mounted
/// filesystem (`m0` → `m1`) and the disk contents (`d0` → `d1`), answering
/// `r`. A read-only filesystem answers `Unsupported` and changes nothing.
pub open spec fn change_effect(
    m0: MountedFs,
    m1: MountedFs,
    d0: Seq<u8>,
    d1: Seq<u8>,
    reliable: bool,
    rel: Seq<char>,
    c: Change,
    r: Result<(), FsError>,
) -> bool {
    match m0 {
        MountedFs::Tmp(t0) => m1 matches MountedFs::Tmp(t1) && t1.wf() && d1 == d0 && match c {
            Change::Remove => {
                &&& r == spec_remove(t0.view(), segments(rel))
                &&& r is Ok ==> sets(t0.view(), t1.view(), segments(rel), None)
                &&& r is Err ==> t1.view() == t0.view()
            },
            _ => r == unit_of(tmp_outcome(t0.view(), segments(rel), c)) && applied(
                t0.view(),
                t1.view(),
                segments(rel),
                tmp_outcome(t0.view(), segments(rel), c),
            ),
        },
        MountedFs::Ram(_) => m1 == m0 && d1 == d0 && r == Err::<(), FsError>(FsError::Unsupported),
        MountedFs::Dev(v0) => match c {
            Change::WriteFile(data) => m1 matches MountedFs::Dev(v1) && write_file_effect(v0, v1, d0, d1, reliable, rel, data, r),
            _ => m1 == m0 && d1 == d0 && r == Err::<(), FsError>(FsError::Unsupported),
        },
        MountedFs::Fat(f) => m1 == m0 && fat_effect(f, d0, d1, reliable, rel, c, r),
    }
}

/// What reading the file at `rel` on `m` gives, over the disk contents
/// `disk`, with the clock at `ticks`.
pub open spec fn fs_read(m: MountedFs, rel: Seq<char>, disk: Seq<u8>, ticks: u64) -> Result<Seq<u8>, FsError> {
    match m {
        MountedFs::Fat(f) => f.spec_read_file(disk, rel),
        MountedFs::Tmp(t) => spec_read(t.view(), segments(rel), 0),
        MountedFs::Ram(r) => spec_read(r.view(), segments(rel), ticks),
        MountedFs::Dev(_) => crate::dev::spec_read_file(rel),
    }
}

/// What listing the directory at `rel` on `m` gives, before sorting.
pub open spec fn fs_list(m: MountedFs, rel: Seq<char>, disk: Seq<u8>) -> Result<Seq<Seq<char>>, FsError> {
    match m {
        MountedFs::Fat(f) => f.spec_list_dir(disk, rel),
        MountedFs::Tmp(t) => spec_list(t.view(), segments(rel)),
        MountedFs::Ram(r) => spec_list(r.view(), segments(rel)),
        MountedFs::Dev(_) => match flat_name(rel) {
            Err(e) => Err(e),
            Ok(n) => if n.len() == 0 {
                Ok(node_names())
            } else {
                Err(FsError::NotADir)
            },
        },
    }
}

/// `names` is how `m` presents the listing `c`: the in-memory filesystems
/// sort it, the others keep its order.
pub open spec fn presented(m: MountedFs, c: Seq<Seq<char>>, names: Seq<Seq<char>>) -> bool {
    match m {
        MountedFs::Tmp(_) | MountedFs::Ram(_) => names_sorted(names) && names.to_multiset() == c.to_multiset(),
        _ => names == c,
    }
}

/// Whether `rel` names a directory on `m`.
pub open spec fn fs_is_dir(m: MountedFs, rel: Seq<char>, disk: Seq<u8>) -> bool {
    match m {
        MountedFs::Fat(f) => f.spec_is_dir(disk, rel),
        MountedFs::Tmp(t) => crate::tree::spec_is_dir(t.view(), segments(rel)),
        MountedFs::Ram(r) => crate::tree::spec_is_dir(r.view(), segments(rel)),
        MountedFs::Dev(_) => flat_name(rel) == Ok::<Seq<char>, FsError>(Seq::empty()),
    }
}

/// A read of up to `b0.len()` bytes of `data` from byte `off` on: the bytes
/// land at the front of the buffer (`b0` → `b1`), `r` counts them.
pub open spec fn slice_read(data: Seq<u8>, off: u64, b0: Seq<u8>, b1: Seq<u8>, r: Result<usize, FsError>) -> bool {
    if off >= data.len() {
        r == Ok::<usize, FsError>(0) && b1 == b0
    } else {
        let n = if data.len() - off < b0.len() {
            data.len() - off
        } else {
            b0.len() as int
        };
        r == Ok::<usize, FsError>(n as usize) && b1 == data.subrange(off as int, off + n) + b0.skip(n)
    }
}

/// A read from byte `off` of the file whose whole-file read gives `s`.
pub open spec fn read_at_from(s: Result<Seq<u8>, FsError>, off: u64, b0: Seq<u8>, b1: Seq<u8>, r: Result<usize, FsError>) -> bool {
    match s {
        Err(e) => r == Err::<usize, FsError>(e) && b1 == b0,
        Ok(data) => slice_read(data, off, b0, b1, r),
    }
}

/// The console writes queued on the devfs mounts of `ms`, in mount order.
pub open spec fn console_backlog(ms: Seq<Mount>) -> Seq<Seq<u8>>
    decreases ms.len(),
{
    if ms.len() == 0 {
        Seq::empty()
    } else {
        console_backlog(ms.drop_last()) + match ms.last().fs {
            MountedFs::Dev(d) => d.console_pending(),
            _ => Seq::empty(),
        }
    }
}

/// The serial bytes queued on the devfs mounts of `ms`, in mount order.
pub open spec fn serial_backlog(ms: Seq<Mount>) -> Seq<u8>
    decreases ms.len(),
{
    if ms.len() == 0 {
        Seq::empty()
    } else {
        serial_backlog(ms.drop_last()) + match ms.last().fs {
            MountedFs::Dev(d) => d.serial_pending(),
            _ => Seq::empty(),
        }
    }
}

/// `m1` is `m0` with its queued console writes (`console`) or serial bytes
/// (otherwise) handed over.
pub open spec fn drained(m0: Mount, m1: Mount, console: bool) -> bool {
    &&& m1.prefix == m0.prefix
    &&& match m0.fs {
        MountedFs::Dev(d0) => m1.fs matches MountedFs::Dev(d1) && d1.serial_is_attached() == d0.serial_is_attached()
            && if console {
            d1.console_pending() == Seq::<Seq<u8>>::empty() && d1.serial_pending() == d0.serial_pending()
        } else {
            d1.serial_pending() == Seq::<u8>::empty() && d1.console_pending() == d0.console_pending()
        },
        _ => m1.fs == m0.fs,
    }
}

pub struct Vfs<D: BlockDevice> {
    mounts: Vec<Mount>,
    disk: D,
    ticks: u64,
}

impl<D: BlockDevice> Vfs<D> {
    pub closed spec fn table(&self) -> Seq<Mount> {
        self.mounts@
    }

    pub open spec fn prefixes(&self) -> Seq<Seq<char>> {
        prefixes_of(self.table())
    }

    /// The disk the FAT mount and `/dev/disk0` use.
    pub closed spec fn disk(&self) -> D {
        self.disk
    }

    /// The timer ticks since boot, as last set.
    pub closed spec fn clock(&self) -> u64 {
        self.ticks
    }

    /// The mount that owns `abs`.
    pub open spec fn owner(&self, abs: Seq<char>) -> Option<int> {
        resolve_index(self.prefixes(), abs)
    }

    /// `abs` relative to the root of mount `i`.
    pub open spec fn rel(&self, i: int, abs: Seq<char>) -> Seq<char> {
        rel_path(self.prefixes()[i], abs)
    }

    /// `new` is `self` with `fs` mounted at (the canonical form of)
    /// `prefix`, as the last mount.
    pub open spec fn mounted(&self, new: &Self, prefix: Seq<char>, fs: MountedFs) -> bool {
        &&& new.prefixes() == self.prefixes().push(trim_trailing_slashes(prefix))
        &&& new.table().drop_last() == self.table()
        &&& new.table().last().fs == fs
    }

    /// `new` is `self` without the mount at (the canonical form of)
    /// `prefix`.
    pub open spec fn unmounted(&self, new: &Self, prefix: Seq<char>) -> bool {
        exists|i: int|
            0 <= i < self.table().len() && self.prefixes()[i] == trim_trailing_slashes(prefix) && new.table()
                == self.table().remove(i)
    }

    /// Whether answers about `abs` are exactly the specified ones: they are,
    /// unless the FAT volume on an unreliable disk owns `abs`.
    pub open spec fn exact(&self, abs: Seq<char>) -> bool {
        match self.owner(abs) {
            Some(i) => !(self.table()[i].fs is Fat) || self.disk().reliable(),
            None => true,
        }
    }

    /// Reading leaves the table, the clock and the disk as they were.
    pub open spec fn same(&self, new: &Self) -> bool {
        &&& new.table() == self.table()
        &&& new.clock() == self.clock()
        &&& new.disk().contents() == self.disk().contents()
        &&& new.disk().reliable() == self.disk().reliable()
    }

    /// The contents of the file at `abs`.
    pub open spec fn spec_read_file(&self, abs: Seq<char>) -> Result<Seq<u8>, FsError> {
        match self.owner(abs) {
            None => Err(FsError::NotFound),
            Some(i) => fs_read(self.table()[i].fs, self.rel(i, abs), self.disk().contents(), self.clock()),
        }
    }

    /// The listing of the directory at `abs`, as its filesystem gives it.
    pub open spec fn spec_list_dir(&self, abs: Seq<char>) -> Result<Seq<Seq<char>>, FsError> {
        match self.owner(abs) {
            None => Err(FsError::NotFound),
            Some(i) => fs_list(self.table()[i].fs, self.rel(i, abs), self.disk().contents()),
        }
    }

    /// `names` is the listing `c` of `abs` as its filesystem presents it.
    pub open spec fn presents(&self, abs: Seq<char>, c: Seq<Seq<char>>, names: Seq<Seq<char>>) -> bool {
        match self.owner(abs) {
            None => false,
            Some(i) => presented(self.table()[i].fs, c, names),
        }
    }

    /// `abs` is a mount point, or a directory of the filesystem owning it.
    pub open spec fn spec_is_dir(&self, abs: Seq<char>) -> bool {
        ||| self.prefixes().contains(trim_trailing_slashes(abs))
        ||| match self.owner(abs) {
            Some(i) => fs_is_dir(self.table()[i].fs, self.rel(i, abs), self.disk().contents()),
            None => false,
        }
    }

    /// A streaming write of `buf` at byte `off` of `abs` took `self` to
    /// `new`, answering `r`: only devfs nodes take such writes.
    pub open spec fn wrote_at(&self, new: &Self, abs: Seq<char>, off: u64, buf: Seq<u8>, r: Result<usize, FsError>) -> bool {
        &&& new.clock() == self.clock()
        &&& new.disk().reliable() == self.disk().reliable()
        &&& new.prefixes() == self.prefixes()
        &&& new.table().len() == self.table().len()
        &&& match self.owner(abs) {
            None => r == Err::<usize, FsError>(FsError::NotFound) && new.table() == self.table()
                && new.disk().contents() == self.disk().contents(),
            Some(i) => match self.table()[i].fs {
                MountedFs::Dev(d0) => {
                    &&& forall|j: int| 0 <= j < self.table().len() && j != i ==> new.table()[j] == self.table()[j]
                    &&& new.table()[i].fs matches MountedFs::Dev(d1) && write_at_effect(
                        d0,
                        d1,
                        self.disk().contents(),
                        new.disk().contents(),
                        self.disk().reliable(),
                        self.rel(i, abs),
                        off,
                        buf,
                        r,
                    )
                },
                _ => r == Err::<usize, FsError>(FsError::Unsupported) && new.table() == self.table()
                    && new.disk().contents() == self.disk().contents(),
            },
        }
    }

    /// `r` is what reading the file at `abs` may give: the specified
    /// contents or error, or (when the answer is not exact) an I/O error.
    pub open spec fn reads(&self, abs: Seq<char>, r: Result<Seq<u8>, FsError>) -> bool {
        crate::fat::outcome(r, self.spec_read_file(abs), self.exact(abs))
    }

    /// `b` is what asking whether `abs` is a directory may give.
    pub open spec fn answers_is_dir(&self, abs: Seq<char>, b: bool) -> bool {
        &&& b ==> self.spec_is_dir(abs)
        &&& self.exact(abs) ==> b == self.spec_is_dir(abs)
    }

    /// `r` is what listing the directory at `abs` may give: the listing as
    /// its filesystem presents it, followed by the mount points directly
    /// below `abs` it lacks; or the specified error, or (when the answer is
    /// not exact) an I/O error.
    pub open spec fn lists(&self, abs: Seq<char>, r: Result<Seq<Seq<char>>, FsError>) -> bool {
        &&& match r {
            Ok(names) => self.spec_list_dir(abs) matches Ok(c) && exists|base: Seq<Seq<char>>|
                #[trigger] self.presents(abs, c, base) && names == with_mount_children(
                    base,
                    trim_trailing_slashes(abs),
                    self.prefixes(),
                ),
            Err(e) => self.spec_list_dir(abs) == Err::<Seq<Seq<char>>, FsError>(e) || (e == FsError::Io && !self.exact(
                abs,
            )),
        }
        &&& self.spec_list_dir(abs) is Err ==> r is Err
        &&& self.exact(abs) && self.spec_list_dir(abs) is Ok ==> r is Ok
    }

    /// The request `c` on `abs` took `self` to `new`, answering `r`: the
    /// owning mount changed as `change_effect` says, the other mounts and
    /// the clock did not; a path no mount owns is `NotFound`.
    pub open spec fn changed(&self, new: &Self, abs: Seq<char>, c: Change, r: Result<(), FsError>) -> bool {
        &&& new.clock() == self.clock()
        &&& new.disk().reliable() == self.disk().reliable()
        &&& new.prefixes() == self.prefixes()
        &&& new.table().len() == self.table().len()
        &&& match self.owner(abs) {
            None => r == Err::<(), FsError>(FsError::NotFound) && new.table() == self.table()
                && new.disk().contents() == self.disk().contents(),
            Some(i) => {
                &&& forall|j: int| 0 <= j < self.table().len() && j != i ==> new.table()[j] == self.table()[j]
                &&& new.table()[i].prefix == self.table()[i].prefix
                &&& change_effect(
                    self.table()[i].fs,
                    new.table()[i].fs,
                    self.disk().contents(),
                    new.disk().contents(),
                    self.disk().reliable(),
                    self.rel(i, abs),
                    c,
                    r,
                )
            },
        }
    }

    /// Prefixes are distinct and canonical, the table is not over-full, and
    /// every mounted filesystem is well formed.
    pub open spec fn wf(&self) -> bool {
        &&& distinct(self.prefixes())
        &&& self.table().len() <= MAX_MOUNTS
        &&& forall|i: int| 0 <= i < self.table().len() ==> (#[trigger] self.table()[i]).fs.wf()
        &&& forall|i: int|
            0 <= i < self.table().len() ==> trim_trailing_slashes(#[trigger] self.prefixes()[i]) == self.prefixes()[i]
        &&& forall|i: int| 0 <= i < self.table().len() ==> starts_with_slash(#[trigger] self.prefixes()[i]) || self.prefixes()[i].len() == 0
    }

    /// An empty table over `disk`.
    pub fn new(disk: D) -> (v: Vfs<D>)
        ensures
            v.wf(),
            v.table() == Seq::<Mount>::empty(),
            v.disk() == disk,
            v.clock() == 0,
    {
        let v = Vfs { mounts: Vec::new(), disk, ticks: 0 };
        assert(v.prefixes() =~= Seq::<Seq<char>>::empty());
        v
    }

    /// The disk the FAT mount and `/dev/disk0` use.
    pub fn disk_ref(&self) -> (r: &D)
        ensures
            *r == self.disk(),
    {
        &self.disk
    }

    /// The clock, in timer ticks since boot.
    pub fn ticks(&self) -> (t: u64)
        ensures
            t == self.clock(),
    {
        self.ticks
    }

    /// Set the clock that synthetic files (such as `/proc/uptime`) report.
    pub fn set_ticks(&mut self, ticks: u64)
        ensures
            final(self).clock() == ticks,
            final(self).table() == old(self).table(),
            final(self).disk() == old(self).disk(),
    {
        self.ticks = ticks;
    }

    /// Mount `fs` at the absolute `prefix` (`/` for the root). Errors if the
    /// table is full (`Unsupported`), the prefix is not absolute or already
    /// taken (`Io`).
    pub fn mount(&mut self, prefix: &str, fs: MountedFs) -> (r: Result<(), FsError>)
        requires
            old(self).wf(),
            fs.wf(),
        ensures
            final(self).wf(),
            final(self).disk() == old(self).disk(),
            final(self).clock() == old(self).clock(),
            old(self).table().len() >= MAX_MOUNTS ==> r == Err::<(), FsError>(FsError::Unsupported),
            old(self).table().len() < MAX_MOUNTS && !starts_with_slash(prefix@) ==> r == Err::<(), FsError>(FsError::Io),
            old(self).table().len() < MAX_MOUNTS && starts_with_slash(prefix@) && old(self).prefixes().contains(
                trim_trailing_slashes(prefix@),
            ) ==> r == Err::<(), FsError>(FsError::Io),
            old(self).table().len() < MAX_MOUNTS && starts_with_slash(prefix@) && !old(self).prefixes().contains(
                trim_trailing_slashes(prefix@),
            ) ==> r is Ok,
            r is Err ==> final(self).table() == old(self).table(),
            r is Ok ==> old(self).mounted(&*final(self), prefix@, fs),
    {
        if self.mounts.len() >= MAX_MOUNTS {
            return Err(FsError::Unsupported);
        }
        let cs = chars_of(prefix);
        if !(cs.len() > 0 && cs[0] == '/') {
            return Err(FsError::Io);
        }
        let canonical = canonical_prefix(cs.as_slice());
        let mut i: usize = 0;
        while i < self.mounts.len()
            invariant
                i <= self.mounts@.len(),
                *self == *old(self),
                old(self).table().len() < MAX_MOUNTS,
                starts_with_slash(prefix@),
                old(self).wf(),
                canonical@ == trim_trailing_slashes(prefix@),
                forall|k: int| 0 <= k < i ==> self.prefixes()[k] != canonical@,
            decreases self.mounts@.len() - i,
        {
            if chars_eq(self.mounts[i].prefix.as_slice(), canonical.as_slice()) {
                assert(self.prefixes()[i as int] == canonical@);
                return Err(FsError::Io);
            }
            i = i + 1;
        }
        proof {
            lemma_trim_idempotent(prefix@);
            lemma_trim_is_prefix(prefix@);
            if canonical@.len() > 0 {
                assert(canonical@[0] == prefix@.take(canonical@.len() as int)[0]);
            }
        }
        let ghost old_ps = self.prefixes();
        let ghost old_t = self.table();
        self.mounts.push(Mount { prefix: canonical, fs });
        assert(self.prefixes() =~= old_ps.push(trim_trailing_slashes(prefix@)));
        assert(self.table().drop_last() =~= old_t);
        proof {
            assert forall|i: int| 0 <= i < self.table().len() implies (#[trigger] self.table()[i]).fs.wf() by {
                if i < old_t.len() {
                    assert(self.table()[i] == old_t[i]);
                }
            }
            assert forall|i: int|
                0 <= i < self.table().len() implies trim_trailing_slashes(#[trigger] self.prefixes()[i])
                == self.prefixes()[i] by {
                if i < old_t.len() {
                    assert(self.prefixes()[i] == old_ps[i]);
                }
            }
            assert forall|i: int| 0 <= i < self.table().len() implies starts_with_slash(#[trigger] self.prefixes()[i])
                || self.prefixes()[i].len() == 0 by {
                if i < old_t.len() {
                    assert(self.prefixes()[i] == old_ps[i]);
                }
            }
        }
        Ok(())
    }

    /// Unmount the filesystem at `prefix`.
    pub fn unmount(&mut self, prefix: &str) -> (r: Result<(), FsError>)
        requires
            old(self).wf(),
        ensures
            final(self).wf(),
            final(self).disk() == old(self).disk(),
            final(self).clock() == old(self).clock(),
            match r {
                Ok(()) => old(self).unmounted(&*final(self), prefix@),
                Err(e) => e == FsError::NotFound && !old(self).prefixes().contains(trim_trailing_slashes(prefix@))
                    && final(self).table() == old(self).table(),
            },
    {
        let cs = chars_of(prefix);
        let canonical = canonical_prefix(cs.as_slice());
        let mut i: usize = 0;
        while i < self.mounts.len()
            invariant
                i <= self.mounts@.len(),
                *self == *old(self),
                old(self).wf(),
                canonical@ == trim_trailing_slashes(prefix@),
                forall|k: int| 0 <= k < i ==> self.prefixes()[k] != canonical@,
            decreases self.mounts@.len() - i,
        {
            if chars_eq(self.mounts[i].prefix.as_slice(), canonical.as_slice()) {
                let ghost old_t = self.table();
                let ghost old_ps = self.prefixes();
                self.mounts.remove(i);
                proof {
                    old_t.remove_ensures(i as int);
                    let nt = self.table();
                    assert(nt == old_t.remove(i as int));
                    assert(self.prefixes() =~= old_ps.remove(i as int));
                    old_ps.remove_ensures(i as int);
                    assert forall|a: int, b: int| 0 <= a < b < nt.len() implies self.prefixes()[a] != self.prefixes()[b] by {
                        let aa = if a < i { a } else { a + 1 };
                        let bb = if b < i { b } else { b + 1 };
                        assert(self.prefixes()[a] == old_ps[aa] && self.prefixes()[b] == old_ps[bb]);
                    }
                    assert forall|k: int| 0 <= k < nt.len() implies (#[trigger] nt[k]).fs.wf() by {
                        let kk = if k < i { k } else { k + 1 };
                        assert(nt[k] == old_t[kk]);
                    }
                    assert forall|k: int| 0 <= k < nt.len() implies trim_trailing_slashes(#[trigger] self.prefixes()[k])
                        == self.prefixes()[k] by {
                        let kk = if k < i { k } else { k + 1 };
                        assert(self.prefixes()[k] == old_ps[kk]);
                    }
                }
                return Ok(());
            }
            i = i + 1;
        }
        Err(FsError::NotFound)
    }

    /// The mounts as `(prefix, backing)` pairs, in mount order; the root is
    /// shown as `/`.
    pub fn mounts(&self) -> (r: Vec<(String, &'static str)>)
        ensures
            r@.len() == self.table().len(),
            forall|i: int|
                0 <= i < r@.len() ==> (#[trigger] r@[i]).0@ == (if self.prefixes()[i].len() == 0 {
                    seq!['/']
                } else {
                    self.prefixes()[i]
                }) && r@[i].1@ == self.table()[i].fs.spec_backing(),
    {
        let mut out: Vec<(String, &'static str)> = Vec::new();
        let mut i: usize = 0;
        while i < self.mounts.len()
            invariant
                i <= self.mounts@.len(),
                out@.len() == i,
                forall|k: int|
                    0 <= k < i ==> (#[trigger] out@[k]).0@ == (if self.prefixes()[k].len() == 0 {
                        seq!['/']
                    } else {
                        self.prefixes()[k]
                    }) && out@[k].1@ == self.table()[k].fs.spec_backing(),
            decreases self.mounts@.len() - i,
        {
            let m = &self.mounts[i];
            let p = if m.prefix.len() == 0 {
                let mut s = String::new();
                crate::path::push_char(&mut s, '/');
                assert(s@ =~= seq!['/']);
                s
            } else {
                string_of(m.prefix.as_slice())
            };
            out.push((p, m.fs.backing()));
            i = i + 1;
        }
        out
    }

    /// Make `data` the contents of the file at `abs`.
    pub fn write_file(&mut self, abs: &str, data: &[u8]) -> (r: Result<(), FsError>)
        requires
            old(self).wf(),
        ensures
            final(self).wf(),
            old(self).changed(&*final(self), abs@, Change::WriteFile(data@), r),
    {
        let (i, rel) = match self.resolve(abs) {
            Ok(x) => x,
            Err(e) => return Err(e),
        };
        let r = match &mut self.mounts[i].fs {
            MountedFs::Tmp(t) => t.write_file(rel.as_str(), data),
            MountedFs::Ram(_) => Err(FsError::Unsupported),
            MountedFs::Dev(d) => d.write_file(&mut self.disk, rel.as_str(), data),
            MountedFs::Fat(f) => f.write_file(&mut self.disk, rel.as_str(), data),
        };
        proof {
            lemma_one_mount_changed(*old(self), *self, i as int);
        }
        r
    }

    /// Create an empty file at `abs`, or truncate the file there.
    pub fn create_file(&mut self, abs: &str) -> (r: Result<(), FsError>)
        requires
            old(self).wf(),
        ensures
            final(self).wf(),
            old(self).changed(&*final(self), abs@, Change::CreateFile, r),
    {
        let (i, rel) = match self.resolve(abs) {
            Ok(x) => x,
            Err(e) => return Err(e),
        };
        let r = match &mut self.mounts[i].fs {
            MountedFs::Tmp(t) => t.create_file(rel.as_str()),
            MountedFs::Ram(_) => Err(FsError::Unsupported),
            MountedFs::Dev(_) => Err(FsError::Unsupported),
            MountedFs::Fat(f) => f.create_file(&mut self.disk, rel.as_str()),
        };
        proof {
            lemma_one_mount_changed(*old(self), *self, i as int);
        }
        r
    }

    /// Append `data` to the file at `abs`, creating it if missing.
    pub fn append_file(&mut self, abs: &str, data: &[u8]) -> (r: Result<(), FsError>)
        requires
            old(self).wf(),
        ensures
            final(self).wf(),
            old(self).changed(&*final(self), abs@, Change::AppendFile(data@), r),
    {
        let (i, rel) = match self.resolve(abs) {
            Ok(x) => x,
            Err(e) => return Err(e),
        };
        let r = match &mut self.mounts[i].fs {
            MountedFs::Tmp(t) => t.append_file(rel.as_str(), data),
            MountedFs::Ram(_) => Err(FsError::Unsupported),
            MountedFs::Dev(_) => Err(FsError::Unsupported),
            MountedFs::Fat(f) => f.append_file(&mut self.disk, rel.as_str(), data),
        };
        proof {
            lemma_one_mount_changed(*old(self), *self, i as int);
        }
        r
    }

    /// Create an empty directory at `abs`.
    pub fn create_dir(&mut self, abs: &str) -> (r: Result<(), FsError>)
        requires
            old(self).wf(),
        ensures
            final(self).wf(),
            old(self).changed(&*final(self), abs@, Change::CreateDir, r),
    {
        let (i, rel) = match self.resolve(abs) {
            Ok(x) => x,
            Err(e) => return Err(e),
        };
        let r = match &mut self.mounts[i].fs {
            MountedFs::Tmp(t) => t.create_dir(rel.as_str()),
            MountedFs::Ram(_) => Err(FsError::Unsupported),
            MountedFs::Dev(_) => Err(FsError::Unsupported),
            MountedFs::Fat(f) => f.create_dir(&mut self.disk, rel.as_str()),
        };
        proof {
            lemma_one_mount_changed(*old(self), *self, i as int);
        }
        r
    }

    /// Remove the file or empty directory at `abs`.
    pub fn remove(&mut self, abs: &str) -> (r: Result<(), FsError>)
        requires
            old(self).wf(),
        ensures
            final(self).wf(),
            old(self).changed(&*final(self), abs@, Change::Remove, r),
    {
        let (i, rel) = match self.resolve(abs) {
            Ok(x) => x,
            Err(e) => return Err(e),
        };
        let r = match &mut self.mounts[i].fs {
            MountedFs::Tmp(t) => t.remove(rel.as_str()),
            MountedFs::Ram(_) => Err(FsError::Unsupported),
            MountedFs::Dev(_) => Err(FsError::Unsupported),
            MountedFs::Fat(f) => f.remove(&mut self.disk, rel.as_str()),
        };
        proof {
            lemma_one_mount_changed(*old(self), *self, i as int);
        }
        r
    }

    /// The contents of the file at `abs`.
    pub fn read_file(&mut self, abs: &str) -> (r: Result<Vec<u8>, FsError>)
        requires
            old(self).wf(),
        ensures
            old(self).same(&*final(self)),
            old(self).reads(abs@, crate::fat::bytes_res(r)),
    {
        let (i, rel) = match self.resolve(abs) {
            Ok(x) => x,
            Err(e) => return Err(e),
        };
        match &self.mounts[i].fs {
            MountedFs::Tmp(t) => t.read_file(rel.as_str()),
            MountedFs::Ram(r) => r.read_file(rel.as_str(), self.ticks),
            MountedFs::Dev(d) => d.read_file(rel.as_str()),
            MountedFs::Fat(f) => f.read_file(&mut self.disk, rel.as_str()),
        }
    }

    /// Whether `abs` is a directory: every mount point is one.
    pub fn is_dir(&mut self, abs: &str) -> (r: bool)
        requires
            old(self).wf(),
        ensures
            old(self).same(&*final(self)),
            old(self).answers_is_dir(abs@, r),
            old(self).prefixes().contains(trim_trailing_slashes(abs@)) ==> r,
    {
        let cs = chars_of(abs);
        let canonical = canonical_prefix(cs.as_slice());
        let mut k: usize = 0;
        while k < self.mounts.len()
            invariant
                k <= self.mounts@.len(),
                *self == *old(self),
                canonical@ == trim_trailing_slashes(abs@),
                forall|j: int| 0 <= j < k ==> self.prefixes()[j] != canonical@,
            decreases self.mounts@.len() - k,
        {
            if chars_eq(self.mounts[k].prefix.as_slice(), canonical.as_slice()) {
                assert(self.prefixes()[k as int] == canonical@);
                return true;
            }
            k = k + 1;
        }
        assert(!self.prefixes().contains(canonical@));
        let (i, rel) = match self.resolve(abs) {
            Ok(x) => x,
            Err(_) => return false,
        };
        match &self.mounts[i].fs {
            MountedFs::Tmp(t) => t.is_dir(rel.as_str()),
            MountedFs::Ram(r) => r.is_dir(rel.as_str()),
            MountedFs::Dev(d) => d.is_dir(rel.as_str()),
            MountedFs::Fat(f) => f.is_dir(&mut self.disk, rel.as_str()),
        }
    }

    /// Whether writes to `abs` can succeed (`false` when no mount owns it).
    pub fn writable(&self, abs: &str) -> (r: bool)
        requires
            self.wf(),
        ensures
            r == match self.owner(abs@) {
                Some(i) => self.table()[i].fs.spec_writable(),
                None => false,
            },
    {
        match self.resolve(abs) {
            Ok((i, _)) => self.mounts[i].fs.writable(),
            Err(_) => false,
        }
    }

    /// The backing store of the filesystem that owns `abs` (`?` when none).
    pub fn backing(&self, abs: &str) -> (r: &'static str)
        requires
            self.wf(),
        ensures
            r@ == match self.owner(abs@) {
                Some(i) => self.table()[i].fs.spec_backing(),
                None => "?"@,
            },
    {
        match self.resolve(abs) {
            Ok((i, _)) => self.mounts[i].fs.backing(),
            Err(_) => "?",
        }
    }

    /// The names in the directory at `abs`, followed by the mount points
    /// directly below it that the listing lacks.
    pub fn list_dir(&mut self, abs: &str) -> (r: Result<Vec<String>, FsError>)
        requires
            old(self).wf(),
        ensures
            old(self).same(&*final(self)),
            old(self).lists(abs@, crate::fat::names_res(r)),
    {
        let (i, rel) = match self.resolve(abs) {
            Ok(x) => x,
            Err(e) => return Err(e),
        };
        let listed = match &self.mounts[i].fs {
            MountedFs::Tmp(t) => t.list_dir(rel.as_str()),
            MountedFs::Ram(r) => r.list_dir(rel.as_str()),
            MountedFs::Dev(d) => d.list_dir(rel.as_str()),
            MountedFs::Fat(f) => f.list_dir(&mut self.disk, rel.as_str()),
        };
        let mut entries = match listed {
            Ok(v) => v,
            Err(e) => return Err(e),
        };
        let ghost base = strings_view(entries@);
        let ghost c = old(self).spec_list_dir(abs@)->Ok_0;
        assert(old(self).presents(abs@, c, base));
        let parent = canonical_prefix(chars_of(abs).as_slice());
        let ghost ps = self.prefixes();
        assert(ps.take(0) =~= Seq::<Seq<char>>::empty());
        let mut k: usize = 0;
        while k < self.mounts.len()
            invariant
                k <= self.mounts@.len(),
                old(self).same(&*self),
                ps == self.prefixes(),
                parent@ == trim_trailing_slashes(abs@),
                strings_view(entries@) == with_mount_children(base, parent@, ps.take(k as int)),
            decreases self.mounts@.len() - k,
        {
            assert(ps.take(k + 1).drop_last() =~= ps.take(k as int));
            assert(ps.take(k + 1).last() == self.mounts@[k as int].prefix@);
            match direct_child(parent.as_slice(), self.mounts[k].prefix.as_slice()) {
                Some(child) => {
                    if !contains_name(&entries, child.as_slice()) {
                        let ghost before = strings_view(entries@);
                        let s = string_of(child.as_slice());
                        entries.push(s);
                        assert(strings_view(entries@) =~= before.push(child@));
                    }
                },
                None => {},
            }
            k = k + 1;
        }
        assert(ps.take(self.mounts@.len() as int) =~= ps);
        Ok(entries)
    }

    /// A streaming read of up to `buf.len()` bytes of `abs` from byte `off`
    /// on; devfs nodes read themselves, other files are read whole and
    /// sliced.
    pub fn read_at(&mut self, abs: &str, off: u64, buf: &mut [u8]) -> (r: Result<usize, FsError>)
        requires
            old(self).wf(),
        ensures
            old(self).same(&*final(self)),
            final(buf)@.len() == old(buf)@.len(),
            match old(self).owner(abs@) {
                None => r == Err::<usize, FsError>(FsError::NotFound) && final(buf)@ == old(buf)@,
                Some(i) => match old(self).table()[i].fs {
                    MountedFs::Dev(_) => read_at_effect(
                        old(self).disk().contents(),
                        old(self).disk().reliable(),
                        old(self).rel(i, abs@),
                        off,
                        old(buf)@,
                        final(buf)@,
                        r,
                    ),
                    _ => read_at_from(old(self).spec_read_file(abs@), off, old(buf)@, final(buf)@, r) || (!old(
                        self,
                    ).exact(abs@) && r == Err::<usize, FsError>(FsError::Io) && final(buf)@ == old(buf)@),
                },
            },
    {
        let (i, rel) = match self.resolve(abs) {
            Ok(x) => x,
            Err(e) => return Err(e),
        };
        if let MountedFs::Dev(d) = &self.mounts[i].fs {
            return d.read_at(&mut self.disk, rel.as_str(), off, buf);
        }
        let data = match self.read_file(abs) {
            Ok(d) => d,
            Err(e) => return Err(e),
        };
        let n = copy_at(data.as_slice(), off, buf);
        Ok(n)
    }

    /// A streaming write of `buf` to `abs` from byte `off` on; only devfs
    /// nodes take one.
    pub fn write_at(&mut self, abs: &str, off: u64, buf: &[u8]) -> (r: Result<usize, FsError>)
        requires
            old(self).wf(),
        ensures
            final(self).wf(),
            old(self).wrote_at(&*final(self), abs@, off, buf@, r),
    {
        let (i, rel) = match self.resolve(abs) {
            Ok(x) => x,
            Err(e) => return Err(e),
        };
        let is_dev = match &self.mounts[i].fs {
            MountedFs::Dev(_) => true,
            _ => false,
        };
        if !is_dev {
            return Err(FsError::Unsupported);
        }
        let r = match &mut self.mounts[i].fs {
            MountedFs::Dev(d) => d.write_at(&mut self.disk, rel.as_str(), off, buf),
            _ => Err(FsError::Unsupported),
        };
        proof {
            lemma_one_mount_changed(*old(self), *self, i as int);
        }
        r
    }

    /// Hand over the console writes queued on every devfs mount, oldest
    /// first.
    pub fn take_console(&mut self) -> (r: Vec<Vec<u8>>)
        requires
            old(self).wf(),
        ensures
            final(self).wf(),
            r@.map_values(|v: Vec<u8>| v@) == console_backlog(old(self).table()),
            final(self).table().len() == old(self).table().len(),
            forall|j: int| 0 <= j < old(self).table().len() ==> drained(old(self).table()[j], #[trigger] final(self).table()[j], true),
            final(self).clock() == old(self).clock(),
            final(self).disk() == old(self).disk(),
    {
        let mut out: Vec<Vec<u8>> = Vec::new();
        let ghost t0 = self.table();
        let mut k: usize = 0;
        assert(t0.take(0) =~= Seq::<Mount>::empty());
        while k < self.mounts.len()
            invariant
                k <= self.mounts@.len(),
                self.mounts@.len() == t0.len(),
                t0 == old(self).table(),
                old(self).wf(),
                self.clock() == old(self).clock(),
                self.disk() == old(self).disk(),
                out@.map_values(|v: Vec<u8>| v@) == console_backlog(t0.take(k as int)),
                forall|j: int| 0 <= j < k ==> drained(t0[j], #[trigger] self.table()[j], true),
                forall|j: int| k <= j < t0.len() ==> #[trigger] self.table()[j] == t0[j],
            decreases self.mounts@.len() - k,
        {
            assert(t0.take(k + 1).drop_last() =~= t0.take(k as int));
            let ghost before = out@;
            let ghost m0 = self.table()[k as int];
            assert(t0.take(k + 1).last() == m0);
            match &mut self.mounts[k].fs {
                MountedFs::Dev(d) => {
                    let mut q = d.take_console();
                    let ghost qv = q@;
                    out.append(&mut q);
                    assert(out@ == before + qv);
                    assert(out@.map_values(|v: Vec<u8>| v@) =~= before.map_values(|v: Vec<u8>| v@) + qv.map_values(
                        |v: Vec<u8>| v@,
                    ));
                },
                _ => {
                    assert(out@.map_values(|v: Vec<u8>| v@) =~= before.map_values(|v: Vec<u8>| v@) + Seq::<Seq<u8>>::empty());
                },
            }
            assert(drained(m0, self.table()[k as int], true));
            assert(out@.map_values(|v: Vec<u8>| v@) =~= console_backlog(t0.take(k + 1)));
            k = k + 1;
        }
        assert(t0.take(t0.len() as int) =~= t0);
        proof {
            assert forall|j: int| 0 <= j < self.table().len() implies (#[trigger] self.table()[j]).fs.wf() by {
                assert(drained(t0[j], self.table()[j], true));
            }
            assert(self.prefixes() =~= prefixes_of(t0)) by {
                assert forall|j: int| 0 <= j < t0.len() implies self.prefixes()[j] == prefixes_of(t0)[j] by {
                    assert(drained(t0[j], self.table()[j], true));
                }
            }
        }
        out
    }

    /// Hand over the serial bytes queued on every devfs mount.
    pub fn take_serial(&mut self) -> (r: Vec<u8>)
        requires
            old(self).wf(),
        ensures
            final(self).wf(),
            r@ == serial_backlog(old(self).table()),
            final(self).table().len() == old(self).table().len(),
            forall|j: int| 0 <= j < old(self).table().len() ==> drained(old(self).table()[j], #[trigger] final(self).table()[j], false),
            final(self).clock() == old(self).clock(),
            final(self).disk() == old(self).disk(),
    {
        let mut out: Vec<u8> = Vec::new();
        let ghost t0 = self.table();
        let mut k: usize = 0;
        assert(t0.take(0) =~= Seq::<Mount>::empty());
        while k < self.mounts.len()
            invariant
                k <= self.mounts@.len(),
                self.mounts@.len() == t0.len(),
                t0 == old(self).table(),
                old(self).wf(),
                self.clock() == old(self).clock(),
                self.disk() == old(self).disk(),
                out@ == serial_backlog(t0.take(k as int)),
                forall|j: int| 0 <= j < k ==> drained(t0[j], #[trigger] self.table()[j], false),
                forall|j: int| k <= j < t0.len() ==> #[trigger] self.table()[j] == t0[j],
            decreases self.mounts@.len() - k,
        {
            assert(t0.take(k + 1).drop_last() =~= t0.take(k as int));
            let ghost before = out@;
            let ghost m0 = self.table()[k as int];
            assert(t0.take(k + 1).last() == m0);
            match &mut self.mounts[k].fs {
                MountedFs::Dev(d) => {
                    let mut q = d.take_serial();
                    out.append(&mut q);
                },
                _ => {
                    assert(out@ =~= before + Seq::<u8>::empty());
                },
            }
            assert(drained(m0, self.table()[k as int], false));
            assert(out@ =~= serial_backlog(t0.take(k + 1)));
            k = k + 1;
        }
        assert(t0.take(t0.len() as int) =~= t0);
        proof {
            assert forall|j: int| 0 <= j < self.table().len() implies (#[trigger] self.table()[j]).fs.wf() by {
                assert(drained(t0[j], self.table()[j], false));
            }
            assert(self.prefixes() =~= prefixes_of(t0)) by {
                assert forall|j: int| 0 <= j < t0.len() implies self.prefixes()[j] == prefixes_of(t0)[j] by {
                    assert(drained(t0[j], self.table()[j], false));
                }
            }
        }
        out
    }

    /// Longest-prefix match: the mount owning `abs` and the path relative to
    /// its root (always starting with `/`).
    fn resolve(&self, abs: &str) -> (r: Result<(usize, String), FsError>)
        requires
            self.wf(),
        ensures
            match r {
                Ok((i, rel)) => resolve_index(self.prefixes(), abs@) == Some(i as int) && rel@ == rel_path(
                    self.prefixes()[i as int],
                    abs@,
                ),
                Err(e) => e == FsError::NotFound && resolve_index(self.prefixes(), abs@) is None,
            },
    {
        let cs = chars_of(abs);
        if !(cs.len() > 0 && cs[0] == '/') {
            return Err(FsError::NotFound);
        }
        let ghost ps = self.prefixes();
        let mut best: Option<usize> = None;
        let mut i: usize = 0;
        while i < self.mounts.len()
            invariant
                i <= self.mounts@.len(),
                ps == self.prefixes(),
                cs@ == abs@,
                match best {
                    Some(b) => b < i && covers(ps[b as int], abs@) && forall|j: int|
                        0 <= j < i && covers(#[trigger] ps[j], abs@) ==> ps[j].len() <= ps[b as int].len(),
                    None => forall|j: int| 0 <= j < i ==> !covers(#[trigger] ps[j], abs@),
                },
            decreases self.mounts@.len() - i,
        {
            let p = &self.mounts[i].prefix;
            assert(ps[i as int] == p@);
            if p.len() == 0 {
                if best.is_none() {
                    best = Some(i);
                }
            } else if chars_eq(cs.as_slice(), p.as_slice()) || prefix_then_slash(p.as_slice(), cs.as_slice()) {
                let better = match best {
                    None => true,
                    Some(b) => self.mounts[b].prefix.len() < p.len(),
                };
                if better {
                    best = Some(i);
                }
            } else {
                assert(!covers(ps[i as int], abs@));
            }
            i = i + 1;
        }
        let b = match best {
            Some(b) => b,
            None => return Err(FsError::NotFound),
        };
        proof {
            assert(is_best(ps, abs@, b as int));
            let c = choose|k: int| is_best(ps, abs@, k);
            lemma_best_unique(ps, abs@, b as int, c);
        }
        let p = &self.mounts[b].prefix;
        let rel = if p.len() == 0 {
            string_of(cs.as_slice())
        } else {
            let mut tail: Vec<char> = Vec::new();
            let mut k: usize = p.len();
            proof {
                if ps[b as int].len() > 0 && abs@ != ps[b as int] {
                    assert(ps[b as int].len() + 1 <= abs@.len());
                }
            }
            while k < cs.len()
                invariant
                    p@.len() <= k <= cs@.len(),
                    tail@ == cs@.subrange(p@.len() as int, k as int),
                decreases cs@.len() - k,
            {
                tail.push(cs[k]);
                k = k + 1;
                assert(tail@ =~= cs@.subrange(p@.len() as int, k as int));
            }
            assert(tail@ =~= abs@.skip(p@.len() as int));
            if tail.len() == 0 {
                let mut s = String::new();
                crate::path::push_char(&mut s, '/');
                assert(s@ =~= seq!['/']);
                s
            } else {
                string_of(tail.as_slice())
            }
        };
        Ok((b, rel))
    }
}

/// Whether `c` is one of the names in `v`.
fn contains_name(v: &Vec<String>, c: &[char]) -> (r: bool)
    ensures
        r == strings_view(v@).contains(c@),
{
    let mut j: usize = 0;
    while j < v.len()
        invariant
            j <= v@.len(),
            forall|k: int| 0 <= k < j ==> strings_view(v@)[k] != c@,
        decreases v@.len() - j,
    {
        let cs = chars_of(v[j].as_str());
        if chars_eq(cs.as_slice(), c) {
            assert(strings_view(v@)[j as int] == c@);
            return true;
        }
        j = j + 1;
    }
    false
}

/// Copy up to `buf.len()` bytes of `data` from byte `off` on to the front
/// of `buf`; the count copied.
fn copy_at(data: &[u8], off: u64, buf: &mut [u8]) -> (n: usize)
    ensures
        slice_read(data@, off, old(buf)@, final(buf)@, Ok::<usize, FsError>(n)),
{
    if off >= data.len() as u64 {
        return 0;
    }
    let start = off as usize;
    let avail = data.len() - start;
    let n = if avail < buf.len() {
        avail
    } else {
        buf.len()
    };
    let mut k: usize = 0;
    while k < n
        invariant
            k <= n,
            n <= buf@.len(),
            start + n <= data.len(),
            buf@.len() == old(buf)@.len(),
            forall|j: int| 0 <= j < k ==> buf@[j] == data@[start + j],
            forall|j: int| n <= j < buf@.len() ==> buf@[j] == old(buf)@[j],
        decreases n - k,
    {
        buf[k] = data[start + k];
        k = k + 1;
    }
    assert(buf@ =~= data@.subrange(off as int, off + n) + old(buf)@.skip(n as int));
    n
}

/// The root filesystem: the FAT volume on `disk` at `/` (the seed ramfs
/// instead when no data disk is present or the volume does not mount),
/// tmpfs at `/tmp`, devfs at `/dev` and the seed ramfs at `/ram`.
pub fn mount_root<D: BlockDevice>(disk: D, disk_present: bool, serial_attached: bool) -> (v: Vfs<D>)
    ensures
        v.wf(),
        v.prefixes() == seq![Seq::<char>::empty(), "/tmp"@, "/dev"@, "/ram"@],
        v.clock() == 0,
        v.disk().contents() == disk.contents(),
        v.disk().reliable() == disk.reliable(),
        match v.table()[0].fs {
            MountedFs::Fat(f) => disk_present && disk.contents().len() >= 512 && parse_bpb(block_of(disk.contents(), 0))
                == Some(f),
            MountedFs::Ram(r) => (forall|q: Seq<Seq<char>>| #[trigger] lookup(r.view(), q) == seed_node(q)) && (
            disk_present && disk.reliable() && disk.contents().len() >= 512 ==> parse_bpb(block_of(disk.contents(), 0)) is None),
            _ => false,
        },
        v.table()[1].fs matches MountedFs::Tmp(t) && t.view() == Seq::<(Seq<Seq<char>>, crate::tree::NodeView)>::empty(),
        v.table()[2].fs matches MountedFs::Dev(d) && d.console_pending() == Seq::<Seq<u8>>::empty()
            && d.serial_pending() == Seq::<u8>::empty() && d.serial_is_attached() == serial_attached,
        v.table()[3].fs matches MountedFs::Ram(r) && forall|q: Seq<Seq<char>>| #[trigger] lookup(r.view(), q) == seed_node(q),
{
    let mut disk = disk;
    let root = if disk_present {
        match FatFs::mount(&mut disk) {
            Ok(fat) => MountedFs::Fat(fat),
            Err(_) => MountedFs::Ram(seed()),
        }
    } else {
        MountedFs::Ram(seed())
    };
    let mut vfs = Vfs::new(disk);
    proof {
        reveal_strlit("/");
        reveal_strlit("/tmp");
        reveal_strlit("/dev");
        reveal_strlit("/ram");
        reveal_with_fuel(trim_trailing_slashes, 2);
        assert("/tmp"@ != "/dev"@ && "/tmp"@ != "/ram"@ && "/dev"@ != "/ram"@) by {
            assert("/tmp"@[1] != "/dev"@[1] && "/tmp"@[1] != "/ram"@[1] && "/dev"@[1] != "/ram"@[1]);
        }
        assert(trim_trailing_slashes("/"@) =~= Seq::<char>::empty());
    }
    let r0 = vfs.mount("/", root);
    assert(r0 is Ok);
    let ghost p1 = vfs.prefixes();
    assert(!p1.contains("/tmp"@)) by {
        assert(p1 =~= seq![Seq::<char>::empty()]);
    }
    let r1 = vfs.mount("/tmp", MountedFs::Tmp(TmpFs::new()));
    assert(r1 is Ok);
    let ghost p2 = vfs.prefixes();
    assert(!p2.contains("/dev"@)) by {
        assert(p2 =~= seq![Seq::<char>::empty(), "/tmp"@]);
    }
    let r2 = vfs.mount("/dev", MountedFs::Dev(DevFs::new(serial_attached)));
    assert(r2 is Ok);
    let ghost p3 = vfs.prefixes();
    assert(!p3.contains("/ram"@)) by {
        assert(p3 =~= seq![Seq::<char>::empty(), "/tmp"@, "/dev"@]);
    }
    let r3 = vfs.mount("/ram", MountedFs::Ram(seed()));
    assert(r3 is Ok);
    assert(vfs.prefixes() =~= seq![Seq::<char>::empty(), "/tmp"@, "/dev"@, "/ram"@]);
    vfs
}

/// Unmounting a prefix right after mounting a filesystem there gives the
/// mount table back as it was.
pub proof fn law_unmount_undoes_mount<D: BlockDevice>(v0: Vfs<D>, v1: Vfs<D>, v2: Vfs<D>, prefix: Seq<char>, fs: MountedFs)
    requires
        v1.wf(),
        v0.mounted(&v1, prefix, fs),
        v1.unmounted(&v2, prefix),
    ensures
        v2.table() == v0.table(),
{
    let i = choose|i: int|
        0 <= i < v1.table().len() && v1.prefixes()[i] == trim_trailing_slashes(prefix) && v2.table()
            == v1.table().remove(i);
    let n = v0.table().len() as int;
    assert(v1.prefixes().len() == n + 1);
    assert(v1.prefixes()[n] == trim_trailing_slashes(prefix));
    if i != n {
        assert(v1.prefixes()[i] == v1.prefixes()[n]);
        assert(i < n);
    }
    assert(v1.table().remove(n) =~= v1.table().drop_last());
}

/// A mount point belongs to the filesystem mounted there, and is that
/// filesystem's root `/` (the root mount's point is `/`).
pub proof fn law_mount_point_owns_itself<D: BlockDevice>(v: Vfs<D>, i: int)
    requires
        v.wf(),
        0 <= i < v.table().len(),
    ensures
        ({
            let abs = if v.prefixes()[i].len() == 0 {
                seq!['/']
            } else {
                v.prefixes()[i]
            };
            v.owner(abs) == Some(i) && v.rel(i, abs) == seq!['/']
        }),
{
    let ps = v.prefixes();
    let p = ps[i];
    let abs = if p.len() == 0 {
        seq!['/']
    } else {
        p
    };
    assert(starts_with_slash(abs));
    assert forall|j: int| 0 <= j < ps.len() && covers(#[trigger] ps[j], abs) implies ps[j].len() <= ps[i].len() by {
        let q = ps[j];
        assert(trim_trailing_slashes(q) == q);
        if p.len() == 0 && q.len() > 0 {
            if q == abs {
                assert(q.last() == '/');
                lemma_trim_is_prefix(q.drop_last());
                assert(trim_trailing_slashes(q).len() < q.len());
            }
        }
    }
    assert(is_best(ps, abs, i));
    let c = choose|k: int| is_best(ps, abs, k);
    lemma_best_unique(ps, abs, i, c);
    if p.len() > 0 {
        assert(abs.skip(p.len() as int).len() == 0);
    }
}

/// After a successful `write_file` to a path a tmpfs mount owns, the file
/// reads back as the data written.
pub proof fn law_read_after_write<D: BlockDevice>(v0: Vfs<D>, v1: Vfs<D>, abs: Seq<char>, data: Seq<u8>)
    requires
        v0.wf(),
        v0.changed(&v1, abs, Change::WriteFile(data), Ok(())),
        v0.owner(abs) matches Some(i) && v0.table()[i].fs is Tmp,
    ensures
        v1.spec_read_file(abs) == Ok::<Seq<u8>, FsError>(data),
{
    let i = v0.owner(abs)->Some_0;
    let t0 = v0.table()[i].fs->Tmp_0;
    let t1 = v1.table()[i].fs->Tmp_0;
    let segs = segments(v0.rel(i, abs));
    tmp_read_after_write(t0.view(), t1.view(), segs, data, 0);
}

/// After a successful `write_file` to a path a FAT volume owns, the file
/// reads back as the data written, when the volume is sound where the write
/// goes (see [`FatFs::write_ready`]) and the data's length fits a directory
/// entry.
pub proof fn law_fat_read_after_write<D: BlockDevice>(v0: Vfs<D>, v1: Vfs<D>, abs: Seq<char>, data: Seq<u8>)
    requires
        v0.wf(),
        v0.changed(&v1, abs, Change::WriteFile(data), Ok(())),
        v0.owner(abs) matches Some(i) && v0.table()[i].fs matches MountedFs::Fat(f) && f.write_ready(
            v0.disk().contents(),
            v0.rel(i, abs),
        ),
        data.len() <= u32::MAX,
    ensures
        v1.spec_read_file(abs) == Ok::<Seq<u8>, FsError>(data),
{
    let i = v0.owner(abs)->Some_0;
    assert(v1.owner(abs) == v0.owner(abs));
    assert(v1.rel(i, abs) == v0.rel(i, abs));
}

/// A successful `write_file` to a path a FAT volume owns leaves every other
/// file of that volume that read back before reading back the same, when
/// the volume is sound where the write goes and no cluster read for the
/// other file is one the write may touch (the parent directory's chain, the
/// chain of the file replaced, a free cluster; see [`FatFs::write_touch`]),
/// leaving aside the parent directory's chain where the other file's lookup
/// looks up a name unlike the written one in it (see
/// [`FatFs::read_set_for`]): that directory keeps its other names.
pub proof fn law_fat_write_keeps_other_files<D: BlockDevice>(
    v0: Vfs<D>,
    v1: Vfs<D>,
    abs: Seq<char>,
    data: Seq<u8>,
    other: Seq<char>,
)
    requires
        v0.wf(),
        v0.changed(&v1, abs, Change::WriteFile(data), Ok(())),
        data.len() <= u32::MAX,
        v0.owner(other) == v0.owner(abs),
        v0.spec_read_file(other) is Ok,
        v0.owner(abs) matches Some(i) && v0.table()[i].fs matches MountedFs::Fat(f) && f.write_ready(
            v0.disk().contents(),
            v0.rel(i, abs),
        ) && forall|x: int|
            #[trigger] f.read_set_for(v0.disk().contents(), v0.rel(i, abs), v0.rel(i, other)).contains(x) ==> x < f.fat_entries()
                && !f.write_touch(v0.disk().contents(), v0.rel(i, abs)).contains(x),
    ensures
        v1.spec_read_file(other) == v0.spec_read_file(other),
{
    let i = v0.owner(abs)->Some_0;
    let f = v0.table()[i].fs->Fat_0;
    let d0 = v0.disk().contents();
    let d1 = v1.disk().contents();
    let ra = v0.rel(i, abs);
    let ro = v0.rel(i, other);
    let (p, n) = spec_split_parent(ra)->Some_0;
    let pc = f.dir_cluster(d0, p);
    let t = f.write_touch(d0, ra);
    assert(f.frame(d0, d1, t, t) && f.keeps_names(d0, d1, pc, n));
    assert(f.read_set_for(d0, ra, ro) == f.read_set_but(d0, ro, pc, n));
    assert(v1.owner(other) == v0.owner(other));
    assert(v1.rel(i, other) == ro);
    f.lemma_read_keep(d0, d1, ro, pc, n, t, t);
}

/// A successful `create_file` or `create_dir` (`c`) of a path a FAT volume
/// owns leaves every other file of that volume that read back before
/// reading back the same, under the conditions of
/// [`law_fat_write_keeps_other_files`].
pub proof fn law_fat_create_keeps_other_files<D: BlockDevice>(
    v0: Vfs<D>,
    v1: Vfs<D>,
    abs: Seq<char>,
    c: Change,
    other: Seq<char>,
)
    requires
        v0.wf(),
        c == Change::CreateFile || c == Change::CreateDir,
        v0.changed(&v1, abs, c, Ok(())),
        v0.owner(other) == v0.owner(abs),
        v0.spec_read_file(other) is Ok,
        v0.owner(abs) matches Some(i) && v0.table()[i].fs matches MountedFs::Fat(f) && f.write_ready(
            v0.disk().contents(),
            v0.rel(i, abs),
        ) && forall|x: int|
            #[trigger] f.read_set_for(v0.disk().contents(), v0.rel(i, abs), v0.rel(i, other)).contains(x) ==> x < f.fat_entries()
                && !f.write_touch(v0.disk().contents(), v0.rel(i, abs)).contains(x),
    ensures
        v1.spec_read_file(other) == v0.spec_read_file(other),
{
    let i = v0.owner(abs)->Some_0;
    let f = v0.table()[i].fs->Fat_0;
    let d0 = v0.disk().contents();
    let d1 = v1.disk().contents();
    let ra = v0.rel(i, abs);
    let ro = v0.rel(i, other);
    let (p, n) = spec_split_parent(ra)->Some_0;
    let pc = f.dir_cluster(d0, p);
    let t = f.write_touch(d0, ra);
    assert(f.frame(d0, d1, t, t) && f.keeps_names(d0, d1, pc, n));
    assert(f.read_set_for(d0, ra, ro) == f.read_set_but(d0, ro, pc, n));
    assert(v1.owner(other) == v0.owner(other));
    assert(v1.rel(i, other) == ro);
    f.lemma_read_keep(d0, d1, ro, pc, n, t, t);
}

/// On a reliable disk, `write_file` to a path a FAT volume owns succeeds
/// where the volume is sound, the parent is a directory, the path names no
/// directory, the size fits an entry and the disk has room for the data
/// (see [`FatFs::write_owed`]); the file then reads back as the data.
pub proof fn law_fat_write_succeeds<D: BlockDevice>(v0: Vfs<D>, v1: Vfs<D>, abs: Seq<char>, data: Seq<u8>, r: Result<(), FsError>)
    requires
        v0.wf(),
        v0.changed(&v1, abs, Change::WriteFile(data), r),
        v0.disk().reliable(),
        v0.owner(abs) matches Some(i) && v0.table()[i].fs matches MountedFs::Fat(f) && f.write_owed(
            v0.disk().contents(),
            v0.rel(i, abs),
            data.len(),
        ),
    ensures
        r is Ok,
        v1.spec_read_file(abs) == Ok::<Seq<u8>, FsError>(data),
{
    let i = v0.owner(abs)->Some_0;
    let f = v0.table()[i].fs->Fat_0;
    f.lemma_owed_facts(v0.disk().contents(), v0.rel(i, abs), data.len());
    assert(v1.owner(abs) == v0.owner(abs));
    assert(v1.rel(i, abs) == v0.rel(i, abs));
}

/// The volume `d` is sound where the request `c` at `rel` goes (see
/// [`FatFs::write_ready`] and [`FatFs::remove_ready`]), and what it writes
/// fits an entry.
pub open spec fn fat_change_ready(f: FatFs, d: Seq<u8>, rel: Seq<char>, c: Change) -> bool {
    match c {
        Change::Remove => f.remove_ready(d, rel),
        Change::WriteFile(data) => f.write_ready(d, rel) && data.len() <= u32::MAX,
        Change::AppendFile(data) => f.write_ready(d, rel) && f.appended(d, rel, data).len() <= u32::MAX,
        _ => f.write_ready(d, rel),
    }
}

/// The clusters the request `c` at `rel` on `d` gives back: the chain of
/// the entry it removes or the file it replaces.
pub open spec fn fat_change_gone(f: FatFs, d: Seq<u8>, rel: Seq<char>, c: Change) -> Set<int> {
    match c {
        Change::Remove => f.removed_chain(d, rel),
        Change::CreateDir => Set::empty(),
        _ => f.replaced_chain(d, rel),
    }
}

/// All FAT copies of `d` agree on every entry they all hold.
pub open spec fn fats_mirrored(f: FatFs, d: Seq<u8>) -> bool {
    forall|x: int| 0 <= x < f.fat_entries() && f.fat_copies_on_disk(x, d.len()) ==> #[trigger] f.mirrored(d, x)
}

/// A request a FAT volume carried out on a volume sound where it goes keeps
/// the volume consistent: every FAT copy still agrees with the others, and
/// every cluster in use before is still in use, but for the chain the
/// request gives back.
pub proof fn law_fat_change_keeps_volume<D: BlockDevice>(v0: Vfs<D>, v1: Vfs<D>, abs: Seq<char>, c: Change)
    requires
        v0.wf(),
        v0.changed(&v1, abs, c, Ok(())),
        v0.owner(abs) matches Some(i) && v0.table()[i].fs matches MountedFs::Fat(f) && fat_change_ready(
            f,
            v0.disk().contents(),
            v0.rel(i, abs),
            c,
        ),
    ensures
        ({
            let i = v0.owner(abs)->Some_0;
            let f = v0.table()[i].fs->Fat_0;
            let (d0, d1) = (v0.disk().contents(), v1.disk().contents());
            &&& fats_mirrored(f, d0) ==> fats_mirrored(f, d1)
            &&& f.keeps_mirrored(d0, d1)
            &&& f.keeps_in_use(d0, d1, fat_change_gone(f, d0, v0.rel(i, abs), c))
        }),
{
    let i = v0.owner(abs)->Some_0;
    let f = v0.table()[i].fs->Fat_0;
    let (d0, d1) = (v0.disk().contents(), v1.disk().contents());
    assert(d1.len() == d0.len());
    if fats_mirrored(f, d0) {
        assert forall|x: int| 0 <= x < f.fat_entries() && f.fat_copies_on_disk(x, d1.len()) implies #[trigger] f.mirrored(d1, x) by {
            assert(f.mirrored(d0, x));
        }
    }
}

/// On a reliable disk, `remove` of a path a FAT volume owns succeeds where
/// the volume is sound, the disk holds the FATs, the parent lists the path
/// and a directory there is empty (see [`FatFs::remove_owed`]); reading the
/// path then finds nothing.
pub proof fn law_fat_remove_succeeds<D: BlockDevice>(v0: Vfs<D>, v1: Vfs<D>, abs: Seq<char>, r: Result<(), FsError>)
    requires
        v0.wf(),
        v0.changed(&v1, abs, Change::Remove, r),
        v0.disk().reliable(),
        v0.owner(abs) matches Some(i) && v0.table()[i].fs matches MountedFs::Fat(f) && f.remove_owed(
            v0.disk().contents(),
            v0.rel(i, abs),
        ),
    ensures
        r is Ok,
        v1.spec_read_file(abs) == Err::<Seq<u8>, FsError>(FsError::NotFound),
{
    let i = v0.owner(abs)->Some_0;
    let f = v0.table()[i].fs->Fat_0;
    f.lemma_remove_owed_facts(v0.disk().contents(), v0.rel(i, abs));
    assert(v1.owner(abs) == v0.owner(abs));
    assert(v1.rel(i, abs) == v0.rel(i, abs));
}

/// After a successful `create_file` of a path a FAT volume owns, the file
/// reads back empty, when the volume is sound where the change goes.
pub proof fn law_fat_created_file_is_empty<D: BlockDevice>(v0: Vfs<D>, v1: Vfs<D>, abs: Seq<char>)
    requires
        v0.wf(),
        v0.changed(&v1, abs, Change::CreateFile, Ok(())),
        v0.owner(abs) matches Some(i) && v0.table()[i].fs matches MountedFs::Fat(f) && f.write_ready(
            v0.disk().contents(),
            v0.rel(i, abs),
        ),
    ensures
        v1.spec_read_file(abs) == Ok::<Seq<u8>, FsError>(Seq::empty()),
{
    let i = v0.owner(abs)->Some_0;
    assert(v1.owner(abs) == v0.owner(abs));
    assert(v1.rel(i, abs) == v0.rel(i, abs));
}

/// After a successful `create_dir` of a path a FAT volume owns, the path is
/// a directory that lists nothing, when the volume is sound where the change
/// goes.
pub proof fn law_fat_made_dir_is_empty<D: BlockDevice>(v0: Vfs<D>, v1: Vfs<D>, abs: Seq<char>)
    requires
        v0.wf(),
        v0.changed(&v1, abs, Change::CreateDir, Ok(())),
        v0.owner(abs) matches Some(i) && v0.table()[i].fs matches MountedFs::Fat(f) && f.write_ready(
            v0.disk().contents(),
            v0.rel(i, abs),
        ),
    ensures
        v1.spec_is_dir(abs),
        v1.spec_list_dir(abs) == Ok::<Seq<Seq<char>>, FsError>(Seq::empty()),
{
    let i = v0.owner(abs)->Some_0;
    assert(v1.owner(abs) == v0.owner(abs));
    assert(v1.rel(i, abs) == v0.rel(i, abs));
}

/// After a successful `append_file` to a path a FAT volume owns, the file
/// reads back as what it held (nothing if it was missing) followed by the
/// data, when the volume is sound where the write goes and the result's
/// length fits a directory entry.
pub proof fn law_fat_read_after_append<D: BlockDevice>(v0: Vfs<D>, v1: Vfs<D>, abs: Seq<char>, data: Seq<u8>)
    requires
        v0.wf(),
        v0.changed(&v1, abs, Change::AppendFile(data), Ok(())),
        v0.owner(abs) matches Some(i) && v0.table()[i].fs matches MountedFs::Fat(f) && f.write_ready(
            v0.disk().contents(),
            v0.rel(i, abs),
        ) && f.appended(v0.disk().contents(), v0.rel(i, abs), data).len() <= u32::MAX,
    ensures
        v1.spec_read_file(abs) == Ok::<Seq<u8>, FsError>(match v0.spec_read_file(abs) {
            Ok(b) => b + data,
            Err(_) => data,
        }),
{
    let i = v0.owner(abs)->Some_0;
    assert(v1.owner(abs) == v0.owner(abs));
    assert(v1.rel(i, abs) == v0.rel(i, abs));
}

/// A successful `append_file` to a path a FAT volume owns leaves every other
/// file of that volume that read back before reading back the same, when
/// the volume is sound where the write goes, the result's length fits a
/// directory entry, and no cluster read for the other file, but those of the
/// parent directory where another name is looked up in it, is one the write
/// may touch (see [`FatFs::write_touch`] and [`FatFs::read_set_for`]).
pub proof fn law_fat_append_keeps_other_files<D: BlockDevice>(
    v0: Vfs<D>,
    v1: Vfs<D>,
    abs: Seq<char>,
    data: Seq<u8>,
    other: Seq<char>,
)
    requires
        v0.wf(),
        v0.changed(&v1, abs, Change::AppendFile(data), Ok(())),
        v0.owner(other) == v0.owner(abs),
        v0.spec_read_file(other) is Ok,
        v0.owner(abs) matches Some(i) && v0.table()[i].fs matches MountedFs::Fat(f) && f.write_ready(
            v0.disk().contents(),
            v0.rel(i, abs),
        ) && f.appended(v0.disk().contents(), v0.rel(i, abs), data).len() <= u32::MAX && forall|x: int|
            #[trigger] f.read_set_for(v0.disk().contents(), v0.rel(i, abs), v0.rel(i, other)).contains(x) ==> x < f.fat_entries()
                && !f.write_touch(v0.disk().contents(), v0.rel(i, abs)).contains(x),
    ensures
        v1.spec_read_file(other) == v0.spec_read_file(other),
{
    let i = v0.owner(abs)->Some_0;
    let f = v0.table()[i].fs->Fat_0;
    let d0 = v0.disk().contents();
    let d1 = v1.disk().contents();
    let ra = v0.rel(i, abs);
    let ro = v0.rel(i, other);
    let (p, n) = spec_split_parent(ra)->Some_0;
    let pc = f.dir_cluster(d0, p);
    let t = f.write_touch(d0, ra);
    assert(f.frame(d0, d1, t, t) && f.keeps_names(d0, d1, pc, n));
    assert(f.read_set_for(d0, ra, ro) == f.read_set_but(d0, ro, pc, n));
    assert(v1.owner(other) == v0.owner(other));
    assert(v1.rel(i, other) == ro);
    f.lemma_read_keep(d0, d1, ro, pc, n, t, t);
}

/// A successful `remove` of a path a FAT volume owns leaves every other file
/// of that volume that read back before reading back the same, when the
/// volume is sound where the removal goes and no cluster read for the other
/// file, but those of the parent directory where another name is looked up
/// in it, is one the removal may touch (see [`FatFs::remove_touch`] and
/// [`FatFs::read_set_for`]).
pub proof fn law_fat_remove_keeps_other_files<D: BlockDevice>(v0: Vfs<D>, v1: Vfs<D>, abs: Seq<char>, other: Seq<char>)
    requires
        v0.wf(),
        v0.changed(&v1, abs, Change::Remove, Ok(())),
        v0.owner(other) == v0.owner(abs),
        v0.spec_read_file(other) is Ok,
        v0.owner(abs) matches Some(i) && v0.table()[i].fs matches MountedFs::Fat(f) && f.remove_ready(
            v0.disk().contents(),
            v0.rel(i, abs),
        ) && forall|x: int|
            #[trigger] f.read_set_for(v0.disk().contents(), v0.rel(i, abs), v0.rel(i, other)).contains(x) ==> x < f.fat_entries()
                && !f.remove_touch(v0.disk().contents(), v0.rel(i, abs)).contains(x),
    ensures
        v1.spec_read_file(other) == v0.spec_read_file(other),
{
    let i = v0.owner(abs)->Some_0;
    let f = v0.table()[i].fs->Fat_0;
    let d0 = v0.disk().contents();
    let d1 = v1.disk().contents();
    let ra = v0.rel(i, abs);
    let ro = v0.rel(i, other);
    let (p, n) = spec_split_parent(ra)->Some_0;
    let pc = f.dir_cluster(d0, p);
    let t = f.remove_touch(d0, ra);
    assert(f.frame(d0, d1, t, t) && f.keeps_names(d0, d1, pc, n));
    assert(f.read_set_for(d0, ra, ro) == f.read_set_but(d0, ro, pc, n));
    assert(v1.owner(other) == v0.owner(other));
    assert(v1.rel(i, other) == ro);
    f.lemma_read_keep(d0, d1, ro, pc, n, t, t);
}

/// After a successful `remove` of a path a tmpfs mount owns, reading it
/// gives `NotFound`.
pub proof fn law_removed_is_gone<D: BlockDevice>(v0: Vfs<D>, v1: Vfs<D>, abs: Seq<char>)
    requires
        v0.wf(),
        v0.changed(&v1, abs, Change::Remove, Ok(())),
        v0.owner(abs) matches Some(i) && v0.table()[i].fs is Tmp,
    ensures
        v1.spec_read_file(abs) == Err::<Seq<u8>, FsError>(FsError::NotFound),
        !v1.spec_is_dir(abs) || v1.prefixes().contains(trim_trailing_slashes(abs)),
{
    let i = v0.owner(abs)->Some_0;
    let t0 = v0.table()[i].fs->Tmp_0;
    let t1 = v1.table()[i].fs->Tmp_0;
    let segs = segments(v0.rel(i, abs));
    tmp_removed_is_gone(t0.view(), t1.view(), segs, 0);
}

/// After a successful `remove` of a path a FAT volume owns, reading it gives
/// `NotFound` and it is no directory (unless a mount point), when the
/// volume is sound where the removal goes (see [`FatFs::remove_ready`]).
pub proof fn law_fat_removed_is_gone<D: BlockDevice>(v0: Vfs<D>, v1: Vfs<D>, abs: Seq<char>)
    requires
        v0.wf(),
        v0.changed(&v1, abs, Change::Remove, Ok(())),
        v0.owner(abs) matches Some(i) && v0.table()[i].fs matches MountedFs::Fat(f) && f.remove_ready(
            v0.disk().contents(),
            v0.rel(i, abs),
        ),
    ensures
        v1.spec_read_file(abs) == Err::<Seq<u8>, FsError>(FsError::NotFound),
        !v1.spec_is_dir(abs) || v1.prefixes().contains(trim_trailing_slashes(abs)),
{
    let i = v0.owner(abs)->Some_0;
    assert(v1.owner(abs) == v0.owner(abs));
    assert(v1.rel(i, abs) == v0.rel(i, abs));
}

/// A write-like request on a path a read-only mount owns is refused with
/// `Unsupported` and changes nothing.
pub proof fn law_read_only_refuses<D: BlockDevice>(v0: Vfs<D>, v1: Vfs<D>, abs: Seq<char>, c: Change, r: Result<(), FsError>)
    requires
        v0.wf(),
        v0.changed(&v1, abs, c, r),
        v0.owner(abs) matches Some(i) && !v0.table()[i].fs.spec_writable(),
    ensures
        r == Err::<(), FsError>(FsError::Unsupported),
        v1.table() == v0.table(),
        v1.disk().contents() == v0.disk().contents(),
{
    let i = v0.owner(abs)->Some_0;
    assert(v1.table()[i] == v0.table()[i]);
    assert(v1.table() =~= v0.table());
}

/// A change through a tmpfs mount leaves every path another mount owns
/// reading as before.
pub proof fn law_other_mounts_unchanged<D: BlockDevice>(
    v0: Vfs<D>,
    v1: Vfs<D>,
    abs: Seq<char>,
    c: Change,
    r: Result<(), FsError>,
    other: Seq<char>,
)
    requires
        v0.wf(),
        v0.changed(&v1, abs, c, r),
        v0.owner(abs) matches Some(i) && v0.table()[i].fs is Tmp,
        v0.owner(other) != v0.owner(abs),
    ensures
        v1.spec_read_file(other) == v0.spec_read_file(other),
        v1.spec_is_dir(other) == v0.spec_is_dir(other),
{
}

proof fn lemma_walk_errors(es: Seq<(Seq<Seq<char>>, crate::tree::NodeView)>, segs: Seq<Seq<char>>)
    ensures
        crate::tree::walk(es, segs) matches Err(e) ==> e == FsError::NotFound || e == FsError::NotADir,
    decreases segs.len(),
{
    if segs.len() > 0 {
        lemma_walk_errors(es, segs.drop_last());
    }
}

proof fn lemma_walk_segs_errors(f: FatFs, disk: Seq<u8>, segs: Seq<Seq<char>>)
    ensures
        f.walk_segs(disk, segs) matches Err(e) ==> e == FsError::NotFound || e == FsError::NotADir || e == FsError::Io,
    decreases segs.len(),
{
    if segs.len() > 1 {
        lemma_walk_segs_errors(f, disk, segs.drop_last());
    }
}

/// Listing a directory never fails with `IsADir`.
pub proof fn lemma_listing_errors<D: BlockDevice>(v: Vfs<D>, abs: Seq<char>)
    ensures
        v.spec_list_dir(abs) != Err::<Seq<Seq<char>>, FsError>(FsError::IsADir),
{
    if let Some(i) = v.owner(abs) {
        let rel = v.rel(i, abs);
        match v.table()[i].fs {
            MountedFs::Tmp(t) => lemma_walk_errors(t.view(), segments(rel)),
            MountedFs::Ram(r) => lemma_walk_errors(r.view(), segments(rel)),
            MountedFs::Fat(f) => lemma_walk_segs_errors(f, v.disk().contents(), segments(rel)),
            MountedFs::Dev(_) => {},
        }
    }
}

/// Two states that agree on the table, the clock and the disk give the same
/// answers.
pub proof fn lemma_same_answers<D: BlockDevice>(v0: Vfs<D>, v1: Vfs<D>, abs: Seq<char>)
    requires
        v0.same(&v1),
    ensures
        v1.wf() == v0.wf(),
        v1.exact(abs) == v0.exact(abs),
        v1.spec_is_dir(abs) == v0.spec_is_dir(abs),
        v1.spec_read_file(abs) == v0.spec_read_file(abs),
        v1.spec_list_dir(abs) == v0.spec_list_dir(abs),
        forall|b: bool| v1.answers_is_dir(abs, b) == v0.answers_is_dir(abs, b),
{
}

/// A change through the FAT mount leaves the boot sector of the disk as it
/// was (when the volume reserves at least that sector).
pub proof fn law_fat_keeps_boot_sector<D: BlockDevice>(v0: Vfs<D>, v1: Vfs<D>, abs: Seq<char>, c: Change, r: Result<(), FsError>)
    requires
        v0.wf(),
        v0.changed(&v1, abs, c, r),
        v0.owner(abs) matches Some(i) && v0.table()[i].fs matches MountedFs::Fat(f) && f.reserved_sectors >= 1,
        v0.disk().contents().len() >= 512,
    ensures
        block_of(v1.disk().contents(), 0) == block_of(v0.disk().contents(), 0),
{
    let i = v0.owner(abs)->Some_0;
    let f = v0.table()[i].fs->Fat_0;
    crate::fat::law_boot_sector_survives(f, v0.disk().contents(), v1.disk().contents());
}

/// A mount point one level below a listed directory — the directory's
/// path, a `/`, then a name without `/` — shows in the listing under that
/// name (e.g. `/tmp/usb` as `usb` in the listing of `/tmp`).
pub proof fn law_listing_shows_child_mount<D: BlockDevice>(v: Vfs<D>, abs: Seq<char>, names: Seq<Seq<char>>, j: int, n: Seq<char>)
    requires
        v.lists(abs, Ok(names)),
        0 <= j < v.prefixes().len(),
        v.prefixes()[j] == trim_trailing_slashes(abs) + seq!['/'] + n,
        n.len() > 0,
        crate::path::no_slash(n),
    ensures
        names.contains(n),
{
    crate::path::law_direct_child_is_last_segment(trim_trailing_slashes(abs), v.prefixes()[j], n);
    law_listing_shows_mount_points(v, abs, names, j);
}

/// Every mount point directly below a directory shows in its listing.
pub proof fn law_listing_shows_mount_points<D: BlockDevice>(v: Vfs<D>, abs: Seq<char>, names: Seq<Seq<char>>, j: int)
    requires
        v.lists(abs, Ok(names)),
        0 <= j < v.prefixes().len(),
        spec_direct_child(trim_trailing_slashes(abs), v.prefixes()[j]) is Some,
    ensures
        names.contains(spec_direct_child(trim_trailing_slashes(abs), v.prefixes()[j])->Some_0),
{
    let c = v.spec_list_dir(abs)->Ok_0;
    let base = choose|base: Seq<Seq<char>>|
        #[trigger] v.presents(abs, c, base) && names == with_mount_children(
            base,
            trim_trailing_slashes(abs),
            v.prefixes(),
        );
    lemma_mount_children_contain(base, trim_trailing_slashes(abs), v.prefixes(), j);
}

proof fn lemma_mount_children_contain(entries: Seq<Seq<char>>, parent: Seq<char>, ps: Seq<Seq<char>>, j: int)
    requires
        0 <= j < ps.len(),
        spec_direct_child(parent, ps[j]) is Some,
    ensures
        with_mount_children(entries, parent, ps).contains(spec_direct_child(parent, ps[j])->Some_0),
    decreases ps.len(),
{
    let c = spec_direct_child(parent, ps[j])->Some_0;
    let acc = with_mount_children(entries, parent, ps.drop_last());
    if j < ps.len() - 1 {
        assert(ps.drop_last()[j] == ps[j]);
        lemma_mount_children_contain(entries, parent, ps.drop_last(), j);
        if let Some(d) = spec_direct_child(parent, ps.last()) {
            if !acc.contains(d) {
                let k = choose|k: int| 0 <= k < acc.len() && acc[k] == c;
                assert(acc.push(d)[k] == c);
            }
        }
    } else {
        if !acc.contains(c) {
            assert(acc.push(c)[acc.len() as int] == c);
        }
    }
}

/// Replacing the filesystem of one mount, under the same prefix, keeps the
/// table well formed.
proof fn lemma_one_mount_changed<D: BlockDevice>(old: Vfs<D>, new: Vfs<D>, i: int)
    requires
        old.wf(),
        0 <= i < old.table().len(),
        new.table().len() == old.table().len(),
        forall|j: int| 0 <= j < old.table().len() && j != i ==> new.table()[j] == old.table()[j],
        new.table()[i].prefix@ == old.table()[i].prefix@,
        new.table()[i].fs.wf(),
    ensures
        new.wf(),
        new.prefixes() == old.prefixes(),
{
    assert(new.prefixes() =~= old.prefixes());
    assert forall|k: int| 0 <= k < new.table().len() implies (#[trigger] new.table()[k]).fs.wf() by {
        if k != i {
            assert(new.table()[k] == old.table()[k]);
        }
    }
}

/// Trimming trailing slashes keeps a prefix of the path.
proof fn lemma_trim_is_prefix(p: Seq<char>)
    ensures
        trim_trailing_slashes(p).len() <= p.len(),
        trim_trailing_slashes(p) == p.take(trim_trailing_slashes(p).len() as int),
    decreases p.len(),
{
    if p.len() > 0 && p.last() == '/' {
        lemma_trim_is_prefix(p.drop_last());
        assert(p.drop_last().take(trim_trailing_slashes(p).len() as int) =~= p.take(trim_trailing_slashes(p).len() as int));
    } else {
        assert(p.take(p.len() as int) =~= p);
    }
}

proof fn lemma_trim_idempotent(p: Seq<char>)
    ensures
        trim_trailing_slashes(trim_trailing_slashes(p)) == trim_trailing_slashes(p),
    decreases p.len(),
{
    if p.len() > 0 && p.last() == '/' {
        lemma_trim_idempotent(p.drop_last());
    }
}

} // verus!
