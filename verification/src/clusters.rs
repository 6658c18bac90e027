//! The FAT volume seen cluster by cluster: the chain a read follows as a
//! list of clusters, which clusters a change leaves alone, and what that
//! keeps of chains and path lookups.

use vstd::prelude::*;
use crate::fat::{FatFs, DirEntryView, is_root_path, find_named, eq_ignore_case};
use crate::path::segments;
use crate::vfs::FsError;

verus! {

impl FatFs {
    /// The clusters `chain_bytes(disk, c, max, fuel)` reads, in order;
    /// `None` exactly when that read fails.
    pub open spec fn chain_list(&self, disk: Seq<u8>, c: int, max: int, fuel: nat) -> Option<Seq<int>>
        decreases fuel,
    {
        if !(2 <= c < 0x0FFFFFF8) {
            Some(Seq::empty())
        } else if fuel == 0 || !self.cluster_on_disk(c, disk.len()) {
            None
        } else if self.cluster_bytes() >= max {
            Some(seq![c])
        } else if !self.fat_entry_on_disk(c, disk.len()) {
            None
        } else {
            match self.chain_list(disk, self.fat_entry(disk, c), max - self.cluster_bytes(), (fuel - 1) as nat) {
                Some(l) => Some(seq![c] + l),
                None => None,
            }
        }
    }

    /// The clusters of a directory chain (see [`FatFs::chain_all`]).
    pub open spec fn dir_list(&self, disk: Seq<u8>, c: int) -> Option<Seq<int>> {
        self.chain_list(disk, c, usize::MAX as int, self.fat_entries())
    }

    /// The bytes of the clusters `l`, one after the other.
    pub open spec fn concat(&self, disk: Seq<u8>, l: Seq<int>) -> Seq<u8>
        decreases l.len(),
    {
        if l.len() == 0 {
            Seq::empty()
        } else {
            self.cluster_data(disk, l[0]) + self.concat(disk, l.drop_first())
        }
    }

    /// Cluster `x` holds the same bytes on both disks.
    pub open spec fn same_data(&self, d1: Seq<u8>, d2: Seq<u8>, x: int) -> bool {
        self.cluster_on_disk(x, d1.len()) ==> self.cluster_data(d1, x) == self.cluster_data(d2, x)
    }

    /// FAT entry `x` holds the same link on both disks.
    pub open spec fn same_link(&self, d1: Seq<u8>, d2: Seq<u8>, x: int) -> bool {
        self.fat_entry_on_disk(x, d1.len()) ==> self.fat_entry(d1, x) == self.fat_entry(d2, x)
    }

    /// Every cluster in use on `d0` (the FAT describes it and its link is
    /// not 0), but for those of `gone`, is still in use on `d1`: no chain
    /// the change left alone lost a cluster to the free pool.
    pub open spec fn keeps_in_use(&self, d0: Seq<u8>, d1: Seq<u8>, gone: Set<int>) -> bool {
        forall|x: int|
            2 <= x < self.fat_entries() && self.fat_entry_on_disk(x, d0.len()) && #[trigger] self.fat_entry(d0, x) != 0 && !gone.contains(
                x,
            ) ==> self.fat_entry(d1, x) != 0
    }

    /// `d2` is `d1` but for the data of the clusters in `md` and the links
    /// of the clusters in `ml` (among the clusters the FAT describes).
    pub open spec fn frame(&self, d1: Seq<u8>, d2: Seq<u8>, md: Set<int>, ml: Set<int>) -> bool {
        &&& d1.len() == d2.len()
        &&& forall|x: int| 2 <= x < self.fat_entries() && !md.contains(x) ==> #[trigger] self.same_data(d1, d2, x)
        &&& forall|x: int| 2 <= x < self.fat_entries() && !ml.contains(x) ==> #[trigger] self.same_link(d1, d2, x)
    }

    /// The directory cluster in which the last of `segs` is looked up.
    pub open spec fn walk_dir(&self, disk: Seq<u8>, segs: Seq<Seq<char>>) -> Result<u32, FsError> {
        if segs.len() <= 1 {
            Ok(self.root_cluster)
        } else {
            match self.walk_segs(disk, segs.drop_last()) {
                Err(e) => Err(e),
                Ok(f) => if f.is_dir {
                    Ok(f.cluster)
                } else {
                    Err(FsError::NotADir)
                },
            }
        }
    }

    /// The clusters of every directory chain read while looking up `segs`.
    pub open spec fn walk_set(&self, disk: Seq<u8>, segs: Seq<Seq<char>>) -> Set<int>
        decreases segs.len(),
    {
        if segs.len() == 0 {
            Set::empty()
        } else {
            let before = if segs.len() == 1 {
                Set::empty()
            } else {
                self.walk_set(disk, segs.drop_last())
            };
            match self.walk_dir(disk, segs) {
                Err(_) => before,
                Ok(c) => match self.dir_list(disk, c as int) {
                    Some(l) => before.union(l.to_set()),
                    None => before,
                },
            }
        }
    }
}

/// Frames compose: what two changes leave alone, both together leave alone.
pub proof fn lemma_frame_trans(fs: FatFs, a: Seq<u8>, b: Seq<u8>, c: Seq<u8>, md1: Set<int>, ml1: Set<int>, md2: Set<int>, ml2: Set<int>)
    requires
        fs.frame(a, b, md1, ml1),
        fs.frame(b, c, md2, ml2),
    ensures
        fs.frame(a, c, md1.union(md2), ml1.union(ml2)),
{
    assert forall|x: int| 2 <= x < fs.fat_entries() && !md1.union(md2).contains(x) implies #[trigger] fs.same_data(a, c, x) by {
        assert(fs.same_data(a, b, x));
        assert(fs.same_data(b, c, x));
    }
    assert forall|x: int| 2 <= x < fs.fat_entries() && !ml1.union(ml2).contains(x) implies #[trigger] fs.same_link(a, c, x) by {
        assert(fs.same_link(a, b, x));
        assert(fs.same_link(b, c, x));
    }
}

/// A frame may name more clusters than were changed.
pub proof fn lemma_frame_widen(fs: FatFs, a: Seq<u8>, b: Seq<u8>, md: Set<int>, ml: Set<int>, md2: Set<int>, ml2: Set<int>)
    requires
        fs.frame(a, b, md, ml),
        md.subset_of(md2),
        ml.subset_of(ml2),
    ensures
        fs.frame(a, b, md2, ml2),
{
    assert forall|x: int| 2 <= x < fs.fat_entries() && !md2.contains(x) implies #[trigger] fs.same_data(a, b, x) by {
        assert(!md.contains(x));
    }
    assert forall|x: int| 2 <= x < fs.fat_entries() && !ml2.contains(x) implies #[trigger] fs.same_link(a, b, x) by {
        assert(!ml.contains(x));
    }
}

/// A disk is its own frame.
pub proof fn lemma_frame_refl(fs: FatFs, a: Seq<u8>)
    ensures
        fs.frame(a, a, Set::empty(), Set::empty()),
{
}

impl FatFs {
    /// The bytes a chain read gives are those of its clusters.
    pub proof fn lemma_chain_concat(&self, disk: Seq<u8>, c: int, max: int, fuel: nat)
        requires
            self.wf(),
        ensures
            self.chain_bytes(disk, c, max, fuel) == match self.chain_list(disk, c, max, fuel) {
                Some(l) => Some(self.concat(disk, l)),
                None => None::<Seq<u8>>,
            },
        decreases fuel,
    {
        if 2 <= c < 0x0FFFFFF8 && fuel > 0 && self.cluster_on_disk(c, disk.len()) {
            let d = self.cluster_data(disk, c);
            assert(d.len() == self.cluster_bytes());
            if self.cluster_bytes() >= max {
                assert(seq![c].drop_first() =~= Seq::<int>::empty());
                assert(self.concat(disk, Seq::<int>::empty()) == Seq::<u8>::empty());
                assert(d + Seq::<u8>::empty() =~= d);
            } else if self.fat_entry_on_disk(c, disk.len()) {
                let n = self.fat_entry(disk, c);
                self.lemma_chain_concat(disk, n, max - self.cluster_bytes(), (fuel - 1) as nat);
                if let Some(l) = self.chain_list(disk, n, max - self.cluster_bytes(), (fuel - 1) as nat) {
                    assert((seq![c] + l).drop_first() =~= l);
                    assert((seq![c] + l)[0] == c);
                }
            }
        }
    }

    /// A chain whose clusters a change leaves alone reads the same after it.
    pub proof fn lemma_chain_frame(&self, d1: Seq<u8>, d2: Seq<u8>, c: int, max: int, fuel: nat, l: Seq<int>)
        requires
            self.wf(),
            d1.len() == d2.len(),
            self.chain_list(d1, c, max, fuel) == Some(l),
            forall|i: int| 0 <= i < l.len() ==> self.same_data(d1, d2, #[trigger] l[i]),
            forall|i: int| 0 <= i < l.len() ==> self.same_link(d1, d2, #[trigger] l[i]),
        ensures
            self.chain_list(d2, c, max, fuel) == Some(l),
            self.chain_bytes(d2, c, max, fuel) == self.chain_bytes(d1, c, max, fuel),
    {
        self.lemma_chain_list_frame(d1, d2, c, max, fuel, l);
        self.lemma_chain_on_disk(d1, c, max, fuel);
        self.lemma_chain_concat(d1, c, max, fuel);
        self.lemma_chain_concat(d2, c, max, fuel);
        self.lemma_concat_frame(d1, d2, l);
    }

    proof fn lemma_chain_list_frame(&self, d1: Seq<u8>, d2: Seq<u8>, c: int, max: int, fuel: nat, l: Seq<int>)
        requires
            self.wf(),
            d1.len() == d2.len(),
            self.chain_list(d1, c, max, fuel) == Some(l),
            forall|i: int| 0 <= i < l.len() ==> self.same_data(d1, d2, #[trigger] l[i]),
            forall|i: int| 0 <= i < l.len() ==> self.same_link(d1, d2, #[trigger] l[i]),
        ensures
            self.chain_list(d2, c, max, fuel) == Some(l),
        decreases fuel,
    {
        if 2 <= c < 0x0FFFFFF8 {
            assert(l[0] == c);
            assert(self.same_link(d1, d2, l[0]));
            if self.cluster_bytes() < max {
                let n = self.fat_entry(d1, c);
                let rest = self.chain_list(d1, n, max - self.cluster_bytes(), (fuel - 1) as nat)->Some_0;
                assert(l == seq![c] + rest);
                assert forall|i: int| 0 <= i < rest.len() implies self.same_data(d1, d2, #[trigger] rest[i]) by {
                    assert(rest[i] == l[i + 1]);
                }
                assert forall|i: int| 0 <= i < rest.len() implies self.same_link(d1, d2, #[trigger] rest[i]) by {
                    assert(rest[i] == l[i + 1]);
                }
                self.lemma_chain_list_frame(d1, d2, n, max - self.cluster_bytes(), (fuel - 1) as nat, rest);
            }
        }
    }

    /// Clusters a change leaves alone hold the same bytes together.
    pub proof fn lemma_concat_frame(&self, d1: Seq<u8>, d2: Seq<u8>, l: Seq<int>)
        requires
            forall|i: int| 0 <= i < l.len() ==> self.same_data(d1, d2, #[trigger] l[i]),
            forall|i: int| 0 <= i < l.len() ==> self.cluster_on_disk(#[trigger] l[i], d1.len()),
        ensures
            self.concat(d2, l) == self.concat(d1, l),
        decreases l.len(),
    {
        if l.len() > 0 {
            assert(self.same_data(d1, d2, l[0]));
            assert(self.cluster_on_disk(l[0], d1.len()));
            let t = l.drop_first();
            assert forall|i: int| 0 <= i < t.len() implies self.same_data(d1, d2, #[trigger] t[i]) by {
                assert(t[i] == l[i + 1]);
            }
            assert forall|i: int| 0 <= i < t.len() implies self.cluster_on_disk(#[trigger] t[i], d1.len()) by {
                assert(t[i] == l[i + 1]);
            }
            self.lemma_concat_frame(d1, d2, t);
        }
    }

    /// Every cluster a chain read lists lies on the disk.
    pub proof fn lemma_chain_on_disk(&self, disk: Seq<u8>, c: int, max: int, fuel: nat)
        requires
            self.chain_list(disk, c, max, fuel) is Some,
        ensures
            forall|i: int|
                0 <= i < self.chain_list(disk, c, max, fuel)->Some_0.len() ==> self.cluster_on_disk(
                    #[trigger] self.chain_list(disk, c, max, fuel)->Some_0[i],
                    disk.len(),
                ) && 2 <= self.chain_list(disk, c, max, fuel)->Some_0[i] < 0x0FFFFFF8,
        decreases fuel,
    {
        let l = self.chain_list(disk, c, max, fuel)->Some_0;
        if 2 <= c < 0x0FFFFFF8 && self.cluster_bytes() < max {
            let n = self.fat_entry(disk, c);
            self.lemma_chain_on_disk(disk, n, max - self.cluster_bytes(), (fuel - 1) as nat);
            let rest = self.chain_list(disk, n, max - self.cluster_bytes(), (fuel - 1) as nat)->Some_0;
            assert forall|i: int| 0 <= i < l.len() implies self.cluster_on_disk(#[trigger] l[i], disk.len()) && 2 <= l[i]
                < 0x0FFFFFF8 by {
                if i > 0 {
                    assert(l[i] == rest[i - 1]);
                }
            }
        }
    }

    /// A change that leaves the clusters of the directory chains read on
    /// the way alone leaves a successful lookup as it was.
    pub proof fn lemma_walk_frame(&self, d1: Seq<u8>, d2: Seq<u8>, segs: Seq<Seq<char>>)
        requires
            self.wf(),
            d1.len() == d2.len(),
            self.walk_segs(d1, segs) is Ok,
            forall|x: int| #[trigger] self.walk_set(d1, segs).contains(x) ==> self.same_data(d1, d2, x) && self.same_link(d1, d2, x),
        ensures
            self.walk_segs(d2, segs) == self.walk_segs(d1, segs),
            self.walk_set(d2, segs) == self.walk_set(d1, segs),
            self.walk_dir(d2, segs) == self.walk_dir(d1, segs),
        decreases segs.len(),
    {
        if segs.len() > 1 {
            assert(self.walk_segs(d1, segs.drop_last()) is Ok);
            assert forall|x: int| #[trigger] self.walk_set(d1, segs.drop_last()).contains(x) implies self.same_data(d1, d2, x)
                && self.same_link(d1, d2, x) by {
                assert(self.walk_set(d1, segs).contains(x));
            }
            self.lemma_walk_frame(d1, d2, segs.drop_last());
        }
        let c = self.walk_dir(d1, segs)->Ok_0;
        assert(self.walk_dir(d1, segs) is Ok);
        let l = self.dir_list(d1, c as int);
        assert(l is Some) by {
            self.lemma_chain_concat(d1, c as int, usize::MAX as int, self.fat_entries());
        }
        let l = l->Some_0;
        assert forall|i: int| 0 <= i < l.len() implies self.same_data(d1, d2, #[trigger] l[i]) && self.same_link(d1, d2, l[i]) by {
            assert(l.to_set().contains(l[i]));
            assert(self.walk_set(d1, segs).contains(l[i]));
        }
        self.lemma_chain_frame(d1, d2, c as int, usize::MAX as int, self.fat_entries(), l);
    }

    /// What the directory whose chain starts at `c` lists under the name
    /// `m` on `d`, when its chain can be read.
    pub open spec fn found(&self, d: Seq<u8>, c: int, m: Seq<char>) -> Option<DirEntryView> {
        match self.dir_entries(d, c) {
            Some(es) => find_named(es, m),
            None => None,
        }
    }

    /// Every name unlike `n` under which the directory starting at `c`
    /// lists an entry on `d1`, it lists the same entry under on `d2`.
    pub open spec fn keeps_names(&self, d1: Seq<u8>, d2: Seq<u8>, c: int, n: Seq<char>) -> bool {
        forall|m: Seq<char>|
            !eq_ignore_case(m, n) && self.found(d1, c, m) is Some ==> #[trigger] self.found(d2, c, m) == self.found(d1, c, m)
    }

    /// The clusters of the directory chains read while looking up `segs`,
    /// but for the chain of the directory starting at `pc` where a name
    /// unlike `n` is looked up in it.
    pub open spec fn walk_set_but(&self, disk: Seq<u8>, segs: Seq<Seq<char>>, pc: int, n: Seq<char>) -> Set<int>
        decreases segs.len(),
    {
        if segs.len() == 0 {
            Set::empty()
        } else {
            let before = if segs.len() == 1 {
                Set::empty()
            } else {
                self.walk_set_but(disk, segs.drop_last(), pc, n)
            };
            match self.walk_dir(disk, segs) {
                Err(_) => before,
                Ok(c) => if c == pc && !eq_ignore_case(segs.last(), n) {
                    before
                } else {
                    match self.dir_list(disk, c as int) {
                        Some(l) => before.union(l.to_set()),
                        None => before,
                    }
                },
            }
        }
    }

    /// The clusters a read of the file at `abs` looks at, but for the chain
    /// of the directory starting at `pc` where a name unlike `n` is looked
    /// up in it: the other directory chains of its lookup, then the file's
    /// own chain.
    pub open spec fn read_set_but(&self, d: Seq<u8>, abs: Seq<char>, pc: int, n: Seq<char>) -> Set<int> {
        let w = self.walk_set_but(d, segments(abs), pc, n);
        match self.spec_lookup(d, abs) {
            Ok(e) => if !e.is_dir && e.size > 0 && e.cluster >= 2 {
                match self.chain_list(d, e.cluster as int, e.size as int, self.fat_entries()) {
                    Some(l) => w.union(l.to_set()),
                    None => w,
                }
            } else {
                w
            },
            Err(_) => w,
        }
    }

    /// A lookup is kept by a change that keeps the names the directory at
    /// `pc` lists (but `n`), and leaves the other directory chains read on
    /// the way alone.
    pub proof fn lemma_walk_keep(&self, d1: Seq<u8>, d2: Seq<u8>, segs: Seq<Seq<char>>, pc: int, n: Seq<char>)
        requires
            self.wf(),
            d1.len() == d2.len(),
            self.walk_segs(d1, segs) is Ok,
            self.keeps_names(d1, d2, pc, n),
            forall|x: int| #[trigger] self.walk_set_but(d1, segs, pc, n).contains(x) ==> self.same_data(d1, d2, x) && self.same_link(
                d1,
                d2,
                x,
            ),
        ensures
            self.walk_segs(d2, segs) == self.walk_segs(d1, segs),
            self.walk_dir(d2, segs) == self.walk_dir(d1, segs),
        decreases segs.len(),
    {
        if segs.len() > 1 {
            assert(self.walk_segs(d1, segs.drop_last()) is Ok);
            assert forall|x: int| #[trigger] self.walk_set_but(d1, segs.drop_last(), pc, n).contains(x) implies self.same_data(d1, d2, x)
                && self.same_link(d1, d2, x) by {
                assert(self.walk_set_but(d1, segs, pc, n).contains(x));
            }
            self.lemma_walk_keep(d1, d2, segs.drop_last(), pc, n);
        }
        let c = self.walk_dir(d1, segs)->Ok_0;
        assert(self.walk_dir(d1, segs) is Ok);
        if c == pc && !eq_ignore_case(segs.last(), n) {
            assert(self.found(d1, c as int, segs.last()) is Some);
            assert(self.found(d2, c as int, segs.last()) == self.found(d1, c as int, segs.last()));
        } else {
            let l = self.dir_list(d1, c as int);
            assert(l is Some) by {
                self.lemma_chain_concat(d1, c as int, usize::MAX as int, self.fat_entries());
            }
            let l = l->Some_0;
            assert forall|i: int| 0 <= i < l.len() implies self.same_data(d1, d2, #[trigger] l[i]) && self.same_link(d1, d2, l[i]) by {
                assert(l.to_set().contains(l[i]));
                assert(self.walk_set_but(d1, segs, pc, n).contains(l[i]));
            }
            self.lemma_chain_frame(d1, d2, c as int, usize::MAX as int, self.fat_entries(), l);
        }
    }

    /// Every cluster of a lookup's directory chains is a data cluster number.
    pub proof fn lemma_walk_but_floor(&self, d: Seq<u8>, segs: Seq<Seq<char>>, pc: int, n: Seq<char>)
        ensures
            forall|x: int| #[trigger] self.walk_set_but(d, segs, pc, n).contains(x) ==> 2 <= x,
        decreases segs.len(),
    {
        if segs.len() > 1 {
            self.lemma_walk_but_floor(d, segs.drop_last(), pc, n);
        }
        if segs.len() > 0 {
            if let Ok(c) = self.walk_dir(d, segs) {
                if let Some(l) = self.dir_list(d, c as int) {
                    self.lemma_chain_on_disk(d, c as int, usize::MAX as int, self.fat_entries());
                    assert forall|x: int| l.to_set().contains(x) implies 2 <= x by {
                        let i = choose|i: int| 0 <= i < l.len() && l[i] == x;
                    }
                }
            }
            assert forall|x: int| #[trigger] self.walk_set_but(d, segs, pc, n).contains(x) implies 2 <= x by {
                if segs.len() > 1 {
                    assert(self.walk_set_but(d, segs.drop_last(), pc, n).contains(x) ==> 2 <= x);
                }
            }
        }
    }

    /// A file that reads back keeps its contents through a change that
    /// keeps the names the directory at `pc` lists (but `n`) and leaves
    /// every other cluster of its read alone.
    pub proof fn lemma_read_keep(&self, d1: Seq<u8>, d2: Seq<u8>, abs: Seq<char>, pc: int, n: Seq<char>, md: Set<int>, ml: Set<int>)
        requires
            self.wf(),
            self.frame(d1, d2, md, ml),
            self.keeps_names(d1, d2, pc, n),
            self.spec_read_file(d1, abs) is Ok,
            forall|x: int|
                #[trigger] self.read_set_but(d1, abs, pc, n).contains(x) ==> x < self.fat_entries() && !md.contains(x) && !ml.contains(
                    x,
                ),
        ensures
            self.spec_read_file(d2, abs) == self.spec_read_file(d1, abs),
    {
        let segs = segments(abs);
        assert(!is_root_path(abs));
        self.lemma_walk_but_floor(d1, segs, pc, n);
        assert forall|x: int| #[trigger] self.walk_set_but(d1, segs, pc, n).contains(x) implies self.same_data(d1, d2, x) && self.same_link(
            d1,
            d2,
            x,
        ) by {
            assert(self.read_set_but(d1, abs, pc, n).contains(x));
        }
        self.lemma_walk_keep(d1, d2, segs, pc, n);
        let e = self.spec_lookup(d1, abs)->Ok_0;
        if !e.is_dir && e.size > 0 && e.cluster >= 2 {
            let c = e.cluster as int;
            let max = e.size as int;
            self.lemma_chain_concat(d1, c, max, self.fat_entries());
            let l = self.chain_list(d1, c, max, self.fat_entries())->Some_0;
            self.lemma_chain_on_disk(d1, c, max, self.fat_entries());
            assert forall|i: int| 0 <= i < l.len() implies self.same_data(d1, d2, #[trigger] l[i]) && self.same_link(d1, d2, l[i]) by {
                assert(l.to_set().contains(l[i]));
                assert(self.read_set_but(d1, abs, pc, n).contains(l[i]));
            }
            self.lemma_chain_frame(d1, d2, c, max, self.fat_entries(), l);
        }
    }
}

impl FatFs {
    /// The link stored after the cluster `l[i]` of the chain `l`: the next
    /// cluster, or an end-of-chain mark after the last.
    pub open spec fn chain_next(&self, l: Seq<int>, i: int) -> int {
        if i + 1 < l.len() {
            l[i + 1]
        } else {
            0x0FFFFFFF
        }
    }

    /// On `d1`, `l` is a chain of distinct clusters that were free on `d0`,
    /// each linked to the next; nothing but their data and links changed.
    pub closed spec fn fresh_chain(&self, d0: Seq<u8>, d1: Seq<u8>, l: Seq<int>) -> bool {
        &&& l.no_duplicates()
        &&& forall|i: int|
            0 <= i < l.len() ==> 2 <= #[trigger] l[i] < self.alloc_limit() && self.fat_entry_on_disk(l[i], d0.len())
                && self.cluster_on_disk(l[i], d0.len()) && self.fat_entry(d0, l[i]) == 0
        &&& forall|i: int| 0 <= i < l.len() ==> #[trigger] self.fat_entry(d1, l[i]) == self.chain_next(l, i)
        &&& self.frame(d0, d1, l.to_set(), l.to_set())
    }

    /// A fresh chain grows by a cluster that was free: the cluster ends the
    /// chain and the former last cluster links to it.
    pub proof fn lemma_fresh_push(&self, disk: Seq<u8>, d: Seq<u8>, dn: Seq<u8>, l: Seq<int>, c: int, md: Set<int>, ml: Set<int>)
        requires
            self.fresh_chain(disk, d, l),
            2 <= c < self.alloc_limit(),
            self.fat_entry_on_disk(c, disk.len()),
            self.cluster_on_disk(c, disk.len()),
            self.fat_entry(d, c) == 0,
            self.fat_entry(disk, c) == 0,
            self.frame(d, dn, md, ml),
            md.subset_of(set![c]),
            l.len() == 0 ==> ml.subset_of(set![c]),
            l.len() > 0 ==> ml.subset_of(set![c, l.last()]),
            self.fat_entry(dn, c) == 0x0FFFFFFF,
            l.len() > 0 ==> self.fat_entry(dn, l.last()) == c,
        ensures
            self.fresh_chain(disk, dn, l.push(c)),
    {
        let l2 = l.push(c);
        assert(self.alloc_limit() <= self.fat_entries());
        assert(!l.contains(c)) by {
            if l.contains(c) {
                let i = choose|i: int| 0 <= i < l.len() && l[i] == c;
                assert(self.fat_entry(d, l[i]) == self.chain_next(l, i));
            }
        }
        assert(l2.no_duplicates()) by {
            assert forall|i: int, j: int| 0 <= i < l2.len() && 0 <= j < l2.len() && i != j implies l2[i] != l2[j] by {
                if i < l.len() && j < l.len() {
                    assert(l2[i] == l[i] && l2[j] == l[j]);
                } else if i < l.len() {
                    assert(l2[i] == l[i]);
                    assert(l.contains(l[i]));
                } else if j < l.len() {
                    assert(l2[j] == l[j]);
                    assert(l.contains(l[j]));
                }
            }
        }
        assert forall|i: int| 0 <= i < l2.len() implies 2 <= #[trigger] l2[i] < self.alloc_limit() && self.fat_entry_on_disk(
            l2[i],
            disk.len(),
        ) && self.cluster_on_disk(l2[i], disk.len()) && self.fat_entry(disk, l2[i]) == 0 && self.fat_entry(dn, l2[i])
            == self.chain_next(l2, i) by {
            if i < l.len() {
                assert(l2[i] == l[i]);
                assert(2 <= l[i] < self.alloc_limit());
                if i + 1 < l.len() {
                    assert(l[i] != l.last()) by {
                        assert(l.last() == l[l.len() - 1]);
                    }
                    assert(l[i] != c) by {
                        assert(l.contains(l[i]));
                    }
                    assert(!ml.contains(l[i]));
                    assert(self.same_link(d, dn, l[i]));
                    assert(d.len() == disk.len());
                    assert(self.fat_entry(d, l[i]) == self.chain_next(l, i));
                } else {
                    assert(l[i] == l.last());
                }
            }
        }
        crate::clusters::lemma_frame_trans(*self, disk, d, dn, l.to_set(), l.to_set(), md, ml);
        assert(l2.to_set() =~= l.to_set().insert(c)) by {
            assert forall|x: int| l2.to_set().contains(x) <==> l.to_set().insert(c).contains(x) by {
                if l2.contains(x) {
                    let i = choose|i: int| 0 <= i < l2.len() && l2[i] == x;
                    if i < l.len() {
                        assert(l[i] == x);
                    }
                }
                if l.contains(x) {
                    let i = choose|i: int| 0 <= i < l.len() && l[i] == x;
                    assert(l2[i] == x);
                }
                if x == c {
                    assert(l2[l.len() as int] == c);
                }
            }
        }
        if l.len() > 0 {
            assert(l.to_set().contains(l.last())) by {
                assert(l[l.len() - 1] == l.last());
            }
        }
        crate::clusters::lemma_frame_widen(*self, disk, dn, l.to_set().union(md), l.to_set().union(ml), l2.to_set(), l2.to_set());
    }

    /// No cluster is a fresh chain.
    pub proof fn lemma_fresh_empty(&self, disk: Seq<u8>)
        ensures
            self.fresh_chain(disk, disk, Seq::empty()),
    {
        assert(Seq::<int>::empty().to_set() =~= Set::<int>::empty());
    }

    /// A cluster that is free now is not in a fresh chain, and was free
    /// before it was made.
    pub proof fn lemma_fresh_avoid(&self, disk: Seq<u8>, d: Seq<u8>, l: Seq<int>, c: int)
        requires
            self.fresh_chain(disk, d, l),
            2 <= c < self.fat_entries(),
            self.fat_entry_on_disk(c, d.len()),
            self.fat_entry(d, c) == 0,
        ensures
            !l.contains(c),
            self.fat_entry(disk, c) == 0,
            disk.len() == d.len(),
    {
        if l.contains(c) {
            let i = choose|i: int| 0 <= i < l.len() && l[i] == c;
            assert(self.fat_entry(d, l[i]) == self.chain_next(l, i));
        }
        assert(!l.to_set().contains(c));
        assert(self.same_link(disk, d, c));
    }

    /// A change that leaves every cluster alone keeps a fresh chain fresh.
    pub proof fn lemma_fresh_keep(&self, disk: Seq<u8>, d: Seq<u8>, dn: Seq<u8>, l: Seq<int>)
        requires
            self.fresh_chain(disk, d, l),
            self.frame(d, dn, Set::empty(), Set::empty()),
        ensures
            self.fresh_chain(disk, dn, l),
    {
        assert(self.alloc_limit() <= self.fat_entries());
        assert forall|i: int| 0 <= i < l.len() implies self.fat_entry(dn, #[trigger] l[i]) == self.chain_next(l, i) by {
            assert(self.same_link(d, dn, l[i]));
        }
        crate::clusters::lemma_frame_trans(*self, disk, d, dn, l.to_set(), l.to_set(), Set::empty(), Set::empty());
        assert(l.to_set().union(Set::empty()) =~= l.to_set());
    }
}

/// The `i`-th cluster-sized piece of `data`, padded with zeros.
pub open spec fn chunk(data: Seq<u8>, cb: nat, i: int) -> Seq<u8> {
    Seq::new(cb, |k: int| if i * cb + k < data.len() { data[i * cb + k] } else { 0u8 })
}

impl FatFs {
    /// On `d`, `l` is a chain of distinct clusters on the disk, each linked
    /// to the next, the last ending the chain.
    pub open spec fn linked(&self, d: Seq<u8>, l: Seq<int>) -> bool {
        &&& l.no_duplicates()
        &&& forall|i: int|
            0 <= i < l.len() ==> 2 <= #[trigger] l[i] < self.alloc_limit() && self.fat_entry_on_disk(l[i], d.len())
                && self.cluster_on_disk(l[i], d.len())
        &&& forall|i: int| 0 <= i < l.len() ==> #[trigger] self.fat_entry(d, l[i]) == self.chain_next(l, i)
    }

    /// What a fresh chain is: linked, made of clusters free before, and
    /// shorter than the FAT.
    pub proof fn lemma_fresh_facts(&self, disk: Seq<u8>, d: Seq<u8>, l: Seq<int>)
        requires
            self.fresh_chain(disk, d, l),
        ensures
            self.linked(d, l),
            forall|i: int| 0 <= i < l.len() ==> self.fat_entry(disk, #[trigger] l[i]) == 0,
            forall|i: int| 0 <= i < l.len() ==> #[trigger] l[i] < self.alloc_limit(),
            self.frame(disk, d, l.to_set(), l.to_set()),
            l.len() + 2 <= self.alloc_limit() || l.len() == 0,
    {
        assert(self.alloc_limit() <= self.fat_entries());
        if l.len() > 0 {
            l.unique_seq_to_set();
            assert(l.to_set().subset_of(vstd::set_lib::set_int_range(2, self.alloc_limit()))) by {
                assert forall|x: int| l.to_set().contains(x) implies vstd::set_lib::set_int_range(2, self.alloc_limit()).contains(x) by {
                    let i = choose|i: int| 0 <= i < l.len() && l[i] == x;
                    assert(2 <= l[i] < self.alloc_limit());
                }
            }
            assert(2 <= l[0] < self.alloc_limit());
            vstd::set_lib::lemma_int_range(2, self.alloc_limit());
            vstd::set_lib::lemma_len_subset(l.to_set(), vstd::set_lib::set_int_range(2, self.alloc_limit()));
        }
    }

    /// A change to the data of a linked chain's clusters alone keeps it linked.
    pub proof fn lemma_linked_keep(&self, d: Seq<u8>, dn: Seq<u8>, l: Seq<int>, md: Set<int>)
        requires
            self.linked(d, l),
            self.frame(d, dn, md, Set::empty()),
        ensures
            self.linked(dn, l),
    {
        assert(self.alloc_limit() <= self.fat_entries());
        assert forall|i: int| 0 <= i < l.len() implies #[trigger] self.fat_entry(dn, l[i]) == self.chain_next(l, i) by {
            assert(2 <= l[i] < self.alloc_limit());
            assert(self.same_link(d, dn, l[i]));
        }
    }

    /// Reading `data.len() - j * cb` bytes from the `j`-th cluster of a linked
    /// chain that holds `data` piece by piece gives the rest of `data`.
    #[verifier::spinoff_prover]
    pub proof fn lemma_read_written(&self, d: Seq<u8>, l: Seq<int>, data: Seq<u8>, j: int, fuel: nat)
        requires
            self.wf(),
            self.linked(d, l),
            forall|i: int| 0 <= i < l.len() ==> self.cluster_data(d, #[trigger] l[i]) == chunk(data, self.cluster_bytes(), i),
            0 <= j < l.len(),
            (l.len() - 1) * self.cluster_bytes() < data.len() <= l.len() * self.cluster_bytes(),
            fuel >= l.len() - j,
        ensures
            self.chain_bytes(d, l[j], data.len() - j * self.cluster_bytes(), fuel) matches Some(b) && b.len() >= data.len() - j
                * self.cluster_bytes() && b.take(data.len() - j * self.cluster_bytes()) == data.skip(j * self.cluster_bytes()),
        decreases l.len() - j,
    {
        let cb = self.cluster_bytes();
        let n = l.len();
        let jc = j * cb;
        let rem = data.len() - jc;
        assert(jc + cb <= n * cb && jc >= 0 && jc <= (n - 1) * cb) by (nonlinear_arith)
            requires
                jc == j * cb,
                0 <= j < n,
                cb >= 0,
        ;
        let c = l[j];
        assert(2 <= c < self.alloc_limit() && self.cluster_on_disk(c, d.len()) && self.fat_entry_on_disk(c, d.len())
            && self.fat_entry(d, c) == self.chain_next(l, j));
        assert(self.alloc_limit() <= 0x0FFFFFF8);
        let dj = self.cluster_data(d, c);
        assert(dj == chunk(data, cb, j));
        assert(dj.len() == cb);
        if cb >= rem {
            lemma_chunk_last(data, cb, j, jc);
            assert(self.chain_bytes(d, c, rem, fuel) == Some(dj));
        } else {
            assert(j + 1 < n) by {
                if j + 1 >= n {
                    assert(jc + cb >= n * cb) by (nonlinear_arith)
                        requires
                            jc == j * cb,
                            j + 1 >= n,
                            cb >= 0,
                    ;
                }
            }
            assert(self.fat_entry(d, c) == l[j + 1]);
            assert((j + 1) * cb == jc + cb) by (nonlinear_arith)
                requires
                    jc == j * cb,
            ;
            self.lemma_read_written(d, l, data, j + 1, (fuel - 1) as nat);
            let b2 = self.chain_bytes(d, l[j + 1], rem - cb, (fuel - 1) as nat)->Some_0;
            assert(self.chain_bytes(d, c, rem, fuel) == Some(dj + b2));
            lemma_chunk_then(data, cb, j, jc, b2);
        }
    }
}

/// The last piece of `data` holds its rest.
proof fn lemma_chunk_last(data: Seq<u8>, cb: nat, j: int, jc: int)
    requires
        jc == j * cb,
        0 <= jc <= data.len(),
        data.len() - jc <= cb,
    ensures
        chunk(data, cb, j).take(data.len() - jc) == data.skip(jc),
{
    let c = chunk(data, cb, j);
    assert forall|k: int| 0 <= k < data.len() - jc implies c.take(data.len() - jc)[k] == data.skip(jc)[k] by {
        assert(c[k] == data[jc + k]);
    }
    assert(c.take(data.len() - jc) =~= data.skip(jc));
}

/// A piece of `data` followed by bytes that start with the rest of `data`
/// starts with all of it from the piece on.
proof fn lemma_chunk_then(data: Seq<u8>, cb: nat, j: int, jc: int, b2: Seq<u8>)
    requires
        jc == j * cb,
        0 <= jc,
        jc + cb < data.len(),
        b2.len() >= data.len() - (jc + cb),
        b2.take(data.len() - (jc + cb)) == data.skip(jc + cb),
    ensures
        (chunk(data, cb, j) + b2).len() >= data.len() - jc,
        (chunk(data, cb, j) + b2).take(data.len() - jc) == data.skip(jc),
{
    let c = chunk(data, cb, j);
    let rem = data.len() - jc;
    assert forall|k: int| 0 <= k < rem implies (c + b2).take(rem)[k] == data.skip(jc)[k] by {
        if k < cb {
            assert(c[k] == data[jc + k]);
        } else {
            assert(b2.take(rem - cb)[k - cb] == data.skip(jc + cb)[k - cb]);
        }
    }
    assert((c + b2).take(rem) =~= data.skip(jc));
}

impl FatFs {
    /// The cluster reached from `c` by following `n` links.
    pub open spec fn hop(&self, d: Seq<u8>, c: int, n: nat) -> int
        decreases n,
    {
        if n == 0 {
            c
        } else {
            self.fat_entry(d, self.hop(d, c, (n - 1) as nat))
        }
    }

    /// Cluster `x` lies on the chain from `c`: following links from `c`
    /// through clusters (with entries on the disk) reaches it.
    pub open spec fn reaches(&self, d: Seq<u8>, c: int, x: int) -> bool {
        exists|n: nat|
            #![trigger self.hop(d, c, n)]
            self.hop(d, c, n) == x && forall|k: nat|
                k < n ==> 2 <= #[trigger] self.hop(d, c, k) < 0x0FFFFFF8 && self.fat_entry_on_disk(self.hop(d, c, k), d.len())
    }

    /// The clusters of the chain from `c`.
    pub open spec fn reach_set(&self, d: Seq<u8>, c: int) -> Set<int> {
        Set::new(|x: int| 2 <= x < 0x0FFFFFF8 && self.reaches(d, c, x))
    }

    /// Every cluster of the chain from `c` is one the FAT describes.
    pub open spec fn reach_in_fat(&self, d: Seq<u8>, c: int) -> bool {
        forall|x: int| #[trigger] self.reach_set(d, c).contains(x) ==> x < self.fat_entries()
    }

    /// The start of a chain is on it.
    pub proof fn lemma_reaches_start(&self, d: Seq<u8>, c: int)
        ensures
            self.reaches(d, c, c),
    {
        assert(self.hop(d, c, 0) == c);
    }

    /// The link after a cluster of the chain is on it too.
    pub proof fn lemma_reaches_next(&self, d: Seq<u8>, c: int, x: int)
        requires
            self.reaches(d, c, x),
            2 <= x < 0x0FFFFFF8,
            self.fat_entry_on_disk(x, d.len()),
        ensures
            self.reaches(d, c, self.fat_entry(d, x)),
    {
        let n = choose|n: nat|
            #![trigger self.hop(d, c, n)]
            self.hop(d, c, n) == x && forall|k: nat|
                k < n ==> 2 <= #[trigger] self.hop(d, c, k) < 0x0FFFFFF8 && self.fat_entry_on_disk(self.hop(d, c, k), d.len());
        assert(self.hop(d, c, n + 1) == self.fat_entry(d, x));
        assert forall|k: nat| k < n + 1 implies 2 <= #[trigger] self.hop(d, c, k) < 0x0FFFFFF8 && self.fat_entry_on_disk(
            self.hop(d, c, k),
            d.len(),
        ) by {
            if k == n {
            }
        }
    }

    /// Following `m` links and then `k` more is following `m + k`.
    pub proof fn lemma_hop_add(&self, d: Seq<u8>, c: int, m: nat, k: nat)
        ensures
            self.hop(d, c, m + k) == self.hop(d, self.hop(d, c, m), k),
        decreases k,
    {
        if k > 0 {
            self.lemma_hop_add(d, c, m, (k - 1) as nat);
            assert((m + k - 1) as nat == m + (k - 1) as nat);
        }
    }

    /// A chain through `b` from `a` goes on to whatever the chain from `b`
    /// reaches.
    pub proof fn lemma_reaches_trans(&self, d: Seq<u8>, a: int, b: int, x: int)
        requires
            self.reaches(d, a, b),
            self.reaches(d, b, x),
        ensures
            self.reaches(d, a, x),
    {
        let m = choose|m: nat|
            #![trigger self.hop(d, a, m)]
            self.hop(d, a, m) == b && forall|j: nat|
                j < m ==> 2 <= #[trigger] self.hop(d, a, j) < 0x0FFFFFF8 && self.fat_entry_on_disk(self.hop(d, a, j), d.len());
        let k = choose|k: nat|
            #![trigger self.hop(d, b, k)]
            self.hop(d, b, k) == x && forall|j: nat|
                j < k ==> 2 <= #[trigger] self.hop(d, b, j) < 0x0FFFFFF8 && self.fat_entry_on_disk(self.hop(d, b, j), d.len());
        self.lemma_hop_add(d, a, m, k);
        assert forall|j: nat| j < m + k implies 2 <= #[trigger] self.hop(d, a, j) < 0x0FFFFFF8 && self.fat_entry_on_disk(
            self.hop(d, a, j),
            d.len(),
        ) by {
            if j >= m {
                self.lemma_hop_add(d, a, m, (j - m) as nat);
                assert(self.hop(d, b, (j - m) as nat) == self.hop(d, a, j));
            }
        }
    }

    /// A cluster other than `c` on the chain from `c` is on the chain from
    /// the link after `c`.
    pub proof fn lemma_reaches_shift(&self, d: Seq<u8>, c: int, x: int)
        requires
            self.reaches(d, c, x),
            x != c,
        ensures
            2 <= c < 0x0FFFFFF8,
            self.fat_entry_on_disk(c, d.len()),
            self.reaches(d, self.fat_entry(d, c), x),
    {
        let n = choose|n: nat|
            #![trigger self.hop(d, c, n)]
            self.hop(d, c, n) == x && forall|j: nat|
                j < n ==> 2 <= #[trigger] self.hop(d, c, j) < 0x0FFFFFF8 && self.fat_entry_on_disk(self.hop(d, c, j), d.len());
        assert(n > 0);
        assert(self.hop(d, c, 0) == c);
        assert(self.hop(d, c, 1) == self.fat_entry(d, c));
        let nx = self.fat_entry(d, c);
        self.lemma_hop_add(d, c, 1, (n - 1) as nat);
        assert forall|j: nat| j < (n - 1) as nat implies 2 <= #[trigger] self.hop(d, nx, j) < 0x0FFFFFF8 && self.fat_entry_on_disk(
            self.hop(d, nx, j),
            d.len(),
        ) by {
            self.lemma_hop_add(d, c, 1, j);
            assert(self.hop(d, c, 1 + j) == self.hop(d, nx, j));
        }
        assert(self.hop(d, nx, (n - 1) as nat) == x);
    }

    /// The start of a chain that reaches a cluster is a cluster too.
    pub proof fn lemma_reaches_from_cluster(&self, d: Seq<u8>, c: int, x: int)
        requires
            self.reaches(d, c, x),
            2 <= x < 0x0FFFFFF8,
        ensures
            2 <= c < 0x0FFFFFF8,
    {
        let n = choose|n: nat|
            #![trigger self.hop(d, c, n)]
            self.hop(d, c, n) == x && forall|j: nat|
                j < n ==> 2 <= #[trigger] self.hop(d, c, j) < 0x0FFFFFF8 && self.fat_entry_on_disk(self.hop(d, c, j), d.len());
        assert(self.hop(d, c, 0) == c);
    }

    /// When every cleared cluster of the chain from `start` (on `d`) has its
    /// link on `d` cleared on `dn` too (where that entry is on the disk), or
    /// leading off the cluster range, every cluster the chain reaches from a
    /// cleared cluster `c` is cleared.
    pub proof fn lemma_cleared_onward(&self, d: Seq<u8>, dn: Seq<u8>, start: int, c: int, x: int)
        requires
            self.reaches(d, start, c),
            self.reaches(d, c, x),
            2 <= x < 0x0FFFFFF8,
            self.fat_entry_on_disk(x, d.len()),
            self.fat_entry(dn, c) == 0,
            forall|y: int|
                #[trigger] self.reach_set(d, start).contains(y) && self.fat_entry_on_disk(y, d.len()) && self.fat_entry(dn, y) == 0
                    ==> !(2 <= self.fat_entry(d, y) < 0x0FFFFFF8) || (self.fat_entry_on_disk(self.fat_entry(d, y), d.len())
                    ==> self.fat_entry(dn, self.fat_entry(d, y)) == 0),
        ensures
            self.fat_entry(dn, x) == 0,
    {
        let n = choose|n: nat|
            #![trigger self.hop(d, c, n)]
            self.hop(d, c, n) == x && forall|j: nat|
                j < n ==> 2 <= #[trigger] self.hop(d, c, j) < 0x0FFFFFF8 && self.fat_entry_on_disk(self.hop(d, c, j), d.len());
        self.lemma_hops_cleared(d, dn, start, c, n, n);
    }

    proof fn lemma_hops_cleared(&self, d: Seq<u8>, dn: Seq<u8>, start: int, c: int, n: nat, k: nat)
        requires
            self.reaches(d, start, c),
            k <= n,
            forall|j: nat| j < n ==> 2 <= #[trigger] self.hop(d, c, j) < 0x0FFFFFF8 && self.fat_entry_on_disk(self.hop(d, c, j), d.len()),
            2 <= self.hop(d, c, n) < 0x0FFFFFF8,
            self.fat_entry_on_disk(self.hop(d, c, n), d.len()),
            self.fat_entry(dn, c) == 0,
            forall|y: int|
                #[trigger] self.reach_set(d, start).contains(y) && self.fat_entry_on_disk(y, d.len()) && self.fat_entry(dn, y) == 0
                    ==> !(2 <= self.fat_entry(d, y) < 0x0FFFFFF8) || (self.fat_entry_on_disk(self.fat_entry(d, y), d.len())
                    ==> self.fat_entry(dn, self.fat_entry(d, y)) == 0),
        ensures
            self.fat_entry(dn, self.hop(d, c, k)) == 0,
        decreases k,
    {
        if k > 0 {
            let k1 = (k - 1) as nat;
            self.lemma_hops_cleared(d, dn, start, c, n, k1);
            let y = self.hop(d, c, k1);
            assert forall|j: nat| j < k1 implies 2 <= #[trigger] self.hop(d, c, j) < 0x0FFFFFF8 && self.fat_entry_on_disk(
                self.hop(d, c, j),
                d.len(),
            ) by {
            }
            assert(self.reaches(d, c, y));
            self.lemma_reaches_trans(d, start, c, y);
            assert(self.reach_set(d, start).contains(y));
            assert(self.hop(d, c, k) == self.fat_entry(d, y));
        } else {
            assert(self.hop(d, c, 0) == c);
        }
    }

    /// Part way through freeing the chain from `start` (as it was on
    /// `disk`), with `cluster` to be freed next, on `d`: every cluster of
    /// the chain is cleared or still ahead of `cluster`; and the link (on
    /// `disk`) of a cleared one leads off the cluster range, to a cleared
    /// cluster, or to `cluster`.
    pub open spec fn freeing(&self, disk: Seq<u8>, d: Seq<u8>, start: int, cluster: int) -> bool {
        &&& forall|x: int|
            #[trigger] self.reach_set(disk, start).contains(x) && self.fat_entry_on_disk(x, disk.len()) ==> self.fat_entry(d, x) == 0 || (2
                <= cluster < 0x0FFFFFF8 && self.reaches(disk, cluster, x))
        &&& forall|y: int|
            #[trigger] self.reach_set(disk, start).contains(y) && self.fat_entry_on_disk(y, disk.len()) && self.fat_entry(d, y) == 0
                ==> !(2 <= self.fat_entry(disk, y) < 0x0FFFFFF8) || (self.fat_entry_on_disk(self.fat_entry(disk, y), disk.len())
                ==> self.fat_entry(d, self.fat_entry(disk, y)) == 0) || self.fat_entry(disk, y) == cluster
    }

    /// Clearing the link of `c` and moving on to the link `c` held keeps
    /// [`FatFs::freeing`].
    pub proof fn lemma_freeing_step(&self, disk: Seq<u8>, d: Seq<u8>, dn: Seq<u8>, start: int, c: int)
        requires
            self.reach_in_fat(disk, start),
            self.reaches(disk, start, c),
            2 <= c < 0x0FFFFFF8,
            self.fat_entry_on_disk(c, disk.len()),
            d.len() == disk.len(),
            self.frame(d, dn, Set::empty(), set![c]),
            self.fat_entry(dn, c) == 0,
            self.fat_entry(d, c) == self.fat_entry(disk, c) || self.fat_entry(d, c) == 0,
            self.freeing(disk, d, start, c),
        ensures
            self.freeing(disk, dn, start, self.fat_entry(d, c)),
    {
        let rs = self.reach_set(disk, start);
        let nx = self.fat_entry(d, c);
        let same = self.fat_entry(d, c) == self.fat_entry(disk, c);
        assert(rs.contains(c));
        // the link of a cleared cluster leads off, to a cleared one, or (when
        // `c` held its link) to the next cluster
        assert forall|y: int| #[trigger] rs.contains(y) && self.fat_entry_on_disk(y, disk.len()) && self.fat_entry(dn, y) == 0 implies !(2
            <= self.fat_entry(disk, y) < 0x0FFFFFF8) || (self.fat_entry_on_disk(self.fat_entry(disk, y), disk.len()) ==> self.fat_entry(
            dn,
            self.fat_entry(disk, y),
        ) == 0) || (y == c && same) by {
            let sy = self.fat_entry(disk, y);
            if !(y == c && same) {
                if y != c {
                    assert(y < self.fat_entries());
                    assert(self.same_link(d, dn, y));
                }
                assert(self.fat_entry(d, y) == 0);
                if 2 <= sy < 0x0FFFFFF8 && self.fat_entry_on_disk(sy, disk.len()) && sy != c {
                    self.lemma_reaches_next(disk, start, y);
                    assert(rs.contains(sy));
                    assert(sy < self.fat_entries());
                    assert(self.same_link(d, dn, sy));
                }
            }
        }
        assert forall|x: int| #[trigger] rs.contains(x) && self.fat_entry_on_disk(x, disk.len()) implies self.fat_entry(dn, x) == 0
            || (2 <= nx < 0x0FFFFFF8 && self.reaches(disk, nx, x)) by {
            if self.fat_entry(dn, x) != 0 {
                assert(x != c);
                assert(x < self.fat_entries());
                assert(self.same_link(d, dn, x));
                assert(self.reaches(disk, c, x));
                if same {
                    self.lemma_reaches_shift(disk, c, x);
                    self.lemma_reaches_from_cluster(disk, nx, x);
                } else {
                    self.lemma_cleared_onward(disk, dn, start, c, x);
                }
            }
        }
    }
}

impl FatFs {
    /// How many of the clusters `lo..hi` are free (FAT entry 0) on `d`.
    pub open spec fn free_count(&self, d: Seq<u8>, lo: int, hi: int) -> nat
        decreases hi - lo,
    {
        if hi <= lo {
            0
        } else {
            self.free_count(d, lo, hi - 1) + if self.fat_entry(d, hi - 1) == 0 {
                1nat
            } else {
                0nat
            }
        }
    }

    /// Below `m`, every cluster's data lies on the disk `d`, and at least `n`
    /// of those clusters are free.
    pub open spec fn room_below(&self, d: Seq<u8>, m: int, n: nat) -> bool {
        &&& 2 <= m <= self.alloc_limit()
        &&& forall|c: int| 2 <= c < m ==> #[trigger] self.cluster_on_disk(c, d.len())
        &&& self.free_count(d, 2, m) >= n
    }

    /// The disk `d` holds the FATs whole and room for `n` new clusters: `n`
    /// free clusters among the first ones, whose data lies on the disk.
    #[verifier::opaque]
    pub open spec fn room(&self, d: Seq<u8>, n: nat) -> bool {
        &&& self.data_start_lba * 512 <= d.len()
        &&& exists|m: int| #[trigger] self.room_below(d, m, n)
    }

    /// A free count above zero has a free cluster behind it.
    pub proof fn lemma_free_exists(&self, d: Seq<u8>, lo: int, hi: int)
        requires
            self.free_count(d, lo, hi) > 0,
        ensures
            exists|c: int| lo <= c < hi && #[trigger] self.fat_entry(d, c) == 0,
        decreases hi - lo,
    {
        if self.fat_entry(d, hi - 1) != 0 {
            self.lemma_free_exists(d, lo, hi - 1);
        }
    }

    /// Where the free clusters of `d1` (but perhaps `c`) are free on `d2`,
    /// `d2` has at most one free cluster fewer, and none fewer when `c` is
    /// free on `d2` too or out of the range.
    pub proof fn lemma_free_count_keep(&self, d1: Seq<u8>, d2: Seq<u8>, lo: int, hi: int, c: int)
        requires
            forall|x: int| lo <= x < hi && x != c && self.fat_entry(d1, x) == 0 ==> #[trigger] self.fat_entry(d2, x) == 0,
        ensures
            self.free_count(d2, lo, hi) + 1 >= self.free_count(d1, lo, hi),
            !(lo <= c < hi) || self.fat_entry(d1, c) != 0 || self.fat_entry(d2, c) == 0 ==> self.free_count(d2, lo, hi)
                >= self.free_count(d1, lo, hi),
        decreases hi - lo,
    {
        if hi > lo {
            self.lemma_free_count_keep(d1, d2, lo, hi - 1, c);
            if hi - 1 != c && self.fat_entry(d1, hi - 1) == 0 {
                assert(self.fat_entry(d2, hi - 1) == 0);
            }
        }
    }

    /// Clearing the link of `c`, a cluster of the chain from `start`, keeps a
    /// list of distinct cleared clusters of that chain, `c` added unless it
    /// was there already (and then its link was already cleared).
    pub proof fn lemma_free_visit(&self, disk: Seq<u8>, d: Seq<u8>, dn: Seq<u8>, start: int, c: int, vis: Seq<int>)
        requires
            self.wf(),
            self.reach_in_fat(disk, start),
            self.data_start_lba * 512 <= disk.len(),
            d.len() == disk.len(),
            self.reach_set(disk, start).contains(c),
            self.frame(d, dn, Set::empty(), set![c]),
            self.fat_entry(dn, c) == 0,
            vis.no_duplicates(),
            forall|i: int|
                0 <= i < vis.len() ==> self.reach_set(disk, start).contains(#[trigger] vis[i]) && self.fat_entry(d, vis[i]) == 0,
        ensures
            vis.contains(c) ==> self.fat_entry(d, c) == 0,
            vis.contains(c) ==> forall|i: int| 0 <= i < vis.len() ==> #[trigger] self.fat_entry(dn, vis[i]) == 0,
            !vis.contains(c) ==> vis.push(c).no_duplicates() && forall|i: int|
                0 <= i < vis.push(c).len() ==> self.reach_set(disk, start).contains(#[trigger] vis.push(c)[i]) && self.fat_entry(
                    dn,
                    vis.push(c)[i],
                ) == 0,
    {
        let rs = self.reach_set(disk, start);
        assert forall|i: int| 0 <= i < vis.len() && vis[i] != c implies self.fat_entry(dn, vis[i]) == 0 by {
            assert(rs.contains(vis[i]));
            self.lemma_fats_on_disk(disk.len(), vis[i]);
            assert(self.same_link(d, dn, vis[i]));
        }
        if !vis.contains(c) {
            let v2 = vis.push(c);
            assert forall|i: int| 0 <= i < v2.len() implies rs.contains(#[trigger] v2[i]) && self.fat_entry(dn, v2[i]) == 0 by {
                if i < vis.len() {
                    assert(v2[i] == vis[i]);
                }
            }
            assert(v2.no_duplicates()) by {
                assert forall|a: int, b: int| 0 <= a < v2.len() && 0 <= b < v2.len() && a != b implies v2[a] != v2[b] by {
                    if a == vis.len() as int {
                        if v2[b] == c {
                            assert(v2[b] == vis[b]);
                            assert(vis.contains(vis[b]));
                        }
                    } else if b == vis.len() as int {
                        if v2[a] == c {
                            assert(v2[a] == vis[a]);
                            assert(vis.contains(vis[a]));
                        }
                    } else {
                        assert(v2[a] == vis[a] && v2[b] == vis[b]);
                    }
                }
            }
        } else {
            let i = choose|i: int| 0 <= i < vis.len() && vis[i] == c;
            assert(self.fat_entry(d, vis[i]) == 0);
        }
    }

    /// Distinct clusters of a chain are no more than the cluster numbers.
    pub proof fn lemma_visit_len(&self, disk: Seq<u8>, start: int, vis: Seq<int>)
        requires
            vis.no_duplicates(),
            forall|i: int| 0 <= i < vis.len() ==> self.reach_set(disk, start).contains(#[trigger] vis[i]),
        ensures
            vis.len() <= 0x0FFFFFF6,
    {
        vis.unique_seq_to_set();
        assert(vis.to_set().subset_of(vstd::set_lib::set_int_range(2, 0x0FFFFFF8))) by {
            assert forall|x: int| vis.to_set().contains(x) implies vstd::set_lib::set_int_range(2, 0x0FFFFFF8).contains(x) by {
                let i = choose|i: int| 0 <= i < vis.len() && vis[i] == x;
                assert(self.reach_set(disk, start).contains(vis[i]));
            }
        }
        vstd::set_lib::lemma_int_range(2, 0x0FFFFFF8);
        vstd::set_lib::lemma_len_subset(vis.to_set(), vstd::set_lib::set_int_range(2, 0x0FFFFFF8));
    }

    /// A disk that holds the FATs whole holds every FAT entry of every copy.
    pub proof fn lemma_fats_on_disk(&self, len: nat, c: int)
        requires
            self.wf(),
            self.data_start_lba * 512 <= len,
            0 <= c < self.fat_entries(),
        ensures
            self.fat_copies_on_disk(c, len),
            self.fat_entry_on_disk(c, len),
            self.fat_on_disk(len),
    {
        assert((4 * c) / 512 + 1 <= self.sectors_per_fat);
        assert((self.num_fats - 1) * self.sectors_per_fat + self.sectors_per_fat == self.num_fats * self.sectors_per_fat)
            by (nonlinear_arith);
        assert((self.num_fats - 1) * self.sectors_per_fat >= 0) by (nonlinear_arith)
            requires
                self.num_fats >= 1,
                self.sectors_per_fat >= 0,
        ;
        assert(self.num_fats * self.sectors_per_fat >= self.sectors_per_fat) by (nonlinear_arith)
            requires
                self.num_fats >= 1,
                self.sectors_per_fat >= 0,
        ;
    }
}

} // verus!
