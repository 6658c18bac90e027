//! Reading back what `FatFs::write_file` wrote, and what the write path
//! leaves of everything else: the clusters it may touch, and the other
//! names of the directory it changes.
//!
//! The claim holds on a volume whose structures are sound where the write
//! goes: the parent directory's chain is a proper chain, the directories
//! looked through on the way hold clusters marked in use, and an old file
//! being replaced shares no cluster with them. [`FatFs::write_ready`] says
//! exactly that.

use vstd::prelude::*;
use crate::fat::{FatFs, DirEntryView, spec_split_parent, short_name, find_named, parse_dir, parse_entry, encode_entry, zeros, put_bytes, decode_name,
    lower_bytes, eq_ignore_case, skipped_entry, ascii_lower, is_root_path, lemma_split_parent_segments};
use crate::dirscan::{record, free_record, delete_target};
use crate::dirparse::{listed, lemma_parse_split, lemma_parse_front, lemma_find_concat, lemma_find_none, lemma_parse_end, lemma_find_none_iff,
    lemma_parse_deleted,
    lemma_name_reads_back, lemma_short_entry, lemma_dir_block_empty};
use crate::clusters::{lemma_frame_trans, lemma_frame_widen, chunk};
use crate::path::segments;
use crate::vfs::FsError;

verus! {

impl FatFs {
    /// The first cluster of the directory `p` (the root directory's for `/`).
    pub open spec fn dir_cluster(&self, d: Seq<u8>, p: Seq<char>) -> int {
        if p == seq!['/'] {
            self.root_cluster as int
        } else {
            self.spec_lookup(d, p)->Ok_0.cluster as int
        }
    }

    /// The chain of the directory starting at `pc`, when it is one.
    pub open spec fn parent_chain(&self, d: Seq<u8>, pc: int) -> Seq<int> {
        choose|l: Seq<int>| self.dir_chain(d, pc, l)
    }

    /// The volume `d` is sound where a new entry for `abs` goes (a file
    /// written or created, a directory made): FsInfo lies before the FATs;
    /// the name is a short name other than `.` and `..`; the parent
    /// directory's chain is a proper chain of clusters in use, apart from the
    /// directory chains read on the way to it, whose clusters are in use too;
    /// a file being replaced has its chain apart from all of those.
    #[verifier::opaque]
    pub open spec fn write_ready(&self, d: Seq<u8>, abs: Seq<char>) -> bool {
        &&& self.reserved_sectors >= 2
        &&& spec_split_parent(abs) is Some
        &&& {
            let (p, n) = spec_split_parent(abs)->Some_0;
            let pc = self.dir_cluster(d, p);
            let l = self.parent_chain(d, pc);
            let wp = self.walk_set(d, segments(p));
            &&& short_name(vstd::utf8::encode_utf8(n))
            &&& n != seq!['.'] && n != seq!['.', '.']
            &&& self.dir_chain(d, pc, l)
            &&& forall|i: int| 0 <= i < l.len() ==> self.fat_entry(d, #[trigger] l[i]) != 0 && !wp.contains(l[i])
            &&& forall|x: int|
                #[trigger] wp.contains(x) ==> 2 <= x < self.alloc_limit() && self.fat_entry(d, x) != 0 && self.fat_entry_on_disk(
                    x,
                    d.len(),
                )
            &&& match find_named(parse_dir(self.concat(d, l)), n) {
                Some(e) => !e.is_dir && e.cluster >= 2 ==> self.reach_in_fat(d, e.cluster as int) && forall|x: int|
                    #[trigger] self.reach_set(d, e.cluster as int).contains(x) ==> !wp.contains(x) && !l.contains(x),
                None => true,
            }
        }
    }

    /// The chain of the file named `n` in the directory chain `l` that a
    /// write replaces (none for a directory or an empty file).
    pub open spec fn old_chain(&self, d: Seq<u8>, l: Seq<int>, n: Seq<char>) -> Set<int> {
        match find_named(parse_dir(self.concat(d, l)), n) {
            Some(e) => if !e.is_dir && e.cluster >= 2 {
                self.reach_set(d, e.cluster as int)
            } else {
                Set::empty()
            },
            None => Set::empty(),
        }
    }

    /// The clusters a change at `abs` may touch: the parent directory's,
    /// those of the file replaced, and those that were free.
    pub open spec fn write_touch(&self, d: Seq<u8>, abs: Seq<char>) -> Set<int> {
        let (p, n) = spec_split_parent(abs)->Some_0;
        let l = self.parent_chain(d, self.dir_cluster(d, p));
        Set::new(|y: int| l.contains(y) || self.old_chain(d, l, n).contains(y) || self.fat_entry(d, y) == 0)
    }

    /// The chain of the file that a write to `abs` replaces: empty where
    /// there is none.
    pub open spec fn replaced_chain(&self, d: Seq<u8>, abs: Seq<char>) -> Set<int> {
        let (p, n) = spec_split_parent(abs)->Some_0;
        self.old_chain(d, self.parent_chain(d, self.dir_cluster(d, p)), n)
    }

    /// Every name other than that of `abs` under which the parent directory
    /// of `abs` lists an entry on `d1`, it lists the same entry under on
    /// `d2`.
    pub open spec fn keeps_siblings(&self, d1: Seq<u8>, d2: Seq<u8>, abs: Seq<char>) -> bool {
        let (p, n) = spec_split_parent(abs)->Some_0;
        self.keeps_names(d1, d2, self.dir_cluster(d1, p), n)
    }

    /// The clusters a read of `other` on `d` looks at that a change at
    /// `abs` could alter: all of them but the chain of the parent directory
    /// of `abs` where a name other than that of `abs` is looked up in it
    /// (see [`FatFs::keeps_siblings`]).
    pub open spec fn read_set_for(&self, d: Seq<u8>, abs: Seq<char>, other: Seq<char>) -> Set<int> {
        let (p, n) = spec_split_parent(abs)->Some_0;
        self.read_set_but(d, other, self.dir_cluster(d, p), n)
    }

    /// What a volume sound for a write provides.
    pub proof fn lemma_ready_facts(&self, d: Seq<u8>, abs: Seq<char>, p: Seq<char>, n: Seq<char>, pc: int)
        requires
            self.wf(),
            self.write_ready(d, abs),
            spec_split_parent(abs) == Some((p, n)),
            pc == self.dir_cluster(d, p),
        ensures
            self.reserved_sectors >= 2,
            short_name(vstd::utf8::encode_utf8(n)),
            n != seq!['.'] && n != seq!['.', '.'],
            self.dir_chain(d, pc, self.parent_chain(d, pc)),
            forall|i: int|
                0 <= i < self.parent_chain(d, pc).len() ==> !self.walk_set(d, segments(p)).contains(
                    #[trigger] self.parent_chain(d, pc)[i],
                ),
            forall|x: int|
                #[trigger] self.walk_set(d, segments(p)).contains(x) ==> 2 <= x < self.alloc_limit() && self.fat_entry(d, x) != 0
                    && self.fat_entry_on_disk(x, d.len()),
            self.alloc_limit() <= self.fat_entries(),
    {
        reveal(FatFs::write_ready);
    }

    /// What a volume sound for a write provides of a file being replaced.
    pub proof fn lemma_ready_old(&self, d: Seq<u8>, abs: Seq<char>, p: Seq<char>, n: Seq<char>, pc: int, eo: DirEntryView)
        requires
            self.wf(),
            self.write_ready(d, abs),
            spec_split_parent(abs) == Some((p, n)),
            pc == self.dir_cluster(d, p),
            find_named(parse_dir(self.concat(d, self.parent_chain(d, pc))), n) == Some(eo),
            !eo.is_dir,
            eo.cluster >= 2,
        ensures
            self.reach_in_fat(d, eo.cluster as int),
            forall|x: int|
                #[trigger] self.reach_set(d, eo.cluster as int).contains(x) ==> !self.parent_chain(d, pc).contains(x),
    {
        reveal(FatFs::write_ready);
    }

    /// The contents of the file at `abs` after `data` is appended to it: the
    /// data alone when there is no such file.
    pub open spec fn appended(&self, d: Seq<u8>, abs: Seq<char>, data: Seq<u8>) -> Seq<u8> {
        match self.spec_read_file(d, abs) {
            Ok(b) => b + data,
            Err(_) => data,
        }
    }

    /// A linked chain stays linked through a change that leaves its
    /// clusters alone.
    pub proof fn lemma_linked_apart(&self, d: Seq<u8>, dn: Seq<u8>, l: Seq<int>, md: Set<int>, ml: Set<int>)
        requires
            self.linked(d, l),
            self.frame(d, dn, md, ml),
            forall|i: int| 0 <= i < l.len() ==> !ml.contains(#[trigger] l[i]),
        ensures
            self.linked(dn, l),
    {
        assert(self.alloc_limit() <= self.fat_entries());
        assert forall|i: int| 0 <= i < l.len() implies #[trigger] self.fat_entry(dn, l[i]) == self.chain_next(l, i) by {
            assert(2 <= l[i] < self.alloc_limit());
            assert(self.same_link(d, dn, l[i]));
        }
    }

    /// Where the entry for the written file lies in its directory: what
    /// the directory lists after the write names the new entry first.
    #[verifier::spinoff_prover]
    pub proof fn lemma_listing_after_add(
        &self,
        b: Seq<u8>,
        b4: Seq<u8>,
        b5: Seq<u8>,
        n: Seq<char>,
        e: Seq<u8>,
        had_old: bool,
        od: int,
        o: int,
    )
        requires
            e.len() == 32,
            e[0] != 0,
            listed(e),
            eq_ignore_case(parse_entry(e).name, n),
            !had_old ==> find_named(parse_dir(b), n) is None && b4 == b,
            had_old ==> 0 <= od && 32 * od + 32 <= b.len() && (forall|k: int| 0 <= k < od ==> !delete_target(#[trigger] record(b, k), n))
                && record(b, od)[0] != 0 && b4 == put_bytes(b, 32 * od, seq![0xE5u8]),
            0 <= o,
            32 * o + 32 <= b4.len(),
            forall|k: int| 0 <= k < o ==> !free_record(#[trigger] record(b4, k)),
            free_record(record(b4, o)),
            b5 == put_bytes(b4, 32 * o, e),
        ensures
            find_named(parse_dir(b5), n) == Some(parse_entry(e)),
    {
        assert(b4.len() == b.len());
        assert(b5.len() == b4.len());
        if had_old {
            assert(o <= od) by {
                if o > od {
                    assert(record(b4, od) =~= put_bytes(record(b, od), 0, seq![0xE5u8]));
                    assert(!free_record(record(b4, od)));
                }
            }
        }
        assert forall|k: int| 0 <= k < o implies (#[trigger] record(b5, k))[0] != 0 by {
            assert(record(b5, k) =~= record(b4, k));
            assert(!free_record(record(b4, k)));
        }
        lemma_parse_split(b5, o);
        let tail = b5.skip(32 * o);
        assert(record(tail, 0) =~= e);
        lemma_parse_front(tail);
        let pre = b5.take(32 * o);
        assert(pre =~= b.take(32 * o)) by {
            if had_old {
                assert forall|i: int| 0 <= i < 32 * o implies pre[i] == b.take(32 * o)[i] by {
                    assert(b4[i] == b[i]);
                }
            }
        }
        if had_old {
            assert forall|k: int| 0 <= k < o implies !delete_target(#[trigger] record(b, k), n) by {
            }
            lemma_find_none(b, o, n);
        } else {
            assert forall|k: int| 0 <= k < o implies (#[trigger] record(b, k))[0] != 0 by {
                assert(!free_record(record(b4, k)));
            }
            lemma_parse_split(b, o);
            lemma_find_concat(parse_dir(b.take(32 * o)), parse_dir(b.skip(32 * o)), n);
        }
        lemma_find_concat(parse_dir(pre), parse_dir(tail), n);
        let ps = parse_dir(tail);
        assert(ps[0] == parse_entry(e));
    }

    /// The listing of a full directory grown by a cluster that holds the new
    /// entry first names the new entry first.
    #[verifier::spinoff_prover]
    pub proof fn lemma_listing_after_grow(&self, b: Seq<u8>, n: Seq<char>, e: Seq<u8>)
        requires
            self.wf(),
            e.len() == 32,
            e[0] != 0,
            listed(e),
            eq_ignore_case(parse_entry(e).name, n),
            find_named(parse_dir(b), n) is None,
            b.len() % 32 == 0,
            forall|k: int| 0 <= k && 32 * k + 32 <= b.len() ==> !free_record(#[trigger] record(b, k)),
        ensures
            find_named(parse_dir(b + put_bytes(zeros(self.cluster_bytes()), 0, e)), n) == Some(parse_entry(e)),
    {
        let c = put_bytes(zeros(self.cluster_bytes()), 0, e);
        let all = b + c;
        let m: int = b.len() as int / 32;
        assert(self.cluster_bytes() >= 512);
        assert(c.len() == self.cluster_bytes());
        assert forall|k: int| 0 <= k < m implies (#[trigger] record(all, k))[0] != 0 by {
            assert(record(all, k) =~= record(b, k));
            assert(!free_record(record(b, k)));
        }
        lemma_parse_split(all, m);
        assert(all.take(32 * m) =~= b);
        assert(all.skip(32 * m) =~= c);
        assert(record(c, 0) =~= e);
        lemma_parse_front(c);
        lemma_find_concat(parse_dir(b), parse_dir(c), n);
        assert(parse_dir(c)[0] == parse_entry(e));
    }

    /// Marking the live entry named `n` at record `od` deleted leaves what
    /// the directory finds under any name unlike `n`.
    #[verifier::spinoff_prover]
    pub proof fn lemma_others_after_delete(&self, b: Seq<u8>, b4: Seq<u8>, n: Seq<char>, m: Seq<char>, od: int)
        requires
            0 <= od,
            32 * od + 32 <= b.len(),
            forall|k: int| 0 <= k < od ==> (#[trigger] record(b, k))[0] != 0,
            record(b, od)[0] != 0,
            !skipped_entry(record(b, od)),
            eq_ignore_case(decode_name(record(b, od)), n),
            !eq_ignore_case(m, n),
            b4 == put_bytes(b, 32 * od, seq![0xE5u8]),
        ensures
            find_named(parse_dir(b4), m) == find_named(parse_dir(b), m),
    {
        assert(b4.len() == b.len());
        assert forall|k: int| 0 <= k < od implies (#[trigger] record(b4, k))[0] != 0 by {
            assert(record(b4, k) =~= record(b, k));
        }
        lemma_parse_split(b, od);
        lemma_parse_split(b4, od);
        let pre = b.take(32 * od);
        assert(b4.take(32 * od) =~= pre);
        let t = b.skip(32 * od);
        let t4 = b4.skip(32 * od);
        let e = t.take(32);
        assert(e =~= record(b, od));
        assert(t4.take(32)[0] == 0xE5);
        assert(t4.skip(32) =~= t.skip(32));
        assert(parse_dir(t4) == parse_dir(t.skip(32)));
        lemma_find_concat(parse_dir(pre), parse_dir(t), m);
        lemma_find_concat(parse_dir(pre), parse_dir(t4), m);
        if !(decode_name(e) == seq!['.'] || decode_name(e) == seq!['.', '.']) {
            let pe = parse_entry(e);
            assert(parse_dir(t) == seq![pe] + parse_dir(t.skip(32)));
            lemma_case_apart(pe.name, n, m);
            assert((seq![pe] + parse_dir(t.skip(32))).drop_first() =~= parse_dir(t.skip(32)));
        }
    }

    /// Taking the first free record `o` for a new entry named `n` leaves what
    /// the directory found under any name unlike `n`.
    #[verifier::spinoff_prover]
    pub proof fn lemma_others_after_add(&self, b4: Seq<u8>, b5: Seq<u8>, n: Seq<char>, m: Seq<char>, e: Seq<u8>, o: int)
        requires
            e.len() == 32,
            e[0] != 0,
            listed(e),
            eq_ignore_case(parse_entry(e).name, n),
            !eq_ignore_case(m, n),
            0 <= o,
            32 * o + 32 <= b4.len(),
            forall|k: int| 0 <= k < o ==> !free_record(#[trigger] record(b4, k)),
            free_record(record(b4, o)),
            b5 == put_bytes(b4, 32 * o, e),
            find_named(parse_dir(b4), m) is Some,
        ensures
            find_named(parse_dir(b5), m) == find_named(parse_dir(b4), m),
    {
        assert(b5.len() == b4.len());
        assert forall|k: int| 0 <= k < o implies (#[trigger] record(b5, k))[0] != 0 && record(b4, k)[0] != 0 by {
            assert(record(b5, k) =~= record(b4, k));
            assert(!free_record(record(b4, k)));
        }
        lemma_parse_split(b4, o);
        lemma_parse_split(b5, o);
        let pre = b4.take(32 * o);
        assert(b5.take(32 * o) =~= pre);
        let t4 = b4.skip(32 * o);
        let t5 = b5.skip(32 * o);
        assert(t4.take(32) =~= record(b4, o));
        assert(t5.take(32) =~= e);
        assert(t5.skip(32) =~= t4.skip(32));
        let pe = parse_entry(e);
        assert(parse_dir(t5) == seq![pe] + parse_dir(t4.skip(32)));
        lemma_case_apart(pe.name, n, m);
        assert((seq![pe] + parse_dir(t4.skip(32))).drop_first() =~= parse_dir(t4.skip(32)));
        lemma_find_concat(parse_dir(pre), parse_dir(t4), m);
        lemma_find_concat(parse_dir(pre), parse_dir(t5), m);
        if record(b4, o)[0] == 0 {
            assert(parse_dir(t4) == Seq::<DirEntryView>::empty());
        } else {
            assert(parse_dir(t4) == parse_dir(t4.skip(32)));
        }
    }

    /// Growing a full directory by a cluster that holds a new entry leaves
    /// what it found under any name.
    #[verifier::spinoff_prover]
    pub proof fn lemma_others_after_grow(&self, b: Seq<u8>, m: Seq<char>, e: Seq<u8>)
        requires
            self.wf(),
            e.len() == 32,
            b.len() % 32 == 0,
            forall|k: int| 0 <= k && 32 * k + 32 <= b.len() ==> !free_record(#[trigger] record(b, k)),
            find_named(parse_dir(b), m) is Some,
        ensures
            find_named(parse_dir(b + put_bytes(zeros(self.cluster_bytes()), 0, e)), m) == find_named(parse_dir(b), m),
    {
        let c = put_bytes(zeros(self.cluster_bytes()), 0, e);
        let all = b + c;
        let k: int = b.len() as int / 32;
        assert forall|j: int| 0 <= j < k implies (#[trigger] record(all, j))[0] != 0 by {
            assert(record(all, j) =~= record(b, j));
            assert(!free_record(record(b, j)));
        }
        lemma_parse_split(all, k);
        assert(all.take(32 * k) =~= b);
        assert(all.skip(32 * k) =~= c);
        lemma_find_concat(parse_dir(b), parse_dir(c), m);
    }
}

impl FatFs {
    /// The clusters a file of `len` bytes takes.
    pub open spec fn clusters_for(&self, len: nat) -> nat {
        len / self.cluster_bytes() + if len % self.cluster_bytes() == 0 {
            0nat
        } else {
            1nat
        }
    }

    /// A count of free clusters is no more than the clusters counted.
    pub proof fn lemma_free_count_most(&self, d: Seq<u8>, lo: int, hi: int)
        requires
            lo <= hi,
        ensures
            self.free_count(d, lo, hi) <= hi - lo,
        decreases hi - lo,
    {
        if hi > lo {
            self.lemma_free_count_most(d, lo, hi - 1);
        }
    }

    /// Room for new clusters stays where every free cluster stays free.
    pub proof fn lemma_room_keep(&self, d1: Seq<u8>, d2: Seq<u8>, n: nat)
        requires
            self.room(d1, n),
            d2.len() == d1.len(),
            forall|x: int| 2 <= x < self.alloc_limit() && self.fat_entry(d1, x) == 0 ==> #[trigger] self.fat_entry(d2, x) == 0,
        ensures
            self.room(d2, n),
    {
        reveal(FatFs::room);
        let m = choose|m: int| #[trigger] self.room_below(d1, m, n);
        self.lemma_free_count_keep(d1, d2, 2, m, -1);
        assert(self.room_below(d2, m, n));
    }

    /// Room for new clusters holds the FATs whole.
    pub proof fn lemma_room_fats(&self, d: Seq<u8>, n: nat)
        requires
            self.room(d, n),
        ensures
            self.data_start_lba * 512 <= d.len(),
    {
        reveal(FatFs::room);
    }

    /// Room for new clusters stays through a change that keeps every link.
    pub proof fn lemma_room_frame(&self, d1: Seq<u8>, d2: Seq<u8>, md: Set<int>, n: nat)
        requires
            self.wf(),
            self.room(d1, n),
            self.frame(d1, d2, md, Set::empty()),
        ensures
            self.room(d2, n),
    {
        reveal(FatFs::room);
        assert(self.alloc_limit() <= self.fat_entries());
        assert forall|x: int| 2 <= x < self.alloc_limit() && self.fat_entry(d1, x) == 0 implies #[trigger] self.fat_entry(d2, x)
            == 0 by {
            self.lemma_fats_on_disk(d1.len(), x);
            assert(self.same_link(d1, d2, x));
        }
        self.lemma_room_keep(d1, d2, n);
    }

    /// Room for `n + k` new clusters, less `k` taken, leaves room for `n`.
    pub proof fn lemma_room_take(&self, d1: Seq<u8>, d2: Seq<u8>, n: nat, k: nat)
        requires
            self.room(d1, n + k),
            d2.len() == d1.len(),
            forall|m: int| 2 <= m <= self.alloc_limit() ==> #[trigger] self.free_count(d2, 2, m) + k >= self.free_count(d1, 2, m),
        ensures
            self.room(d2, n),
    {
        reveal(FatFs::room);
        let m = choose|m: int| #[trigger] self.room_below(d1, m, n + k);
        assert(self.free_count(d2, 2, m) + k >= self.free_count(d1, 2, m));
        assert(self.room_below(d2, m, n));
    }

    /// Room for `n` new clusters means fewer than 0x0FFFFFF8 of them.
    pub proof fn lemma_room_small(&self, d: Seq<u8>, n: nat)
        requires
            self.room(d, n),
        ensures
            n < 0x0FFFFFF8,
    {
        reveal(FatFs::room);
        let m = choose|m: int| #[trigger] self.room_below(d, m, n);
        self.lemma_free_count_most(d, 2, m);
    }
}

impl FatFs {
    /// A write of `len` bytes at `abs` on `d` is bound to succeed on a
    /// reliable disk: the volume is sound where it goes, the size fits a
    /// directory entry, the parent is a directory, `abs` names no directory,
    /// and the disk has room for the file's clusters and one more, should the
    /// directory have to grow.
    #[verifier::opaque]
    pub open spec fn write_owed(&self, d: Seq<u8>, abs: Seq<char>, len: nat) -> bool {
        &&& self.write_ready(d, abs)
        &&& len <= u32::MAX
        &&& spec_split_parent(abs) matches Some((p, n)) && self.spec_is_dir(d, p)
        &&& !(self.child_lookup(d, abs) matches Some(Ok(e)) && e.is_dir)
        &&& self.room(d, self.clusters_for(len) + 1)
    }

    /// What a write owed success provides.
    pub proof fn lemma_owed_facts(&self, d: Seq<u8>, abs: Seq<char>, len: nat)
        requires
            self.write_owed(d, abs, len),
        ensures
            self.write_ready(d, abs),
            len <= u32::MAX,
            spec_split_parent(abs) matches Some((p, n)) && self.spec_is_dir(d, p),
            !(self.child_lookup(d, abs) matches Some(Ok(e)) && e.is_dir),
            self.room(d, self.clusters_for(len) + 1),
    {
        reveal(FatFs::write_owed);
    }

    /// Freeing a chain keeps the room for new clusters.
    pub proof fn lemma_room_after_free(&self, disk: Seq<u8>, d1: Seq<u8>, start: int, k: nat)
        requires
            self.wf(),
            self.room(disk, k),
            self.reach_in_fat(disk, start),
            self.frame(disk, d1, Set::empty(), self.reach_set(disk, start)),
            forall|x: int|
                #[trigger] self.reach_set(disk, start).contains(x) && self.fat_entry_on_disk(x, disk.len()) ==> self.fat_entry(d1, x)
                    == 0,
        ensures
            self.room(d1, k),
    {
        reveal(FatFs::room);
        assert(self.alloc_limit() <= self.fat_entries());
        assert forall|x: int| 2 <= x < self.alloc_limit() && self.fat_entry(disk, x) == 0 implies #[trigger] self.fat_entry(d1, x)
            == 0 by {
            self.lemma_fats_on_disk(disk.len(), x);
            if !self.reach_set(disk, start).contains(x) {
                assert(self.same_link(disk, d1, x));
            }
        }
        self.lemma_room_keep(disk, d1, k);
    }

    /// After the old file's chain is freed, its directory is the same chain
    /// and still holds a record that deleting the name stops at.
    pub proof fn lemma_owed_delete(&self, disk: Seq<u8>, d1: Seq<u8>, pc: int, pl: Seq<int>, n: Seq<char>, rs: Set<int>)
        requires
            self.wf(),
            self.dir_chain(disk, pc, pl),
            self.frame(disk, d1, Set::empty(), rs),
            forall|i: int| 0 <= i < pl.len() ==> !rs.contains(#[trigger] pl[i]),
            find_named(parse_dir(self.concat(disk, pl)), n) is Some,
        ensures
            self.dir_chain(d1, pc, pl),
            exists|o: int|
                0 <= o && 32 * o + 32 <= self.concat(d1, pl).len() && #[trigger] delete_target(record(self.concat(d1, pl), o), n),
    {
        self.lemma_dir_chain_keep(disk, d1, pc, pl, Set::empty(), rs);
        self.lemma_distinct_short(pl);
        assert forall|i: int| 0 <= i < pl.len() implies self.same_data(disk, d1, #[trigger] pl[i]) && self.cluster_on_disk(
            pl[i],
            disk.len(),
        ) by {
            assert(2 <= pl[i] < self.alloc_limit());
            assert(self.alloc_limit() <= self.fat_entries());
        }
        self.lemma_concat_frame(disk, d1, pl);
        self.lemma_concat_len(disk, pl);
        let b = self.concat(d1, pl);
        let q: int = pl.len() * self.sectors_per_cluster * 16;
        assert(b.len() == q * 32) by (nonlinear_arith)
            requires
                b.len() == pl.len() * (self.sectors_per_cluster * 512),
                q == pl.len() * self.sectors_per_cluster * 16,
        ;
        vstd::arithmetic::div_mod::lemma_mod_multiples_basic(q, 32);
        lemma_found_has_target(b, n);
    }
}

/// A directory that lists an entry named `n` holds a record that a
/// deletion of `n` stops at.
pub proof fn lemma_found_has_target(b: Seq<u8>, n: Seq<char>)
    requires
        b.len() % 32 == 0,
        find_named(parse_dir(b), n) is Some,
    ensures
        exists|o: int| 0 <= o && 32 * o + 32 <= b.len() && #[trigger] delete_target(record(b, o), n),
{
    let m: int = b.len() as int / 32;
    if !(exists|o: int| 0 <= o && 32 * o + 32 <= b.len() && #[trigger] delete_target(record(b, o), n)) {
        assert forall|k: int| 0 <= k < m implies !delete_target(#[trigger] record(b, k), n) by {
            if delete_target(record(b, k), n) {
                assert(0 <= k && 32 * k + 32 <= b.len());
            }
        }
        lemma_find_none(b, m, n);
        assert(b.take(32 * m) =~= b);
    }
}

/// A name alike up to case to `n` is not alike to a name `m` unlike `n`.
pub proof fn lemma_case_apart(a: Seq<char>, n: Seq<char>, m: Seq<char>)
    requires
        eq_ignore_case(a, n),
        !eq_ignore_case(m, n),
    ensures
        !eq_ignore_case(a, m),
{
    if eq_ignore_case(a, m) {
        assert forall|i: int| 0 <= i < m.len() implies ascii_lower(m[i]) == ascii_lower(n[i]) by {
            assert(ascii_lower(a[i]) == ascii_lower(m[i]));
            assert(ascii_lower(a[i]) == ascii_lower(n[i]));
        }
    }
}

impl FatFs {
    /// After the old file (if any) is freed and its entry deleted, the
    /// parent directory is still the same chain, its links in use, and its
    /// bytes those before with the old entry's record marked deleted.
    #[verifier::spinoff_prover]
    pub proof fn lemma_write_removed(
        &self,
        disk: Seq<u8>,
        d1: Seq<u8>,
        db: Seq<u8>,
        abs: Seq<char>,
        p: Seq<char>,
        n: Seq<char>,
        pc: int,
        rs: Set<int>,
        had_old: bool,
        od: int,
    )
        requires
            self.wf(),
            self.write_ready(disk, abs),
            spec_split_parent(abs) == Some((p, n)),
            pc == self.dir_cluster(disk, p),
            !had_old ==> find_named(parse_dir(self.concat(disk, self.parent_chain(disk, pc))), n) is None && db == disk && rs
                == Set::<int>::empty(),
            had_old ==> (find_named(parse_dir(self.concat(disk, self.parent_chain(disk, pc))), n) matches Some(eo) && !eo.is_dir
                && rs == (if eo.cluster >= 2 {
                self.reach_set(disk, eo.cluster as int)
            } else {
                Set::<int>::empty()
            })) && self.frame(disk, d1, Set::empty(), rs) && self.deleted_at(d1, db, self.parent_chain(disk, pc), n, od),
        ensures
            ({
                let pl = self.parent_chain(disk, pc);
                let b = self.concat(disk, pl);
                let wp = self.walk_set(disk, segments(p));
                &&& self.dir_chain(db, pc, pl)
                &&& forall|i: int| 0 <= i < pl.len() ==> self.fat_entry(db, #[trigger] pl[i]) != 0
                &&& self.frame(disk, db, pl.to_set(), rs)
                &&& forall|x: int| #[trigger] rs.contains(x) ==> !wp.contains(x) && !pl.contains(x)
                &&& !had_old ==> self.concat(db, pl) == b && find_named(parse_dir(b), n) is None
                &&& had_old ==> 0 <= od && 32 * od + 32 <= b.len() && (forall|k: int|
                    0 <= k < od ==> !delete_target(#[trigger] record(b, k), n)) && record(b, od)[0] != 0 && self.concat(db, pl)
                    == put_bytes(b, 32 * od, seq![0xE5u8]) && delete_target(record(b, od), n)
            }),
    {
        reveal(FatFs::write_ready);
        let pl = self.parent_chain(disk, pc);
        let b = self.concat(disk, pl);
        let wp = self.walk_set(disk, segments(p));
        self.lemma_distinct_short(pl);
        assert forall|x: int| #[trigger] rs.contains(x) implies !wp.contains(x) && !pl.contains(x) by {
            if had_old {
                let eo = find_named(parse_dir(b), n)->Some_0;
                if eo.cluster >= 2 {
                    assert(self.reach_set(disk, eo.cluster as int).contains(x));
                }
            }
        }
        if !had_old {
            lemma_frame_refl_widen(*self, disk, pl.to_set());
        } else {
            assert forall|i: int| 0 <= i < pl.len() implies !rs.contains(#[trigger] pl[i]) by {
                if rs.contains(pl[i]) {
                    assert(pl.contains(pl[i]));
                }
            }
            self.lemma_dir_chain_keep(disk, d1, pc, pl, Set::empty(), rs);
            assert forall|i: int| 0 <= i < pl.len() implies self.same_data(disk, d1, #[trigger] pl[i]) by {
                assert(2 <= pl[i] < self.alloc_limit());
            }
            assert forall|i: int| 0 <= i < pl.len() implies self.cluster_on_disk(#[trigger] pl[i], disk.len()) by {
            }
            self.lemma_concat_frame(disk, d1, pl);
            assert(self.concat(d1, pl) == b);
            // the deleted record is the entry found, not the end of the directory
            assert forall|k: int| 0 <= k < od implies (#[trigger] record(b, k))[0] != 0 by {
                assert(!delete_target(record(b, k), n));
            }
            if record(b, od)[0] == 0 {
                lemma_parse_split(b, od);
                lemma_find_none(b, od, n);
                let tail = b.skip(32 * od);
                assert(record(tail, 0) =~= record(b, od));
                lemma_parse_end(tail);
                lemma_find_concat(parse_dir(b.take(32 * od)), parse_dir(tail), n);
                assert(false);
            }
            lemma_frame_trans(*self, disk, d1, db, Set::empty(), rs, pl.to_set(), Set::empty());
            assert(Set::<int>::empty().union(pl.to_set()) =~= pl.to_set());
            assert(rs.union(Set::<int>::empty()) =~= rs);
            self.lemma_dir_chain_keep(d1, db, pc, pl, pl.to_set(), Set::empty());
        }
        assert forall|i: int| 0 <= i < pl.len() implies self.fat_entry(db, #[trigger] pl[i]) != 0 by {
            assert(2 <= pl[i] < self.alloc_limit());
            assert(!rs.contains(pl[i])) by {
                if rs.contains(pl[i]) {
                    assert(pl.contains(pl[i]));
                }
            }
            assert(self.same_link(disk, db, pl[i]));
            assert(self.fat_entry(disk, pl[i]) != 0);
        }
    }
}

impl FatFs {
    /// The entry record written for the file or directory `n` with the
    /// attributes `attrs`, first cluster `fc` and `len` bytes.
    pub open spec fn file_record(n: Seq<char>, attrs: u8, fc: u32, len: nat) -> Seq<u8> {
        encode_entry(vstd::utf8::encode_utf8(n), attrs, fc, len as u32)
    }

    /// The clusters of the new file's chain.
    pub open spec fn new_chain_set(len: nat, lf: Seq<int>) -> Set<int> {
        if len > 0 {
            lf.to_set()
        } else {
            Set::empty()
        }
    }

    /// Allocating and writing the new chain leaves the parent directory and
    /// the way to it alone: the new clusters were free.
    #[verifier::spinoff_prover]
    pub proof fn lemma_write_chain_apart(
        &self,
        disk: Seq<u8>,
        db: Seq<u8>,
        d3: Seq<u8>,
        d4: Seq<u8>,
        p: Seq<char>,
        pc: int,
        pl: Seq<int>,
        rs: Set<int>,
        len: nat,
        lf: Seq<int>,
    )
        requires
            self.wf(),
            self.dir_chain(db, pc, pl),
            forall|i: int| 0 <= i < pl.len() ==> self.fat_entry(db, #[trigger] pl[i]) != 0,
            self.frame(disk, db, pl.to_set(), rs),
            forall|x: int| #[trigger] rs.contains(x) ==> !self.walk_set(disk, segments(p)).contains(x) && !pl.contains(x),
            forall|i: int| 0 <= i < pl.len() ==> !self.walk_set(disk, segments(p)).contains(#[trigger] pl[i]),
            forall|x: int|
                #[trigger] self.walk_set(disk, segments(p)).contains(x) ==> 2 <= x < self.alloc_limit() && self.fat_entry(disk, x)
                    != 0 && self.fat_entry_on_disk(x, disk.len()),
            len == 0 ==> d4 == db,
            len > 0 ==> self.fresh_chain(db, d3, lf) && self.frame(d3, d4, lf.to_set(), Set::empty()),
        ensures
            self.dir_chain(d4, pc, pl),
            forall|i: int| 0 <= i < pl.len() ==> self.fat_entry(d4, #[trigger] pl[i]) != 0,
            self.concat(d4, pl) == self.concat(db, pl),
            self.frame(disk, d4, pl.to_set().union(Self::new_chain_set(len, lf)), rs.union(Self::new_chain_set(len, lf))),
            forall|y: int|
                #[trigger] Self::new_chain_set(len, lf).contains(y) ==> !self.walk_set(disk, segments(p)).contains(y) && !pl.contains(
                    y,
                ) && self.fat_entry(db, y) == 0,
            forall|x: int| #[trigger] self.walk_set(disk, segments(p)).contains(x) ==> self.fat_entry(d4, x) != 0,
    {
        let wp = self.walk_set(disk, segments(p));
        let mf = Self::new_chain_set(len, lf);
        self.lemma_distinct_short(pl);
        if len > 0 {
            self.lemma_fresh_facts(db, d3, lf);
            lemma_frame_trans(*self, db, d3, d4, lf.to_set(), lf.to_set(), lf.to_set(), Set::empty());
            assert(lf.to_set().union(lf.to_set()) =~= lf.to_set());
            assert(lf.to_set().union(Set::<int>::empty()) =~= lf.to_set());
        } else {
            crate::clusters::lemma_frame_refl(*self, db);
        }
        assert(self.frame(db, d4, mf, mf));
        assert forall|x: int| #[trigger] wp.contains(x) implies self.fat_entry(db, x) != 0 by {
            assert(!rs.contains(x));
            assert(!pl.to_set().contains(x)) by {
                if pl.contains(x) {
                    let j = choose|j: int| 0 <= j < pl.len() && pl[j] == x;
                    assert(!wp.contains(pl[j]));
                }
            }
            assert(self.same_link(disk, db, x));
        }
        assert forall|y: int| #[trigger] mf.contains(y) implies !wp.contains(y) && !pl.contains(y) && self.fat_entry(db, y) == 0 by {
            let i = choose|i: int| 0 <= i < lf.len() && lf[i] == y;
            assert(self.fat_entry(db, lf[i]) == 0);
            if pl.contains(y) {
                let j = choose|j: int| 0 <= j < pl.len() && pl[j] == y;
                assert(self.fat_entry(db, pl[j]) != 0);
            }
        }
        assert forall|i: int| 0 <= i < pl.len() implies !mf.contains(#[trigger] pl[i]) by {
            assert(pl.contains(pl[i]));
        }
        self.lemma_dir_chain_keep(db, d4, pc, pl, mf, mf);
        assert forall|i: int| 0 <= i < pl.len() implies self.same_data(db, d4, #[trigger] pl[i]) && self.cluster_on_disk(pl[i], db.len())
            && self.fat_entry(d4, pl[i]) != 0 by {
            assert(2 <= pl[i] < self.alloc_limit());
            assert(self.same_link(db, d4, pl[i]));
        }
        self.lemma_concat_frame(db, d4, pl);
        assert forall|x: int| #[trigger] wp.contains(x) implies self.fat_entry(d4, x) != 0 by {
            assert(!mf.contains(x));
            assert(self.same_link(db, d4, x));
        }
        lemma_frame_trans(*self, disk, db, d4, pl.to_set(), rs, mf, mf);
    }

    /// After the entry went in, the parent directory lists the new entry
    /// first under the file's name.
    #[verifier::spinoff_prover]
    pub proof fn lemma_entry_listed(
        &self,
        disk: Seq<u8>,
        d4: Seq<u8>,
        d5: Seq<u8>,
        n: Seq<char>,
        pc: int,
        pl: Seq<int>,
        e: Seq<u8>,
        had_old: bool,
        od: int,
        grew: bool,
        o: int,
        x: int,
    )
        requires
            self.wf(),
            self.dir_chain(disk, pc, pl),
            self.dir_chain(d4, pc, pl),
            e.len() == 32,
            e[0] != 0,
            listed(e),
            eq_ignore_case(parse_entry(e).name, n),
            !had_old ==> find_named(parse_dir(self.concat(disk, pl)), n) is None && self.concat(d4, pl) == self.concat(disk, pl),
            had_old ==> 0 <= od && 32 * od + 32 <= self.concat(disk, pl).len() && (forall|k: int|
                0 <= k < od ==> !delete_target(#[trigger] record(self.concat(disk, pl), k), n)) && record(self.concat(disk, pl), od)[0]
                != 0 && self.concat(d4, pl) == put_bytes(self.concat(disk, pl), 32 * od, seq![0xE5u8]),
            !grew ==> self.added_at(d4, d5, pl, e, o),
            grew ==> self.grown(d4, d5, pl, e, x),
        ensures
            self.dir_entries(d5, pc) matches Some(es) && find_named(es, n) == Some(parse_entry(e)),
            grew ==> !had_old && self.frame(d4, d5, pl.to_set().insert(x), pl.to_set().insert(x)) && self.fat_entry(d4, x) == 0
                && 2 <= x < self.alloc_limit(),
            !grew ==> self.frame(d4, d5, pl.to_set(), Set::empty()),
            self.dir_entries(d5, pc) == Some(
                parse_dir(
                    if grew {
                        self.concat(d4, pl) + put_bytes(zeros(self.cluster_bytes()), 0, e)
                    } else {
                        self.concat(d5, pl)
                    },
                ),
            ),
    {
        let b = self.concat(disk, pl);
        let b4 = self.concat(d4, pl);
        let cb = self.cluster_bytes();
        self.lemma_distinct_short(pl);
        if !grew {
            self.lemma_listing_after_add(b, b4, self.concat(d5, pl), n, e, had_old, od, o);
            self.lemma_dir_chain_keep(d4, d5, pc, pl, pl.to_set(), Set::empty());
            self.lemma_dir_chain_list(d5, pc, pl);
        } else {
            assert(!had_old) by {
                if had_old {
                    assert(record(b4, od) =~= put_bytes(record(b, od), 0, seq![0xE5u8]));
                    assert(free_record(record(b4, od)));
                }
            }
            self.lemma_concat_len(disk, pl);
            let q: int = pl.len() * self.sectors_per_cluster * 16;
            assert(b.len() == q * 32) by (nonlinear_arith)
                requires
                    b.len() == pl.len() * (self.sectors_per_cluster * 512),
                    q == pl.len() * self.sectors_per_cluster * 16,
            ;
            vstd::arithmetic::div_mod::lemma_mod_multiples_basic(q, 32);
            self.lemma_listing_after_grow(b, n, e);
            let pl2 = pl.push(x);
            assert(pl2.no_duplicates()) by {
                assert forall|a: int, c: int| 0 <= a < pl2.len() && 0 <= c < pl2.len() && a != c implies pl2[a] != pl2[c] by {
                    if a < pl.len() && c < pl.len() {
                    } else if a < pl.len() {
                        assert(pl.contains(pl2[a]));
                    } else if c < pl.len() {
                        assert(pl.contains(pl2[c]));
                    }
                }
            }
            assert forall|i: int| 0 <= i < pl2.len() implies 2 <= #[trigger] pl2[i] < self.alloc_limit() by {
                if i < pl.len() {
                    assert(pl2[i] == pl[i]);
                }
            }
            self.lemma_distinct_short(pl2);
            assert(0 * cb == 0);
            assert(pl.len() * cb <= (pl.len() + 1) * cb) by (nonlinear_arith)
                requires
                    cb >= 0,
            ;
            assert((pl2.len() - 1 - 0) * cb == pl.len() * cb);
            self.lemma_chain_list_of(d5, pl2, 0, usize::MAX as int, self.fat_entries());
            assert(pl2.skip(0) =~= pl2);
            assert(pl2[0] == pc);
            self.lemma_chain_concat(d5, pc, usize::MAX as int, self.fat_entries());
        }
    }

    /// Adding the entry for `n` to its directory (after deleting the old
    /// one, if any) keeps every other name the directory lists.
    #[verifier::spinoff_prover]
    pub proof fn lemma_names_kept(
        &self,
        disk: Seq<u8>,
        d4: Seq<u8>,
        d5: Seq<u8>,
        n: Seq<char>,
        pc: int,
        pl: Seq<int>,
        e: Seq<u8>,
        had_old: bool,
        od: int,
        grew: bool,
        o: int,
        x: int,
    )
        requires
            self.wf(),
            self.dir_chain(disk, pc, pl),
            self.dir_chain(d4, pc, pl),
            e.len() == 32,
            e[0] != 0,
            listed(e),
            eq_ignore_case(parse_entry(e).name, n),
            !had_old ==> find_named(parse_dir(self.concat(disk, pl)), n) is None && self.concat(d4, pl) == self.concat(disk, pl),
            had_old ==> 0 <= od && 32 * od + 32 <= self.concat(disk, pl).len() && (forall|k: int|
                0 <= k < od ==> !delete_target(#[trigger] record(self.concat(disk, pl), k), n)) && record(self.concat(disk, pl), od)[0]
                != 0 && self.concat(d4, pl) == put_bytes(self.concat(disk, pl), 32 * od, seq![0xE5u8]) && delete_target(
                record(self.concat(disk, pl), od),
                n,
            ),
            !grew ==> self.added_at(d4, d5, pl, e, o),
            grew ==> self.grown(d4, d5, pl, e, x),
        ensures
            self.keeps_names(disk, d5, pc, n),
    {
        let b = self.concat(disk, pl);
        let b4 = self.concat(d4, pl);
        self.lemma_entry_listed(disk, d4, d5, n, pc, pl, e, had_old, od, grew, o, x);
        self.lemma_dir_chain_list(disk, pc, pl);
        assert forall|m: Seq<char>| !eq_ignore_case(m, n) && self.found(disk, pc, m) is Some implies #[trigger] self.found(d5, pc, m)
            == self.found(disk, pc, m) by {
            assert(self.found(disk, pc, m) == find_named(parse_dir(b), m));
            if had_old {
                assert forall|k: int| 0 <= k < od implies (#[trigger] record(b, k))[0] != 0 by {
                    assert(!delete_target(record(b, k), n));
                }
                self.lemma_others_after_delete(b, b4, n, m, od);
            }
            assert(find_named(parse_dir(b4), m) == find_named(parse_dir(b), m));
            if grew {
                self.lemma_concat_len(d4, pl);
                let cb = self.cluster_bytes();
                let q: int = pl.len() * self.sectors_per_cluster * 16;
                assert(b4.len() == q * 32) by (nonlinear_arith)
                    requires
                        b4.len() == pl.len() * (self.sectors_per_cluster * 512),
                        q == pl.len() * self.sectors_per_cluster * 16,
                ;
                vstd::arithmetic::div_mod::lemma_mod_multiples_basic(q, 32);
                self.lemma_others_after_grow(b4, m, e);
            } else {
                self.lemma_others_after_add(b4, self.concat(d5, pl), n, m, e, o);
            }
        }
    }

    /// What `write_file` leaves of the chain it replaces: each of its
    /// clusters that the new chain does not take is free.
    pub proof fn lemma_write_frees(
        &self,
        disk: Seq<u8>,
        d1: Seq<u8>,
        db: Seq<u8>,
        d3: Seq<u8>,
        d4: Seq<u8>,
        d5: Seq<u8>,
        pl: Seq<int>,
        n: Seq<char>,
        rs: Set<int>,
        had_old: bool,
        od: int,
        len: nat,
        lf: Seq<int>,
        fc: u32,
        e: Seq<u8>,
        grew: bool,
        o: int,
        x: int,
    )
        requires
            self.wf(),
            forall|y: int| #[trigger] rs.contains(y) ==> 2 <= y < self.fat_entries(),
            forall|y: int| #[trigger] rs.contains(y) && self.fat_entry_on_disk(y, disk.len()) ==> self.fat_entry(d1, y) == 0,
            !had_old ==> rs == Set::<int>::empty(),
            had_old ==> d1.len() == disk.len() && self.deleted_at(d1, db, pl, n, od),
            self.concat(d4, pl) == self.concat(db, pl),
            len == 0 ==> d4 == db,
            len > 0 ==> self.fresh_chain(db, d3, lf) && self.frame(d3, d4, lf.to_set(), Set::empty()) && lf.len() > 0 && lf[0] == fc,
            !grew ==> self.added_at(d4, d5, pl, e, o),
            grew ==> self.grown(d4, d5, pl, e, x),
        ensures
            forall|y: int|
                #[trigger] rs.contains(y) && self.fat_entry_on_disk(y, disk.len()) && !self.reach_set(d5, fc as int).contains(y)
                    ==> self.fat_entry(d5, y) == 0,
    {
        if had_old {
            let b1 = self.concat(d1, pl);
            if record(b1, od)[0] == 0 {
                crate::clusters::lemma_frame_refl(*self, d1);
                lemma_frame_widen(*self, d1, d1, Set::empty(), Set::empty(), pl.to_set(), Set::empty());
            } else {
                let bb = self.concat(db, pl);
                assert(bb[32 * od] == 0xE5u8);
            }
        }
        if len > 0 {
            self.lemma_fresh_facts(db, d3, lf);
            self.lemma_linked_apart(d3, d4, lf, lf.to_set(), Set::empty());
        }
        self.lemma_old_chain_freed(disk, d1, db, d3, d4, d5, pl, rs, had_old, od, len, lf, e, grew, o, x);
        if had_old {
            assert(!grew) by {
                if grew {
                    assert(!free_record(record(self.concat(d4, pl), od)));
                }
            }
            if len > 0 {
                self.lemma_linked_apart(d4, d5, lf, pl.to_set(), Set::empty());
            }
            self.lemma_freed_off_chain(d5, rs, disk.len(), len, lf, fc as int);
        }
    }

    /// Clusters freed but for those of a new chain are free but for those
    /// on the chain from its first cluster.
    pub proof fn lemma_freed_off_chain(&self, d5: Seq<u8>, rs: Set<int>, dlen: nat, len: nat, lf: Seq<int>, fc: int)
        requires
            self.wf(),
            forall|y: int|
                #[trigger] rs.contains(y) && self.fat_entry_on_disk(y, dlen) && !Self::new_chain_set(len, lf).contains(y)
                    ==> self.fat_entry(d5, y) == 0,
            len > 0 ==> self.linked(d5, lf) && lf.len() > 0 && lf[0] == fc,
        ensures
            forall|y: int|
                #[trigger] rs.contains(y) && self.fat_entry_on_disk(y, dlen) && !self.reach_set(d5, fc).contains(y)
                    ==> self.fat_entry(d5, y) == 0,
    {
        if len > 0 {
            self.lemma_linked_reach(d5, lf);
        }
        assert forall|y: int|
            #[trigger] rs.contains(y) && self.fat_entry_on_disk(y, dlen) && !self.reach_set(d5, fc).contains(y)
                implies self.fat_entry(d5, y) == 0 by {
            if len > 0 && lf.to_set().contains(y) {
                let i = choose|i: int| 0 <= i < lf.len() && lf[i] == y;
                assert(self.reach_set(d5, lf[0]).contains(lf[i]));
            }
        }
    }

    /// What `write_file` leaves, read back: the file holds the data written.
    #[verifier::spinoff_prover]
    #[verifier::rlimit(100)]
    pub proof fn lemma_write_read_back(
        &self,
        disk: Seq<u8>,
        d1: Seq<u8>,
        db: Seq<u8>,
        d3: Seq<u8>,
        d4: Seq<u8>,
        d5: Seq<u8>,
        abs: Seq<char>,
        p: Seq<char>,
        n: Seq<char>,
        data: Seq<u8>,
        pc: int,
        rs: Set<int>,
        had_old: bool,
        od: int,
        lf: Seq<int>,
        fc: u32,
        grew: bool,
        o: int,
        x: int,
        attrs: u8,
    )
        requires
            self.wf(),
            self.write_ready(disk, abs),
            attrs == 0 || attrs == 0x20,
            data.len() <= u32::MAX,
            spec_split_parent(abs) == Some((p, n)),
            self.spec_is_dir(disk, p),
            pc == self.dir_cluster(disk, p),
            !had_old ==> find_named(parse_dir(self.concat(disk, self.parent_chain(disk, pc))), n) is None && db == disk && rs
                == Set::<int>::empty(),
            had_old ==> (find_named(parse_dir(self.concat(disk, self.parent_chain(disk, pc))), n) matches Some(eo) && !eo.is_dir
                && rs == (if eo.cluster >= 2 {
                self.reach_set(disk, eo.cluster as int)
            } else {
                Set::<int>::empty()
            })) && self.frame(disk, d1, Set::empty(), rs) && self.deleted_at(d1, db, self.parent_chain(disk, pc), n, od),
            data.len() == 0 ==> fc == 0 && d4 == db,
            data.len() > 0 ==> self.fresh_chain(db, d3, lf) && lf.len() > 0 && lf[0] == fc && (lf.len() - 1) * self.cluster_bytes()
                < data.len() <= lf.len() * self.cluster_bytes() && self.linked(d4, lf) && self.frame(d3, d4, lf.to_set(), Set::empty())
                && (forall|i: int| 0 <= i < lf.len() ==> self.cluster_data(d4, #[trigger] lf[i]) == chunk(data, self.cluster_bytes(), i)),
            !grew ==> self.added_at(d4, d5, self.parent_chain(disk, pc), Self::file_record(n, attrs, fc, data.len()), o),
            grew ==> self.grown(d4, d5, self.parent_chain(disk, pc), Self::file_record(n, attrs, fc, data.len()), x),
        ensures
            self.spec_read_file(d5, abs) == Ok::<Seq<u8>, FsError>(data),
            self.frame(disk, d5, self.write_touch(disk, abs), self.write_touch(disk, abs)),
            self.keeps_siblings(disk, d5, abs),
            self.spec_lookup(d5, abs) is Ok && self.spec_lookup(d5, abs)->Ok_0.cluster == fc,
    {
        let pl = self.parent_chain(disk, pc);
        let wp = self.walk_set(disk, segments(p));
        let cb = self.cluster_bytes();
        let e = Self::file_record(n, attrs, fc, data.len());
        let nb = vstd::utf8::encode_utf8(n);
        let mf = Self::new_chain_set(data.len(), lf);
        self.lemma_ready_facts(disk, abs, p, n, pc);
        self.lemma_write_removed(disk, d1, db, abs, p, n, pc, rs, had_old, od);
        self.lemma_write_chain_apart(disk, db, d3, d4, p, pc, pl, rs, data.len(), lf);
        // the new entry
        lemma_short_entry(nb, attrs, fc, data.len() as u32);
        lemma_name_reads_back(n);
        let pe = parse_entry(e);
        assert(e == encode_entry(nb, attrs, fc, data.len() as u32));
        assert(listed(e));
        assert(eq_ignore_case(parse_entry(e).name, n));
        assert(self.dir_chain(d4, pc, pl));
        self.lemma_entry_listed(disk, d4, d5, n, pc, pl, e, had_old, od, grew, o, x);
        assert(self.keeps_names(disk, d5, pc, n)) by {
            self.lemma_names_kept(disk, d4, d5, n, pc, pl, e, had_old, od, grew, o, x);
        }
        // the way to the parent is as it was
        let md5: Set<int> = if grew {
            pl.to_set().insert(x)
        } else {
            pl.to_set()
        };
        let ml5: Set<int> = if grew {
            pl.to_set().insert(x)
        } else {
            Set::empty()
        };
        lemma_frame_trans(*self, disk, d4, d5, pl.to_set().union(mf), rs.union(mf), md5, ml5);
        let md = pl.to_set().union(mf).union(md5);
        let ml = rs.union(mf).union(ml5);
        assert forall|y: int| #[trigger] wp.contains(y) implies !md.contains(y) && !ml.contains(y) && 2 <= y < self.fat_entries() by {
            assert(!pl.to_set().contains(y)) by {
                if pl.contains(y) {
                    let j = choose|j: int| 0 <= j < pl.len() && pl[j] == y;
                    assert(!wp.contains(pl[j]));
                }
            }
            assert(!rs.contains(y));
            assert(!mf.contains(y));
            if grew {
                assert(y != x) by {
                    if y == x {
                        assert(self.fat_entry(d4, x) != 0);
                    }
                }
            }
            assert(self.alloc_limit() <= self.fat_entries());
        }
        self.lemma_lookup_after(disk, d5, abs, p, n, pc, md, ml, pe);
        self.lemma_write_touch(disk, db, d4, d5, abs, p, n, pc, rs, had_old, mf, md, ml, grew, x);
        if data.len() > 0 {
            assert forall|i: int| 0 <= i < lf.len() implies !ml5.contains(#[trigger] lf[i]) && !md5.contains(lf[i]) by {
                assert(mf.contains(lf[i]));
                if grew && lf[i] == x {
                    assert(self.fat_entry(d4, lf[i]) == self.chain_next(lf, i));
                }
            }
            self.lemma_data_after(db, d3, d4, d5, lf, data, md5, ml5);
            assert(pe.cluster == fc && pe.size == data.len() && !pe.is_dir);
            let b = self.chain_bytes(d5, fc as int, data.len() as int, self.fat_entries())->Some_0;
            assert(pe.size as int == data.len());
            if b.len() == data.len() {
                assert(b =~= b.take(data.len() as int));
            }
            assert((if b.len() > pe.size { b.take(pe.size as int) } else { b }) == data);
        } else {
            assert(data =~= Seq::<u8>::empty());
        }
        assert(pe.cluster == fc);
    }

    /// A write's changes stay within the clusters it may touch.
    #[verifier::spinoff_prover]
    pub proof fn lemma_write_touch(
        &self,
        disk: Seq<u8>,
        db: Seq<u8>,
        d4: Seq<u8>,
        d5: Seq<u8>,
        abs: Seq<char>,
        p: Seq<char>,
        n: Seq<char>,
        pc: int,
        rs: Set<int>,
        had_old: bool,
        mf: Set<int>,
        md: Set<int>,
        ml: Set<int>,
        grew: bool,
        x: int,
    )
        requires
            self.wf(),
            spec_split_parent(abs) == Some((p, n)),
            pc == self.dir_cluster(disk, p),
            self.dir_chain(disk, pc, self.parent_chain(disk, pc)),
            rs == self.old_chain(disk, self.parent_chain(disk, pc), n),
            self.frame(disk, db, self.parent_chain(disk, pc).to_set(), rs),
            self.frame(disk, d4, self.parent_chain(disk, pc).to_set().union(mf), rs.union(mf)),
            forall|y: int| #[trigger] mf.contains(y) ==> !self.parent_chain(disk, pc).contains(y) && self.fat_entry(db, y) == 0
                && self.fat_entry_on_disk(y, db.len()) && 2 <= y < self.fat_entries(),
            grew ==> self.fat_entry(d4, x) == 0 && self.fat_entry_on_disk(x, d4.len()) && !mf.contains(x) && 2 <= x
                < self.fat_entries(),
            md == self.parent_chain(disk, pc).to_set().union(mf).union(
                if grew {
                    self.parent_chain(disk, pc).to_set().insert(x)
                } else {
                    self.parent_chain(disk, pc).to_set()
                },
            ),
            ml == rs.union(mf).union(
                if grew {
                    self.parent_chain(disk, pc).to_set().insert(x)
                } else {
                    Set::<int>::empty()
                },
            ),
            self.frame(disk, d5, md, ml),
        ensures
            self.frame(disk, d5, self.write_touch(disk, abs), self.write_touch(disk, abs)),
    {
        let pl = self.parent_chain(disk, pc);
        let t = self.write_touch(disk, abs);
        assert forall|y: int| pl.contains(y) || rs.contains(y) || self.fat_entry(disk, y) == 0 implies #[trigger] t.contains(y) by {
        }
        assert forall|y: int| #[trigger] mf.contains(y) implies t.contains(y) by {
            if !rs.contains(y) {
                assert(!pl.to_set().contains(y));
                assert(self.same_link(disk, db, y));
            }
        }
        if grew {
            assert(t.contains(x)) by {
                if !rs.contains(x) && !pl.contains(x) {
                    assert(!pl.to_set().contains(x));
                    assert(self.same_link(disk, d4, x));
                }
            }
        }
        assert forall|y: int| #[trigger] md.contains(y) implies t.contains(y) by {
            if pl.to_set().contains(y) {
                assert(pl.contains(y));
            }
        }
        assert forall|y: int| #[trigger] ml.contains(y) implies t.contains(y) by {
            if pl.to_set().contains(y) {
                assert(pl.contains(y));
            }
        }
        assert(md.subset_of(t));
        assert(ml.subset_of(t));
        lemma_frame_widen(*self, disk, d5, md, ml, t, t);
    }

    /// The lookup of the written path after the write: the way to the
    /// parent is as it was, and the parent lists the new entry.
    #[verifier::spinoff_prover]
    pub proof fn lemma_lookup_after(
        &self,
        disk: Seq<u8>,
        d5: Seq<u8>,
        abs: Seq<char>,
        p: Seq<char>,
        n: Seq<char>,
        pc: int,
        md: Set<int>,
        ml: Set<int>,
        pe: DirEntryView,
    )
        requires
            self.wf(),
            spec_split_parent(abs) == Some((p, n)),
            self.spec_is_dir(disk, p),
            pc == self.dir_cluster(disk, p),
            self.frame(disk, d5, md, ml),
            forall|y: int|
                #[trigger] self.walk_set(disk, segments(p)).contains(y) ==> !md.contains(y) && !ml.contains(y) && 2 <= y
                    < self.fat_entries(),
            self.dir_entries(d5, pc) matches Some(es) && find_named(es, n) == Some(pe),
        ensures
            self.spec_lookup(d5, abs) == Ok::<DirEntryView, FsError>(pe),
    {
        let wp = self.walk_set(disk, segments(p));
        assert forall|y: int| #[trigger] wp.contains(y) implies self.same_data(disk, d5, y) && self.same_link(disk, d5, y) by {
        }
        lemma_split_parent_segments(abs);
        let segs = segments(p);
        if p != seq!['/'] {
            assert(!is_root_path(p));
            assert(self.walk_segs(disk, segs) is Ok);
            self.lemma_walk_frame(disk, d5, segs);
        }
        assert(self.spec_is_dir(d5, p));
        assert(self.dir_cluster(d5, p) == pc);
        self.lemma_lookup_child(d5, abs);
    }

    /// The new file's chain, untouched by the entry's write, reads back
    /// as the data.
    #[verifier::spinoff_prover]
    pub proof fn lemma_data_after(
        &self,
        db: Seq<u8>,
        d3: Seq<u8>,
        d4: Seq<u8>,
        d5: Seq<u8>,
        lf: Seq<int>,
        data: Seq<u8>,
        md5: Set<int>,
        ml5: Set<int>,
    )
        requires
            self.wf(),
            self.fresh_chain(db, d3, lf),
            lf.len() > 0,
            (lf.len() - 1) * self.cluster_bytes() < data.len() <= lf.len() * self.cluster_bytes(),
            self.linked(d4, lf),
            forall|i: int| 0 <= i < lf.len() ==> self.cluster_data(d4, #[trigger] lf[i]) == chunk(data, self.cluster_bytes(), i),
            self.frame(d4, d5, md5, ml5),
            forall|i: int| 0 <= i < lf.len() ==> !ml5.contains(#[trigger] lf[i]) && !md5.contains(lf[i]),
        ensures
            self.chain_bytes(d5, lf[0], data.len() as int, self.fat_entries()) matches Some(b) && b.len() >= data.len() && b.take(
                data.len() as int,
            ) == data,
            lf[0] >= 2,
    {
        let cb = self.cluster_bytes();
        self.lemma_linked_apart(d4, d5, lf, md5, ml5);
        assert forall|i: int| 0 <= i < lf.len() implies self.cluster_data(d5, #[trigger] lf[i]) == chunk(data, cb, i) by {
            assert(2 <= lf[i] < self.alloc_limit());
            assert(self.alloc_limit() <= self.fat_entries());
            assert(self.same_data(d4, d5, lf[i]));
        }
        self.lemma_fresh_facts(db, d3, lf);
        assert(0 * cb == 0);
        self.lemma_read_written(d5, lf, data, 0, self.fat_entries());
        assert(data.skip(0) =~= data);
    }
}

/// A disk framed by itself with any change set.
pub proof fn lemma_frame_refl_widen(fs: FatFs, d: Seq<u8>, md: Set<int>)
    ensures
        fs.frame(d, d, md, Set::empty()),
{
    crate::clusters::lemma_frame_refl(fs, d);
    assert(Set::<int>::empty().subset_of(md));
    lemma_frame_widen(fs, d, d, Set::empty(), Set::empty(), md, Set::empty());
}

/// A file of `len` bytes takes `n` clusters of `cb` bytes: enough for
/// the bytes, and no more.
pub proof fn lemma_cluster_count(len: int, cb: int, n: int)
    requires
        len > 0,
        cb > 0,
        n == len / cb + if len % cb == 0 { 0int } else { 1int },
    ensures
        n > 0,
        (n - 1) * cb < len <= n * cb,
{
    let q = len / cb;
    let r = len % cb;
    vstd::arithmetic::div_mod::lemma_fundamental_div_mod(len, cb);
    assert(0 <= r < cb);
    if r == 0 {
        assert(q * cb == len);
        assert(q > 0) by (nonlinear_arith)
            requires
                q * cb == len,
                len > 0,
                cb > 0,
        ;
        assert((q - 1) * cb == q * cb - cb) by (nonlinear_arith);
    } else {
        assert(q >= 0) by (nonlinear_arith)
            requires
                len > 0,
                cb > 0,
                q == len / cb,
        ;
        assert((q + 1) * cb == q * cb + cb) by (nonlinear_arith);
    }
}

impl FatFs {
    /// The clusters a removal of `abs` from `d` may change: the parent
    /// directory's chain, and the clusters reached from the first cluster of
    /// the entry removed.
    pub open spec fn remove_touch(&self, d: Seq<u8>, abs: Seq<char>) -> Set<int> {
        let (p, n) = spec_split_parent(abs)->Some_0;
        let l = self.parent_chain(d, self.dir_cluster(d, p));
        l.to_set().union(self.removed_chain(d, abs))
    }

    /// The clusters of the chain of the entry that removing `abs` from `d`
    /// takes away.
    pub open spec fn removed_chain(&self, d: Seq<u8>, abs: Seq<char>) -> Set<int> {
        let (p, n) = spec_split_parent(abs)->Some_0;
        let l = self.parent_chain(d, self.dir_cluster(d, p));
        match find_named(parse_dir(self.concat(d, l)), n) {
            Some(e) => if e.cluster >= 2 {
                self.reach_set(d, e.cluster as int)
            } else {
                Set::empty()
            },
            None => Set::empty(),
        }
    }

    /// A removal of `abs` from `d` is bound to succeed on a reliable disk:
    /// the volume is sound where it goes (see [`FatFs::remove_ready`]), the
    /// disk holds the FATs whole, the parent is a directory that lists
    /// `abs`, and a directory there lists nothing.
    #[verifier::opaque]
    pub open spec fn remove_owed(&self, d: Seq<u8>, abs: Seq<char>) -> bool {
        &&& self.remove_ready(d, abs)
        &&& self.data_start_lba * 512 <= d.len()
        &&& spec_split_parent(abs) matches Some((p, n)) && self.spec_is_dir(d, p)
        &&& self.child_lookup(d, abs) matches Some(Ok(e)) && (e.is_dir ==> self.dir_entries(d, e.cluster as int) == Some(
            Seq::<DirEntryView>::empty(),
        ))
    }

    /// What a removal owed success provides.
    pub proof fn lemma_remove_owed_facts(&self, d: Seq<u8>, abs: Seq<char>)
        requires
            self.remove_owed(d, abs),
        ensures
            self.remove_ready(d, abs),
            self.data_start_lba * 512 <= d.len(),
            spec_split_parent(abs) matches Some((p, n)) && self.spec_is_dir(d, p),
            self.child_lookup(d, abs) matches Some(Ok(e)) && (e.is_dir ==> self.dir_entries(d, e.cluster as int) == Some(
                Seq::<DirEntryView>::empty(),
            )),
    {
        reveal(FatFs::remove_owed);
    }

    /// The volume `d` is sound where removing `abs` goes: FsInfo lies before
    /// the FATs; the name is not `.` or `..`; the parent directory's chain
    /// is a proper chain, apart from the directory chains read on the way to
    /// it; the parent lists at most one entry under the name; the chain of
    /// the entry removed lies apart from all those directories.
    #[verifier::opaque]
    pub open spec fn remove_ready(&self, d: Seq<u8>, abs: Seq<char>) -> bool {
        &&& self.reserved_sectors >= 2
        &&& spec_split_parent(abs) is Some
        &&& {
            let (p, n) = spec_split_parent(abs)->Some_0;
            let pc = self.dir_cluster(d, p);
            let l = self.parent_chain(d, pc);
            let wp = self.walk_set(d, segments(p));
            let es = parse_dir(self.concat(d, l));
            &&& n != seq!['.'] && n != seq!['.', '.']
            &&& self.dir_chain(d, pc, l)
            &&& forall|i: int| 0 <= i < l.len() ==> !wp.contains(#[trigger] l[i])
            &&& forall|x: int| #[trigger] wp.contains(x) ==> 2 <= x < self.alloc_limit() && self.fat_entry_on_disk(x, d.len())
            &&& forall|i: int, j: int|
                0 <= i < es.len() && 0 <= j < es.len() && eq_ignore_case(#[trigger] es[i].name, n) && eq_ignore_case(
                    #[trigger] es[j].name,
                    n,
                ) ==> i == j
            &&& match find_named(es, n) {
                Some(e) => e.cluster >= 2 ==> self.reach_in_fat(d, e.cluster as int) && forall|x: int|
                    #[trigger] self.reach_set(d, e.cluster as int).contains(x) ==> !wp.contains(x) && !l.contains(x),
                None => true,
            }
        }
    }

    /// The parent of a path sound for removal is a proper directory chain.
    pub proof fn lemma_remove_ready_chain(&self, d: Seq<u8>, abs: Seq<char>, p: Seq<char>, n: Seq<char>, pc: int)
        requires
            self.remove_ready(d, abs),
            spec_split_parent(abs) == Some((p, n)),
            pc == self.dir_cluster(d, p),
        ensures
            self.dir_chain(d, pc, self.parent_chain(d, pc)),
    {
        reveal(FatFs::remove_ready);
    }

    /// What a volume sound for a removal provides before the entry's chain
    /// is freed.
    pub proof fn lemma_remove_ready_old(&self, d: Seq<u8>, abs: Seq<char>, p: Seq<char>, n: Seq<char>, pc: int, eo: DirEntryView)
        requires
            self.wf(),
            self.remove_ready(d, abs),
            spec_split_parent(abs) == Some((p, n)),
            pc == self.dir_cluster(d, p),
            find_named(parse_dir(self.concat(d, self.parent_chain(d, pc))), n) == Some(eo),
        ensures
            self.reserved_sectors >= 2,
            self.dir_chain(d, pc, self.parent_chain(d, pc)),
            eo.cluster >= 2 ==> self.reach_in_fat(d, eo.cluster as int) && forall|x: int|
                #[trigger] self.reach_set(d, eo.cluster as int).contains(x) ==> !self.parent_chain(d, pc).contains(x),
    {
        reveal(FatFs::remove_ready);
    }

    /// After a removal, looking the path up finds nothing.
    #[verifier::spinoff_prover]
    #[verifier::rlimit(60)]
    pub proof fn lemma_remove_gone(
        &self,
        disk: Seq<u8>,
        d1: Seq<u8>,
        db: Seq<u8>,
        abs: Seq<char>,
        p: Seq<char>,
        n: Seq<char>,
        pc: int,
        rs: Set<int>,
        od: int,
    )
        requires
            self.wf(),
            self.remove_ready(disk, abs),
            spec_split_parent(abs) == Some((p, n)),
            self.spec_is_dir(disk, p),
            pc == self.dir_cluster(disk, p),
            find_named(parse_dir(self.concat(disk, self.parent_chain(disk, pc))), n) matches Some(eo) && rs == (if eo.cluster >= 2 {
                self.reach_set(disk, eo.cluster as int)
            } else {
                Set::<int>::empty()
            }),
            self.frame(disk, d1, Set::empty(), rs),
            self.deleted_at(d1, db, self.parent_chain(disk, pc), n, od),
        ensures
            self.spec_lookup(db, abs) == Err::<DirEntryView, FsError>(FsError::NotFound),
            self.keeps_siblings(disk, db, abs),
    {
        reveal(FatFs::remove_ready);
        let pl = self.parent_chain(disk, pc);
        let b = self.concat(disk, pl);
        let wp = self.walk_set(disk, segments(p));
        let es = parse_dir(b);
        let eo = find_named(es, n)->Some_0;
        self.lemma_distinct_short(pl);
        assert forall|x: int| #[trigger] rs.contains(x) implies !wp.contains(x) && !pl.contains(x) by {
            if eo.cluster >= 2 {
                assert(self.reach_set(disk, eo.cluster as int).contains(x));
            }
        }
        assert forall|i: int| 0 <= i < pl.len() implies !rs.contains(#[trigger] pl[i]) by {
            if rs.contains(pl[i]) {
                assert(pl.contains(pl[i]));
            }
        }
        self.lemma_dir_chain_keep(disk, d1, pc, pl, Set::empty(), rs);
        assert forall|i: int| 0 <= i < pl.len() implies self.same_data(disk, d1, #[trigger] pl[i]) && self.cluster_on_disk(pl[i], disk.len()) by {
            assert(2 <= pl[i] < self.alloc_limit());
        }
        self.lemma_concat_frame(disk, d1, pl);
        assert(self.concat(d1, pl) == b);
        assert forall|k: int| 0 <= k < od implies (#[trigger] record(b, k))[0] != 0 by {
            assert(!delete_target(record(b, k), n));
        }
        if record(b, od)[0] == 0 {
            lemma_parse_split(b, od);
            lemma_find_none(b, od, n);
            let tail = b.skip(32 * od);
            assert(record(tail, 0) =~= record(b, od));
            lemma_parse_end(tail);
            lemma_find_concat(parse_dir(b.take(32 * od)), parse_dir(tail), n);
            assert(false);
        }
        let rec = record(b, od);
        assert(listed(rec)) by {
            if decode_name(rec) == seq!['.'] {
                lemma_dots_name(seq!['.'], n);
            }
            if decode_name(rec) == seq!['.', '.'] {
                lemma_dots_name(seq!['.', '.'], n);
            }
        }
        lemma_parse_deleted(b, od);
        let x = parse_dir(b.take(32 * od));
        let y = parse_dir(b.skip(32 * od + 32));
        lemma_find_none(b, od, n);
        lemma_find_none_iff(x, n);
        assert(find_named(y, n) is None) by {
            lemma_find_none_iff(y, n);
            if !(forall|i: int| 0 <= i < y.len() ==> !eq_ignore_case(#[trigger] y[i].name, n)) {
                let k = choose|k: int| 0 <= k < y.len() && eq_ignore_case(#[trigger] y[k].name, n);
                assert(es[x.len() + 1 + k] == y[k]);
                assert(es[x.len() as int] == parse_entry(rec));
                assert(eq_ignore_case(es[x.len() as int].name, n));
                assert(eq_ignore_case(es[x.len() + 1 + k].name, n));
            }
        }
        let b2 = self.concat(db, pl);
        assert(b2 == put_bytes(b, 32 * od, seq![0xE5u8]));
        lemma_find_concat(x, y, n);
        lemma_frame_trans(*self, disk, d1, db, Set::empty(), rs, pl.to_set(), Set::empty());
        self.lemma_dir_chain_keep(d1, db, pc, pl, pl.to_set(), Set::empty());
        self.lemma_dir_chain_list(db, pc, pl);
        self.lemma_dir_chain_list(disk, pc, pl);
        assert forall|m: Seq<char>| !eq_ignore_case(m, n) && self.found(disk, pc, m) is Some implies #[trigger] self.found(db, pc, m)
            == self.found(disk, pc, m) by {
            self.lemma_others_after_delete(b, b2, n, m, od);
        }
        assert forall|z: int| #[trigger] wp.contains(z) implies self.same_data(disk, db, z) && self.same_link(disk, db, z) by {
            assert(!pl.to_set().contains(z)) by {
                if pl.contains(z) {
                    let j = choose|j: int| 0 <= j < pl.len() && pl[j] == z;
                    assert(!wp.contains(pl[j]));
                }
            }
            assert(!rs.contains(z));
            assert(self.alloc_limit() <= self.fat_entries());
        }
        lemma_split_parent_segments(abs);
        let segs = segments(p);
        if p != seq!['/'] {
            assert(!is_root_path(p));
            assert(self.walk_segs(disk, segs) is Ok);
            self.lemma_walk_frame(disk, db, segs);
        }
        assert(self.spec_is_dir(db, p));
        assert(self.dir_cluster(db, p) == pc);
        self.lemma_lookup_child(db, abs);
    }
}

/// A name equal up to ASCII case to `.` or `..` is that name.
pub proof fn lemma_dots_name(d: Seq<char>, n: Seq<char>)
    requires
        d == seq!['.'] || d == seq!['.', '.'],
        eq_ignore_case(d, n),
    ensures
        n == d,
{
    assert forall|i: int| 0 <= i < n.len() implies n[i] == '.' by {
        assert(crate::fat::ascii_lower(d[i]) == crate::fat::ascii_lower(n[i]));
        assert(d[i] == '.');
    }
    assert(n =~= d);
}

impl FatFs {
    /// A new directory's first cluster: `.` (the directory's own cluster
    /// `c`), `..` (the parent's, `pdd`), then zeros.
    pub open spec fn dir_block(&self, c: u32, pdd: u32) -> Seq<u8> {
        put_bytes(
            put_bytes(zeros(self.cluster_bytes()), 0, encode_entry(seq![0x2Eu8], 0x10, c, 0)),
            32,
            encode_entry(seq![0x2Eu8, 0x2Eu8], 0x10, pdd, 0),
        )
    }

    /// What `create_dir` leaves, looked at: the path is a directory, and it
    /// lists nothing.
    #[verifier::spinoff_prover]
    #[verifier::rlimit(60)]
    pub proof fn lemma_mkdir_read_back(
        &self,
        disk: Seq<u8>,
        d3: Seq<u8>,
        d4: Seq<u8>,
        d5: Seq<u8>,
        abs: Seq<char>,
        p: Seq<char>,
        n: Seq<char>,
        pc: int,
        c: u32,
        pdd: u32,
        grew: bool,
        o: int,
        x: int,
    )
        requires
            self.wf(),
            self.write_ready(disk, abs),
            spec_split_parent(abs) == Some((p, n)),
            self.spec_is_dir(disk, p),
            pc == self.dir_cluster(disk, p),
            find_named(parse_dir(self.concat(disk, self.parent_chain(disk, pc))), n) is None,
            self.fresh_chain(disk, d3, seq![c as int]),
            self.frame(d3, d4, set![c as int], Set::empty()),
            self.cluster_data(d4, c as int) == self.dir_block(c, pdd),
            !grew ==> self.added_at(d4, d5, self.parent_chain(disk, pc), Self::file_record(n, 0x10, c, 0), o),
            grew ==> self.grown(d4, d5, self.parent_chain(disk, pc), Self::file_record(n, 0x10, c, 0), x),
        ensures
            self.spec_is_dir(d5, abs),
            self.spec_list_dir(d5, abs) == Ok::<Seq<Seq<char>>, FsError>(Seq::empty()),
            self.spec_lookup(d5, abs) matches Ok(e) && e.cluster == c && self.cluster_data(d5, c as int) == self.dir_block(c, pdd),
    {
        let pl = self.parent_chain(disk, pc);
        let wp = self.walk_set(disk, segments(p));
        let e = Self::file_record(n, 0x10, c, 0);
        let nb = vstd::utf8::encode_utf8(n);
        let lf = seq![c as int];
        let mf = Self::new_chain_set(1, lf);
        assert(lf.to_set() =~= set![c as int]) by {
            assert(lf[0] == c as int);
            assert forall|y: int| lf.to_set().contains(y) <==> set![c as int].contains(y) by {
                if y == c as int {
                    assert(lf.contains(y));
                }
            }
        }
        self.lemma_ready_facts(disk, abs, p, n, pc);
        self.lemma_write_removed(disk, disk, disk, abs, p, n, pc, Set::empty(), false, 0);
        self.lemma_write_chain_apart(disk, disk, d3, d4, p, pc, pl, Set::empty(), 1, lf);
        lemma_short_entry(nb, 0x10, c, 0);
        lemma_name_reads_back(n);
        let pe = parse_entry(e);
        assert(e == encode_entry(nb, 0x10, c, 0));
        assert(listed(e));
        self.lemma_entry_listed(disk, d4, d5, n, pc, pl, e, false, 0, grew, o, x);
        let md5: Set<int> = if grew {
            pl.to_set().insert(x)
        } else {
            pl.to_set()
        };
        let ml5: Set<int> = if grew {
            pl.to_set().insert(x)
        } else {
            Set::empty()
        };
        let rs = Set::<int>::empty();
        lemma_frame_trans(*self, disk, d4, d5, pl.to_set().union(mf), rs.union(mf), md5, ml5);
        let md = pl.to_set().union(mf).union(md5);
        let ml = rs.union(mf).union(ml5);
        assert forall|y: int| #[trigger] wp.contains(y) implies !md.contains(y) && !ml.contains(y) && 2 <= y < self.fat_entries() by {
            assert(!pl.to_set().contains(y)) by {
                if pl.contains(y) {
                    let j = choose|j: int| 0 <= j < pl.len() && pl[j] == y;
                    assert(!wp.contains(pl[j]));
                }
            }
            assert(!mf.contains(y));
            if grew {
                assert(y != x) by {
                    if y == x {
                        assert(self.fat_entry(d4, x) != 0);
                    }
                }
            }
        }
        self.lemma_lookup_after(disk, d5, abs, p, n, pc, md, ml, pe);
        // the new directory's own chain
        self.lemma_fresh_facts(disk, d3, lf);
        let ci = c as int;
        assert(lf[0] == ci);
        assert(self.fat_entry(d3, lf[0]) == self.chain_next(lf, 0));
        assert(self.same_link(d3, d4, ci));
        assert(mf.contains(ci));
        assert(!pl.contains(ci));
        assert(!md5.contains(ci) && !ml5.contains(ci)) by {
            if grew && ci == x {
                assert(self.fat_entry(d4, x) == 0);
            }
            assert(!pl.to_set().contains(ci));
        }
        assert(self.same_link(d4, d5, ci));
        assert(self.same_data(d4, d5, ci));
        self.lemma_new_dir_empty(d5, c, pdd);
        lemma_split_parent_segments(abs);
        assert(abs != seq!['/']);
        assert(Seq::<DirEntryView>::empty().map_values(|v: DirEntryView| v.name) =~= Seq::<Seq<char>>::empty());
    }
}

impl FatFs {
    /// What `create_dir` changes stays within the clusters it may touch.
    #[verifier::spinoff_prover]
    pub proof fn lemma_mkdir_touch(
        &self,
        disk: Seq<u8>,
        d3: Seq<u8>,
        d4: Seq<u8>,
        d5: Seq<u8>,
        abs: Seq<char>,
        p: Seq<char>,
        n: Seq<char>,
        pc: int,
        c: u32,
        grew: bool,
        o: int,
        x: int,
    )
        requires
            self.wf(),
            self.write_ready(disk, abs),
            spec_split_parent(abs) == Some((p, n)),
            self.spec_is_dir(disk, p),
            pc == self.dir_cluster(disk, p),
            find_named(parse_dir(self.concat(disk, self.parent_chain(disk, pc))), n) is None,
            self.fresh_chain(disk, d3, seq![c as int]),
            self.frame(d3, d4, set![c as int], Set::empty()),
            !grew ==> self.added_at(d4, d5, self.parent_chain(disk, pc), Self::file_record(n, 0x10, c, 0), o),
            grew ==> self.grown(d4, d5, self.parent_chain(disk, pc), Self::file_record(n, 0x10, c, 0), x),
        ensures
            self.frame(disk, d5, self.write_touch(disk, abs), self.write_touch(disk, abs)),
            self.keeps_siblings(disk, d5, abs),
    {
        let pl = self.parent_chain(disk, pc);
        let lf = seq![c as int];
        let mf = Self::new_chain_set(1, lf);
        let rs = Set::<int>::empty();
        let md5: Set<int> = if grew {
            pl.to_set().insert(x)
        } else {
            pl.to_set()
        };
        let ml5: Set<int> = if grew {
            pl.to_set().insert(x)
        } else {
            Set::empty()
        };
        let md = pl.to_set().union(mf).union(md5);
        let ml = rs.union(mf).union(ml5);
        assert({
            &&& self.frame(disk, d5, md, ml)
            &&& self.dir_chain(disk, pc, pl)
            &&& rs == self.old_chain(disk, pl, n)
            &&& self.frame(disk, disk, pl.to_set(), rs)
            &&& self.frame(disk, d4, pl.to_set().union(mf), rs.union(mf))
        }) by {
            let e = Self::file_record(n, 0x10, c, 0);
            let nb = vstd::utf8::encode_utf8(n);
            assert(lf.to_set() =~= set![c as int]) by {
                assert(lf[0] == c as int);
                assert forall|y: int| lf.to_set().contains(y) <==> set![c as int].contains(y) by {
                    if y == c as int {
                        assert(lf.contains(y));
                    }
                }
            }
            self.lemma_ready_facts(disk, abs, p, n, pc);
            self.lemma_write_removed(disk, disk, disk, abs, p, n, pc, Set::empty(), false, 0);
            self.lemma_write_chain_apart(disk, disk, d3, d4, p, pc, pl, Set::empty(), 1, lf);
            lemma_short_entry(nb, 0x10, c, 0);
            lemma_name_reads_back(n);
            assert(e == encode_entry(nb, 0x10, c, 0));
            assert(listed(e));
            self.lemma_entry_listed(disk, d4, d5, n, pc, pl, e, false, 0, grew, o, x);
            lemma_frame_trans(*self, disk, d4, d5, pl.to_set().union(mf), rs.union(mf), md5, ml5);
            self.lemma_fresh_facts(disk, d3, lf);
        }
        let ci = c as int;
        assert(mf == set![ci]) by {
            assert(lf[0] == ci);
            assert forall|y: int| lf.to_set().contains(y) <==> set![ci].contains(y) by {
                if y == ci {
                    assert(lf.contains(y));
                }
            }
        }
        assert(!pl.contains(ci) && self.fat_entry(disk, ci) == 0 && self.fat_entry_on_disk(ci, disk.len()) && 2 <= ci
            < self.fat_entries() && self.fat_entry(d4, ci) != 0) by {
            self.lemma_ready_facts(disk, abs, p, n, pc);
            self.lemma_write_removed(disk, disk, disk, abs, p, n, pc, Set::empty(), false, 0);
            self.lemma_write_chain_apart(disk, disk, d3, d4, p, pc, pl, Set::empty(), 1, lf);
            self.lemma_fresh_facts(disk, d3, lf);
            assert(lf[0] == ci);
            assert(mf.contains(ci));
            assert(self.fat_entry(d3, lf[0]) == self.chain_next(lf, 0));
            assert(self.same_link(d3, d4, ci));
        }
        assert(forall|y: int| #[trigger] mf.contains(y) ==> !pl.contains(y) && self.fat_entry(disk, y) == 0
            && self.fat_entry_on_disk(y, disk.len()) && 2 <= y < self.fat_entries());
        assert(grew ==> self.fat_entry(d4, x) == 0 && self.fat_entry_on_disk(x, d4.len()) && !mf.contains(x) && 2 <= x
            < self.fat_entries()) by {
            if grew {
                self.lemma_ready_facts(disk, abs, p, n, pc);
                let e = Self::file_record(n, 0x10, c, 0);
                assert(self.grown(d4, d5, pl, e, x));
                assert(pl.push(x).last() == x);
                assert(pl.push(x)[pl.len() as int] == x);
            }
        }
        self.lemma_write_touch(disk, disk, d4, d5, abs, p, n, pc, rs, false, mf, md, ml, grew, x);
        assert(self.keeps_names(disk, d5, pc, n)) by {
            let e = Self::file_record(n, 0x10, c, 0);
            let nb = vstd::utf8::encode_utf8(n);
            self.lemma_ready_facts(disk, abs, p, n, pc);
            self.lemma_write_removed(disk, disk, disk, abs, p, n, pc, Set::empty(), false, 0);
            self.lemma_write_chain_apart(disk, disk, d3, d4, p, pc, pl, Set::empty(), 1, lf);
            lemma_short_entry(nb, 0x10, c, 0);
            lemma_name_reads_back(n);
            assert(e == encode_entry(nb, 0x10, c, 0));
            assert(listed(e));
            self.lemma_names_kept(disk, d4, d5, n, pc, pl, e, false, 0, grew, o, x);
        }
    }
}

impl FatFs {
    /// A directory whose single cluster ends its chain and holds `.`, `..`
    /// and zeros lists nothing.
    pub proof fn lemma_new_dir_empty(&self, d: Seq<u8>, c: u32, pdd: u32)
        requires
            self.wf(),
            2 <= c < self.alloc_limit(),
            self.cluster_on_disk(c as int, d.len()),
            self.fat_entry_on_disk(c as int, d.len()),
            self.fat_entry(d, c as int) == 0x0FFFFFFF,
            self.cluster_data(d, c as int) == self.dir_block(c, pdd),
        ensures
            self.dir_entries(d, c as int) == Some(Seq::<DirEntryView>::empty()),
    {
        let ci = c as int;
        let lf = seq![ci];
        assert(self.alloc_limit() <= self.fat_entries());
        assert(self.alloc_limit() <= 0x0FFFFFF8);
        assert(lf[0] == ci);
        assert(lf.last() == ci);
        assert(self.chained(d, lf));
        assert(0 * self.cluster_bytes() == 0);
        assert((lf.len() - 1 - 0) * self.cluster_bytes() == 0);
        self.lemma_chain_list_of(d, lf, 0, usize::MAX as int, self.fat_entries());
        assert(lf.skip(0) =~= lf);
        self.lemma_chain_concat(d, ci, usize::MAX as int, self.fat_entries());
        assert(lf.drop_first() =~= Seq::<int>::empty());
        assert(self.concat(d, Seq::<int>::empty()) == Seq::<u8>::empty());
        assert(self.concat(d, lf) =~= self.cluster_data(d, ci));
        lemma_dir_block_empty(self.dir_block(c, pdd), self.cluster_bytes(), c, pdd);
    }
}


impl FatFs {
    /// Every cluster of a linked chain lies on the chain from its first.
    pub proof fn lemma_linked_reach(&self, d: Seq<u8>, l: Seq<int>)
        requires
            self.wf(),
            self.linked(d, l),
            l.len() > 0,
        ensures
            forall|i: int| 0 <= i < l.len() ==> #[trigger] self.reach_set(d, l[0]).contains(l[i]),
    {
        assert forall|i: int| 0 <= i < l.len() implies #[trigger] self.reach_set(d, l[0]).contains(l[i]) by {
            self.lemma_linked_reach_at(d, l, i);
        }
    }

    /// The `i`-th cluster of a linked chain lies on the chain from its first.
    pub proof fn lemma_linked_reach_at(&self, d: Seq<u8>, l: Seq<int>, i: int)
        requires
            self.wf(),
            self.linked(d, l),
            0 <= i < l.len(),
        ensures
            self.reaches(d, l[0], l[i]),
        decreases i,
    {
        assert(self.alloc_limit() <= 0x0FFFFFF8);
        if i == 0 {
            self.lemma_reaches_start(d, l[0]);
        } else {
            self.lemma_linked_reach_at(d, l, i - 1);
            assert(self.fat_entry(d, l[i - 1]) == self.chain_next(l, i - 1));
            self.lemma_reaches_next(d, l[0], l[i - 1]);
        }
    }

    /// The clusters of a replaced file's chain that the new chain does not
    /// take are free once the write is done.
    #[verifier::spinoff_prover]
    pub proof fn lemma_old_chain_freed(
        &self,
        disk: Seq<u8>,
        d1: Seq<u8>,
        db: Seq<u8>,
        d3: Seq<u8>,
        d4: Seq<u8>,
        d5: Seq<u8>,
        pl: Seq<int>,
        rs: Set<int>,
        had_old: bool,
        od: int,
        len: nat,
        lf: Seq<int>,
        e: Seq<u8>,
        grew: bool,
        o: int,
        x: int,
    )
        requires
            self.wf(),
            forall|y: int| #[trigger] rs.contains(y) ==> 2 <= y < self.fat_entries(),
            forall|y: int| #[trigger] rs.contains(y) && self.fat_entry_on_disk(y, disk.len()) ==> self.fat_entry(d1, y) == 0,
            !had_old ==> rs == Set::<int>::empty(),
            had_old ==> d1.len() == disk.len() && 0 <= od && 32 * od + 32 <= self.concat(db, pl).len() && free_record(
                record(self.concat(db, pl), od),
            ) && self.frame(d1, db, pl.to_set(), Set::empty()),
            len == 0 ==> d4 == db,
            len > 0 ==> self.fresh_chain(db, d3, lf) && self.frame(d3, d4, lf.to_set(), Set::empty()),
            self.concat(d4, pl) == self.concat(db, pl),
            !grew ==> self.added_at(d4, d5, pl, e, o),
            grew ==> self.grown(d4, d5, pl, e, x),
        ensures
            forall|y: int|
                #[trigger] rs.contains(y) && self.fat_entry_on_disk(y, disk.len()) && !Self::new_chain_set(len, lf).contains(y)
                    ==> self.fat_entry(d5, y) == 0,
    {
        if had_old {
            if grew {
                assert(!free_record(record(self.concat(d4, pl), od)));
                assert(false);
            }
            if len > 0 {
                self.lemma_fresh_facts(db, d3, lf);
            }
            assert forall|y: int|
                #[trigger] rs.contains(y) && self.fat_entry_on_disk(y, disk.len()) && !Self::new_chain_set(len, lf).contains(y)
                    implies self.fat_entry(d5, y) == 0 by {
                assert(self.same_link(d1, db, y));
                if len > 0 {
                    assert(!lf.to_set().contains(y));
                    assert(self.same_link(db, d3, y));
                    assert(self.same_link(d3, d4, y));
                }
                assert(self.same_link(d4, d5, y));
            }
        }
    }
}


impl FatFs {
    /// Adding an entry to a directory whose chain is in use leaves the chain
    /// in use: a record taken changes no link, and a grown chain links each
    /// of its clusters on.
    pub proof fn lemma_parent_in_use(&self, d4: Seq<u8>, d5: Seq<u8>, pl: Seq<int>, e: Seq<u8>, grew: bool, o: int, x: int)
        requires
            self.wf(),
            forall|i: int|
                0 <= i < pl.len() ==> 2 <= #[trigger] pl[i] < self.fat_entries() && self.fat_entry_on_disk(pl[i], d4.len())
                    && self.fat_entry(d4, pl[i]) != 0,
            !grew ==> self.added_at(d4, d5, pl, e, o),
            grew ==> self.grown(d4, d5, pl, e, x),
        ensures
            forall|i: int| 0 <= i < pl.len() ==> self.fat_entry(d5, #[trigger] pl[i]) != 0,
    {
        assert forall|i: int| 0 <= i < pl.len() implies self.fat_entry(d5, #[trigger] pl[i]) != 0 by {
            if grew {
                let l2 = pl.push(x);
                assert(l2[i] == pl[i]);
                assert(i < l2.len() - 1);
                assert(self.fat_entry(d5, l2[i]) == l2[i + 1]);
                assert(2 <= l2[i + 1]);
            } else {
                assert(pl.to_set().contains(pl[i]));
                assert(self.same_link(d4, d5, pl[i]));
            }
        }
    }

    /// A change confined to the clusters a write to `abs` may touch, which
    /// leaves the parent directory's chain in use, keeps in use every
    /// cluster in use before but those of the chain the write replaces.
    pub proof fn lemma_write_keeps(&self, d0: Seq<u8>, d1: Seq<u8>, abs: Seq<char>, p: Seq<char>, n: Seq<char>)
        requires
            self.wf(),
            spec_split_parent(abs) == Some((p, n)),
            self.frame(d0, d1, self.write_touch(d0, abs), self.write_touch(d0, abs)),
            forall|i: int|
                0 <= i < self.parent_chain(d0, self.dir_cluster(d0, p)).len() ==> self.fat_entry(
                    d1,
                    #[trigger] self.parent_chain(d0, self.dir_cluster(d0, p))[i],
                ) != 0,
        ensures
            self.keeps_in_use(d0, d1, self.replaced_chain(d0, abs)),
    {
        let pl = self.parent_chain(d0, self.dir_cluster(d0, p));
        let t = self.write_touch(d0, abs);
        assert forall|x: int|
            2 <= x < self.fat_entries() && self.fat_entry_on_disk(x, d0.len()) && #[trigger] self.fat_entry(d0, x) != 0
                && !self.replaced_chain(d0, abs).contains(x) implies self.fat_entry(d1, x) != 0 by {
            if t.contains(x) {
                assert(pl.contains(x));
                let i = choose|i: int| 0 <= i < pl.len() && pl[i] == x;
                assert(self.fat_entry(d1, pl[i]) != 0);
            } else {
                assert(self.same_link(d0, d1, x));
            }
        }
    }
}

} // verus!
