//! Directory chains as lists of clusters, the 32-byte records they hold
//! one after the other, and where a record of a directory lies on the disk.

use vstd::prelude::*;
use crate::block::block_of;
use crate::fat::{FatFs, put_bytes, skipped_entry, decode_name, eq_ignore_case};

verus! {

/// Record `k` of the directory bytes `b`.
pub open spec fn record(b: Seq<u8>, k: int) -> Seq<u8> {
    b.subrange(32 * k, 32 * k + 32)
}

/// A record a new entry may take: the end-of-directory mark or a deleted
/// entry.
pub open spec fn free_record(e: Seq<u8>) -> bool {
    e[0] == 0 || e[0] == 0xE5
}

/// A record deleting the entry `name` stops at: the end-of-directory mark,
/// or a live short-name entry with that name.
pub open spec fn delete_target(e: Seq<u8>, name: Seq<char>) -> bool {
    e[0] == 0 || (!skipped_entry(e) && eq_ignore_case(decode_name(e), name))
}

impl FatFs {
    /// On `d`, `l` is a chain: clusters on the disk, each linked to the
    /// next, the last link ending it.
    pub open spec fn chained(&self, d: Seq<u8>, l: Seq<int>) -> bool {
        &&& l.len() > 0
        &&& forall|i: int|
            0 <= i < l.len() ==> 2 <= #[trigger] l[i] < 0x0FFFFFF8 && self.cluster_on_disk(l[i], d.len())
                && self.fat_entry_on_disk(l[i], d.len())
        &&& forall|i: int| 0 <= i < l.len() - 1 ==> #[trigger] self.fat_entry(d, l[i]) == l[i + 1]
        &&& !(2 <= self.fat_entry(d, l.last()) < 0x0FFFFFF8)
    }

    /// On `d`, `l` is the whole chain of the directory starting at `pc`:
    /// distinct clusters the allocator knows, with room to grow by one.
    pub open spec fn dir_chain(&self, d: Seq<u8>, pc: int, l: Seq<int>) -> bool {
        &&& l[0] == pc
        &&& self.chained(d, l)
        &&& l.no_duplicates()
        &&& forall|i: int| 0 <= i < l.len() ==> #[trigger] l[i] < self.alloc_limit()
        &&& (l.len() + 1) * self.cluster_bytes() < usize::MAX
    }

    /// The `j`-th record of the sector `sec` of cluster `c`.
    pub open spec fn sector_record(&self, j: int, sec: int, slot: int) -> int {
        (j * self.sectors_per_cluster + sec) * 16 + slot
    }

    /// A chain of distinct clusters below the allocator's limit is no
    /// longer than the FAT.
    pub proof fn lemma_distinct_short(&self, l: Seq<int>)
        requires
            l.no_duplicates(),
            forall|i: int| 0 <= i < l.len() ==> 2 <= #[trigger] l[i] < self.alloc_limit(),
        ensures
            l.len() == 0 || l.len() + 2 <= self.alloc_limit(),
            self.alloc_limit() <= self.fat_entries(),
    {
        if l.len() > 0 {
            l.unique_seq_to_set();
            assert(l.to_set().subset_of(vstd::set_lib::set_int_range(2, self.alloc_limit()))) by {
                assert forall|x: int| l.to_set().contains(x) implies vstd::set_lib::set_int_range(2, self.alloc_limit()).contains(x) by {
                    let i = choose|i: int| 0 <= i < l.len() && l[i] == x;
                    assert(2 <= l[i] < self.alloc_limit());
                }
            }
            assert(2 <= l[0] < self.alloc_limit());
            vstd::set_lib::lemma_int_range(2, self.alloc_limit());
            vstd::set_lib::lemma_len_subset(l.to_set(), vstd::set_lib::set_int_range(2, self.alloc_limit()));
        }
    }

    /// A chain read from the `j`-th cluster of a chain `l` lists the rest of
    /// `l`, given the fuel and a limit past all but its last cluster.
    pub proof fn lemma_chain_list_of(&self, d: Seq<u8>, l: Seq<int>, j: int, max: int, fuel: nat)
        requires
            self.wf(),
            self.chained(d, l),
            0 <= j < l.len(),
            fuel >= l.len() - j,
            max - j * self.cluster_bytes() > (l.len() - 1 - j) * self.cluster_bytes(),
        ensures
            self.chain_list(d, l[j], max - j * self.cluster_bytes(), fuel) == Some(l.skip(j)),
        decreases l.len() - j,
    {
        let cb = self.cluster_bytes();
        let m = max - j * cb;
        assert(l[j] == l.skip(j)[0]);
        if j + 1 < l.len() {
            assert(cb < m) by (nonlinear_arith)
                requires
                    m > (l.len() - 1 - j) * cb,
                    l.len() - 1 - j >= 1,
                    cb >= 0,
            ;
            assert(self.fat_entry(d, l[j]) == l[j + 1]);
            assert((j + 1) * cb == j * cb + cb) by (nonlinear_arith);
            assert((l.len() - 1 - (j + 1)) * cb == (l.len() - 1 - j) * cb - cb) by (nonlinear_arith);
            self.lemma_chain_list_of(d, l, j + 1, max, (fuel - 1) as nat);
            assert(max - (j + 1) * cb == m - cb);
            assert(self.chain_list(d, l[j + 1], m - cb, (fuel - 1) as nat) == Some(l.skip(j + 1)));
            assert(seq![l[j]] + l.skip(j + 1) =~= l.skip(j));
            assert(2 <= l[j] < 0x0FFFFFF8 && self.cluster_on_disk(l[j], d.len()) && self.fat_entry_on_disk(l[j], d.len()));
            assert(self.chain_list(d, l[j], m, fuel) == Some(seq![l[j]] + l.skip(j + 1)));
        } else {
            assert(l.skip(j) =~= seq![l[j]]);
            assert(l[j] == l.last());
            assert(2 <= l[j] < 0x0FFFFFF8 && self.cluster_on_disk(l[j], d.len()) && self.fat_entry_on_disk(l[j], d.len()));
            if cb < m {
                let nx = self.fat_entry(d, l[j]);
                assert(!(2 <= nx < 0x0FFFFFF8));
                assert(self.chain_list(d, nx, m - cb, (fuel - 1) as nat) == Some(Seq::<int>::empty()));
                assert(seq![l[j]] + Seq::<int>::empty() =~= seq![l[j]]);
            }
        }
    }

    /// The directory chain `l` is what reading the directory follows.
    pub proof fn lemma_dir_chain_list(&self, d: Seq<u8>, pc: int, l: Seq<int>)
        requires
            self.wf(),
            self.dir_chain(d, pc, l),
        ensures
            self.dir_list(d, pc) == Some(l),
            self.chain_all(d, pc) == Some(self.concat(d, l)),
            l.len() + 2 <= self.fat_entries(),
    {
        self.lemma_distinct_short(l);
        let cb = self.cluster_bytes();
        assert((l.len() - 1) * cb < usize::MAX) by (nonlinear_arith)
            requires
                (l.len() + 1) * cb < usize::MAX,
                cb >= 0,
        ;
        assert(0 * cb == 0);
        self.lemma_chain_list_of(d, l, 0, usize::MAX as int, self.fat_entries());
        assert(l.skip(0) =~= l);
        self.lemma_chain_concat(d, pc, usize::MAX as int, self.fat_entries());
    }

    /// Cluster `j` of a chain holds the bytes of the chain's `j`-th piece.
    pub proof fn lemma_concat_piece(&self, d: Seq<u8>, l: Seq<int>, j: int)
        requires
            self.wf(),
            forall|i: int| 0 <= i < l.len() ==> self.cluster_on_disk(#[trigger] l[i], d.len()) && l[i] >= 2,
            0 <= j < l.len(),
        ensures
            self.concat(d, l).len() == l.len() * self.cluster_bytes(),
            self.concat(d, l).subrange(j * self.cluster_bytes(), j * self.cluster_bytes() + self.cluster_bytes()) == self.cluster_data(
                d,
                l[j],
            ),
        decreases l.len(),
    {
        let cb = self.cluster_bytes();
        let t = l.drop_first();
        self.lemma_concat_len(d, l);
        assert(self.cluster_data(d, l[0]).len() == cb) by {
            self.lemma_cluster_bounds(l[0]);
        }
        assert forall|i: int| 0 <= i < t.len() implies self.cluster_on_disk(#[trigger] t[i], d.len()) && t[i] >= 2 by {
            assert(t[i] == l[i + 1]);
        }
        if j > 0 {
            self.lemma_concat_piece(d, t, j - 1);
            assert(t[j - 1] == l[j]);
            assert((j - 1) * cb + cb == j * cb && (j - 1) * cb >= 0 && j * cb <= t.len() * cb) by (nonlinear_arith)
                requires
                    1 <= j <= t.len(),
                    cb >= 0,
            ;
            assert(self.concat(d, l).subrange(j * cb, j * cb + cb) =~= self.concat(d, t).subrange((j - 1) * cb, (j - 1) * cb + cb));
        } else {
            assert(0 * cb == 0);
            assert(self.concat(d, l).subrange(0, cb as int) =~= self.cluster_data(d, l[0]));
        }
    }

    /// The bytes of a chain of clusters on the disk: a cluster's worth each.
    pub proof fn lemma_concat_len(&self, d: Seq<u8>, l: Seq<int>)
        requires
            self.wf(),
            forall|i: int| 0 <= i < l.len() ==> self.cluster_on_disk(#[trigger] l[i], d.len()) && l[i] >= 2,
        ensures
            self.concat(d, l).len() == l.len() * self.cluster_bytes(),
        decreases l.len(),
    {
        let cb = self.cluster_bytes();
        if l.len() > 0 {
            let t = l.drop_first();
            assert forall|i: int| 0 <= i < t.len() implies self.cluster_on_disk(#[trigger] t[i], d.len()) && t[i] >= 2 by {
                assert(t[i] == l[i + 1]);
            }
            self.lemma_concat_len(d, t);
            assert(self.cluster_on_disk(l[0], d.len()) && l[0] >= 2);
            self.lemma_cluster_bounds(l[0]);
            assert(self.cluster_data(d, l[0]).len() == cb);
            assert(t.len() * cb + cb == l.len() * cb) by (nonlinear_arith)
                requires
                    t.len() + 1 == l.len(),
            ;
        }
    }

    /// The bytes of cluster `l[j]` from `off` on, `n` of them, are those of
    /// the chain from `j * cb + off` on.
    pub proof fn lemma_concat_at(&self, d: Seq<u8>, l: Seq<int>, j: int, off: int, n: int)
        requires
            self.wf(),
            forall|i: int| 0 <= i < l.len() ==> self.cluster_on_disk(#[trigger] l[i], d.len()) && l[i] >= 2,
            0 <= j < l.len(),
            0 <= off,
            0 <= n,
            off + n <= self.cluster_bytes(),
        ensures
            self.concat(d, l).subrange(j * self.cluster_bytes() + off, j * self.cluster_bytes() + off + n) == self.cluster_data(
                d,
                l[j],
            ).subrange(off, off + n),
            j * self.cluster_bytes() + off + n <= self.concat(d, l).len(),
    {
        let cb = self.cluster_bytes();
        self.lemma_concat_piece(d, l, j);
        assert(j * cb + cb <= l.len() * cb) by (nonlinear_arith)
            requires
                j + 1 <= l.len(),
                cb >= 0,
        ;
        assert(j * cb >= 0) by (nonlinear_arith)
            requires
                j >= 0,
                cb >= 0,
        ;
        let piece = self.concat(d, l).subrange(j * cb, j * cb + cb);
        assert(self.concat(d, l).subrange(j * cb + off, j * cb + off + n) =~= piece.subrange(off, off + n));
    }

    /// Sector `sec` of cluster `c` is part of the cluster's bytes.
    pub proof fn lemma_sector_of_cluster(&self, d: Seq<u8>, c: int, sec: int)
        requires
            self.wf(),
            c >= 2,
            0 <= sec < self.sectors_per_cluster,
            self.cluster_on_disk(c, d.len()),
        ensures
            block_of(d, self.cluster_lba(c) + sec) == self.cluster_data(d, c).subrange(sec * 512, sec * 512 + 512),
            (self.cluster_lba(c) + sec + 1) * 512 <= d.len(),
            (self.cluster_lba(c) + sec) * 512 == self.cluster_lba(c) * 512 + sec * 512,
            sec * 512 + 512 <= self.cluster_bytes(),
    {
        assert(sec * 512 + 512 <= self.sectors_per_cluster * 512) by (nonlinear_arith)
            requires
                sec + 1 <= self.sectors_per_cluster,
        ;
        assert((self.cluster_lba(c) + sec) * 512 == self.cluster_lba(c) * 512 + sec * 512) by (nonlinear_arith);
        assert((self.cluster_lba(c) + self.sectors_per_cluster) * 512 == self.cluster_lba(c) * 512 + self.sectors_per_cluster * 512)
            by (nonlinear_arith);
        assert(self.cluster_lba(c) >= 0) by {
            assert((c - 2) * self.sectors_per_cluster >= 0) by (nonlinear_arith)
                requires
                    c >= 2,
                    self.sectors_per_cluster >= 0,
            ;
        }
        assert(block_of(d, self.cluster_lba(c) + sec) =~= self.cluster_data(d, c).subrange(sec * 512, sec * 512 + 512));
    }

    /// Record `slot` of sector `sec` of the `j`-th cluster of a chain is
    /// that record of the chain's bytes.
    pub proof fn lemma_record_at(&self, d: Seq<u8>, l: Seq<int>, j: int, sec: int, slot: int)
        requires
            self.wf(),
            forall|i: int| 0 <= i < l.len() ==> self.cluster_on_disk(#[trigger] l[i], d.len()) && l[i] >= 2,
            0 <= j < l.len(),
            0 <= sec < self.sectors_per_cluster,
            0 <= slot < 16,
        ensures
            record(self.concat(d, l), self.sector_record(j, sec, slot)) == block_of(d, self.cluster_lba(l[j]) + sec).subrange(
                slot * 32,
                slot * 32 + 32,
            ),
            32 * self.sector_record(j, sec, slot) == j * self.cluster_bytes() + sec * 512 + slot * 32,
            32 * self.sector_record(j, sec, slot) + 32 <= self.concat(d, l).len(),
    {
        let cb = self.cluster_bytes();
        let k = self.sector_record(j, sec, slot);
        assert(32 * k == j * cb + sec * 512 + slot * 32) by (nonlinear_arith)
            requires
                k == (j * self.sectors_per_cluster + sec) * 16 + slot,
                cb == self.sectors_per_cluster * 512,
        ;
        self.lemma_sector_of_cluster(d, l[j], sec);
        self.lemma_concat_at(d, l, j, sec * 512 + slot * 32, 32);
        assert(record(self.concat(d, l), k) =~= self.cluster_data(d, l[j]).subrange(sec * 512 + slot * 32, sec * 512 + slot * 32 + 32));
        assert(block_of(d, self.cluster_lba(l[j]) + sec).subrange(slot * 32, slot * 32 + 32) =~= self.cluster_data(d, l[j]).subrange(
            sec * 512 + slot * 32,
            sec * 512 + slot * 32 + 32,
        ));
    }

    /// Storing bytes within the `j`-th cluster of a chain stores them in
    /// the chain's bytes at the matching place.
    pub proof fn lemma_concat_put(&self, d0: Seq<u8>, d1: Seq<u8>, l: Seq<int>, j: int, off: int, e: Seq<u8>)
        requires
            self.wf(),
            l.no_duplicates(),
            forall|i: int| 0 <= i < l.len() ==> self.cluster_on_disk(#[trigger] l[i], d0.len()) && 2 <= l[i] < self.fat_entries(),
            0 <= j < l.len(),
            0 <= off,
            off + e.len() <= self.cluster_bytes(),
            self.frame(d0, d1, set![l[j]], Set::empty()),
            self.cluster_data(d1, l[j]) == put_bytes(self.cluster_data(d0, l[j]), off, e),
        ensures
            self.concat(d1, l) == put_bytes(self.concat(d0, l), j * self.cluster_bytes() + off, e),
        decreases l.len(),
    {
        let cb = self.cluster_bytes();
        let t = l.drop_first();
        assert forall|i: int| 0 <= i < t.len() implies self.cluster_on_disk(#[trigger] t[i], d0.len()) && 2 <= t[i] < self.fat_entries() by {
            assert(t[i] == l[i + 1]);
        }
        assert(self.cluster_on_disk(l[0], d0.len()) && l[0] >= 2);
        self.lemma_cluster_bounds(l[0]);
        assert(self.cluster_data(d0, l[0]).len() == cb);
        assert forall|i: int| 0 <= i < t.len() implies self.cluster_on_disk(#[trigger] t[i], d0.len()) && t[i] >= 2 by {
            assert(t[i] == l[i + 1]);
        }
        self.lemma_concat_len(d0, t);
        if j == 0 {
            assert forall|i: int| 0 <= i < t.len() implies self.same_data(d0, d1, #[trigger] t[i]) by {
                assert(t[i] == l[i + 1]);
                assert(l[i + 1] != l[0]);
            }
            assert forall|i: int| 0 <= i < t.len() implies self.cluster_on_disk(#[trigger] t[i], d0.len()) by {
                assert(t[i] == l[i + 1]);
            }
            self.lemma_concat_frame(d0, d1, t);
            assert(0 * cb == 0);
            assert(self.concat(d1, l) =~= put_bytes(self.concat(d0, l), off, e));
        } else {
            assert(t.no_duplicates()) by {
                assert forall|a: int, b: int| 0 <= a < t.len() && 0 <= b < t.len() && a != b implies t[a] != t[b] by {
                    assert(t[a] == l[a + 1] && t[b] == l[b + 1]);
                }
            }
            assert(l[j] != l[0]);
            assert(self.same_data(d0, d1, l[0]));
            assert(t[j - 1] == l[j]);
            self.lemma_concat_put(d0, d1, t, j - 1, off, e);
            assert((j - 1) * cb + cb == j * cb && (j - 1) * cb >= 0 && (j - 1) * cb + cb <= t.len() * cb) by (nonlinear_arith)
                requires
                    1 <= j <= t.len(),
                    cb >= 0,
            ;
            assert(self.concat(d1, l) =~= put_bytes(self.concat(d0, l), j * cb + off, e));
        }
    }

    /// The bytes of a chain grown by a cluster are followed by its bytes.
    pub proof fn lemma_concat_push(&self, d: Seq<u8>, l: Seq<int>, x: int)
        ensures
            self.concat(d, l.push(x)) == self.concat(d, l) + self.cluster_data(d, x),
        decreases l.len(),
    {
        if l.len() == 0 {
            let one = l.push(x);
            assert(one.drop_first() =~= Seq::<int>::empty());
            assert(one[0] == x);
            assert(self.concat(d, Seq::<int>::empty()) == Seq::<u8>::empty());
            assert(self.concat(d, one) =~= self.cluster_data(d, x));
            assert(self.concat(d, l) =~= Seq::<u8>::empty());
            assert(self.concat(d, l) + self.cluster_data(d, x) =~= self.cluster_data(d, x));
        } else {
            assert(l.push(x).drop_first() =~= l.drop_first().push(x));
            self.lemma_concat_push(d, l.drop_first(), x);
            assert(self.concat(d, l.push(x)) =~= self.concat(d, l) + self.cluster_data(d, x));
        }
    }

    /// A change that leaves a chain's links alone keeps it a chain.
    pub proof fn lemma_dir_chain_keep(&self, d0: Seq<u8>, d1: Seq<u8>, pc: int, l: Seq<int>, md: Set<int>, ml: Set<int>)
        requires
            self.dir_chain(d0, pc, l),
            self.frame(d0, d1, md, ml),
            forall|i: int| 0 <= i < l.len() ==> !ml.contains(#[trigger] l[i]),
        ensures
            self.dir_chain(d1, pc, l),
    {
        self.lemma_distinct_short(l);
        assert forall|i: int| 0 <= i < l.len() - 1 implies #[trigger] self.fat_entry(d1, l[i]) == l[i + 1] by {
            assert(self.same_link(d0, d1, l[i]));
            assert(self.fat_entry(d0, l[i]) == l[i + 1]);
        }
        assert(self.same_link(d0, d1, l.last())) by {
            assert(l.last() == l[l.len() - 1]);
        }
    }
}

impl FatFs {
    /// Deleting `name` from the directory chain `l` of `d0` stopped at its
    /// record `o`, the first that ends the directory or names `name`: at
    /// the end mark nothing changed; otherwise that record is marked
    /// deleted and nothing but the directory's data changed.
    pub open spec fn deleted_at(&self, d0: Seq<u8>, d1: Seq<u8>, l: Seq<int>, name: Seq<char>, o: int) -> bool {
        let b = self.concat(d0, l);
        &&& 0 <= o
        &&& 32 * o + 32 <= b.len()
        &&& forall|k: int| 0 <= k < o ==> !delete_target(#[trigger] record(b, k), name)
        &&& delete_target(record(b, o), name)
        &&& record(b, o)[0] == 0 ==> d1 == d0
        &&& record(b, o)[0] != 0 ==> self.frame(d0, d1, l.to_set(), Set::empty()) && self.concat(d1, l) == put_bytes(
            b,
            32 * o,
            seq![0xE5u8],
        )
    }

    /// Adding the entry `e` to the directory chain `l` of `d0` took its
    /// record `o`, the first free one; nothing but the directory's data
    /// changed.
    pub open spec fn added_at(&self, d0: Seq<u8>, d1: Seq<u8>, l: Seq<int>, e: Seq<u8>, o: int) -> bool {
        let b = self.concat(d0, l);
        &&& 0 <= o
        &&& 32 * o + 32 <= b.len()
        &&& forall|k: int| 0 <= k < o ==> !free_record(#[trigger] record(b, k))
        &&& free_record(record(b, o))
        &&& self.frame(d0, d1, l.to_set(), Set::empty())
        &&& self.concat(d1, l) == put_bytes(b, 32 * o, e)
    }

    /// Adding the entry `e` to the directory chain `l` of `d0`, whose
    /// records were all taken, grew the chain by the free cluster `x`,
    /// which now ends the chain (its link the end-of-chain mark, in every
    /// FAT copy, as the former last cluster's link to it is) and holds the
    /// entry first.
    pub open spec fn grown(&self, d0: Seq<u8>, d1: Seq<u8>, l: Seq<int>, e: Seq<u8>, x: int) -> bool {
        let b = self.concat(d0, l);
        &&& forall|k: int| 0 <= k && 32 * k + 32 <= b.len() ==> !free_record(#[trigger] record(b, k))
        &&& 2 <= x < self.alloc_limit()
        &&& self.fat_entry(d0, x) == 0
        &&& !l.contains(x)
        &&& self.chained(d1, l.push(x))
        &&& self.fat_entry(d1, x) == 0x0FFFFFFF
        &&& self.mirrored(d1, x) && self.mirrored(d1, l.last())
        &&& self.concat(d1, l.push(x)) == b + put_bytes(crate::fat::zeros(self.cluster_bytes()), 0, e)
        &&& self.frame(d0, d1, l.to_set().insert(x), l.to_set().insert(x))
    }
}

} // verus!
