//! In-memory writable filesystem.
//!
//! TmpFs lives entirely on the heap and starts empty on every boot; there is
//! no persistence. Paths are relative to the mount point.

use vstd::prelude::*;
use crate::path::{views, segments, strings_view, path_segments, strings_of};
use crate::names::names_sorted;
use crate::tree::{walk, child_names, lemma_walk_agree, Tree, Node, NodeView, lookup, node_at, spec_parent, sets, has_child, is_dir_node, no_special, tree_wf, spec_read, spec_list, spec_is_dir, is_child, lemma_lookup_index, lemma_lookup_some, lemma_walk_ok};
use crate::vfs::FsError;
use vstd::slice::slice_to_vec;

verus! {

pub struct TmpFs {
    tree: Tree,
}

/// The outcome of a write-like operation on the table `es` at `segs`:
/// `Ok(n)` stores `n` there, `Err(e)` leaves the table as it is.
pub type Outcome = Result<NodeView, FsError>;

/// `create_file`: an empty file, unless a directory is in the way.
pub open spec fn spec_create_file(es: Seq<(Seq<Seq<char>>, NodeView)>, segs: Seq<Seq<char>>) -> Outcome {
    match spec_parent(es, segs) {
        Err(e) => Err(e),
        Ok(()) => if lookup(es, segs) == Some(NodeView::Dir) {
            Err(FsError::IsADir)
        } else {
            Ok(NodeView::File(Seq::empty()))
        },
    }
}

/// `write_file`: the file holds `data`, unless a directory is in the way.
pub open spec fn spec_write_file(es: Seq<(Seq<Seq<char>>, NodeView)>, segs: Seq<Seq<char>>, data: Seq<u8>) -> Outcome {
    match spec_parent(es, segs) {
        Err(e) => Err(e),
        Ok(()) => if lookup(es, segs) == Some(NodeView::Dir) {
            Err(FsError::IsADir)
        } else {
            Ok(NodeView::File(data))
        },
    }
}

/// `append_file`: `data` goes after the existing bytes (a missing file is
/// created).
pub open spec fn spec_append_file(es: Seq<(Seq<Seq<char>>, NodeView)>, segs: Seq<Seq<char>>, data: Seq<u8>) -> Outcome {
    match spec_parent(es, segs) {
        Err(e) => Err(e),
        Ok(()) => match lookup(es, segs) {
            Some(NodeView::File(b)) => Ok(NodeView::File(b + data)),
            Some(NodeView::Dir) => Err(FsError::IsADir),
            Some(NodeView::Special(_)) => Ok(NodeView::File(data)),
            None => Ok(NodeView::File(data)),
        },
    }
}

/// `create_dir`: a new empty directory; an existing name is an error.
pub open spec fn spec_create_dir(es: Seq<(Seq<Seq<char>>, NodeView)>, segs: Seq<Seq<char>>) -> Outcome {
    match spec_parent(es, segs) {
        Err(e) => Err(e),
        Ok(()) => if lookup(es, segs) is Some {
            Err(FsError::Io)
        } else {
            Ok(NodeView::Dir)
        },
    }
}

/// `remove`: a missing name is `NotFound`, a non-empty directory is `Io`.
pub open spec fn spec_remove(es: Seq<(Seq<Seq<char>>, NodeView)>, segs: Seq<Seq<char>>) -> Result<(), FsError> {
    match spec_parent(es, segs) {
        Err(e) => Err(e),
        Ok(()) => match lookup(es, segs) {
            None => Err(FsError::NotFound),
            Some(NodeView::Dir) => if has_child(es, segs) {
                Err(FsError::Io)
            } else {
                Ok(())
            },
            Some(_) => Ok(()),
        },
    }
}

/// The table after a write-like operation with outcome `o` at `segs`.
pub open spec fn applied(
    old: Seq<(Seq<Seq<char>>, NodeView)>,
    new: Seq<(Seq<Seq<char>>, NodeView)>,
    segs: Seq<Seq<char>>,
    o: Outcome,
) -> bool {
    match o {
        Ok(n) => sets(old, new, segs, Some(n)),
        Err(_) => new == old,
    }
}

pub open spec fn unit_of(o: Outcome) -> Result<(), FsError> {
    match o {
        Ok(_) => Ok(()),
        Err(e) => Err(e),
    }
}

proof fn lemma_no_special_sets(
    old: Seq<(Seq<Seq<char>>, NodeView)>,
    new: Seq<(Seq<Seq<char>>, NodeView)>,
    p: Seq<Seq<char>>,
    n: Option<NodeView>,
)
    requires
        tree_wf(new),
        no_special(old),
        sets(old, new, p, n),
        !(n matches Some(NodeView::Special(_))),
    ensures
        no_special(new),
{
    assert forall|i: int| 0 <= i < new.len() implies !((#[trigger] new[i]).1 is Special) by {
        lemma_lookup_index(new, i);
        let q = new[i].0;
        assert(lookup(new, q) == Some(new[i].1));
        if q != p {
            lemma_lookup_some(old, q);
            let j = choose|j: int| 0 <= j < old.len() && (#[trigger] old[j]).0 == q;
            assert(tree_wf(new));
            lemma_lookup_index_of_some(old, q, j);
        }
    }
}

/// Without distinctness, the node found by `lookup` is that of some entry.
proof fn lemma_lookup_index_of_some(es: Seq<(Seq<Seq<char>>, NodeView)>, q: Seq<Seq<char>>, j: int)
    requires
        0 <= j < es.len(),
        es[j].0 == q,
    ensures
        exists|k: int| 0 <= k < es.len() && lookup(es, q) == Some((#[trigger] es[k]).1),
    decreases es.len(),
{
    if es.last().0 == q {
        assert(lookup(es, q) == Some(es[es.len() - 1].1));
    } else {
        let d = es.drop_last();
        assert(j < es.len() - 1);
        assert(d[j] == es[j]);
        lemma_lookup_index_of_some(d, q, j);
        let k = choose|k: int| 0 <= k < d.len() && lookup(d, q) == Some((#[trigger] d[k]).1);
        assert(d[k] == es[k]);
    }
}


// ---------------------------------------------------------------------------
// Laws
// ---------------------------------------------------------------------------

proof fn lemma_walk_parent_unchanged(
    old: Seq<(Seq<Seq<char>>, NodeView)>,
    new: Seq<(Seq<Seq<char>>, NodeView)>,
    segs: Seq<Seq<char>>,
    n: Option<NodeView>,
)
    requires
        segs.len() > 0,
        sets(old, new, segs, n),
    ensures
        walk(new, segs.drop_last()) == walk(old, segs.drop_last()),
{
    let init = segs.drop_last();
    assert forall|k: int| 1 <= k <= init.len() implies lookup(new, #[trigger] init.take(k)) == lookup(
        old,
        init.take(k),
    ) by {
        assert(init.take(k).len() != segs.len());
    }
    lemma_walk_agree(new, old, init);
}

/// Paths outside the subtree rooted at `segs` read the same before and
/// after a change at `segs`.
pub proof fn law_change_is_local(
    old: Seq<(Seq<Seq<char>>, NodeView)>,
    new: Seq<(Seq<Seq<char>>, NodeView)>,
    segs: Seq<Seq<char>>,
    n: Option<NodeView>,
    q: Seq<Seq<char>>,
    ticks: u64,
)
    requires
        sets(old, new, segs, n),
        !(segs.len() <= q.len() && q.take(segs.len() as int) == segs),
    ensures
        spec_read(new, q, ticks) == spec_read(old, q, ticks),
        spec_is_dir(new, q) == spec_is_dir(old, q),
{
    assert forall|k: int| 1 <= k <= q.len() implies lookup(new, #[trigger] q.take(k)) == lookup(
        old,
        q.take(k),
    ) by {
        if q.take(k) == segs {
            assert(q.take(k).len() == segs.len());
            assert(q.take(segs.len() as int) =~= q.take(k));
        }
    }
    lemma_walk_agree(new, old, q);
}

/// A file read right after a successful `write_file` holds the data written.
pub proof fn law_read_after_write(
    old: Seq<(Seq<Seq<char>>, NodeView)>,
    new: Seq<(Seq<Seq<char>>, NodeView)>,
    segs: Seq<Seq<char>>,
    data: Seq<u8>,
    ticks: u64,
)
    requires
        spec_write_file(old, segs, data) is Ok,
        applied(old, new, segs, spec_write_file(old, segs, data)),
    ensures
        spec_read(new, segs, ticks) == Ok::<Seq<u8>, FsError>(data),
{
    lemma_walk_parent_unchanged(old, new, segs, Some(NodeView::File(data)));
}

/// `write_file` at `segs` fails exactly when the parent of `segs` is not a
/// directory (missing, a file, or no parent at all) or `segs` names a
/// directory; in every other case (a new name, an existing file) it
/// succeeds, and the path then reads as the data written.
pub proof fn law_write_file_overwrites(
    old: Seq<(Seq<Seq<char>>, NodeView)>,
    new: Seq<(Seq<Seq<char>>, NodeView)>,
    segs: Seq<Seq<char>>,
    data: Seq<u8>,
    ticks: u64,
)
    requires
        applied(old, new, segs, spec_write_file(old, segs, data)),
    ensures
        unit_of(spec_write_file(old, segs, data)) is Ok <==> (segs.len() > 0 && spec_is_dir(old, segs.drop_last()) && lookup(
            old,
            segs,
        ) != Some(NodeView::Dir)),
        unit_of(spec_write_file(old, segs, data)) is Ok ==> spec_read(new, segs, ticks) == Ok::<Seq<u8>, FsError>(data),
        unit_of(spec_write_file(old, segs, data)) is Err ==> new == old,
{
    if unit_of(spec_write_file(old, segs, data)) is Ok {
        law_read_after_write(old, new, segs, data, ticks);
    }
}

/// When the other requests succeed, for every table and path: creating a
/// file and appending to one fail only where the parent is not a directory
/// or the path names a directory; making a directory fails also where the
/// name is taken; removing fails where the parent is not a directory, the
/// name is missing, or it names a directory that still has entries.
pub proof fn law_requests_succeed(es: Seq<(Seq<Seq<char>>, NodeView)>, segs: Seq<Seq<char>>, data: Seq<u8>)
    ensures
        ({
            let parent_dir = segs.len() > 0 && spec_is_dir(es, segs.drop_last());
            &&& unit_of(spec_create_file(es, segs)) is Ok <==> parent_dir && lookup(es, segs) != Some(NodeView::Dir)
            &&& unit_of(spec_append_file(es, segs, data)) is Ok <==> parent_dir && lookup(es, segs) != Some(NodeView::Dir)
            &&& unit_of(spec_create_dir(es, segs)) is Ok <==> parent_dir && lookup(es, segs) is None
            &&& spec_remove(es, segs) is Ok <==> parent_dir && lookup(es, segs) is Some && (lookup(es, segs) == Some(NodeView::Dir)
                ==> !has_child(es, segs))
            &&& parent_dir && lookup(es, segs) is None ==> spec_remove(es, segs) == Err::<(), FsError>(FsError::NotFound)
        }),
{
}

/// A file read right after a successful `append_file` holds its earlier
/// contents (none if it was missing) followed by the data appended.
pub proof fn law_read_after_append(
    old: Seq<(Seq<Seq<char>>, NodeView)>,
    new: Seq<(Seq<Seq<char>>, NodeView)>,
    segs: Seq<Seq<char>>,
    data: Seq<u8>,
    ticks: u64,
)
    requires
        no_special(old),
        spec_append_file(old, segs, data) is Ok,
        applied(old, new, segs, spec_append_file(old, segs, data)),
    ensures
        spec_read(new, segs, ticks) == Ok::<Seq<u8>, FsError>(
            match spec_read(old, segs, ticks) {
                Ok(b) => b + data,
                Err(_) => data,
            },
        ),
{
    let n = spec_append_file(old, segs, data)->Ok_0;
    lemma_walk_parent_unchanged(old, new, segs, Some(n));
    if lookup(old, segs) is Some {
        lemma_lookup_some(old, segs);
        let j = choose|j: int| 0 <= j < old.len() && (#[trigger] old[j]).0 == segs;
        lemma_lookup_index_of_some(old, segs, j);
    }
}

/// A directory made by a successful `create_dir` exists and is empty.
pub proof fn law_created_dir_is_empty(
    old: Seq<(Seq<Seq<char>>, NodeView)>,
    new: Seq<(Seq<Seq<char>>, NodeView)>,
    segs: Seq<Seq<char>>,
)
    requires
        tree_wf(old),
        spec_create_dir(old, segs) is Ok,
        applied(old, new, segs, spec_create_dir(old, segs)),
    ensures
        spec_is_dir(new, segs),
        spec_list(new, segs) == Ok::<Seq<Seq<char>>, FsError>(Seq::empty()),
{
    lemma_walk_parent_unchanged(old, new, segs, Some(NodeView::Dir));
    assert(child_names(new, segs) =~= Seq::<Seq<char>>::empty()) by {
        lemma_no_children_names(old, new, segs);
    }
}

proof fn lemma_no_children_names(
    old: Seq<(Seq<Seq<char>>, NodeView)>,
    new: Seq<(Seq<Seq<char>>, NodeView)>,
    segs: Seq<Seq<char>>,
)
    requires
        tree_wf(old),
        lookup(old, segs) is None,
        segs.len() > 0,
        sets(old, new, segs, Some(NodeView::Dir)),
    ensures
        child_names(new, segs).len() == 0,
{
    // A child of `segs` in `new` is stored in `new` under a path other than
    // `segs`, so `old` stores it too; but `old`'s entries all have directory
    // parents, and `segs` is not in `old`.
    lemma_child_names_len(new, segs);
    if child_names(new, segs).len() > 0 {
        let i = choose|i: int| 0 <= i < new.len() && is_child(segs, (#[trigger] new[i]).0);
        let q = new[i].0;
        lemma_lookup_some(new, q);
        assert(lookup(new, q) is Some);
        assert(q != segs);
        assert(lookup(old, q) is Some);
        lemma_lookup_some(old, q);
        let j = choose|j: int| 0 <= j < old.len() && (#[trigger] old[j]).0 == q;
        assert(node_at(old, old[j].0.drop_last()) == Some(NodeView::Dir));
        assert(q.drop_last() == segs);
    }
}

proof fn lemma_child_names_len(es: Seq<(Seq<Seq<char>>, NodeView)>, p: Seq<Seq<char>>)
    ensures
        child_names(es, p).len() > 0 ==> exists|i: int| 0 <= i < es.len() && is_child(p, (#[trigger] es[i]).0),
    decreases es.len(),
{
    if es.len() > 0 {
        lemma_child_names_len(es.drop_last(), p);
        if child_names(es.drop_last(), p).len() > 0 {
            let i = choose|i: int| 0 <= i < es.drop_last().len() && is_child(p, (#[trigger] es.drop_last()[i]).0);
            assert(es[i] == es.drop_last()[i]);
        }
        if is_child(p, es.last().0) {
            assert(is_child(p, es[es.len() - 1].0));
        }
    }
}

/// After a successful `remove`, the path is gone.
pub proof fn law_removed_is_gone(
    old: Seq<(Seq<Seq<char>>, NodeView)>,
    new: Seq<(Seq<Seq<char>>, NodeView)>,
    segs: Seq<Seq<char>>,
    ticks: u64,
)
    requires
        spec_remove(old, segs) is Ok,
        sets(old, new, segs, None),
    ensures
        spec_read(new, segs, ticks) == Err::<Seq<u8>, FsError>(FsError::NotFound),
        !spec_is_dir(new, segs),
{
    lemma_walk_parent_unchanged(old, new, segs, None);
}

impl TmpFs {
    pub closed spec fn view(&self) -> Seq<(Seq<Seq<char>>, NodeView)> {
        self.tree.view()
    }

    pub closed spec fn wf(&self) -> bool {
        self.tree.wf() && no_special(self.tree.view())
    }

    /// An empty filesystem.
    pub fn new() -> (t: TmpFs)
        ensures
            t.wf(),
            t.view() == Seq::<(Seq<Seq<char>>, NodeView)>::empty(),
    {
        TmpFs { tree: Tree::new() }
    }

    /// The bytes of the file at `rel`.
    pub fn read_file(&self, rel: &str) -> (r: Result<Vec<u8>, FsError>)
        ensures
            match r {
                Ok(v) => spec_read(self.view(), segments(rel@), 0) == Ok::<Seq<u8>, FsError>(v@),
                Err(e) => spec_read(self.view(), segments(rel@), 0) == Err::<Seq<u8>, FsError>(e),
            },
    {
        let segs = path_segments(rel);
        self.tree.read(&segs, 0)
    }

    /// The names in the directory at `rel`, sorted.
    pub fn list_dir(&self, rel: &str) -> (r: Result<Vec<String>, FsError>)
        ensures
            match r {
                Ok(v) => spec_list(self.view(), segments(rel@)) matches Ok(c) && names_sorted(
                    strings_view(v@),
                ) && strings_view(v@).to_multiset() == c.to_multiset(),
                Err(e) => spec_list(self.view(), segments(rel@)) == Err::<Seq<Seq<char>>, FsError>(e),
            },
            r is Ok && self.wf() ==> strings_view(r->Ok_0@).no_duplicates(),
    {
        let segs = path_segments(rel);
        match self.tree.list(&segs) {
            Ok(names) => Ok(strings_of(names)),
            Err(e) => Err(e),
        }
    }

    /// Whether `rel` names a directory.
    pub fn is_dir(&self, rel: &str) -> (r: bool)
        ensures
            r == spec_is_dir(self.view(), segments(rel@)),
    {
        let segs = path_segments(rel);
        self.tree.is_dir(&segs)
    }

    pub fn writable(&self) -> (r: bool)
        ensures
            r,
    {
        true
    }

    pub fn backing(&self) -> (r: &'static str)
        ensures
            r@ == "tmpfs"@,
    {
        "tmpfs"
    }

    /// Store the outcome of a write-like operation.
    fn store(&mut self, segs: Vec<Vec<char>>, n: Node)
        requires
            old(self).wf(),
            spec_parent(old(self).view(), views(segs@)) == Ok::<(), FsError>(()),
            !(n.view() is Special),
            match lookup(old(self).view(), views(segs@)) {
                Some(m) => !is_dir_node(m) && !is_dir_node(n.view()),
                None => true,
            },
        ensures
            final(self).wf(),
            sets(old(self).view(), final(self).view(), views(segs@), Some(n.view())),
    {
        let ghost nv = n.view();
        proof {
            lemma_walk_ok(self.view(), views(segs@).drop_last());
        }
        self.tree.put(segs, n);
        proof {
            lemma_no_special_sets(old(self).view(), self.view(), views(segs@), Some(nv));
        }
    }

    /// Create an empty file at `rel`, or truncate the file there.
    pub fn create_file(&mut self, rel: &str) -> (r: Result<(), FsError>)
        requires
            old(self).wf(),
        ensures
            final(self).wf(),
            r == unit_of(spec_create_file(old(self).view(), segments(rel@))),
            applied(old(self).view(), final(self).view(), segments(rel@), spec_create_file(old(self).view(), segments(rel@))),
    {
        let segs = path_segments(rel);
        match self.tree.parent_ok(&segs) {
            Err(e) => return Err(e),
            Ok(()) => {},
        }
        match self.tree.get(&segs) {
            Some(Node::Dir) => return Err(FsError::IsADir),
            _ => {},
        }
        self.store(segs, Node::File(Vec::new()));
        Ok(())
    }

    /// Make `data` the contents of the file at `rel`.
    pub fn write_file(&mut self, rel: &str, data: &[u8]) -> (r: Result<(), FsError>)
        requires
            old(self).wf(),
        ensures
            final(self).wf(),
            r == unit_of(spec_write_file(old(self).view(), segments(rel@), data@)),
            applied(old(self).view(), final(self).view(), segments(rel@), spec_write_file(old(self).view(), segments(rel@), data@)),
    {
        let segs = path_segments(rel);
        match self.tree.parent_ok(&segs) {
            Err(e) => return Err(e),
            Ok(()) => {},
        }
        match self.tree.get(&segs) {
            Some(Node::Dir) => return Err(FsError::IsADir),
            _ => {},
        }
        let v = slice_to_vec(data);
        self.store(segs, Node::File(v));
        Ok(())
    }

    /// Append `data` to the file at `rel`, creating it if missing.
    pub fn append_file(&mut self, rel: &str, data: &[u8]) -> (r: Result<(), FsError>)
        requires
            old(self).wf(),
        ensures
            final(self).wf(),
            r == unit_of(spec_append_file(old(self).view(), segments(rel@), data@)),
            applied(old(self).view(), final(self).view(), segments(rel@), spec_append_file(old(self).view(), segments(rel@), data@)),
    {
        let segs = path_segments(rel);
        match self.tree.parent_ok(&segs) {
            Err(e) => return Err(e),
            Ok(()) => {},
        }
        let contents = match self.tree.get(&segs) {
            Some(Node::Dir) => return Err(FsError::IsADir),
            Some(Node::File(b)) => {
                let mut c = b.clone();
                let mut extra = slice_to_vec(data);
                c.append(&mut extra);
                c
            },
            _ => slice_to_vec(data),
        };
        self.store(segs, Node::File(contents));
        Ok(())
    }

    /// Create an empty directory at `rel`.
    pub fn create_dir(&mut self, rel: &str) -> (r: Result<(), FsError>)
        requires
            old(self).wf(),
        ensures
            final(self).wf(),
            r == unit_of(spec_create_dir(old(self).view(), segments(rel@))),
            applied(old(self).view(), final(self).view(), segments(rel@), spec_create_dir(old(self).view(), segments(rel@))),
    {
        let segs = path_segments(rel);
        match self.tree.parent_ok(&segs) {
            Err(e) => return Err(e),
            Ok(()) => {},
        }
        match self.tree.get(&segs) {
            Some(_) => return Err(FsError::Io),
            None => {},
        }
        self.store(segs, Node::Dir);
        Ok(())
    }

    /// Remove the file or empty directory at `rel`.
    pub fn remove(&mut self, rel: &str) -> (r: Result<(), FsError>)
        requires
            old(self).wf(),
        ensures
            final(self).wf(),
            r == spec_remove(old(self).view(), segments(rel@)),
            r is Ok ==> sets(old(self).view(), final(self).view(), segments(rel@), None),
            r is Err ==> final(self).view() == old(self).view(),
    {
        let segs = path_segments(rel);
        match self.tree.parent_ok(&segs) {
            Err(e) => return Err(e),
            Ok(()) => {},
        }
        match self.tree.get(&segs) {
            None => return Err(FsError::NotFound),
            Some(Node::Dir) => {
                if self.tree.has_children(&segs) {
                    return Err(FsError::Io);
                }
            },
            Some(_) => {},
        }
        proof {
            if lookup(self.view(), views(segs@)) != Some(NodeView::Dir) {
                // A non-directory has nothing below it: an entry below it
                // would need it to be a directory.
                if has_child(self.view(), views(segs@)) {
                    let es = self.view();
                    let i = choose|i: int| 0 <= i < es.len() && is_child(views(segs@), (#[trigger] es[i]).0);
                    assert(node_at(es, es[i].0.drop_last()) == Some(NodeView::Dir));
                }
            }
        }
        self.tree.delete(&segs);
        proof {
            lemma_no_special_sets(old(self).view(), self.view(), views(segs@), None);
        }
        Ok(())
    }
}

impl Default for TmpFs {
    /// An empty filesystem.
    fn default() -> (t: TmpFs)
        ensures
            t.wf(),
            t.view() == Seq::<(Seq<Seq<char>>, NodeView)>::empty(),
    {
        TmpFs::new()
    }
}

} // verus!
