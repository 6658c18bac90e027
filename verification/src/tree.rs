//! An in-memory file tree, stored as a table of (path, node) entries.
//!
//! The root directory is implicit; every stored entry has a non-empty path
//! (its segments from the root). The table keeps each path at most once and
//! every entry's parent is a directory (the root, or a stored directory).

use vstd::prelude::*;
use crate::path::{views, segments};
use crate::names::{names_sorted, sort_names};
use crate::vfs::FsError;
use crate::fmt::{decimal, ascii_bytes, decimal_chars, ascii_bytes_of};

verus! {

/// Synthetic files whose contents are computed each time they are read.
#[derive(Debug, Clone, Copy, PartialEq, Eq, Structural)]
pub enum Special {
    /// `<ticks> ticks\n`, the timer ticks since boot.
    Uptime,
}

/// A node of the tree: a file, a synthetic file, or a directory.
#[derive(Debug)]
pub enum Node {
    File(Vec<u8>),
    Special(Special),
    Dir,
}

/// The mathematical value of a [`Node`].
pub enum NodeView {
    File(Seq<u8>),
    Special(Special),
    Dir,
}

impl Node {
    pub open spec fn view(&self) -> NodeView {
        match self {
            Node::File(v) => NodeView::File(v@),
            Node::Special(s) => NodeView::Special(*s),
            Node::Dir => NodeView::Dir,
        }
    }
}

pub struct Entry {
    pub path: Vec<Vec<char>>,
    pub node: Node,
}

pub open spec fn entry_view(e: Entry) -> (Seq<Seq<char>>, NodeView) {
    (views(e.path@), e.node.view())
}

pub struct Tree {
    entries: Vec<Entry>,
}

/// The node stored at path `p` in the table `es` (the last entry with that
/// path).
pub open spec fn lookup(es: Seq<(Seq<Seq<char>>, NodeView)>, p: Seq<Seq<char>>) -> Option<NodeView>
    decreases es.len(),
{
    if es.len() == 0 {
        None
    } else if es.last().0 == p {
        Some(es.last().1)
    } else {
        lookup(es.drop_last(), p)
    }
}

/// The node at path `p`: the root is always a directory.
pub open spec fn node_at(es: Seq<(Seq<Seq<char>>, NodeView)>, p: Seq<Seq<char>>) -> Option<NodeView> {
    if p.len() == 0 {
        Some(NodeView::Dir)
    } else {
        lookup(es, p)
    }
}

/// Walking `segs` from the root, segment by segment: a missing segment is
/// `NotFound`, stepping through a non-directory is `NotADir`.
pub open spec fn walk(es: Seq<(Seq<Seq<char>>, NodeView)>, segs: Seq<Seq<char>>) -> Result<NodeView, FsError>
    decreases segs.len(),
{
    if segs.len() == 0 {
        Ok(NodeView::Dir)
    } else {
        match walk(es, segs.drop_last()) {
            Err(e) => Err(e),
            Ok(NodeView::Dir) => match lookup(es, segs) {
                Some(n) => Ok(n),
                None => Err(FsError::NotFound),
            },
            Ok(_) => Err(FsError::NotADir),
        }
    }
}

/// `q` is a direct child path of `p`.
pub open spec fn is_child(p: Seq<Seq<char>>, q: Seq<Seq<char>>) -> bool {
    q.len() == p.len() + 1 && q.drop_last() == p
}

/// The names of the entries of `es` directly below `p`, in table order.
pub open spec fn child_names(es: Seq<(Seq<Seq<char>>, NodeView)>, p: Seq<Seq<char>>) -> Seq<Seq<char>>
    decreases es.len(),
{
    if es.len() == 0 {
        Seq::empty()
    } else if is_child(p, es.last().0) {
        child_names(es.drop_last(), p).push(es.last().0.last())
    } else {
        child_names(es.drop_last(), p)
    }
}

/// In a table of distinct paths, the names directly below `p` are
/// distinct, and each names an entry of the table below `p`.
pub proof fn lemma_child_names_distinct(es: Seq<(Seq<Seq<char>>, NodeView)>, p: Seq<Seq<char>>)
    requires
        forall|i: int, j: int| 0 <= i < j < es.len() ==> (#[trigger] es[i]).0 != (#[trigger] es[j]).0,
    ensures
        child_names(es, p).no_duplicates(),
        forall|x: Seq<char>| #[trigger] child_names(es, p).contains(x) ==> exists|i: int| 0 <= i < es.len() && (#[trigger] es[i]).0 == p.push(x),
    decreases es.len(),
{
    if es.len() > 0 {
        let d = es.drop_last();
        assert forall|i: int, j: int| 0 <= i < j < d.len() implies (#[trigger] d[i]).0 != (#[trigger] d[j]).0 by {
            assert(d[i] == es[i] && d[j] == es[j]);
        }
        lemma_child_names_distinct(d, p);
        let q = es.last().0;
        let c0 = child_names(d, p);
        if is_child(p, q) {
            let y = q.last();
            assert(q =~= p.push(y));
            assert(!c0.contains(y)) by {
                if c0.contains(y) {
                    let i = choose|i: int| 0 <= i < d.len() && (#[trigger] d[i]).0 == p.push(y);
                    assert(es[i] == d[i]);
                    assert(es[es.len() - 1] == es.last());
                }
            }
            assert forall|x: Seq<char>| #[trigger] c0.push(y).contains(x) implies exists|i: int| 0 <= i < es.len() && (#[trigger] es[i]).0
                == p.push(x) by {
                if x == y {
                    assert(es[es.len() - 1].0 == p.push(x));
                } else {
                    assert(c0.contains(x)) by {
                        let k = choose|k: int| 0 <= k < c0.push(y).len() && c0.push(y)[k] == x;
                        assert(k < c0.len());
                        assert(c0[k] == x);
                    }
                    let i = choose|i: int| 0 <= i < d.len() && (#[trigger] d[i]).0 == p.push(x);
                    assert(es[i] == d[i]);
                }
            }
            assert(c0.push(y).no_duplicates()) by {
                assert forall|a: int, b: int| 0 <= a < b < c0.push(y).len() implies c0.push(y)[a] != c0.push(y)[b] by {
                    if b == c0.len() {
                        assert(c0.contains(c0[a]));
                    }
                }
            }
        } else {
            assert forall|x: Seq<char>| #[trigger] c0.contains(x) implies exists|i: int| 0 <= i < es.len() && (#[trigger] es[i]).0
                == p.push(x) by {
                let i = choose|i: int| 0 <= i < d.len() && (#[trigger] d[i]).0 == p.push(x);
                assert(es[i] == d[i]);
            }
        }
    }
}

/// The table is well formed: paths are non-empty and distinct, and every
/// entry's parent is a directory.
pub open spec fn tree_wf(es: Seq<(Seq<Seq<char>>, NodeView)>) -> bool {
    &&& forall|i: int| 0 <= i < es.len() ==> (#[trigger] es[i]).0.len() > 0
    &&& forall|i: int, j: int| 0 <= i < j < es.len() ==> (#[trigger] es[i]).0 != (#[trigger] es[j]).0
    &&& forall|i: int|
        0 <= i < es.len() ==> node_at(es, (#[trigger] es[i]).0.drop_last()) == Some(NodeView::Dir)
}


/// The contents of `/proc/uptime`-style files: `<ticks> ticks\n`.
pub open spec fn uptime_text(ticks: u64) -> Seq<char> {
    decimal(ticks as nat) + seq![' ', 't', 'i', 'c', 'k', 's', '\n']
}

/// Reading the file at `segs`: a directory is `IsADir`; a synthetic file is
/// computed from `ticks`.
pub open spec fn spec_read(es: Seq<(Seq<Seq<char>>, NodeView)>, segs: Seq<Seq<char>>, ticks: u64) -> Result<Seq<u8>, FsError> {
    match walk(es, segs) {
        Err(e) => Err(e),
        Ok(NodeView::File(b)) => Ok(b),
        Ok(NodeView::Special(Special::Uptime)) => Ok(ascii_bytes(uptime_text(ticks))),
        Ok(NodeView::Dir) => Err(FsError::IsADir),
    }
}

/// The outcome of listing `segs`: its child names (to be sorted), or why not.
pub open spec fn spec_list(es: Seq<(Seq<Seq<char>>, NodeView)>, segs: Seq<Seq<char>>) -> Result<Seq<Seq<char>>, FsError> {
    match walk(es, segs) {
        Err(e) => Err(e),
        Ok(NodeView::Dir) => Ok(child_names(es, segs)),
        Ok(_) => Err(FsError::NotADir),
    }
}

pub open spec fn spec_is_dir(es: Seq<(Seq<Seq<char>>, NodeView)>, segs: Seq<Seq<char>>) -> bool {
    walk(es, segs) == Ok::<NodeView, FsError>(NodeView::Dir)
}

/// Whether the parent of `segs` is a directory one can create `segs` in.
pub open spec fn spec_parent(es: Seq<(Seq<Seq<char>>, NodeView)>, segs: Seq<Seq<char>>) -> Result<(), FsError> {
    if segs.len() == 0 {
        Err(FsError::Io)
    } else {
        match walk(es, segs.drop_last()) {
            Err(e) => Err(e),
            Ok(NodeView::Dir) => Ok(()),
            Ok(_) => Err(FsError::NotADir),
        }
    }
}

/// `new` differs from `old` at path `p` only, where it holds `n`.
pub open spec fn sets(
    old: Seq<(Seq<Seq<char>>, NodeView)>,
    new: Seq<(Seq<Seq<char>>, NodeView)>,
    p: Seq<Seq<char>>,
    n: Option<NodeView>,
) -> bool {
    forall|q: Seq<Seq<char>>| #[trigger] lookup(new, q) == if q == p { n } else { lookup(old, q) }
}

/// Some entry of `es` lies directly below `p`.
pub open spec fn has_child(es: Seq<(Seq<Seq<char>>, NodeView)>, p: Seq<Seq<char>>) -> bool {
    exists|i: int| 0 <= i < es.len() && is_child(p, (#[trigger] es[i]).0)
}

pub open spec fn is_dir_node(n: NodeView) -> bool {
    n matches NodeView::Dir
}

/// No entry of `es` is a synthetic file.
pub open spec fn no_special(es: Seq<(Seq<Seq<char>>, NodeView)>) -> bool {
    forall|i: int| 0 <= i < es.len() ==> !((#[trigger] es[i]).1 is Special)
}

// ---------------------------------------------------------------------------
// Lemmas about the table
// ---------------------------------------------------------------------------

pub proof fn lemma_lookup_push(es: Seq<(Seq<Seq<char>>, NodeView)>, e: (Seq<Seq<char>>, NodeView), q: Seq<Seq<char>>)
    ensures
        lookup(es.push(e), q) == if e.0 == q {
            Some(e.1)
        } else {
            lookup(es, q)
        },
{
    assert(es.push(e).drop_last() =~= es);
}

pub proof fn lemma_lookup_some(es: Seq<(Seq<Seq<char>>, NodeView)>, q: Seq<Seq<char>>)
    ensures
        lookup(es, q) is Some <==> exists|i: int| 0 <= i < es.len() && (#[trigger] es[i]).0 == q,
    decreases es.len(),
{
    if es.len() > 0 {
        lemma_lookup_some(es.drop_last(), q);
        if lookup(es.drop_last(), q) is Some {
            let i = choose|i: int| 0 <= i < es.drop_last().len() && (#[trigger] es.drop_last()[i]).0 == q;
            assert(es[i] == es.drop_last()[i]);
        }
        if exists|i: int| 0 <= i < es.len() && (#[trigger] es[i]).0 == q {
            let i = choose|i: int| 0 <= i < es.len() && (#[trigger] es[i]).0 == q;
            if i < es.len() - 1 {
                assert(es.drop_last()[i] == es[i]);
            }
        }
    }
}

/// With distinct paths, the node at the path of entry `i` is entry `i`'s.
pub proof fn lemma_lookup_index(es: Seq<(Seq<Seq<char>>, NodeView)>, i: int)
    requires
        0 <= i < es.len(),
        forall|a: int, b: int| 0 <= a < b < es.len() ==> (#[trigger] es[a]).0 != (#[trigger] es[b]).0,
    ensures
        lookup(es, es[i].0) == Some(es[i].1),
    decreases es.len(),
{
    if i < es.len() - 1 {
        let d = es.drop_last();
        assert(es[i] == d[i]);
        assert(es[i].0 != es[es.len() - 1].0);
        assert forall|a: int, b: int| 0 <= a < b < d.len() implies (#[trigger] d[a]).0 != (
        #[trigger] d[b]).0 by {
            assert(d[a] == es[a] && d[b] == es[b]);
        }
        lemma_lookup_index(d, i);
    }
}

/// Replacing the node of entry `i` changes the lookup of its path only.
pub proof fn lemma_lookup_update(es: Seq<(Seq<Seq<char>>, NodeView)>, i: int, n: NodeView, q: Seq<Seq<char>>)
    requires
        0 <= i < es.len(),
        forall|a: int, b: int| 0 <= a < b < es.len() ==> (#[trigger] es[a]).0 != (#[trigger] es[b]).0,
    ensures
        lookup(es.update(i, (es[i].0, n)), q) == if q == es[i].0 {
            Some(n)
        } else {
            lookup(es, q)
        },
    decreases es.len(),
{
    let u = es.update(i, (es[i].0, n));
    if i == es.len() - 1 {
        assert(u.drop_last() =~= es.drop_last());
        if q == es[i].0 {
        } else {
        }
    } else {
        let d = es.drop_last();
        assert(u.drop_last() =~= d.update(i, (es[i].0, n)));
        assert(d[i] == es[i]);
        assert forall|a: int, b: int| 0 <= a < b < d.len() implies (#[trigger] d[a]).0 != (
        #[trigger] d[b]).0 by {
            assert(d[a] == es[a] && d[b] == es[b]);
        }
        lemma_lookup_update(d, i, n, q);
        assert(es[i].0 != es[es.len() - 1].0);
        assert(u.last() == es.last());
    }
}

/// Removing entry `i` removes its path and nothing else.
pub proof fn lemma_lookup_remove(es: Seq<(Seq<Seq<char>>, NodeView)>, i: int, q: Seq<Seq<char>>)
    requires
        0 <= i < es.len(),
        forall|a: int, b: int| 0 <= a < b < es.len() ==> (#[trigger] es[a]).0 != (#[trigger] es[b]).0,
    ensures
        lookup(es.remove(i), q) == if q == es[i].0 {
            None
        } else {
            lookup(es, q)
        },
    decreases es.len(),
{
    let r = es.remove(i);
    if i == es.len() - 1 {
        assert(r =~= es.drop_last());
        if q == es[i].0 {
            lemma_lookup_some(r, q);
            if lookup(r, q) is Some {
                let k = choose|k: int| 0 <= k < r.len() && (#[trigger] r[k]).0 == q;
                assert(r[k] == es[k]);
            }
        }
    } else {
        let d = es.drop_last();
        assert(r.drop_last() =~= d.remove(i));
        assert(r.last() == es.last());
        assert forall|a: int, b: int| 0 <= a < b < d.len() implies (#[trigger] d[a]).0 != (
        #[trigger] d[b]).0 by {
            assert(d[a] == es[a] && d[b] == es[b]);
        }
        assert(d[i] == es[i]);
        lemma_lookup_remove(d, i, q);
        assert(es[i].0 != es[es.len() - 1].0);
    }
}

/// Walking a path never consults the node at a path that is not one of its
/// prefixes: two tables that agree on all prefixes of `segs` walk alike.
pub proof fn lemma_walk_agree(
    es1: Seq<(Seq<Seq<char>>, NodeView)>,
    es2: Seq<(Seq<Seq<char>>, NodeView)>,
    segs: Seq<Seq<char>>,
)
    requires
        forall|k: int| 1 <= k <= segs.len() ==> lookup(es1, #[trigger] segs.take(k)) == lookup(es2, segs.take(k)),
    ensures
        walk(es1, segs) == walk(es2, segs),
    decreases segs.len(),
{
    if segs.len() > 0 {
        let init = segs.drop_last();
        assert forall|k: int| 1 <= k <= init.len() implies lookup(es1, #[trigger] init.take(k))
            == lookup(es2, init.take(k)) by {
            assert(init.take(k) =~= segs.take(k));
        }
        lemma_walk_agree(es1, es2, init);
        assert(segs.take(segs.len() as int) =~= segs);
    }
}

/// A successful walk finds the node stored at the path.
pub proof fn lemma_walk_ok(es: Seq<(Seq<Seq<char>>, NodeView)>, segs: Seq<Seq<char>>)
    requires
        walk(es, segs) is Ok,
    ensures
        node_at(es, segs) == Some(walk(es, segs)->Ok_0),
{
}

// ---------------------------------------------------------------------------
// Executable code
// ---------------------------------------------------------------------------

/// Whether the path `a` equals the first `n` segments of `b`.
fn path_eq_prefix(a: &Vec<Vec<char>>, b: &[Vec<char>], n: usize) -> (r: bool)
    requires
        n <= b@.len(),
    ensures
        r == (views(a@) == views(b@).take(n as int)),
{
    if a.len() != n {
        assert(views(a@).len() != views(b@).take(n as int).len());
        return false;
    }
    let mut i: usize = 0;
    while i < n
        invariant
            a@.len() == n <= b@.len(),
            i <= n,
            forall|k: int| 0 <= k < i ==> a@[k]@ == b@[k]@,
        decreases n - i,
    {
        if !crate::path::chars_eq(a[i].as_slice(), b[i].as_slice()) {
            assert(views(a@)[i as int] != views(b@).take(n as int)[i as int]);
            return false;
        }
        i = i + 1;
    }
    assert(views(a@) =~= views(b@).take(n as int));
    true
}

impl Tree {
    pub closed spec fn view(&self) -> Seq<(Seq<Seq<char>>, NodeView)> {
        self.entries@.map_values(|e: Entry| entry_view(e))
    }

    pub open spec fn wf(&self) -> bool {
        tree_wf(self.view())
    }

    /// An empty tree: just the root directory.
    pub fn new() -> (t: Tree)
        ensures
            t.wf(),
            t.view() == Seq::<(Seq<Seq<char>>, NodeView)>::empty(),
    {
        let t = Tree { entries: Vec::new() };
        assert(t.view() =~= Seq::<(Seq<Seq<char>>, NodeView)>::empty());
        t
    }

    /// The index of the entry for the first `n` segments of `p`, searching
    /// from the end of the table.
    fn find(&self, p: &[Vec<char>], n: usize) -> (r: Option<usize>)
        requires
            n <= p@.len(),
        ensures
            match r {
                Some(i) => i < self.view().len() && self.view()[i as int].0 == views(p@).take(n as int)
                    && lookup(self.view(), views(p@).take(n as int)) == Some(self.view()[i as int].1),
                None => lookup(self.view(), views(p@).take(n as int)) is None,
            },
    {
        let ghost q = views(p@).take(n as int);
        let mut i: usize = self.entries.len();
        assert(self.view().take(i as int) =~= self.view());
        while i > 0
            invariant
                i <= self.entries@.len(),
                n <= p@.len(),
                q == views(p@).take(n as int),
                lookup(self.view(), q) == lookup(self.view().take(i as int), q),
            decreases i,
        {
            proof {
                let t = self.view().take(i as int);
                assert(t.drop_last() =~= self.view().take(i - 1));
                assert(t.last() == entry_view(self.entries@[i - 1]));
            }
            if path_eq_prefix(&self.entries[i - 1].path, p, n) {
                return Some(i - 1);
            }
            i = i - 1;
        }
        None
    }

    /// Walk the first `n` segments of `segs`: `Ok(None)` for the root,
    /// `Ok(Some(i))` for entry `i`.
    pub(crate) fn walk_prefix(&self, segs: &[Vec<char>], n: usize) -> (r: Result<Option<usize>, FsError>)
        requires
            n <= segs@.len(),
        ensures
            match r {
                Ok(None) => n == 0 && walk(self.view(), views(segs@).take(n as int)) == Ok::<
                    NodeView,
                    FsError,
                >(NodeView::Dir),
                Ok(Some(i)) => i < self.view().len() && walk(self.view(), views(segs@).take(n as int))
                    == Ok::<NodeView, FsError>(self.view()[i as int].1) && self.view()[i as int].0
                    == views(segs@).take(n as int),
                Err(e) => walk(self.view(), views(segs@).take(n as int)) == Err::<NodeView, FsError>(e),
            },
    {
        let mut cur: Option<usize> = None;
        let mut k: usize = 0;
        assert(views(segs@).take(0) =~= Seq::<Seq<char>>::empty());
        while k < n
            invariant
                k <= n <= segs@.len(),
                match cur {
                    None => k == 0 && walk(self.view(), views(segs@).take(k as int)) == Ok::<
                        NodeView,
                        FsError,
                    >(NodeView::Dir),
                    Some(i) => i < self.view().len() && walk(self.view(), views(segs@).take(k as int))
                        == Ok::<NodeView, FsError>(self.view()[i as int].1) && self.view()[i as int].0
                        == views(segs@).take(k as int),
                },
            decreases n - k,
        {
            proof {
                let t = views(segs@).take(k + 1);
                assert(t.drop_last() =~= views(segs@).take(k as int));
            }
            match cur {
                Some(i) => {
                    match &self.entries[i].node {
                        Node::Dir => {},
                        _ => {
                            assert(walk(self.view(), views(segs@).take(k + 1)) == Err::<
                                NodeView,
                                FsError,
                            >(FsError::NotADir));
                            assert(walk(self.view(), views(segs@).take(n as int)) == Err::<
                                NodeView,
                                FsError,
                            >(FsError::NotADir)) by {
                                self.lemma_walk_err_extends(segs@, (k + 1) as int, n as int);
                            }
                            return Err(FsError::NotADir);
                        },
                    }
                },
                None => {},
            }
            match self.find(segs, k + 1) {
                Some(j) => {
                    cur = Some(j);
                },
                None => {
                    assert(walk(self.view(), views(segs@).take(k + 1)) == Err::<NodeView, FsError>(
                        FsError::NotFound,
                    ));
                    assert(walk(self.view(), views(segs@).take(n as int)) == Err::<NodeView, FsError>(
                        FsError::NotFound,
                    )) by {
                        self.lemma_walk_err_extends(segs@, (k + 1) as int, n as int);
                    }
                    return Err(FsError::NotFound);
                },
            }
            k = k + 1;
        }
        Ok(cur)
    }

    proof fn lemma_walk_err_extends(&self, segs: Seq<Vec<char>>, a: int, b: int)
        requires
            0 <= a <= b <= segs.len(),
            walk(self.view(), views(segs).take(a)) is Err,
        ensures
            walk(self.view(), views(segs).take(b)) == walk(self.view(), views(segs).take(a)),
        decreases b - a,
    {
        if b > a {
            self.lemma_walk_err_extends(segs, a, b - 1);
            assert(views(segs).take(b).drop_last() =~= views(segs).take(b - 1));
        }
    }

    /// Read the node at `segs` as a file.
    pub fn read(&self, segs: &Vec<Vec<char>>, ticks: u64) -> (r: Result<Vec<u8>, FsError>)
        ensures
            match r {
                Ok(v) => spec_read(self.view(), views(segs@), ticks) == Ok::<Seq<u8>, FsError>(v@),
                Err(e) => spec_read(self.view(), views(segs@), ticks) == Err::<Seq<u8>, FsError>(e),
            },
    {
        assert(views(segs@).take(segs@.len() as int) =~= views(segs@));
        match self.walk_prefix(segs.as_slice(), segs.len()) {
            Err(e) => Err(e),
            Ok(None) => Err(FsError::IsADir),
            Ok(Some(i)) => match &self.entries[i].node {
                Node::File(b) => Ok(b.clone()),
                Node::Special(Special::Uptime) => {
                    let mut cs = decimal_chars(ticks);
                    let ghost d = cs@;
                    cs.push(' ');
                    cs.push('t');
                    cs.push('i');
                    cs.push('c');
                    cs.push('k');
                    cs.push('s');
                    cs.push('\n');
                    assert(cs@ =~= uptime_text(ticks));
                    Ok(ascii_bytes_of(cs.as_slice()))
                },
                Node::Dir => Err(FsError::IsADir),
            },
        }
    }

    /// Whether the node at `segs` is a directory.
    pub fn is_dir(&self, segs: &Vec<Vec<char>>) -> (r: bool)
        ensures
            r == spec_is_dir(self.view(), views(segs@)),
    {
        assert(views(segs@).take(segs@.len() as int) =~= views(segs@));
        match self.walk_prefix(segs.as_slice(), segs.len()) {
            Err(_) => false,
            Ok(None) => true,
            Ok(Some(i)) => match &self.entries[i].node {
                Node::Dir => true,
                _ => false,
            },
        }
    }

    /// The names of the entries directly below `p`, in table order.
    fn children(&self, p: &Vec<Vec<char>>) -> (r: Vec<Vec<char>>)
        ensures
            views(r@) == child_names(self.view(), views(p@)),
    {
        let mut out: Vec<Vec<char>> = Vec::new();
        let mut i: usize = 0;
        while i < self.entries.len()
            invariant
                i <= self.entries@.len(),
                views(out@) == child_names(self.view().take(i as int), views(p@)),
            decreases self.entries@.len() - i,
        {
            proof {
                let t = self.view().take(i + 1);
                assert(t.drop_last() =~= self.view().take(i as int));
                assert(t.last() == entry_view(self.entries@[i as int]));
            }
            let e = &self.entries[i];
            if e.path.len() > 0 && e.path.len() - 1 == p.len() && path_eq_prefix(p, e.path.as_slice(), p.len()) {
                proof {
                    let ep = views(e.path@);
                    assert(ep.drop_last() =~= ep.take(p@.len() as int));
                }
                let name = e.path[p.len()].clone();
                let ghost before = views(out@);
                out.push(name);
                assert(views(out@) =~= before.push(views(e.path@).last()));
            } else {
                proof {
                    let ep = views(e.path@);
                    if ep.len() == views(p@).len() + 1 {
                        assert(ep.drop_last() =~= ep.take(p@.len() as int));
                    }
                }
            }
            i = i + 1;
        }
        assert(self.view().take(self.entries@.len() as int) =~= self.view());
        out
    }

    /// List the directory at `segs`: its child names in sorted order.
    pub fn list(&self, segs: &Vec<Vec<char>>) -> (r: Result<Vec<Vec<char>>, FsError>)
        ensures
            match r {
                Ok(v) => spec_list(self.view(), views(segs@)) matches Ok(c) && names_sorted(views(v@))
                    && views(v@).to_multiset() == c.to_multiset(),
                Err(e) => spec_list(self.view(), views(segs@)) == Err::<Seq<Seq<char>>, FsError>(e),
            },
            r is Ok && self.wf() ==> views(r->Ok_0@).no_duplicates(),
    {
        if !self.is_dir(segs) {
            assert(views(segs@).take(segs@.len() as int) =~= views(segs@));
            return match self.walk_prefix(segs.as_slice(), segs.len()) {
                Err(e) => Err(e),
                Ok(_) => Err(FsError::NotADir),
            };
        }
        let names = self.children(segs);
        let sorted = sort_names(names);
        proof {
            if self.wf() {
                let c = child_names(self.view(), views(segs@));
                lemma_child_names_distinct(self.view(), views(segs@));
                c.lemma_multiset_has_no_duplicates();
                views(sorted@).lemma_multiset_has_no_duplicates_conv();
            }
        }
        Ok(sorted)
    }

    /// Whether some entry lies directly below `p`.
    pub fn has_children(&self, p: &Vec<Vec<char>>) -> (r: bool)
        ensures
            r == has_child(self.view(), views(p@)),
    {
        let mut i: usize = 0;
        while i < self.entries.len()
            invariant
                i <= self.entries@.len(),
                forall|k: int| 0 <= k < i ==> !is_child(views(p@), (#[trigger] self.view()[k]).0),
            decreases self.entries@.len() - i,
        {
            let e = &self.entries[i];
            proof {
                assert(self.view()[i as int] == entry_view(self.entries@[i as int]));
            }
            if e.path.len() > 0 && e.path.len() - 1 == p.len() && path_eq_prefix(p, e.path.as_slice(), p.len()) {
                proof {
                    let ep = views(e.path@);
                    assert(ep.drop_last() =~= ep.take(p@.len() as int));
                    assert(is_child(views(p@), self.view()[i as int].0));
                }
                return true;
            }
            proof {
                let ep = views(e.path@);
                if ep.len() == views(p@).len() + 1 {
                    assert(ep.drop_last() =~= ep.take(p@.len() as int));
                }
            }
            i = i + 1;
        }
        false
    }

    /// Store `n` at path `p` (inserting it, or replacing a non-directory).
    pub fn put(&mut self, p: Vec<Vec<char>>, n: Node)
        requires
            old(self).wf(),
            p@.len() > 0,
            node_at(old(self).view(), views(p@).drop_last()) == Some(NodeView::Dir),
            match lookup(old(self).view(), views(p@)) {
                Some(m) => !is_dir_node(m) && !is_dir_node(n.view()),
                None => true,
            },
        ensures
            final(self).wf(),
            sets(old(self).view(), final(self).view(), views(p@), Some(n.view())),
            lookup(old(self).view(), views(p@)) is None ==> final(self).view() == old(self).view().push((views(p@), n.view())),
    {
        let ghost pv = views(p@);
        let ghost nv = n.view();
        let ghost old_es = self.view();
        assert(views(p@).take(p@.len() as int) =~= views(p@));
        match self.find(p.as_slice(), p.len()) {
            Some(i) => {
                self.entries[i] = Entry { path: p, node: n };
                assert(self.view() =~= old_es.update(i as int, (pv, nv)));
                proof {
                    assert(old_es[i as int].0 == pv);
                    assert forall|q: Seq<Seq<char>>| #[trigger] lookup(self.view(), q) == if q == pv {
                        Some(nv)
                    } else {
                        lookup(old_es, q)
                    } by {
                        lemma_lookup_update(old_es, i as int, nv, q);
                    }
                    let es = self.view();
                    assert forall|j: int| 0 <= j < es.len() implies node_at(es, (#[trigger] es[j]).0.drop_last())
                        == Some(NodeView::Dir) by {
                        let q = es[j].0.drop_last();
                        assert(es[j].0 == old_es[j].0);
                        assert(node_at(old_es, old_es[j].0.drop_last()) == Some(NodeView::Dir));
                        if q.len() > 0 {
                            lemma_lookup_update(old_es, i as int, nv, q);
                        }
                    }
                    assert forall|a: int, b: int| 0 <= a < b < es.len() implies (#[trigger] es[a]).0
                        != (#[trigger] es[b]).0 by {
                        assert(es[a].0 == old_es[a].0 && es[b].0 == old_es[b].0);
                    }
                    assert forall|a: int| 0 <= a < es.len() implies (#[trigger] es[a]).0.len() > 0 by {
                        assert(es[a].0 == old_es[a].0);
                    }
                }
            },
            None => {
                self.entries.push(Entry { path: p, node: n });
                assert(self.view() =~= old_es.push((pv, nv)));
                proof {
                    assert forall|q: Seq<Seq<char>>| #[trigger] lookup(self.view(), q) == if q == pv {
                        Some(nv)
                    } else {
                        lookup(old_es, q)
                    } by {
                        lemma_lookup_push(old_es, (pv, nv), q);
                    }
                    lemma_lookup_some(old_es, pv);
                    let es = self.view();
                    assert forall|j: int| 0 <= j < es.len() implies node_at(es, (#[trigger] es[j]).0.drop_last())
                        == Some(NodeView::Dir) by {
                        let q = es[j].0.drop_last();
                        if j < old_es.len() {
                            assert(es[j] == old_es[j]);
                            assert(node_at(old_es, old_es[j].0.drop_last()) == Some(NodeView::Dir));
                        }
                        if q.len() > 0 {
                            lemma_lookup_push(old_es, (pv, nv), q);
                        }
                    }
                    assert forall|a: int, b: int| 0 <= a < b < es.len() implies (#[trigger] es[a]).0
                        != (#[trigger] es[b]).0 by {
                        assert(es[a] == old_es[a]);
                        if b < old_es.len() {
                            assert(es[b] == old_es[b]);
                        }
                    }
                    assert forall|a: int| 0 <= a < es.len() implies (#[trigger] es[a]).0.len() > 0 by {
                        if a < old_es.len() {
                            assert(es[a] == old_es[a]);
                        }
                    }
                }
            },
        }
    }

    /// Remove the entry at path `p`, which has no entries below it.
    pub fn delete(&mut self, p: &Vec<Vec<char>>)
        requires
            old(self).wf(),
            lookup(old(self).view(), views(p@)) is Some,
            !has_child(old(self).view(), views(p@)),
        ensures
            final(self).wf(),
            sets(old(self).view(), final(self).view(), views(p@), None),
    {
        let ghost pv = views(p@);
        let ghost old_es = self.view();
        assert(views(p@).take(p@.len() as int) =~= views(p@));
        match self.find(p.as_slice(), p.len()) {
            Some(i) => {
                self.entries.remove(i);
                assert(self.view() =~= old_es.remove(i as int));
                proof {
                    let es = self.view();
                    old_es.remove_ensures(i as int);
                    assert forall|q: Seq<Seq<char>>| #[trigger] lookup(es, q) == if q == pv {
                        None
                    } else {
                        lookup(old_es, q)
                    } by {
                        lemma_lookup_remove(old_es, i as int, q);
                    }
                    assert forall|j: int| 0 <= j < es.len() implies node_at(es, (#[trigger] es[j]).0.drop_last())
                        == Some(NodeView::Dir) by {
                        let jj = if j < i { j } else { j + 1 };
                        assert(es[j] == old_es[jj]);
                        let q = es[j].0.drop_last();
                        assert(node_at(old_es, old_es[jj].0.drop_last()) == Some(NodeView::Dir));
                        if q == pv {
                            assert(is_child(pv, old_es[jj].0));
                        }
                        if q.len() > 0 {
                            lemma_lookup_remove(old_es, i as int, q);
                        }
                    }
                    assert forall|a: int, b: int| 0 <= a < b < es.len() implies (#[trigger] es[a]).0
                        != (#[trigger] es[b]).0 by {
                        let aa = if a < i { a } else { a + 1 };
                        let bb = if b < i { b } else { b + 1 };
                        assert(es[a] == old_es[aa] && es[b] == old_es[bb]);
                    }
                    assert forall|a: int| 0 <= a < es.len() implies (#[trigger] es[a]).0.len() > 0 by {
                        let aa = if a < i { a } else { a + 1 };
                        assert(es[a] == old_es[aa]);
                    }
                }
            },
            None => {},
        }
    }

    /// The node stored at path `p`.
    pub fn get(&self, p: &Vec<Vec<char>>) -> (r: Option<&Node>)
        ensures
            match r {
                Some(n) => lookup(self.view(), views(p@)) == Some(n.view()),
                None => lookup(self.view(), views(p@)) is None,
            },
    {
        assert(views(p@).take(p@.len() as int) =~= views(p@));
        match self.find(p.as_slice(), p.len()) {
            Some(i) => Some(&self.entries[i].node),
            None => None,
        }
    }

    /// Whether the parent of `segs` is a directory (see [`spec_parent`]).
    pub fn parent_ok(&self, segs: &Vec<Vec<char>>) -> (r: Result<(), FsError>)
        ensures
            r == spec_parent(self.view(), views(segs@)),
    {
        if segs.len() == 0 {
            return Err(FsError::Io);
        }
        assert(views(segs@).take(segs@.len() - 1) =~= views(segs@).drop_last());
        match self.walk_prefix(segs.as_slice(), segs.len() - 1) {
            Err(e) => Err(e),
            Ok(None) => Ok(()),
            Ok(Some(i)) => match &self.entries[i].node {
                Node::Dir => Ok(()),
                _ => Err(FsError::NotADir),
            },
        }
    }
}

} // verus!
