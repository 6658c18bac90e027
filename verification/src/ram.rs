//! In-memory read-only fallback filesystem.
//!
//! The tree is built by [`seed`]. Synthetic files (like `/proc/uptime`) are
//! evaluated each time they are read. It stands in at `/` when no data disk
//! can be mounted, and is always mounted at `/ram`.

use vstd::prelude::*;
use crate::path::{views, segments, strings_view, path_segments, strings_of, chars_of};
use crate::names::names_sorted;
use crate::tree::{Tree, Node, NodeView, Special, lookup, node_at, sets, spec_read, spec_list, spec_is_dir};
use crate::vfs::FsError;
use vstd::slice::slice_to_vec;
use vstd::string::StringSliceAdditionalSpecFns;

verus! {

pub struct RamFs {
    tree: Tree,
}

impl RamFs {
    pub closed spec fn view(&self) -> Seq<(Seq<Seq<char>>, NodeView)> {
        self.tree.view()
    }

    pub closed spec fn wf(&self) -> bool {
        self.tree.wf()
    }

    /// The bytes of the file at `rel`; synthetic files are computed from
    /// `ticks`, the timer ticks since boot.
    pub fn read_file(&self, rel: &str, ticks: u64) -> (r: Result<Vec<u8>, FsError>)
        ensures
            match r {
                Ok(v) => spec_read(self.view(), segments(rel@), ticks) == Ok::<Seq<u8>, FsError>(v@),
                Err(e) => spec_read(self.view(), segments(rel@), ticks) == Err::<Seq<u8>, FsError>(e),
            },
    {
        let segs = path_segments(rel);
        self.tree.read(&segs, ticks)
    }

    /// The names in the directory at `rel`, sorted.
    pub fn list_dir(&self, rel: &str) -> (r: Result<Vec<String>, FsError>)
        ensures
            match r {
                Ok(v) => spec_list(self.view(), segments(rel@)) matches Ok(c) && names_sorted(
                    strings_view(v@),
                ) && strings_view(v@).to_multiset() == c.to_multiset(),
                Err(e) => spec_list(self.view(), segments(rel@)) == Err::<Seq<Seq<char>>, FsError>(e),
            },
            r is Ok && self.wf() ==> strings_view(r->Ok_0@).no_duplicates(),
    {
        let segs = path_segments(rel);
        match self.tree.list(&segs) {
            Ok(names) => Ok(strings_of(names)),
            Err(e) => Err(e),
        }
    }

    /// Whether `rel` names a directory.
    pub fn is_dir(&self, rel: &str) -> (r: bool)
        ensures
            r == spec_is_dir(self.view(), segments(rel@)),
    {
        let segs = path_segments(rel);
        self.tree.is_dir(&segs)
    }

    pub fn writable(&self) -> (r: bool)
        ensures
            !r,
    {
        false
    }

    pub fn backing(&self) -> (r: &'static str)
        ensures
            r@ == "ramfs (no data disk)"@,
    {
        "ramfs (no data disk)"
    }
}

fn path1(a: &str) -> (r: Vec<Vec<char>>)
    ensures
        views(r@) == seq![a@],
{
    let mut v: Vec<Vec<char>> = Vec::new();
    v.push(chars_of(a));
    assert(views(v@) =~= seq![a@]);
    v
}

fn path2(a: &str, b: &str) -> (r: Vec<Vec<char>>)
    ensures
        views(r@) == seq![a@, b@],
{
    let mut v: Vec<Vec<char>> = Vec::new();
    v.push(chars_of(a));
    v.push(chars_of(b));
    assert(views(v@) =~= seq![a@, b@]);
    v
}

/// The text of `/welcome.txt`.
pub open spec fn welcome_text() -> Seq<u8> {
    "Welcome to Willo!\nType `help`.\n".spec_bytes()
}

/// The text of `/etc/version`.
pub open spec fn version_text() -> Seq<u8> {
    "willo 0.9 (M9)\n".spec_bytes()
}

/// The text of `/etc/motd`.
pub open spec fn motd_text() -> Seq<u8> {
    "the kernel that fits in your head\n".spec_bytes()
}

/// The node [`seed`] stores at each path.
pub open spec fn seed_node(q: Seq<Seq<char>>) -> Option<NodeView> {
    if q == seq!["welcome.txt"@] {
        Some(NodeView::File(welcome_text()))
    } else if q == seq!["etc"@] {
        Some(NodeView::Dir)
    } else if q == seq!["etc"@, "version"@] {
        Some(NodeView::File(version_text()))
    } else if q == seq!["etc"@, "motd"@] {
        Some(NodeView::File(motd_text()))
    } else if q == seq!["proc"@] {
        Some(NodeView::Dir)
    } else if q == seq!["proc"@, "uptime"@] {
        Some(NodeView::Special(Special::Uptime))
    } else if q == seq!["bin"@] {
        Some(NodeView::Dir)
    } else {
        None
    }
}

/// The table [`seed`] builds, entry by entry.
pub open spec fn seed_table() -> Seq<(Seq<Seq<char>>, NodeView)> {
    seq![
        (seq!["welcome.txt"@], NodeView::File(welcome_text())),
        (seq!["etc"@], NodeView::Dir),
        (seq!["etc"@, "version"@], NodeView::File(version_text())),
        (seq!["etc"@, "motd"@], NodeView::File(motd_text())),
        (seq!["proc"@], NodeView::Dir),
        (seq!["proc"@, "uptime"@], NodeView::Special(Special::Uptime)),
        (seq!["bin"@], NodeView::Dir),
    ]
}

/// Build the seed filesystem: `/welcome.txt`, `/etc/{version,motd}`,
/// `/proc/uptime` and an empty `/bin`.
pub fn seed() -> (r: RamFs)
    ensures
        r.wf(),
        forall|q: Seq<Seq<char>>| #[trigger] lookup(r.view(), q) == seed_node(q),
        r.view() == seed_table(),
{
    proof {
        reveal_strlit("welcome.txt");
        reveal_strlit("etc");
        reveal_strlit("version");
        reveal_strlit("motd");
        reveal_strlit("proc");
        reveal_strlit("uptime");
        reveal_strlit("bin");
        assert("welcome.txt"@.len() == 11);
        assert("etc"@.len() == 3 && "etc"@[0] == 'e');
        assert("version"@.len() == 7);
        assert("motd"@.len() == 4 && "motd"@[0] == 'm');
        assert("proc"@.len() == 4 && "proc"@[0] == 'p');
        assert("uptime"@.len() == 6);
        assert("bin"@.len() == 3 && "bin"@[0] == 'b');
    }
    let mut t = Tree::new();
    let ghost t0 = t.view();
    assert(forall|q: Seq<Seq<char>>| #[trigger] lookup(t0, q) is None);

    let p = path1("welcome.txt");
    assert(views(p@).drop_last() =~= Seq::<Seq<char>>::empty());
    t.put(p, Node::File(slice_to_vec("Welcome to Willo!\nType `help`.\n".as_bytes())));
    let ghost t1 = t.view();

    let p = path1("etc");
    assert(views(p@).drop_last() =~= Seq::<Seq<char>>::empty());
    assert(seq!["etc"@] != seq!["welcome.txt"@]) by {
        assert("etc"@.len() == 3);
        assert("welcome.txt"@.len() == 11);
        assert(seq!["etc"@][0] != seq!["welcome.txt"@][0]);
    }
    t.put(p, Node::Dir);
    let ghost t2 = t.view();

    let p = path2("etc", "version");
    assert(views(p@).drop_last() =~= seq!["etc"@]);
    t.put(p, Node::File(slice_to_vec("willo 0.9 (M9)\n".as_bytes())));
    let ghost t3 = t.view();

    let p = path2("etc", "motd");
    assert(views(p@).drop_last() =~= seq!["etc"@]);
    assert(seq!["etc"@, "motd"@] != seq!["etc"@, "version"@]) by {
        assert("motd"@.len() == 4);
        assert("version"@.len() == 7);
        assert(seq!["etc"@, "motd"@][1] != seq!["etc"@, "version"@][1]);
    }
    t.put(p, Node::File(slice_to_vec("the kernel that fits in your head\n".as_bytes())));
    let ghost t4 = t.view();

    let p = path1("proc");
    assert(views(p@).drop_last() =~= Seq::<Seq<char>>::empty());
    assert(seq!["proc"@] != seq!["welcome.txt"@]) by {
        assert(seq!["proc"@][0] != seq!["welcome.txt"@][0]);
    }
    assert(seq!["proc"@] != seq!["etc"@]) by {
        assert(seq!["proc"@][0] != seq!["etc"@][0]);
    }
    t.put(p, Node::Dir);
    let ghost t5 = t.view();

    let p = path2("proc", "uptime");
    assert(views(p@).drop_last() =~= seq!["proc"@]);
    assert(seq!["proc"@, "uptime"@] != seq!["etc"@, "version"@]) by {
        assert(seq!["proc"@, "uptime"@][0] != seq!["etc"@, "version"@][0]);
    }
    assert(seq!["proc"@, "uptime"@] != seq!["etc"@, "motd"@]) by {
        assert(seq!["proc"@, "uptime"@][0] != seq!["etc"@, "motd"@][0]);
    }
    t.put(p, Node::Special(Special::Uptime));
    let ghost t6 = t.view();

    let p = path1("bin");
    assert(views(p@).drop_last() =~= Seq::<Seq<char>>::empty());
    assert(seq!["bin"@] != seq!["welcome.txt"@]) by {
        assert(seq!["bin"@][0] != seq!["welcome.txt"@][0]);
    }
    assert(seq!["bin"@] != seq!["etc"@]) by {
        assert(seq!["bin"@][0] != seq!["etc"@][0]);
    }
    assert(seq!["bin"@] != seq!["proc"@]) by {
        assert(seq!["bin"@][0] != seq!["proc"@][0]);
    }
    t.put(p, Node::Dir);
    assert(t.view() =~= seed_table());
    RamFs { tree: t }
}

} // verus!
