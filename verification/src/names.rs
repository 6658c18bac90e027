//! Ordering of names and sorting of name lists.
//!
//! Names are ordered lexicographically by character (code point), which for
//! UTF-8 text is the same order as comparing their bytes.

use vstd::prelude::*;
use crate::path::views;

verus! {

broadcast use vstd::seq_lib::group_to_multiset_ensures;

/// `a` sorts strictly before `b`.
pub open spec fn name_lt(a: Seq<char>, b: Seq<char>) -> bool
    decreases a.len(),
{
    if a.len() == 0 {
        b.len() > 0
    } else if b.len() == 0 {
        false
    } else if a[0] != b[0] {
        (a[0] as int) < (b[0] as int)
    } else {
        name_lt(a.drop_first(), b.drop_first())
    }
}

pub open spec fn name_le(a: Seq<char>, b: Seq<char>) -> bool {
    a == b || name_lt(a, b)
}

/// `s` is in non-decreasing name order.
pub open spec fn names_sorted(s: Seq<Seq<char>>) -> bool {
    forall|i: int, j: int| 0 <= i < j < s.len() ==> name_le(#[trigger] s[i], #[trigger] s[j])
}

pub proof fn lemma_name_lt_irreflexive(a: Seq<char>)
    ensures
        !name_lt(a, a),
    decreases a.len(),
{
    if a.len() > 0 {
        lemma_name_lt_irreflexive(a.drop_first());
    }
}

/// Any two names are ordered one way or the other.
pub proof fn lemma_name_total(a: Seq<char>, b: Seq<char>)
    ensures
        name_lt(a, b) || a == b || name_lt(b, a),
    decreases a.len(),
{
    if a.len() > 0 && b.len() > 0 && a[0] == b[0] {
        lemma_name_total(a.drop_first(), b.drop_first());
        if a.drop_first() == b.drop_first() {
            assert(a =~= seq![a[0]] + a.drop_first());
            assert(b =~= seq![b[0]] + b.drop_first());
        }
    } else if a.len() == 0 && b.len() == 0 {
        assert(a =~= b);
    }
}

pub proof fn lemma_name_lt_asymmetric(a: Seq<char>, b: Seq<char>)
    ensures
        name_lt(a, b) ==> !name_lt(b, a),
    decreases a.len(),
{
    if a.len() > 0 && b.len() > 0 && a[0] == b[0] {
        lemma_name_lt_asymmetric(a.drop_first(), b.drop_first());
    }
}

pub proof fn lemma_name_lt_transitive(a: Seq<char>, b: Seq<char>, c: Seq<char>)
    requires
        name_lt(a, b),
        name_lt(b, c),
    ensures
        name_lt(a, c),
    decreases a.len(),
{
    if a.len() > 0 && b.len() > 0 && c.len() > 0 && a[0] == b[0] && b[0] == c[0] {
        lemma_name_lt_transitive(a.drop_first(), b.drop_first(), c.drop_first());
    }
}

proof fn lemma_name_le_transitive(a: Seq<char>, b: Seq<char>, c: Seq<char>)
    requires
        name_le(a, b),
        name_le(b, c),
    ensures
        name_le(a, c),
{
    if a != b && b != c {
        lemma_name_lt_transitive(a, b, c);
    }
}

/// Whether `a` sorts strictly before `b`.
pub fn chars_lt(a: &[char], b: &[char]) -> (r: bool)
    ensures
        r == name_lt(a@, b@),
{
    let mut i: usize = 0;
    assert(a@.skip(0) =~= a@);
    assert(b@.skip(0) =~= b@);
    while i < a.len() && i < b.len() && a[i] == b[i]
        invariant
            i <= a@.len(),
            i <= b@.len(),
            name_lt(a@.skip(i as int), b@.skip(i as int)) == name_lt(a@, b@),
        decreases a@.len() - i,
    {
        proof {
            let sa = a@.skip(i as int);
            let sb = b@.skip(i as int);
            assert(sa.drop_first() =~= a@.skip(i + 1));
            assert(sb.drop_first() =~= b@.skip(i + 1));
        }
        i = i + 1;
    }
    proof {
        assert(a@.skip(0) =~= a@);
        assert(b@.skip(0) =~= b@);
    }
    let ghost sa = a@.skip(i as int);
    let ghost sb = b@.skip(i as int);
    if i == a.len() {
        assert(sa.len() == 0);
        i < b.len()
    } else if i == b.len() {
        assert(sa.len() > 0 && sb.len() == 0);
        false
    } else {
        assert(sa[0] == a@[i as int] && sb[0] == b@[i as int]);
        let ca = a[i];
        let cb = b[i];
        ca < cb
    }
}

proof fn lemma_insert_multiset<A>(s: Seq<A>, pos: int, x: A)
    requires
        0 <= pos <= s.len(),
    ensures
        s.insert(pos, x).to_multiset() =~= s.to_multiset().insert(x),
{
    let t = s.insert(pos, x);
    s.insert_ensures(pos, x);
    assert(t.remove(pos) =~= s);
    assert(t[pos] == x);
    assert(t.remove(pos).to_multiset() =~= t.to_multiset().remove(t[pos]));
    assert(t.to_multiset().count(x) > 0) by {
        assert(t.contains(x));
    }
}

/// `names` sorted into non-decreasing order (a stable insertion sort).
pub fn sort_names(names: Vec<Vec<char>>) -> (r: Vec<Vec<char>>)
    ensures
        names_sorted(views(r@)),
        views(r@).to_multiset() == views(names@).to_multiset(),
        r@.len() == names@.len(),
{
    let mut out: Vec<Vec<char>> = Vec::new();
    let mut i: usize = 0;
    while i < names.len()
        invariant
            i <= names@.len(),
            names_sorted(views(out@)),
            views(out@).to_multiset() == views(names@).take(i as int).to_multiset(),
        decreases names@.len() - i,
    {
        let x = names[i].clone();
        let mut pos: usize = 0;
        while pos < out.len() && !chars_lt(x.as_slice(), out[pos].as_slice())
            invariant
                pos <= out@.len(),
                forall|k: int| 0 <= k < pos ==> name_le(#[trigger] views(out@)[k], x@),
            decreases out@.len() - pos,
        {
            proof {
                lemma_name_total(x@, out@[pos as int]@);
            }
            pos = pos + 1;
        }
        let ghost old_out = views(out@);
        out.insert(pos, x);
        proof {
            let o = old_out;
            o.insert_ensures(pos as int, x@);
            assert(views(out@) =~= o.insert(pos as int, x@));
            lemma_insert_multiset(o, pos as int, x@);
            let t = views(names@).take(i + 1);
            assert(t =~= views(names@).take(i as int).push(x@));
            let n = views(out@);
            assert forall|a: int, b: int| 0 <= a < b < n.len() implies name_le(
                #[trigger] n[a],
                #[trigger] n[b],
            ) by {
                if b < pos {
                    assert(n[a] == o[a] && n[b] == o[b]);
                } else if b == pos {
                    assert(n[a] == o[a]);
                } else if a == pos {
                    // x < o[pos] <= o[b - 1]
                    assert(n[b] == o[b - 1]);
                    assert(name_lt(x@, o[pos as int]));
                    if b - 1 > pos {
                        assert(name_le(o[pos as int], o[b - 1]));
                    }
                    lemma_name_le_transitive(x@, o[pos as int], o[b - 1]);
                } else if a < pos {
                    assert(n[a] == o[a] && n[b] == o[b - 1]);
                    if b - 1 > a {
                        assert(name_le(o[a], o[b - 1]));
                    }
                } else {
                    assert(n[a] == o[a - 1] && n[b] == o[b - 1]);
                }
            }
        }
        i = i + 1;
    }
    assert(views(names@).take(names@.len() as int) =~= views(names@));
    proof {
        views(out@).to_multiset_ensures();
        views(names@).to_multiset_ensures();
    }
    out
}

} // verus!
