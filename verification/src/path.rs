//! Path utilities shared by the VFS and its backends.
//!
//! Paths are handled as character sequences. A path is split into
//! *segments*: the non-empty runs of characters between `/` separators.

use vstd::prelude::*;

verus! {

// ---------------------------------------------------------------------------
// Specification
// ---------------------------------------------------------------------------

/// Scan `s` left to right: the completed non-empty segments so far, and the
/// segment still being read.
pub open spec fn seg_scan(s: Seq<char>) -> (Seq<Seq<char>>, Seq<char>)
    decreases s.len(),
{
    if s.len() == 0 {
        (Seq::empty(), Seq::empty())
    } else {
        let (done, cur) = seg_scan(s.drop_last());
        if s.last() == '/' {
            if cur.len() > 0 {
                (done.push(cur), Seq::empty())
            } else {
                (done, Seq::empty())
            }
        } else {
            (done, cur.push(s.last()))
        }
    }
}

/// The non-empty pieces of `s` between `/` separators, in order.
pub open spec fn segments(s: Seq<char>) -> Seq<Seq<char>> {
    let (done, cur) = seg_scan(s);
    if cur.len() > 0 {
        done.push(cur)
    } else {
        done
    }
}

/// The character sequences held by a vector of character vectors.
pub open spec fn views(v: Seq<Vec<char>>) -> Seq<Seq<char>> {
    v.map_values(|x: Vec<char>| x@)
}

/// The character sequences held by a vector of strings.
pub open spec fn strings_view(v: Seq<String>) -> Seq<Seq<char>> {
    v.map_values(|s: String| s@)
}

pub open spec fn dot() -> Seq<char> {
    seq!['.']
}

pub open spec fn dotdot() -> Seq<char> {
    seq!['.', '.']
}

/// One step of path resolution: `.` stays, `..` pops (never past the root),
/// anything else is pushed.
pub open spec fn resolve_step(stack: Seq<Seq<char>>, seg: Seq<char>) -> Seq<Seq<char>> {
    if seg == dot() {
        stack
    } else if seg == dotdot() {
        if stack.len() > 0 {
            stack.drop_last()
        } else {
            stack
        }
    } else {
        stack.push(seg)
    }
}

/// Resolve every segment of `segs` in turn, starting from `stack`.
pub open spec fn resolve(stack: Seq<Seq<char>>, segs: Seq<Seq<char>>) -> Seq<Seq<char>>
    decreases segs.len(),
{
    if segs.len() == 0 {
        stack
    } else {
        resolve_step(resolve(stack, segs.drop_last()), segs.last())
    }
}

/// `/a/b/c` for the segments `a`, `b`, `c` (the empty sequence for none).
pub open spec fn join_segs(segs: Seq<Seq<char>>) -> Seq<char>
    decreases segs.len(),
{
    if segs.len() == 0 {
        Seq::empty()
    } else {
        join_segs(segs.drop_last()) + seq!['/'] + segs.last()
    }
}

/// The absolute path of a resolved segment stack: `/` for the empty stack.
pub open spec fn abs_of(segs: Seq<Seq<char>>) -> Seq<char> {
    if segs.len() == 0 {
        seq!['/']
    } else {
        join_segs(segs)
    }
}

pub open spec fn starts_with_slash(s: Seq<char>) -> bool {
    s.len() > 0 && s[0] == '/'
}

/// `input` resolved against `cwd`: an absolute input ignores `cwd`, a
/// relative one starts from the segments of `cwd` (taken verbatim).
pub open spec fn spec_normalize(cwd: Seq<char>, input: Seq<char>) -> Seq<char> {
    let base = if starts_with_slash(input) {
        Seq::<Seq<char>>::empty()
    } else {
        segments(cwd)
    };
    abs_of(resolve(base, segments(input)))
}

/// `p` without its trailing run of `/` (so `/` and the empty path both
/// become the empty path).
pub open spec fn trim_trailing_slashes(p: Seq<char>) -> Seq<char>
    decreases p.len(),
{
    if p.len() > 0 && p.last() == '/' {
        trim_trailing_slashes(p.drop_last())
    } else {
        p
    }
}

pub open spec fn no_slash(s: Seq<char>) -> bool {
    forall|i: int| 0 <= i < s.len() ==> s[i] != '/'
}

/// A segment as it can stand in a canonical path: non-empty, without `/`,
/// and neither `.` nor `..`.
pub open spec fn plain_segment(s: Seq<char>) -> bool {
    s.len() > 0 && no_slash(s) && s != dot() && s != dotdot()
}

/// The direct child name of `parent` (a canonical prefix, `""` for the root)
/// that the mount prefix `child` names, if `child` lies one level below it.
pub open spec fn spec_direct_child(parent: Seq<char>, child: Seq<char>) -> Option<Seq<char>> {
    if child.len() == 0 {
        None
    } else if !(parent.len() + 1 <= child.len() && child.take(parent.len() as int) == parent
        && child[parent.len() as int] == '/') {
        None
    } else {
        let rest = child.skip(parent.len() as int + 1);
        if rest.len() == 0 || !no_slash(rest) {
            None
        } else {
            Some(rest)
        }
    }
}

/// The mount prefix one level below `parent` (a canonical prefix, `""`
/// for the root) named `n` — `parent`, a `/`, then `n` — has `n` as its
/// direct child name, for every non-empty `n` without a `/`; and those are
/// the only prefixes that name a direct child.
pub proof fn law_direct_child_is_last_segment(parent: Seq<char>, child: Seq<char>, n: Seq<char>)
    ensures
        child == parent + seq!['/'] + n && n.len() > 0 && no_slash(n) ==> spec_direct_child(parent, child) == Some(n),
        spec_direct_child(parent, child) == Some(n) ==> child == parent + seq!['/'] + n && n.len() > 0 && no_slash(n),
{
    if child == parent + seq!['/'] + n && n.len() > 0 && no_slash(n) {
        assert(child.take(parent.len() as int) =~= parent);
        assert(child[parent.len() as int] == '/');
        assert(child.skip(parent.len() as int + 1) =~= n);
    }
    if spec_direct_child(parent, child) == Some(n) {
        assert(child =~= parent + seq!['/'] + n) by {
            assert(child.take(parent.len() as int) == parent);
            assert forall|i: int| 0 <= i < child.len() implies child[i] == (parent + seq!['/'] + n)[i] by {
                if i < parent.len() {
                    assert(child[i] == child.take(parent.len() as int)[i]);
                } else if i > parent.len() {
                    assert(child[i] == child.skip(parent.len() as int + 1)[i - parent.len() - 1]);
                }
            }
        }
    }
}

// ---------------------------------------------------------------------------
// Lemmas
// ---------------------------------------------------------------------------

/// A trailing `/` adds no segment.
pub proof fn lemma_segments_drop_slash(x: Seq<char>)
    requires
        x.len() > 0,
        x.last() == '/',
    ensures
        segments(x) == segments(x.drop_last()),
{
}

/// Trailing slashes add no segment.
pub proof fn lemma_segments_trim(x: Seq<char>)
    ensures
        segments(trim_trailing_slashes(x)) == segments(x),
    decreases x.len(),
{
    if x.len() > 0 && x.last() == '/' {
        lemma_segments_drop_slash(x);
        lemma_segments_trim(x.drop_last());
    }
}

/// Characters without `/` extend the segment being read.
pub proof fn lemma_seg_scan_append_plain(base: Seq<char>, name: Seq<char>)
    requires
        no_slash(name),
    ensures
        seg_scan(base + name) == (seg_scan(base).0, seg_scan(base).1 + name),
    decreases name.len(),
{
    if name.len() == 0 {
        assert(base + name =~= base);
        assert(seg_scan(base).1 + name =~= seg_scan(base).1);
    } else {
        let shorter = name.drop_last();
        lemma_seg_scan_append_plain(base, shorter);
        assert((base + name).drop_last() =~= base + shorter);
        assert((base + name).last() == name.last());
        assert(name.last() != '/') by {
            assert(name[name.len() - 1] != '/');
        }
        assert(seg_scan(base).1 + shorter + seq![name.last()] =~= seg_scan(base).1 + name);
        assert((seg_scan(base).1 + shorter).push(name.last()) =~= seg_scan(base).1 + name);
    }
}

/// The segments of `dir` + `/` + `name` (a name without `/`): those of `dir`,
/// then `name`.
pub proof fn lemma_segments_child(dir: Seq<char>, name: Seq<char>)
    requires
        no_slash(name),
        name.len() > 0,
    ensures
        segments(dir + seq!['/'] + name) == segments(dir).push(name),
{
    let base = dir.push('/');
    assert(base.drop_last() =~= dir);
    lemma_seg_scan_append_plain(base, name);
    assert(dir + seq!['/'] + name =~= base + name);
}

proof fn lemma_seg_scan_shape(s: Seq<char>)
    ensures
        ({
            let (done, cur) = seg_scan(s);
            &&& forall|i: int| 0 <= i < done.len() ==> #[trigger] done[i].len() > 0 && no_slash(done[i])
            &&& no_slash(cur)
        }),
    decreases s.len(),
{
    if s.len() > 0 {
        lemma_seg_scan_shape(s.drop_last());
    }
}

/// Every segment is non-empty and free of `/`.
pub proof fn lemma_segments_shape(s: Seq<char>)
    ensures
        forall|i: int|
            0 <= i < segments(s).len() ==> #[trigger] segments(s)[i].len() > 0 && no_slash(
                segments(s)[i],
            ),
{
    lemma_seg_scan_shape(s);
}

proof fn lemma_seg_scan_after_slash(j: Seq<char>, x: Seq<char>)
    requires
        no_slash(x),
    ensures
        seg_scan(j + seq!['/'] + x) == (segments(j), x),
    decreases x.len(),
{
    if x.len() == 0 {
        assert(j + seq!['/'] + x =~= j.push('/'));
        assert((j.push('/')).drop_last() =~= j);
    } else {
        let y = x.drop_last();
        lemma_seg_scan_after_slash(j, y);
        assert((j + seq!['/'] + x).drop_last() =~= j + seq!['/'] + y);
    }
}

/// Splitting the join of plain-shaped segments gives the segments back.
pub proof fn lemma_segments_of_join(st: Seq<Seq<char>>)
    requires
        forall|i: int| 0 <= i < st.len() ==> #[trigger] st[i].len() > 0 && no_slash(st[i]),
    ensures
        segments(join_segs(st)) == st,
    decreases st.len(),
{
    if st.len() == 0 {
        assert(seg_scan(Seq::<char>::empty()) == (Seq::<Seq<char>>::empty(), Seq::<char>::empty()));
    } else {
        let init = st.drop_last();
        lemma_segments_of_join(init);
        lemma_seg_scan_after_slash(join_segs(init), st.last());
        assert(st =~= init.push(st.last()));
    }
}

proof fn lemma_resolve_plain(st: Seq<Seq<char>>)
    requires
        forall|i: int| 0 <= i < st.len() ==> plain_segment(#[trigger] st[i]),
    ensures
        resolve(Seq::empty(), st) == st,
    decreases st.len(),
{
    if st.len() > 0 {
        lemma_resolve_plain(st.drop_last());
        assert(plain_segment(st[st.len() - 1]));
        assert(st.drop_last().push(st.last()) =~= st);
    }
}

proof fn lemma_resolve_keeps_plain(base: Seq<Seq<char>>, segs: Seq<Seq<char>>)
    requires
        forall|i: int| 0 <= i < base.len() ==> plain_segment(#[trigger] base[i]),
        forall|i: int| 0 <= i < segs.len() ==> #[trigger] segs[i].len() > 0 && no_slash(segs[i]),
    ensures
        forall|i: int|
            0 <= i < resolve(base, segs).len() ==> plain_segment(#[trigger] resolve(base, segs)[i]),
    decreases segs.len(),
{
    if segs.len() > 0 {
        let init = segs.drop_last();
        assert forall|i: int| 0 <= i < init.len() implies #[trigger] init[i].len() > 0 && no_slash(
            init[i],
        ) by {
            assert(init[i] == segs[i]);
        }
        lemma_resolve_keeps_plain(base, init);
        let r = resolve(base, init);
        let s = segs.last();
        assert(s.len() > 0 && no_slash(s)) by {
            assert(s == segs[segs.len() - 1]);
        }
        if s == dot() {
        } else if s == dotdot() {
            if r.len() > 0 {
                assert forall|i: int| 0 <= i < r.drop_last().len() implies plain_segment(
                    #[trigger] r.drop_last()[i],
                ) by {
                    assert(r.drop_last()[i] == r[i]);
                }
            }
        } else {
            assert forall|i: int| 0 <= i < r.push(s).len() implies plain_segment(
                #[trigger] r.push(s)[i],
            ) by {
                if i < r.len() {
                    assert(r.push(s)[i] == r[i]);
                }
            }
        }
    }
}

/// The segments of a path whose segments are plain.
pub open spec fn plain_path(p: Seq<char>) -> bool {
    forall|i: int| 0 <= i < segments(p).len() ==> plain_segment(#[trigger] segments(p)[i])
}

/// The result of `normalize` is absolute, and its segments are plain
/// whenever those of `cwd` are.
pub proof fn law_normalize_canonical(cwd: Seq<char>, input: Seq<char>)
    requires
        plain_path(cwd),
    ensures
        starts_with_slash(spec_normalize(cwd, input)),
        plain_path(spec_normalize(cwd, input)),
        spec_normalize(cwd, input) == abs_of(segments(spec_normalize(cwd, input))),
{
    let base = if starts_with_slash(input) {
        Seq::<Seq<char>>::empty()
    } else {
        segments(cwd)
    };
    lemma_segments_shape(input);
    lemma_resolve_keeps_plain(base, segments(input));
    let st = resolve(base, segments(input));
    if st.len() == 0 {
        assert(seq!['/'] =~= Seq::<char>::empty().push('/'));
        assert(segments(seq!['/']) =~= Seq::<Seq<char>>::empty()) by {
            let sl = seq!['/'];
            assert(sl.len() == 1);
            assert(sl.drop_last() =~= Seq::<char>::empty());
            assert(sl.last() == '/');
            assert(seg_scan(Seq::<char>::empty()) == (Seq::<Seq<char>>::empty(), Seq::<char>::empty()));
            assert(seg_scan(sl) == (Seq::<Seq<char>>::empty(), Seq::<char>::empty()));
        }
    } else {
        assert forall|i: int| 0 <= i < st.len() implies #[trigger] st[i].len() > 0 && no_slash(
            st[i],
        ) by {
            assert(plain_segment(st[i]));
        }
        lemma_segments_of_join(st);
        lemma_join_starts_with_slash(st);
    }
}

proof fn lemma_join_starts_with_slash(st: Seq<Seq<char>>)
    requires
        st.len() > 0,
    ensures
        starts_with_slash(join_segs(st)),
    decreases st.len(),
{
    let init = st.drop_last();
    if init.len() > 0 {
        lemma_join_starts_with_slash(init);
        assert((join_segs(init) + seq!['/'] + st.last())[0] == join_segs(init)[0]);
    } else {
        assert(join_segs(init) =~= Seq::<char>::empty());
        assert((join_segs(init) + seq!['/'] + st.last())[0] == '/');
    }
}

/// Normalizing a normalized path changes nothing (for a `cwd` whose
/// segments are plain, as every `cwd` the shell reaches is).
pub proof fn law_normalize_idempotent(cwd: Seq<char>, input: Seq<char>)
    requires
        plain_path(cwd),
    ensures
        spec_normalize(cwd, spec_normalize(cwd, input)) == spec_normalize(cwd, input),
{
    let n = spec_normalize(cwd, input);
    law_normalize_canonical(cwd, input);
    lemma_resolve_plain(segments(n));
}

/// An absolute input resolves the same way from every working directory.
pub proof fn law_normalize_absolute_ignores_cwd(cwd1: Seq<char>, cwd2: Seq<char>, input: Seq<char>)
    requires
        starts_with_slash(input),
    ensures
        spec_normalize(cwd1, input) == spec_normalize(cwd2, input),
{
}

// ---------------------------------------------------------------------------
// Executable code
// ---------------------------------------------------------------------------

/// Appends `c` to `s` (std's `String::push`).
#[verifier::external_body]
pub(crate) fn push_char(s: &mut String, c: char)
    ensures
        final(s)@ == old(s)@.push(c),
{
    s.push(c);
}

/// The characters of `s`, in order.
pub fn chars_of(s: &str) -> (r: Vec<char>)
    ensures
        r@ == s@,
{
    let mut out: Vec<char> = Vec::new();
    for c in it: s.chars()
        invariant
            out@ == it.seq().take(it.index() as int),
            it.seq() == s@,
    {
        out.push(c);
    }
    out
}

/// A `String` holding the characters of `cs`.
pub fn string_of(cs: &[char]) -> (r: String)
    ensures
        r@ == cs@,
{
    let mut out = String::new();
    let mut i: usize = 0;
    while i < cs.len()
        invariant
            i <= cs@.len(),
            out@ == cs@.take(i as int),
        decreases cs@.len() - i,
    {
        push_char(&mut out, cs[i]);
        i = i + 1;
        assert(out@ =~= cs@.take(i as int));
    }
    assert(cs@.take(cs@.len() as int) =~= cs@);
    out
}

/// Appends the characters of `cs` to `out`.
pub fn push_chars(out: &mut String, cs: &[char])
    ensures
        final(out)@ == old(out)@ + cs@,
{
    let mut i: usize = 0;
    while i < cs.len()
        invariant
            i <= cs@.len(),
            out@ == old(out)@ + cs@.take(i as int),
        decreases cs@.len() - i,
    {
        push_char(out, cs[i]);
        i = i + 1;
        assert(out@ =~= old(out)@ + cs@.take(i as int));
    }
    assert(cs@.take(cs@.len() as int) =~= cs@);
}

/// Appends the characters of `s` to `out`.
pub fn push_str_chars(out: &mut String, s: &str)
    ensures
        final(out)@ == old(out)@ + s@,
{
    let cs = chars_of(s);
    push_chars(out, cs.as_slice());
}

/// The segments of the path `s`.
pub fn path_segments(s: &str) -> (r: Vec<Vec<char>>)
    ensures
        views(r@) == segments(s@),
{
    let cs = chars_of(s);
    segments_of(cs.as_slice())
}

/// Strings holding the given character sequences.
pub fn strings_of(v: Vec<Vec<char>>) -> (r: Vec<String>)
    ensures
        strings_view(r@) == views(v@),
{
    let mut out: Vec<String> = Vec::new();
    let mut i: usize = 0;
    while i < v.len()
        invariant
            i <= v@.len(),
            strings_view(out@) == views(v@).take(i as int),
        decreases v@.len() - i,
    {
        let s = string_of(v[i].as_slice());
        let ghost before = strings_view(out@);
        let ghost sv = s@;
        out.push(s);
        assert(strings_view(out@) =~= before.push(sv));
        assert(views(v@).take(i + 1) =~= views(v@).take(i as int).push(v@[i as int]@));
        i = i + 1;
    }
    assert(views(v@).take(v@.len() as int) =~= views(v@));
    out
}

/// Whether the character sequences `a` and `b` are equal.
pub fn chars_eq(a: &[char], b: &[char]) -> (r: bool)
    ensures
        r == (a@ == b@),
{
    if a.len() != b.len() {
        return false;
    }
    let mut i: usize = 0;
    while i < a.len()
        invariant
            a@.len() == b@.len(),
            i <= a@.len(),
            forall|k: int| 0 <= k < i ==> a@[k] == b@[k],
        decreases a@.len() - i,
    {
        if a[i] != b[i] {
            return false;
        }
        i = i + 1;
    }
    assert(a@ =~= b@);
    true
}

/// The segments of `s` (see [`segments`]).
pub fn segments_of(s: &[char]) -> (r: Vec<Vec<char>>)
    ensures
        views(r@) == segments(s@),
{
    let mut done: Vec<Vec<char>> = Vec::new();
    let mut cur: Vec<char> = Vec::new();
    let mut i: usize = 0;
    while i < s.len()
        invariant
            i <= s@.len(),
            (views(done@), cur@) == seg_scan(s@.take(i as int)),
        decreases s@.len() - i,
    {
        let c = s[i];
        proof {
            assert(s@.take(i + 1).drop_last() =~= s@.take(i as int));
            assert(s@.take(i + 1).last() == c);
        }
        let ghost old_done = views(done@);
        let ghost old_cur = cur@;
        if c == '/' {
            if cur.len() > 0 {
                let piece = cur;
                done.push(piece);
                assert(views(done@) =~= old_done.push(old_cur));
                cur = Vec::new();
            }
        } else {
            cur.push(c);
        }
        i = i + 1;
        assert(views(done@) =~= seg_scan(s@.take(i as int)).0);
        assert(cur@ =~= seg_scan(s@.take(i as int)).1);
    }
    assert(s@.take(s@.len() as int) =~= s@);
    assert((views(done@), cur@) == seg_scan(s@));
    let ghost d0 = views(done@);
    let ghost c0 = cur@;
    if cur.len() > 0 {
        done.push(cur);
        assert(views(done@) =~= d0.push(c0));
    }
    done
}

fn is_dot(seg: &[char]) -> (r: bool)
    ensures
        r == (seg@ == dot()),
{
    seg.len() == 1 && seg[0] == '.' && {
        assert(seg@ =~= dot());
        true
    }
}

fn is_dotdot(seg: &[char]) -> (r: bool)
    ensures
        r == (seg@ == dotdot()),
{
    if seg.len() == 2 && seg[0] == '.' && seg[1] == '.' {
        assert(seg@ =~= dotdot());
        true
    } else {
        false
    }
}

/// `/a/b/c` built from the segments `a`, `b`, `c`; `/` for none.
pub fn abs_path_of(segs: &Vec<Vec<char>>) -> (r: String)
    ensures
        r@ == abs_of(views(segs@)),
{
    if segs.len() == 0 {
        let mut out = String::new();
        push_char(&mut out, '/');
        assert(out@ =~= seq!['/']);
        return out;
    }
    let mut out = String::new();
    let mut i: usize = 0;
    while i < segs.len()
        invariant
            i <= segs@.len(),
            out@ == join_segs(views(segs@).take(i as int)),
        decreases segs@.len() - i,
    {
        push_char(&mut out, '/');
        push_chars(&mut out, segs[i].as_slice());
        proof {
            let t = views(segs@).take(i + 1);
            assert(t.drop_last() =~= views(segs@).take(i as int));
            assert(t.last() == segs[i as int]@);
        }
        i = i + 1;
    }
    assert(views(segs@).take(segs@.len() as int) =~= views(segs@));
    out
}

/// Resolve `input` (absolute or relative) against `cwd` into a canonical
/// absolute path, handling `.`, `..` and runs of `/`.
pub fn normalize(cwd: &str, input: &str) -> (r: String)
    ensures
        r@ == spec_normalize(cwd@, input@),
{
    let cwd_cs = chars_of(cwd);
    let input_cs = chars_of(input);
    let absolute = input_cs.len() > 0 && input_cs[0] == '/';
    let mut stack: Vec<Vec<char>> = if absolute {
        Vec::new()
    } else {
        segments_of(cwd_cs.as_slice())
    };
    let ghost base = views(stack@);
    assert(base == if starts_with_slash(input@) {
        Seq::<Seq<char>>::empty()
    } else {
        segments(cwd@)
    });
    let segs = segments_of(input_cs.as_slice());
    let mut i: usize = 0;
    while i < segs.len()
        invariant
            i <= segs@.len(),
            views(segs@) == segments(input@),
            views(stack@) == resolve(base, views(segs@).take(i as int)),
        decreases segs@.len() - i,
    {
        let seg = &segs[i];
        proof {
            let t = views(segs@).take(i + 1);
            assert(t.drop_last() =~= views(segs@).take(i as int));
            assert(t.last() == seg@);
        }
        if is_dot(seg.as_slice()) {
        } else if is_dotdot(seg.as_slice()) {
            if stack.len() > 0 {
                stack.pop();
                assert(views(stack@) =~= resolve(base, views(segs@).take(i as int)).drop_last());
            }
        } else {
            let piece = seg.clone();
            stack.push(piece);
            assert(views(stack@) =~= resolve(base, views(segs@).take(i as int)).push(seg@));
        }
        i = i + 1;
    }
    assert(views(segs@).take(segs@.len() as int) =~= views(segs@));
    abs_path_of(&stack)
}

/// `p` without trailing `/` characters; `/` and the empty path both give
/// the empty path (the key of the root mount).
pub fn canonical_prefix(p: &[char]) -> (r: Vec<char>)
    ensures
        r@ == trim_trailing_slashes(p@),
{
    let mut n: usize = p.len();
    assert(p@.take(n as int) =~= p@);
    while n > 0 && p[n - 1] == '/'
        invariant
            n <= p@.len(),
            trim_trailing_slashes(p@.take(n as int)) == trim_trailing_slashes(p@),
        decreases n,
    {
        proof {
            assert(p@.take(n as int).drop_last() =~= p@.take(n - 1));
        }
        n = n - 1;
    }
    let mut out: Vec<char> = Vec::new();
    let mut i: usize = 0;
    while i < n
        invariant
            i <= n <= p@.len(),
            out@ == p@.take(i as int),
        decreases n - i,
    {
        out.push(p[i]);
        i = i + 1;
        assert(out@ =~= p@.take(i as int));
    }
    proof {
        let t = p@.take(n as int);
        if t.len() > 0 {
            assert(t.last() != '/');
        }
    }
    out
}

/// Whether `s` contains no `/`.
pub fn has_no_slash(s: &[char]) -> (r: bool)
    ensures
        r == no_slash(s@),
{
    let mut i: usize = 0;
    while i < s.len()
        invariant
            i <= s@.len(),
            forall|k: int| 0 <= k < i ==> s@[k] != '/',
        decreases s@.len() - i,
    {
        if s[i] == '/' {
            return false;
        }
        i = i + 1;
    }
    true
}

/// Whether `p` is a proper prefix of `s` followed by `/` at position
/// `p.len()`.
pub fn prefix_then_slash(p: &[char], s: &[char]) -> (r: bool)
    ensures
        r == (p@.len() + 1 <= s@.len() && s@.take(p@.len() as int) == p@ && s@[p@.len() as int]
            == '/'),
{
    if p.len() >= s.len() {
        return false;
    }
    let mut i: usize = 0;
    while i < p.len()
        invariant
            p@.len() < s@.len(),
            i <= p@.len(),
            forall|k: int| 0 <= k < i ==> s@[k] == p@[k],
        decreases p@.len() - i,
    {
        if s[i] != p[i] {
            assert(s@.take(p@.len() as int)[i as int] != p@[i as int]);
            return false;
        }
        i = i + 1;
    }
    assert(s@.take(p@.len() as int) =~= p@);
    s[p.len()] == '/'
}

/// If the mount prefix `child` lies directly below `parent`, its last
/// segment (e.g. parent `""`, child `"/tmp"` gives `tmp`).
pub fn direct_child(parent: &[char], child: &[char]) -> (r: Option<Vec<char>>)
    ensures
        match r {
            Some(v) => spec_direct_child(parent@, child@) == Some(v@),
            None => spec_direct_child(parent@, child@) is None,
        },
{
    if child.len() == 0 {
        return None;
    }
    if !prefix_then_slash(parent, child) {
        return None;
    }
    let mut rest: Vec<char> = Vec::new();
    let mut i: usize = parent.len() + 1;
    while i < child.len()
        invariant
            parent@.len() + 1 <= i <= child@.len(),
            rest@ == child@.subrange(parent@.len() as int + 1, i as int),
        decreases child@.len() - i,
    {
        rest.push(child[i]);
        i = i + 1;
        assert(rest@ =~= child@.subrange(parent@.len() as int + 1, i as int));
    }
    assert(rest@ =~= child@.skip(parent@.len() as int + 1));
    if rest.len() == 0 || !has_no_slash(rest.as_slice()) {
        None
    } else {
        Some(rest)
    }
}

} // verus!
