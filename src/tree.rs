//! The directory tree built from an archive's records, and path lookup in it.
use vstd::prelude::*;
use vstd::string::StringSliceAdditionalSpecFns;
use vstd::utf8::{
    encode_utf8, is_char_boundary, length_of_first_scalar, pop_first_scalar, valid_utf8,
};

verus! {

/// A path as its list of components.
pub type PathSeq = Seq<Seq<u8>>;

/// What a path leads to in the model of a tree.
pub enum NodeView {
    File(Seq<u8>),
    Directory,
    Link(Seq<u8>),
}

/// Makes each prefix of `cs` from index `i` on a directory, creating the
/// missing ones; stops, with `false`, at a prefix that holds a file or a link.
pub open spec fn ensure_dirs(m: Map<PathSeq, NodeView>, cs: PathSeq, i: nat) -> (Map<
    PathSeq,
    NodeView,
>, bool)
    decreases cs.len() - i,
{
    if i >= cs.len() {
        (m, true)
    } else {
        let q = cs.subrange(0, (i + 1) as int);
        if m.contains_key(q) {
            if m[q] is Directory {
                ensure_dirs(m, cs, i + 1)
            } else {
                (m, false)
            }
        } else {
            ensure_dirs(m.insert(q, NodeView::Directory), cs, i + 1)
        }
    }
}

/// Inserts a directory at `cs`, with its missing parents.
pub open spec fn insert_dir_spec(m: Map<PathSeq, NodeView>, cs: PathSeq) -> Map<PathSeq, NodeView> {
    ensure_dirs(m, cs, 0).0
}

/// Inserts a file or link at `cs`, replacing what was there, after making its
/// parents directories; skipped when a parent holds a file or a link.
pub open spec fn insert_leaf_spec(m: Map<PathSeq, NodeView>, cs: PathSeq, v: NodeView) -> Map<
    PathSeq,
    NodeView,
> {
    if cs.len() == 0 {
        m
    } else {
        let r = ensure_dirs(m, cs.drop_last(), 0);
        if r.1 {
            r.0.insert(cs, v)
        } else {
            r.0
        }
    }
}

/// One path segment: not empty, without a slash, and valid UTF-8.
pub open spec fn is_component(k: Seq<u8>) -> bool {
    &&& k.len() > 0
    &&& forall|j: int| 0 <= j < k.len() ==> #[trigger] k[j] != 47
    &&& valid_utf8(k)
}

/// A path made of segments.
pub open spec fn is_path(q: PathSeq) -> bool {
    forall|j: int| 0 <= j < q.len() ==> is_component(#[trigger] q[j])
}

/// In valid UTF-8, an ASCII byte is a whole character: the text may be cut
/// just before it and just after it.
pub proof fn lemma_ascii_boundary(b: Seq<u8>, i: int)
    requires
        valid_utf8(b),
        0 <= i < b.len(),
        b[i] < 128,
    ensures
        is_char_boundary(b, i),
        is_char_boundary(b, i + 1),
    decreases b.len(),
{
    let l = length_of_first_scalar(b);
    let rest = pop_first_scalar(b);
    assert(1 <= l <= 4);
    if i < l {
        assert(i == 0);
        assert(l == 1);
        assert(is_char_boundary(rest, 0));
    } else {
        assert(rest.len() == b.len() - l);
        assert(rest[i - l] == b[i]);
        lemma_ascii_boundary(rest, i - l);
    }
}

/// The bytes of valid UTF-8 between two cuts next to ASCII bytes (or the
/// ends) are valid UTF-8.
pub proof fn lemma_ascii_cut(b: Seq<u8>, a: int, c: int)
    requires
        valid_utf8(b),
        0 <= a <= c <= b.len(),
        a == 0 || b[a - 1] < 128,
        c == b.len() || b[c] < 128,
    ensures
        valid_utf8(b.subrange(a, c)),
{
    let tail = if a == 0 {
        assert(b.subrange(0, b.len() as int) =~= b);
        b
    } else {
        lemma_ascii_boundary(b, a - 1);
        vstd::utf8::valid_utf8_split(b, a);
        b.subrange(a, b.len() as int)
    };
    assert(valid_utf8(tail));
    if c == b.len() {
        assert(tail =~= b.subrange(a, c));
    } else {
        assert(tail[c - a] == b[c]);
        lemma_ascii_boundary(tail, c - a);
        vstd::utf8::valid_utf8_split(tail, c - a);
        assert(tail.subrange(0, c - a) =~= b.subrange(a, c));
    }
}

/// The components held in a vector of byte strings.
pub open spec fn comps_view(v: Seq<Vec<u8>>) -> PathSeq {
    Seq::new(v.len(), |k: int| v[k]@)
}

/// Splits `s` at slashes: the components finished so far, and the one in
/// progress. Empty components are dropped.
pub open spec fn split_acc(s: Seq<u8>) -> (PathSeq, Seq<u8>)
    decreases s.len(),
{
    if s.len() == 0 {
        (seq![], seq![])
    } else {
        let r = split_acc(s.drop_last());
        if s.last() == 47 {
            (
                if r.1.len() > 0 {
                    r.0.push(r.1)
                } else {
                    r.0
                },
                seq![],
            )
        } else {
            (r.0, r.1.push(s.last()))
        }
    }
}

/// The components of a `/`-separated path; empty components (a leading or
/// trailing slash, doubled slashes) are dropped.
pub open spec fn components(s: Seq<u8>) -> PathSeq {
    let r = split_acc(s);
    if r.1.len() > 0 {
        r.0.push(r.1)
    } else {
        r.0
    }
}

/// How a walk down the tree ends: at a file, at a directory, at a link (the
/// number of components up to and including it, and its target), or nowhere.
pub enum WalkView {
    File(Seq<u8>),
    Directory,
    Link(nat, Seq<u8>),
    NotFound,
}

/// Walks `cs` down from its prefix of length `i`, which is a directory.
/// Components left after a file make the walk fail.
pub open spec fn walk(m: Map<PathSeq, NodeView>, cs: PathSeq, i: nat) -> WalkView
    decreases cs.len() - i,
{
    if i >= cs.len() {
        WalkView::Directory
    } else {
        let q = cs.subrange(0, (i + 1) as int);
        if !m.contains_key(q) {
            WalkView::NotFound
        } else {
            match m[q] {
                NodeView::File(b) => if i + 1 == cs.len() {
                    WalkView::File(b)
                } else {
                    WalkView::NotFound
                },
                NodeView::Directory => walk(m, cs, i + 1),
                NodeView::Link(t) => WalkView::Link(i + 1, t),
            }
        }
    }
}

/// Applies the components of a relative link target to `base`: `..` goes up
/// one level (not above the root), `.` stays, any other goes down.
pub open spec fn apply_target(base: PathSeq, cs: PathSeq) -> PathSeq
    decreases cs.len(),
{
    if cs.len() == 0 {
        base
    } else {
        let c = cs[0];
        let next = if c == seq![46u8, 46u8] {
            if base.len() > 0 {
                base.drop_last()
            } else {
                base
            }
        } else if c == seq![46u8] {
            base
        } else {
            base.push(c)
        };
        apply_target(next, cs.drop_first())
    }
}

/// Where the link at path `link` with target `target` points: an absolute
/// target from the root, a relative one from the link's directory.
pub open spec fn resolve_link(link: PathSeq, target: Seq<u8>) -> PathSeq {
    if target.len() > 0 && target[0] == 47 {
        components(target)
    } else {
        apply_target(link.drop_last(), components(target))
    }
}

/// The most links followed in one lookup.
pub const MAX_LINKS: usize = 40;

/// What a lookup finds once links are followed.
pub enum Resolved {
    File(Seq<u8>),
    Directory(PathSeq),
    NotFound,
}

/// Looks up `cs`, following at most `fuel` links; the components after a
/// link are looked up below its target.
pub open spec fn lookup(m: Map<PathSeq, NodeView>, cs: PathSeq, fuel: nat) -> Resolved
    decreases fuel,
{
    match walk(m, cs, 0) {
        WalkView::File(b) => Resolved::File(b),
        WalkView::Directory => Resolved::Directory(cs),
        WalkView::NotFound => Resolved::NotFound,
        WalkView::Link(i, t) => if fuel == 0 {
            Resolved::NotFound
        } else {
            lookup(
                m,
                resolve_link(cs.subrange(0, i as int), t) + cs.subrange(i as int, cs.len() as int),
                (fuel - 1) as nat,
            )
        },
    }
}

/// What the path `path` leads to.
pub open spec fn resolve_path(m: Map<PathSeq, NodeView>, path: Seq<u8>) -> Resolved {
    lookup(m, components(path), MAX_LINKS as nat)
}

/// Splits a `/`-separated path into its non-empty components.
pub fn split_path(s: &[u8]) -> (r: Vec<Vec<u8>>)
    ensures
        comps_view(r@) == components(s@),
        valid_utf8(s@) ==> is_path(comps_view(r@)),
{
    let mut out: Vec<Vec<u8>> = Vec::new();
    let mut cur: Vec<u8> = Vec::new();
    let mut k: usize = 0;
    let ghost mut start: int = 0;
    assert(s@.subrange(0, 0) =~= Seq::<u8>::empty());
    assert(comps_view(out@) =~= Seq::<Seq<u8>>::empty());
    while k < s.len()
        invariant
            k <= s@.len(),
            (comps_view(out@), cur@) == split_acc(s@.subrange(0, k as int)),
            valid_utf8(s@) ==> is_path(comps_view(out@)),
            forall|j: int| 0 <= j < cur@.len() ==> #[trigger] cur@[j] != 47,
            0 <= start <= k,
            start == 0 || s@[start - 1] == 47,
            cur@ == s@.subrange(start, k as int),
        decreases s@.len() - k,
    {
        assert(s@.subrange(0, k + 1).drop_last() =~= s@.subrange(0, k as int));
        let c = s[k];
        if c == 47 {
            if cur.len() > 0 {
                let ghost before = comps_view(out@);
                let ghost cv = cur@;
                proof {
                    if valid_utf8(s@) {
                        lemma_ascii_cut(s@, start, k as int);
                    }
                }
                out.push(cur);
                assert(comps_view(out@) =~= before.push(cv));
            }
            cur = Vec::new();
            proof {
                start = k + 1;
            }
            assert(cur@ =~= s@.subrange(start, k + 1));
        } else {
            cur.push(c);
            assert(cur@ =~= s@.subrange(start, k + 1));
        }
        k = k + 1;
    }
    assert(s@.subrange(0, k as int) =~= s@);
    if cur.len() > 0 {
        let ghost before = comps_view(out@);
        let ghost cv = cur@;
        proof {
            if valid_utf8(s@) {
                lemma_ascii_cut(s@, start, k as int);
            }
        }
        out.push(cur);
        assert(comps_view(out@) =~= before.push(cv));
    }
    out
}

/// Where the link that ends at `comps[..i]`, with target `target`, leads,
/// followed by the components after it.
pub fn read_link(comps: &Vec<Vec<u8>>, i: usize, target: &str) -> (r: Vec<Vec<u8>>)
    requires
        1 <= i <= comps@.len(),
    ensures
        comps_view(r@) == resolve_link(comps_view(comps@).subrange(0, i as int), target.spec_bytes())
            + comps_view(comps@).subrange(i as int, comps@.len() as int),
{
    let ghost cv = comps_view(comps@);
    let tb = target.as_bytes();
    let tcomps = split_path(tb);
    let ghost tc = comps_view(tcomps@);
    let mut out: Vec<Vec<u8>> = Vec::new();
    if tb.len() > 0 && tb[0] == 47 {
        out = tcomps;
    } else {
        let mut k: usize = 0;
        while k < i - 1
            invariant
                k <= i - 1,
                i <= comps@.len(),
                cv == comps_view(comps@),
                comps_view(out@) == cv.subrange(0, k as int),
            decreases i - 1 - k,
        {
            let c = comps[k].clone();
            assert(c@ == comps@[k as int]@);
            let ghost before = comps_view(out@);
            out.push(c);
            assert(comps_view(out@) =~= before.push(cv[k as int]));
            assert(cv.subrange(0, k + 1) =~= cv.subrange(0, k as int).push(cv[k as int]));
            k = k + 1;
        }
        assert(cv.subrange(0, i as int).drop_last() =~= cv.subrange(0, i - 1));
        let mut t: usize = 0;
        assert(tc.subrange(0, tc.len() as int) =~= tc);
        while t < tcomps.len()
            invariant
                t <= tcomps@.len(),
                tc == comps_view(tcomps@),
                apply_target(comps_view(out@), tc.subrange(t as int, tc.len() as int)) == apply_target(
                    cv.subrange(0, i - 1),
                    tc,
                ),
            decreases tcomps@.len() - t,
        {
            let ghost rest = tc.subrange(t as int, tc.len() as int);
            assert(rest.drop_first() =~= tc.subrange(t + 1, tc.len() as int));
            let c = &tcomps[t];
            let ghost before = comps_view(out@);
            if c.len() == 2 && c[0] == 46 && c[1] == 46 {
                assert(c@ =~= seq![46u8, 46u8]);
                if out.len() > 0 {
                    out.pop();
                    assert(comps_view(out@) =~= before.drop_last());
                }
            } else if c.len() == 1 && c[0] == 46 {
                assert(c@ =~= seq![46u8]);
            } else {
                assert(c@ != seq![46u8, 46u8]);
                assert(c@ != seq![46u8]);
                let d = c.clone();
                assert(d@ == c@);
                out.push(d);
                assert(comps_view(out@) =~= before.push(c@));
            }
            t = t + 1;
        }
        assert(tc.subrange(t as int, tc.len() as int) =~= Seq::<Seq<u8>>::empty());
    }
    let ghost head = comps_view(out@);
    let mut k: usize = i;
    assert(cv.subrange(i as int, i as int) =~= Seq::<Seq<u8>>::empty());
    assert(head + cv.subrange(i as int, i as int) =~= head);
    while k < comps.len()
        invariant
            i <= k <= comps@.len(),
            cv == comps_view(comps@),
            comps_view(out@) == head + cv.subrange(i as int, k as int),
        decreases comps@.len() - k,
    {
        let c = comps[k].clone();
        assert(c@ == comps@[k as int]@);
        let ghost before = comps_view(out@);
        out.push(c);
        assert(comps_view(out@) =~= before.push(cv[k as int]));
        assert(head + cv.subrange(i as int, k + 1) =~= (head + cv.subrange(i as int, k as int)).push(
            cv[k as int],
        ));
        k = k + 1;
    }
    out
}

/// How a walk down the tree ended: at a file, at a directory node, at a
/// link (the number of components up to and including it, and its target),
/// or nowhere.
pub enum Step<'a> {
    File(&'a [u8]),
    Directory(usize),
    Link(usize, &'a str),
    NotFound,
}

pub open spec fn step_view(s: Step) -> WalkView {
    match s {
        Step::File(b) => WalkView::File(b@),
        Step::Directory(_) => WalkView::Directory,
        Step::Link(i, t) => WalkView::Link(i as nat, t.spec_bytes()),
        Step::NotFound => WalkView::NotFound,
    }
}

/// What a path leads to, with links followed.
pub enum EntryRef<'a> {
    File(&'a [u8]),
    Directory(usize),
}

/// A node of the tree: the bytes of a file, a directory with its named
/// children (indices of other nodes), or the target of a link.
pub enum Entry<'a> {
    File(&'a [u8]),
    Directory(Vec<(Vec<u8>, usize)>),
    Link(&'a str),
}

pub open spec fn entry_view(e: Entry) -> NodeView {
    match e {
        Entry::File(b) => NodeView::File(b@),
        Entry::Directory(_) => NodeView::Directory,
        Entry::Link(t) => NodeView::Link(t.spec_bytes()),
    }
}

/// A directory tree whose file contents and link targets borrow from the
/// archive. Node 0 is the root.
pub struct DirTree<'a> {
    nodes: Vec<Entry<'a>>,
    paths: Ghost<Seq<PathSeq>>,
    tree: Ghost<Map<PathSeq, NodeView>>,
}

impl<'a> DirTree<'a> {
    /// The tree as a map from paths to what they hold.
    pub closed spec fn view(&self) -> Map<PathSeq, NodeView> {
        self.tree@
    }

    pub closed spec fn node_count(&self) -> nat {
        self.nodes@.len()
    }

    /// The path of node `i`.
    pub closed spec fn path_of(&self, i: int) -> PathSeq {
        self.paths@[i]
    }

    /// Node `i` is a directory.
    pub closed spec fn is_dir(&self, i: int) -> bool {
        self.nodes@[i] is Directory
    }

    pub closed spec fn children(&self, i: int) -> Seq<(Vec<u8>, usize)> {
        self.nodes@[i]->Directory_0@
    }

    pub closed spec fn dir_ok(&self, i: int) -> bool {
        let ch = self.children(i);
        &&& forall|c: int|
            0 <= c < ch.len() ==> (#[trigger] ch[c]).1 < self.nodes@.len() && self.paths@[ch[c].1 as int]
                == self.paths@[i].push(ch[c].0@)
        &&& forall|c1: int, c2: int|
            0 <= c1 < ch.len() && 0 <= c2 < ch.len() && c1 != c2 ==> (#[trigger] ch[c1]).0@
                != (#[trigger] ch[c2]).0@
        &&& forall|k: Seq<u8>|
            #[trigger] self.tree@.contains_key(self.paths@[i].push(k)) ==> exists|c: int|
                0 <= c < ch.len() && (#[trigger] ch[c]).0@ == k
    }

    pub closed spec fn wf(&self) -> bool {
        let n = self.nodes@;
        let p = self.paths@;
        let m = self.tree@;
        &&& n.len() == p.len()
        &&& n.len() > 0
        &&& p[0] == Seq::<Seq<u8>>::empty()
        &&& n[0] is Directory
        &&& forall|i: int| 0 <= i < n.len() ==> m.contains_key(#[trigger] p[i]) && m[p[i]] == entry_view(n[i])
        &&& forall|i: int, j: int|
            0 <= i < n.len() && 0 <= j < n.len() && i != j ==> #[trigger] p[i] != #[trigger] p[j]
        &&& forall|i: int| 0 <= i < n.len() && n[i] is Directory ==> #[trigger] self.dir_ok(i)
        &&& forall|q: PathSeq| #[trigger] m.contains_key(q) && q.len() > 0 ==> m.contains_key(q.drop_last())
        &&& forall|q: PathSeq| #[trigger] m.contains_key(q) ==> is_path(q)
    }

    /// Each path of the tree is made of segments.
    pub proof fn lemma_paths_are_segments(&self)
        requires
            self.wf(),
        ensures
            forall|q: PathSeq| #[trigger] self@.contains_key(q) ==> is_path(q),
    {
    }

    /// An empty tree: the root directory alone.
    pub fn new() -> (r: Self)
        ensures
            r.wf(),
            r@ == map![Seq::<Seq<u8>>::empty() => NodeView::Directory],
    {
        let mut nodes: Vec<Entry<'a>> = Vec::new();
        nodes.push(Entry::Directory(Vec::new()));
        let ghost paths = seq![Seq::<Seq<u8>>::empty()];
        let ghost tree = map![Seq::<Seq<u8>>::empty() => NodeView::Directory];
        let r = DirTree { nodes, paths: Ghost(paths), tree: Ghost(tree) };
        assert forall|k: Seq<u8>| !tree.contains_key(#[trigger] Seq::<Seq<u8>>::empty().push(k)) by {
            assert(Seq::<Seq<u8>>::empty().push(k).len() == 1);
        }
        assert(r.dir_ok(0));
        r
    }

    /// Adds node `e` as the child `key` of directory node `dir`.
    fn add_child(&mut self, dir: usize, key: Vec<u8>, e: Entry<'a>) -> (r: usize)
        requires
            old(self).wf(),
            dir < old(self).node_count(),
            old(self).is_dir(dir as int),
            !old(self)@.contains_key(old(self).path_of(dir as int).push(key@)),
            is_component(key@),
            e is Directory ==> e->Directory_0@.len() == 0,
        ensures
            final(self).wf(),
            final(self)@ == old(self)@.insert(old(self).path_of(dir as int).push(key@), entry_view(e)),
            r == old(self).node_count(),
            r < final(self).node_count(),
            final(self).path_of(r as int) == old(self).path_of(dir as int).push(key@),
            final(self).is_dir(r as int) == (e is Directory),
    {
        let j = self.nodes.len();
        let ghost n0 = self.nodes@;
        let ghost p0 = self.paths@;
        let ghost m0 = self.tree@;
        let ghost newp = p0[dir as int].push(key@);
        let ghost ev = entry_view(e);
        let ghost kv = key@;
        let ghost old_ch = self.children(dir as int);
        proof {
            assert(self.dir_ok(dir as int));
            assert forall|i: int| 0 <= i < n0.len() implies #[trigger] p0[i] != newp by {
                assert(m0.contains_key(p0[i]));
            }
        }
        self.nodes.push(e);
        match &mut self.nodes[dir] {
            Entry::Directory(ch) => {
                ch.push((key, j));
            },
            _ => {},
        }
        let ghost np = p0.push(newp);
        let ghost nm = m0.insert(newp, ev);
        self.paths = Ghost(np);
        self.tree = Ghost(nm);
        proof {
            let n1 = self.nodes@;
            assert(n1.len() == n0.len() + 1);
            assert forall|i: int| 0 <= i < n1.len() implies nm.contains_key(#[trigger] np[i]) && nm[np[i]]
                == entry_view(n1[i]) by {
                if i < n0.len() {
                    assert(m0.contains_key(p0[i]));
                }
            }
            assert forall|i: int, k: int|
                0 <= i < n1.len() && 0 <= k < n1.len() && i != k implies #[trigger] np[i]
                != #[trigger] np[k] by {
                if i < n0.len() && k < n0.len() {
                    assert(p0[i] != p0[k]);
                }
            }
            assert forall|i: int| 0 <= i < n1.len() && n1[i] is Directory implies #[trigger] self.dir_ok(i) by {
                let ch = self.children(i);
                if i == j {
                    assert forall|k: Seq<u8>| #[trigger] nm.contains_key(np[i].push(k)) implies exists|c: int|
                        0 <= c < ch.len() && (#[trigger] ch[c]).0@ == k by {
                        assert(np[i].push(k).drop_last() =~= newp);
                        assert(np[i].push(k) != newp);
                    }
                } else if i == dir {
                    assert(old(self).dir_ok(i));
                    assert(ch.len() == old_ch.len() + 1);
                    assert forall|c: int| 0 <= c < old_ch.len() implies (#[trigger] old_ch[c]).0@ != kv by {
                        assert(p0[old_ch[c].1 as int] == p0[i].push(old_ch[c].0@));
                        assert(m0.contains_key(p0[old_ch[c].1 as int]));
                    }
                    assert forall|c: int| 0 <= c < ch.len() implies (#[trigger] ch[c]).1 < n1.len() && np[ch[c].1 as int]
                        == np[i].push(ch[c].0@) by {
                        if c < old_ch.len() {
                            assert(ch[c] == old_ch[c]);
                        }
                    }
                    assert forall|c1: int, c2: int|
                        0 <= c1 < ch.len() && 0 <= c2 < ch.len() && c1 != c2 implies (#[trigger] ch[c1]).0@
                        != (#[trigger] ch[c2]).0@ by {
                        if c1 < old_ch.len() && c2 < old_ch.len() {
                            assert(ch[c1] == old_ch[c1]);
                            assert(ch[c2] == old_ch[c2]);
                        } else if c1 < old_ch.len() {
                            assert(ch[c1] == old_ch[c1]);
                        } else {
                            assert(ch[c2] == old_ch[c2]);
                        }
                    }
                    assert forall|k: Seq<u8>| #[trigger] nm.contains_key(np[i].push(k)) implies exists|c: int|
                        0 <= c < ch.len() && (#[trigger] ch[c]).0@ == k by {
                        if k == kv {
                            assert(ch[old_ch.len() as int].0@ == k);
                        } else {
                            assert(np[i].push(k) != newp) by {
                                assert(np[i].push(k)[np[i].len() as int] == k);
                                assert(newp[np[i].len() as int] == kv);
                            }
                            assert(m0.contains_key(p0[i].push(k)));
                            let c = choose|c: int| 0 <= c < old_ch.len() && (#[trigger] old_ch[c]).0@ == k;
                            assert(ch[c] == old_ch[c]);
                        }
                    }
                } else {
                    assert(old(self).dir_ok(i));
                    assert(ch == old(self).children(i));
                    assert forall|k: Seq<u8>| #[trigger] nm.contains_key(np[i].push(k)) implies exists|c: int|
                        0 <= c < ch.len() && (#[trigger] ch[c]).0@ == k by {
                        if np[i].push(k) == newp {
                            assert(np[i].push(k).drop_last() =~= np[i]);
                            assert(newp.drop_last() =~= p0[dir as int]);
                            assert(p0[i] != p0[dir as int]);
                        }
                        assert(m0.contains_key(p0[i].push(k)));
                    }
                }
            }
            assert forall|q: PathSeq| #[trigger] nm.contains_key(q) && q.len() > 0 implies nm.contains_key(
                q.drop_last(),
            ) by {
                if q == newp {
                    assert(newp.drop_last() =~= p0[dir as int]);
                    assert(m0.contains_key(p0[dir as int]));
                }
            }
            assert forall|q: PathSeq| #[trigger] nm.contains_key(q) implies is_path(q) by {
                if q == newp {
                    assert(m0.contains_key(p0[dir as int]));
                    assert(is_path(p0[dir as int]));
                    assert forall|j: int| 0 <= j < q.len() implies is_component(#[trigger] q[j]) by {
                        if j < q.len() - 1 {
                            assert(q[j] == p0[dir as int][j]);
                        }
                    }
                }
            }
        }
        j
    }

    /// Replaces node `j` by the file or link `e`.
    fn set_leaf(&mut self, j: usize, e: Entry<'a>)
        requires
            old(self).wf(),
            0 < j < old(self).node_count(),
            !(e is Directory),
        ensures
            final(self).wf(),
            final(self)@ == old(self)@.insert(old(self).path_of(j as int), entry_view(e)),
    {
        let ghost n0 = self.nodes@;
        let ghost p0 = self.paths@;
        let ghost m0 = self.tree@;
        let ghost ev = entry_view(e);
        self.nodes.set(j, e);
        let ghost nm = m0.insert(p0[j as int], ev);
        self.tree = Ghost(nm);
        proof {
            let n1 = self.nodes@;
            assert forall|i: int| 0 <= i < n1.len() implies nm.contains_key(#[trigger] p0[i]) && nm[p0[i]]
                == entry_view(n1[i]) by {
                if i != j {
                    assert(p0[i] != p0[j as int]);
                }
            }
            assert forall|i: int| 0 <= i < n1.len() && n1[i] is Directory implies #[trigger] self.dir_ok(i) by {
                assert(old(self).dir_ok(i));
                assert(self.children(i) == old(self).children(i));
            }
        }
    }

    /// Makes each prefix of `comps[..n]` a directory, creating the missing
    /// ones, and gives the node of `comps[..n]`; stops at a prefix that holds
    /// a file or a link.
    fn insert_dirs(&mut self, comps: &Vec<Vec<u8>>, n: usize) -> (r: Option<usize>)
        requires
            old(self).wf(),
            n <= comps@.len(),
            is_path(comps_view(comps@)),
        ensures
            final(self).wf(),
            final(self)@ == ensure_dirs(old(self)@, comps_view(comps@).subrange(0, n as int), 0).0,
            r is Some == ensure_dirs(old(self)@, comps_view(comps@).subrange(0, n as int), 0).1,
            r is Some ==> r->Some_0 < final(self).node_count() && final(self).is_dir(r->Some_0 as int)
                && final(self).path_of(r->Some_0 as int) == comps_view(comps@).subrange(0, n as int),
    {
        let ghost cs = comps_view(comps@).subrange(0, n as int);
        let mut cur: usize = 0;
        let mut i: usize = 0;
        assert(cs.subrange(0, 0) =~= Seq::<Seq<u8>>::empty());
        while i < n
            invariant
                self.wf(),
                i <= n,
                n <= comps@.len(),
                cs == comps_view(comps@).subrange(0, n as int),
                is_path(comps_view(comps@)),
                cur < self.node_count(),
                self.is_dir(cur as int),
                self.path_of(cur as int) == cs.subrange(0, i as int),
                ensure_dirs(self@, cs, i as nat) == ensure_dirs(old(self)@, cs, 0),
            decreases n - i,
        {
            let key = &comps[i];
            assert(cs.subrange(0, i + 1) =~= cs.subrange(0, i as int).push(key@));
            match self.find_child(cur, key.as_slice()) {
                Some(j) => {
                    let is_dir = match &self.nodes[j] {
                        Entry::Directory(_) => true,
                        _ => false,
                    };
                    if !is_dir {
                        return None;
                    }
                    cur = j;
                },
                None => {
                    let k = key.clone();
                    assert(k@ == key@);
                    assert(comps_view(comps@)[i as int] == key@);
                    cur = self.add_child(cur, k, Entry::Directory(Vec::new()));
                },
            }
            i = i + 1;
        }
        assert(cs.subrange(0, n as int) =~= cs);
        Some(cur)
    }

    /// Inserts a directory at `comps`, with its missing parents.
    pub fn insert_dir(&mut self, comps: &Vec<Vec<u8>>)
        requires
            old(self).wf(),
            is_path(comps_view(comps@)),
        ensures
            final(self).wf(),
            final(self)@ == insert_dir_spec(old(self)@, comps_view(comps@)),
    {
        assert(comps_view(comps@).subrange(0, comps@.len() as int) =~= comps_view(comps@));
        self.insert_dirs(comps, comps.len());
    }

    /// Inserts the file or link `e` at `comps`.
    pub fn insert_leaf(&mut self, comps: &Vec<Vec<u8>>, e: Entry<'a>)
        requires
            old(self).wf(),
            !(e is Directory),
            is_path(comps_view(comps@)),
        ensures
            final(self).wf(),
            final(self)@ == insert_leaf_spec(old(self)@, comps_view(comps@), entry_view(e)),
    {
        if comps.len() == 0 {
            return;
        }
        let n = comps.len() - 1;
        let ghost cs = comps_view(comps@);
        assert(cs.subrange(0, n as int) =~= cs.drop_last());
        assert(cs.drop_last().push(comps@[n as int]@) =~= cs);
        match self.insert_dirs(comps, n) {
            None => {},
            Some(parent) => {
                match self.find_child(parent, comps[n].as_slice()) {
                    Some(j) => {
                        proof {
                            assert(self.path_of(j as int).len() > 0);
                            if j == 0 {
                                assert(self.path_of(0) == Seq::<Seq<u8>>::empty());
                            }
                        }
                        self.set_leaf(j, e);
                    },
                    None => {
                        let k = comps[n].clone();
                        assert(k@ == comps@[n as int]@);
                        assert(cs[n as int] == k@);
                        self.add_child(parent, k, e);
                    },
                }
            },
        }
    }

    /// Walks `comps` down from the root.
    pub fn walk(&self, comps: &Vec<Vec<u8>>) -> (r: Step<'a>)
        requires
            self.wf(),
        ensures
            step_view(r) == walk(self@, comps_view(comps@), 0),
            r matches Step::Directory(d) ==> d < self.node_count() && self.is_dir(d as int)
                && self.path_of(d as int) == comps_view(comps@),
            r matches Step::Link(i, _) ==> 1 <= i <= comps@.len(),
    {
        let ghost cs = comps_view(comps@);
        let mut cur: usize = 0;
        let mut i: usize = 0;
        assert(cs.subrange(0, 0) =~= Seq::<Seq<u8>>::empty());
        while i < comps.len()
            invariant
                self.wf(),
                i <= comps@.len(),
                cs == comps_view(comps@),
                cur < self.node_count(),
                self.is_dir(cur as int),
                self.path_of(cur as int) == cs.subrange(0, i as int),
                walk(self@, cs, i as nat) == walk(self@, cs, 0),
            decreases comps@.len() - i,
        {
            let key = &comps[i];
            assert(cs.subrange(0, i + 1) =~= cs.subrange(0, i as int).push(key@));
            match self.find_child(cur, key.as_slice()) {
                None => {
                    return Step::NotFound;
                },
                Some(j) => {
                    assert(self.paths@[j as int] == self.path_of(j as int));
                    match &self.nodes[j] {
                        Entry::File(b) => {
                            if i + 1 == comps.len() {
                                return Step::File(*b);
                            }
                            return Step::NotFound;
                        },
                        Entry::Directory(_) => {
                            cur = j;
                        },
                        Entry::Link(t) => {
                            return Step::Link(i + 1, *t);
                        },
                    }
                },
            }
            i = i + 1;
        }
        assert(cs.subrange(0, i as int) =~= cs);
        Step::Directory(cur)
    }

    /// Looks up `path`, following links.
    pub fn find_entry(&self, path: &str) -> (r: Option<EntryRef<'a>>)
        requires
            self.wf(),
        ensures
            match resolve_path(self@, path.spec_bytes()) {
                Resolved::File(b) => r matches Some(EntryRef::File(x)) && x@ == b,
                Resolved::Directory(p) => r matches Some(EntryRef::Directory(d)) && d
                    < self.node_count() && self.is_dir(d as int) && self.path_of(d as int) == p,
                Resolved::NotFound => r is None,
            },
    {
        let mut comps = split_path(path.as_bytes());
        let mut fuel: usize = MAX_LINKS;
        loop
            invariant
                self.wf(),
                lookup(self@, comps_view(comps@), fuel as nat) == resolve_path(
                    self@,
                    path.spec_bytes(),
                ),
            decreases fuel,
        {
            match self.walk(&comps) {
                Step::File(b) => {
                    return Some(EntryRef::File(b));
                },
                Step::Directory(d) => {
                    return Some(EntryRef::Directory(d));
                },
                Step::NotFound => {
                    return None;
                },
                Step::Link(i, t) => {
                    if fuel == 0 {
                        return None;
                    }
                    comps = read_link(&comps, i, t);
                    fuel = fuel - 1;
                },
            }
        }
    }

    /// The names of the children of directory node `dir`.
    pub fn names(&self, dir: usize) -> (r: Vec<String>)
        requires
            self.wf(),
            dir < self.node_count(),
            self.is_dir(dir as int),
        ensures
            forall|k: Seq<u8>|
                self@.contains_key(#[trigger] self.path_of(dir as int).push(k)) <==> exists|c: int|
                    0 <= c < r@.len() && encode_utf8((#[trigger] r@[c])@) == k,
            forall|c1: int, c2: int|
                0 <= c1 < r@.len() && 0 <= c2 < r@.len() && c1 != c2 ==> (#[trigger] r@[c1])@
                    != (#[trigger] r@[c2])@,
    {
        let children = match &self.nodes[dir] {
            Entry::Directory(ch) => ch,
            _ => {
                return Vec::new();
            },
        };
        assert(self.dir_ok(dir as int));
        let ghost p = self.path_of(dir as int);
        let mut out: Vec<String> = Vec::new();
        let mut c: usize = 0;
        while c < children.len()
            invariant
                self.wf(),
                self.dir_ok(dir as int),
                dir < self.node_count(),
                p == self.path_of(dir as int),
                children@ == self.children(dir as int),
                c <= children@.len(),
                out@.len() == c,
                forall|d: int| 0 <= d < c ==> encode_utf8((#[trigger] out@[d])@) == children@[d].0@,
            decreases children@.len() - c,
        {
            let key = children[c].0.as_slice();
            proof {
                let ch = self.children(dir as int);
                let q = self.paths@[ch[c as int].1 as int];
                assert(q == p.push(key@));
                assert(self.tree@.contains_key(q));
                assert(is_path(q));
                assert(q[q.len() - 1] == key@);
            }
            let text = crate::parser::utf8(key);
            let name = text.unwrap().to_owned();
            out.push(name);
            c = c + 1;
        }
        proof {
            let ch = self.children(dir as int);
            assert forall|k: Seq<u8>|
                self@.contains_key(#[trigger] p.push(k)) implies exists|c: int|
                    0 <= c < out@.len() && encode_utf8((#[trigger] out@[c])@) == k by {
                let c = choose|c: int| 0 <= c < ch.len() && (#[trigger] ch[c]).0@ == k;
                assert(encode_utf8(out@[c]@) == k);
            }
            assert forall|k: Seq<u8>|
                (exists|c: int| 0 <= c < out@.len() && encode_utf8((#[trigger] out@[c])@) == k) implies self@.contains_key(
                    p.push(k),
                ) by {
                let c = choose|c: int| 0 <= c < out@.len() && encode_utf8((#[trigger] out@[c])@) == k;
                assert(ch[c].0@ == k);
                assert(self.paths@[ch[c].1 as int] == p.push(k));
                assert(self.tree@.contains_key(self.paths@[ch[c].1 as int]));
            }
            assert forall|c1: int, c2: int|
                0 <= c1 < out@.len() && 0 <= c2 < out@.len() && c1 != c2 implies (#[trigger] out@[c1])@
                != (#[trigger] out@[c2])@ by {
                assert(ch[c1].0@ != ch[c2].0@);
            }
        }
        out
    }

    /// The child of directory node `dir` named `key`.
    fn find_child(&self, dir: usize, key: &[u8]) -> (r: Option<usize>)
        requires
            self.wf(),
            dir < self.node_count(),
            self.is_dir(dir as int),
        ensures
            r is Some ==> r->Some_0 < self.node_count() && self.path_of(r->Some_0 as int)
                == self.path_of(dir as int).push(key@),
            r is None ==> !self@.contains_key(self.path_of(dir as int).push(key@)),
    {
        let children = match &self.nodes[dir] {
            Entry::Directory(ch) => ch,
            _ => {
                return None;
            },
        };
        assert(self.dir_ok(dir as int));
        let mut c: usize = 0;
        while c < children.len()
            invariant
                self.dir_ok(dir as int),
                children@ == self.children(dir as int),
                c <= children@.len(),
                forall|d: int| 0 <= d < c ==> (#[trigger] children@[d]).0@ != key@,
            decreases children@.len() - c,
        {
            if crate::parser::bytes_eq(children[c].0.as_slice(), key) {
                assert(children@[c as int].0@ == key@);
                let ghost ch = self.children(dir as int);
                assert(ch[c as int].1 < self.nodes@.len());
                return Some(children[c].1);
            }
            c = c + 1;
        }
        None
    }
}

} // verus!
