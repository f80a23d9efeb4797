//! The path tree itself: nodes, insertion, and leaf enumeration.
//!
//! The tree is laid out as an arena: every node lives in one `Vec`, a node
//! names its parent by index, and a node's children are a small list of
//! `(segment name, index)` pairs with pairwise distinct names.  A child is
//! always created after its parent, so every child index is strictly larger
//! than its parent's — which both rules out cycles and gives traversal an
//! obvious termination measure.

use vstd::prelude::*;

use crate::errors::StorageError;
use crate::pathkey::{seg_ok, PathKey};

verus! {

/// One addressable point in the tree: its own segment name, an optional
/// payload, its children (segment name to arena index, names unique), and
/// a non-owning back-reference to its parent (`None` only for the root).
pub(crate) struct PathNode<T> {
    pub(crate) name: String,
    pub(crate) data: Option<T>,
    pub(crate) children: Vec<(String, usize)>,
    pub(crate) parent: Option<usize>,
}

impl<T> PathNode<T> {
    /// Creates the root path node, with the sentinel name `/` and no parent.
    pub(crate) fn root(data: Option<T>) -> (r: PathNode<T>)
        ensures
            r.name@ == "/"@,
            r.data == data,
            r.children@ == Seq::<(String, usize)>::empty(),
            r.parent is None,
    {
        PathNode { name: "/".to_owned(), data, children: Vec::new(), parent: None }
    }

    /// Creates a child node with the given name, optional payload, and the
    /// arena index of its parent.
    pub(crate) fn new(name: String, data: Option<T>, parent: usize) -> (r: PathNode<T>)
        ensures
            r.name == name,
            r.data == data,
            r.children@ == Seq::<(String, usize)>::empty(),
            r.parent == Some(parent),
    {
        PathNode { name, data, children: Vec::new(), parent: Some(parent) }
    }

    /// Unconditionally replaces the stored payload: last write wins.
    pub(crate) fn set_data(&mut self, data: Option<T>)
        ensures
            final(self).name == old(self).name,
            final(self).data == data,
            final(self).children == old(self).children,
            final(self).parent == old(self).parent,
    {
        self.data = data;
    }
}

/// Looks a segment name up in a node's child list: the index of the child
/// carrying that name, if there is one.
spec fn seg_lookup(cs: Seq<(String, usize)>, name: Seq<char>) -> Option<usize>
    decreases cs.len(),
{
    if cs.len() == 0 {
        None
    } else if cs[0].0@ == name {
        Some(cs[0].1)
    } else {
        seg_lookup(cs.drop_first(), name)
    }
}

/// A `None` from `seg_lookup` means no entry of the child list carries the
/// name.
proof fn lemma_seg_lookup_none(cs: Seq<(String, usize)>, name: Seq<char>)
    requires
        seg_lookup(cs, name) is None,
    ensures
        forall|k: int| 0 <= k < cs.len() ==> (#[trigger] cs[k]).0@ != name,
    decreases cs.len(),
{
    if cs.len() > 0 {
        lemma_seg_lookup_none(cs.drop_first(), name);
        assert forall|k: int| 0 <= k < cs.len() implies (#[trigger] cs[k]).0@ != name by {
            if k > 0 {
                assert(cs.drop_first()[k - 1] == cs[k]);
            }
        }
    }
}

/// A `Some` from `seg_lookup` points at an entry that carries the name.
proof fn lemma_seg_lookup_some(cs: Seq<(String, usize)>, name: Seq<char>, c: usize)
    requires
        seg_lookup(cs, name) == Some(c),
    ensures
        exists|k: int| 0 <= k < cs.len() && (#[trigger] cs[k]).0@ == name && cs[k].1 == c,
    decreases cs.len(),
{
    if cs.len() > 0 {
        if cs[0].0@ == name {
            assert(cs[0].0@ == name && cs[0].1 == c);
        } else {
            lemma_seg_lookup_some(cs.drop_first(), name, c);
            let k = choose|k: int|
                0 <= k < cs.drop_first().len() && (#[trigger] cs.drop_first()[k]).0@ == name
                    && cs.drop_first()[k].1 == c;
            assert(cs[k + 1] == cs.drop_first()[k]);
        }
    }
}

/// Appending a child entry changes no lookup except the appended name's,
/// and that one only if it was absent.
proof fn lemma_seg_lookup_push(cs: Seq<(String, usize)>, e: (String, usize), name: Seq<char>)
    ensures
        seg_lookup(cs.push(e), name) == (if seg_lookup(cs, name) is Some {
            seg_lookup(cs, name)
        } else if e.0@ == name {
            Some(e.1)
        } else {
            None
        }),
    decreases cs.len(),
{
    if cs.len() == 0 {
        assert(cs.push(e)[0] == e);
        assert(cs.push(e).drop_first() =~= Seq::<(String, usize)>::empty());
        assert(seg_lookup(cs.push(e).drop_first(), name) is None);
        if e.0@ == name {
            assert(seg_lookup(cs.push(e), name) == Some(e.1));
        } else {
            assert(seg_lookup(cs.push(e), name) is None);
        }
    } else {
        assert(cs.push(e)[0] == cs[0]);
        assert(cs.push(e).drop_first() =~= cs.drop_first().push(e));
        lemma_seg_lookup_push(cs.drop_first(), e, name);
        if cs[0].0@ == name {
            assert(seg_lookup(cs.push(e), name) == Some(cs[0].1));
            assert(seg_lookup(cs, name) == Some(cs[0].1));
        } else {
            assert(seg_lookup(cs.push(e), name) == seg_lookup(cs.drop_first().push(e), name));
            assert(seg_lookup(cs, name) == seg_lookup(cs.drop_first(), name));
        }
    }
}

/// The prefixes of `p.take(m + 1)` are the prefixes of `p.take(m)` plus
/// `p.take(m + 1)` itself.
proof fn lemma_prefix_extend(p: Seq<Seq<char>>, m: int, q: Seq<Seq<char>>)
    requires
        0 <= m < p.len(),
    ensures
        q.is_prefix_of(p.take(m + 1)) <==> q.is_prefix_of(p.take(m)) || q == p.take(m + 1),
{
    if q.is_prefix_of(p.take(m + 1)) {
        if q.len() <= m {
            assert(q =~= p.take(m).subrange(0, q.len() as int));
        } else {
            assert(q =~= p.take(m + 1));
        }
    }
    if q.is_prefix_of(p.take(m)) {
        assert(q =~= p.take(m + 1).subrange(0, q.len() as int));
    }
    if q == p.take(m + 1) {
        assert(q =~= p.take(m + 1).subrange(0, q.len() as int));
    }
}

/// `is_prefix_of` on output vectors is transitive.
proof fn lemma_prefix_transitive(a: Seq<String>, b: Seq<String>, c: Seq<String>)
    requires
        a.is_prefix_of(b),
        b.is_prefix_of(c),
    ensures
        a.is_prefix_of(c),
{
    assert(a =~= c.subrange(0, a.len() as int));
}

/// The text of a path with at least one segment: `/` before each segment,
/// in order.  The empty sequence of segments yields the empty text.
pub open spec fn join_segs(p: Seq<Seq<char>>) -> Seq<char>
    decreases p.len(),
{
    if p.len() == 0 {
        Seq::empty()
    } else {
        join_segs(p.drop_last()) + seq!['/'] + p.last()
    }
}

/// The full text of a path: the root alone reads `/`, and every other path
/// reads `/` before each of its segments.
pub open spec fn join_path(p: Seq<Seq<char>>) -> Seq<char> {
    if p.len() == 0 {
        seq!['/']
    } else {
        join_segs(p)
    }
}

/// A finite set and its image under an injective function have the same
/// size.
proof fn lemma_injective_image_len<A, B>(s: Set<A>, f: spec_fn(A) -> B)
    requires
        s.finite(),
        forall|x: A, y: A| s.contains(x) && s.contains(y) && x != y ==> f(x) != f(y),
    ensures
        s.map(f).finite(),
        s.map(f).len() == s.len(),
    decreases s.len(),
{
    if s.len() == 0 {
        assert(s =~= Set::<A>::empty());
        assert(s.map(f) =~= Set::<B>::empty());
    } else {
        let x = s.choose();
        let s1 = s.remove(x);
        lemma_injective_image_len(s1, f);
        assert(s.map(f) =~= s1.map(f).insert(f(x)));
        assert(!s1.map(f).contains(f(x)));
    }
}

/// Whether some entry of an output vector reads exactly `s`.
pub open spec fn vec_has_str(v: Seq<String>, s: Seq<char>) -> bool {
    exists|k: int| 0 <= k < v.len() && v[k]@ == s
}

/// Owns the tree: the root node (arena index 0), every node created by
/// insertion, and a running count of the non-root nodes.
pub struct PathStore<T> {
    nodes: Vec<PathNode<T>>,
    size: usize,
}

impl<T> PathStore<T> {
    /// The arena index of the node a path leads to, walking child edges
    /// segment by segment from the root; `None` if some segment is missing.
    spec fn node_at(&self, p: Seq<Seq<char>>) -> Option<int>
        decreases p.len(),
    {
        if p.len() == 0 {
            Some(0)
        } else {
            match self.node_at(p.drop_last()) {
                Some(i) => {
                    if 0 <= i < self.nodes@.len() {
                        match seg_lookup(self.nodes@[i].children@, p.last()) {
                            Some(c) => Some(c as int),
                            None => None,
                        }
                    } else {
                        None
                    }
                },
                None => None,
            }
        }
    }

    /// Whether a node for this exact path is present in the tree.  The
    /// empty path names the root, which is always present.
    pub closed spec fn contains_path(&self, p: Seq<Seq<char>>) -> bool {
        self.node_at(p) is Some
    }

    /// The payload attached at this exact path: `None` both when the node
    /// is absent and when it is present but carries no payload.
    pub closed spec fn data_at(&self, p: Seq<Seq<char>>) -> Option<T> {
        match self.node_at(p) {
            Some(i) => if 0 <= i < self.nodes@.len() {
                self.nodes@[i].data
            } else {
                None
            },
            None => None,
        }
    }

    /// The set of all paths whose node is present, the empty path (the
    /// root) included.
    pub open spec fn paths(&self) -> Set<Seq<Seq<char>>> {
        Set::new(|p: Seq<Seq<char>>| self.contains_path(p))
    }

    /// Whether this path names a leaf: its node is present and has no
    /// children.  Being a leaf is purely structural; payloads play no part.
    pub open spec fn is_leaf_path(&self, p: Seq<Seq<char>>) -> bool {
        &&& self.contains_path(p)
        &&& forall|s: Seq<char>| !self.contains_path(p.push(s))
    }

    /// The set of all current leaf paths.
    pub open spec fn leaf_paths(&self) -> Set<Seq<Seq<char>>> {
        Set::new(|q: Seq<Seq<char>>| self.is_leaf_path(q))
    }

    /// The leaf paths at or below arena node `i`.
    spec fn subtree_leaves(&self, i: int) -> Set<Seq<Seq<char>>> {
        Set::new(
            |q: Seq<Seq<char>>| self.is_leaf_path(q) && self.path_of(i).is_prefix_of(q),
        )
    }

    /// The leaf paths below the first `k` children of arena node `i`.
    spec fn child_subtree_leaves(&self, i: int, k: int) -> Set<Seq<Seq<char>>> {
        Set::new(
            |q: Seq<Seq<char>>|
                self.is_leaf_path(q) && exists|kk: int|
                    0 <= kk < k && self.path_of(
                        (#[trigger] self.nodes@[i].children@[kk]).1 as int,
                    ).is_prefix_of(q),
        )
    }

    /// The count of non-root nodes, as the store records it.
    pub closed spec fn spec_size(&self) -> nat {
        self.size as nat
    }

    /// The path from the root down to arena node `i`, read off the parent
    /// back-references.
    spec fn path_of(&self, i: int) -> Seq<Seq<char>>
        decreases i,
    {
        if 0 < i < self.nodes@.len() {
            match self.nodes@[i].parent {
                Some(j) => {
                    if (j as int) < i {
                        self.path_of(j as int).push(self.nodes@[i].name@)
                    } else {
                        Seq::empty()
                    }
                },
                None => Seq::empty(),
            }
        } else {
            Seq::empty()
        }
    }

    /// The structural invariant of the store.
    ///
    /// The root is node 0, with the sentinel name and no parent; every
    /// other node names a parent of strictly smaller index and is found in
    /// that parent's child list under its own name; every child entry is
    /// consistent (larger index, back-reference to this node, matching
    /// name); sibling names are pairwise distinct; and `size` counts the
    /// non-root nodes.
    pub closed spec fn wf(&self) -> bool {
        let n = self.nodes@.len();
        &&& 1 <= n
        &&& self.size as int == n - 1
        &&& self.nodes@[0].parent is None
        &&& self.nodes@[0].name@ == "/"@
        &&& forall|i: int|
            1 <= i < n ==> {
                &&& (#[trigger] self.nodes@[i]).parent is Some
                &&& (self.nodes@[i].parent.unwrap() as int) < i
                &&& seg_lookup(
                    self.nodes@[self.nodes@[i].parent.unwrap() as int].children@,
                    self.nodes@[i].name@,
                ) == Some(i as usize)
                &&& seg_ok(self.nodes@[i].name@)
            }
        &&& forall|i: int, k: int|
            0 <= i < n && 0 <= k < self.nodes@[i].children@.len() ==> {
                let e = #[trigger] self.nodes@[i].children@[k];
                &&& i < e.1 < n
                &&& self.nodes@[e.1 as int].parent == Some((i as usize))
                &&& self.nodes@[e.1 as int].name@ == e.0@
            }
        &&& forall|i: int, k1: int, k2: int|
            0 <= i < n && 0 <= k1 < self.nodes@[i].children@.len() && 0 <= k2
                < self.nodes@[i].children@.len() && k1 != k2 ==> (#[trigger] self.nodes@[i].children@[k1]).0@
                != (#[trigger] self.nodes@[i].children@[k2]).0@
    }

    /// Under `wf`, reading a node's path off the parent references and
    /// walking that path down from the root lead back to the same node.
    proof fn lemma_node_at_path_of(&self, i: int)
        requires
            self.wf(),
            0 <= i < self.nodes@.len(),
        ensures
            self.node_at(self.path_of(i)) == Some(i),
            i > 0 ==> self.path_of(i).len() >= 1,
        decreases i,
    {
        if i > 0 {
            let j = self.nodes@[i].parent.unwrap() as int;
            self.lemma_node_at_path_of(j);
            let p = self.path_of(j);
            let nm = self.nodes@[i].name@;
            assert(self.path_of(i) == p.push(nm));
            assert(p.push(nm).drop_last() =~= p);
            assert(seg_lookup(self.nodes@[j].children@, nm) == Some(i as usize));
        }
    }

    /// Under `wf`, a path that resolves to a node is exactly that node's
    /// own path: every node is reachable by one path only.
    proof fn lemma_path_of_node_at(&self, p: Seq<Seq<char>>, i: int)
        requires
            self.wf(),
            self.node_at(p) == Some(i),
        ensures
            0 <= i < self.nodes@.len(),
            self.path_of(i) == p,
        decreases p.len(),
    {
        if p.len() == 0 {
            assert(self.path_of(0) =~= p);
        } else {
            let j = self.node_at(p.drop_last()).unwrap();
            self.lemma_path_of_node_at(p.drop_last(), j);
            assert(seg_lookup(self.nodes@[j].children@, p.last()) == Some(i as usize));
            lemma_seg_lookup_some(self.nodes@[j].children@, p.last(), i as usize);
            let k = choose|k: int|
                0 <= k < self.nodes@[j].children@.len() && (#[trigger] self.nodes@[j].children@[k]).0@
                    == p.last() && self.nodes@[j].children@[k].1 == i as usize;
            assert(self.nodes@[i].parent == Some((j as usize)));
            assert(self.nodes@[i].name@ == p.last());
            assert(self.path_of(i) == self.path_of(j).push(p.last()));
            assert(self.path_of(j).push(p.last()) =~= p);
        }
    }

    /// Two stores whose nodes have identical child lists resolve every
    /// path to the same node.
    proof fn lemma_same_shape(a: &PathStore<T>, b: &PathStore<T>, q: Seq<Seq<char>>)
        requires
            a.nodes@.len() == b.nodes@.len(),
            forall|j: int|
                0 <= j < a.nodes@.len() ==> (#[trigger] a.nodes@[j]).children@ == b.nodes@[j].children@,
        ensures
            a.node_at(q) == b.node_at(q),
        decreases q.len(),
    {
        if q.len() > 0 {
            Self::lemma_same_shape(a, b, q.drop_last());
        }
    }

    /// How the arena changes when a fresh child named `name` is hung under
    /// node `cur`: one node is appended at the end, `cur`'s child list
    /// gains one entry pointing at it, and everything else is untouched.
    spec fn grown_by(pre: &PathStore<T>, post: &PathStore<T>, cur: int, name: Seq<char>) -> bool {
        let n = pre.nodes@.len() as int;
        &&& 0 <= cur < n
        &&& n <= usize::MAX
        &&& seg_ok(name)
        &&& seg_lookup(pre.nodes@[cur].children@, name) is None
        &&& post.nodes@.len() == n + 1
        &&& (forall|j: int| 0 <= j < n && j != cur ==> post.nodes@[j] == pre.nodes@[j])
        &&& post.nodes@[cur].children@ == pre.nodes@[cur].children@.push(
            post.nodes@[cur].children@.last(),
        )
        &&& post.nodes@[cur].children@.last().0@ == name
        &&& post.nodes@[cur].children@.last().1 == n as usize
        &&& post.nodes@[cur].name == pre.nodes@[cur].name
        &&& post.nodes@[cur].data == pre.nodes@[cur].data
        &&& post.nodes@[cur].parent == pre.nodes@[cur].parent
        &&& post.nodes@[n].children@ == Seq::<(String, usize)>::empty()
        &&& post.nodes@[n].name@ == name
        &&& post.nodes@[n].parent == Some((cur as usize))
        &&& post.nodes@[n].data is None
    }

    /// Hanging a fresh leaf under an existing node adds exactly one path —
    /// the leaf's own — and changes no other path's resolution or payload.
    proof fn lemma_grow_frame(
        pre: &PathStore<T>,
        post: &PathStore<T>,
        cur: int,
        name: Seq<char>,
        q: Seq<Seq<char>>,
    )
        requires
            pre.wf(),
            Self::grown_by(pre, post, cur, name),
        ensures
            ({
                let t = pre.path_of(cur).push(name);
                let n = pre.nodes@.len() as int;
                &&& post.node_at(q) == (if q == t {
                    Some(n)
                } else {
                    pre.node_at(q)
                })
                &&& (q != t ==> post.data_at(q) == pre.data_at(q))
                &&& (q == t ==> post.data_at(q) is None)
            }),
        decreases q.len(),
    {
        let t = pre.path_of(cur).push(name);
        let n = pre.nodes@.len() as int;
        let e = post.nodes@[cur].children@.last();
        pre.lemma_node_at_path_of(cur);
        assert(t.drop_last() =~= pre.path_of(cur));
        assert(pre.node_at(t) is None);
        if q.len() == 0 {
            assert(q != t);
            assert(post.node_at(q) == pre.node_at(q));
        } else {
            Self::lemma_grow_frame(pre, post, cur, name, q.drop_last());
            if pre.node_at(q.drop_last()) is Some {
                let j = pre.node_at(q.drop_last()).unwrap();
                pre.lemma_path_of_node_at(q.drop_last(), j);
                assert(q.drop_last() != t);
                assert(post.node_at(q.drop_last()) == Some(j));
                if j == cur {
                    lemma_seg_lookup_push(pre.nodes@[cur].children@, e, q.last());
                    if q.last() == name {
                        assert(q =~= t);
                        assert(seg_lookup(post.nodes@[cur].children@, q.last()) == Some(
                            (n as usize),
                        ));
                        assert(post.node_at(q) == Some(n));
                    } else {
                        assert(q != t);
                        assert(seg_lookup(post.nodes@[cur].children@, q.last()) == seg_lookup(
                            pre.nodes@[cur].children@,
                            q.last(),
                        ));
                        assert(post.node_at(q) == pre.node_at(q));
                    }
                } else {
                    if q == t {
                        assert(q.drop_last() == pre.path_of(cur));
                        assert(false);
                    }
                    assert(post.nodes@[j] == pre.nodes@[j]);
                    assert(post.node_at(q) == pre.node_at(q));
                }
            } else {
                assert(pre.node_at(q) is None);
                if q.drop_last() == t {
                    assert(post.node_at(q.drop_last()) == Some(n));
                    assert(seg_lookup(post.nodes@[n].children@, q.last()) is None);
                    assert(q != t);
                    assert(post.node_at(q) is None);
                } else {
                    if q == t {
                        assert(pre.node_at(q.drop_last()) == Some(cur));
                        assert(false);
                    }
                    assert(post.node_at(q.drop_last()) is None);
                    assert(post.node_at(q) is None);
                }
            }
        }
        // payloads: an unchanged resolution reads an unchanged node
        if q != t && pre.node_at(q) is Some {
            let j = pre.node_at(q).unwrap();
            pre.lemma_path_of_node_at(q, j);
        }
    }

    /// `lemma_grow_frame`, stated over every path at once.
    proof fn lemma_grow_frame_all(pre: &PathStore<T>, post: &PathStore<T>, cur: int, name: Seq<char>)
        requires
            pre.wf(),
            Self::grown_by(pre, post, cur, name),
        ensures
            ({
                let t = pre.path_of(cur).push(name);
                let n = pre.nodes@.len() as int;
                &&& forall|q: Seq<Seq<char>>| #[trigger] post.node_at(q) == (if q == t {
                    Some(n)
                } else {
                    pre.node_at(q)
                })
                &&& forall|q: Seq<Seq<char>>| q != t ==> #[trigger] post.data_at(q) == pre.data_at(q)
                &&& post.data_at(t) is None
            }),
    {
        let t = pre.path_of(cur).push(name);
        assert forall|q: Seq<Seq<char>>| #[trigger] post.node_at(q) == (if q == t {
            Some(pre.nodes@.len() as int)
        } else {
            pre.node_at(q)
        }) by {
            Self::lemma_grow_frame(pre, post, cur, name, q);
        }
        assert forall|q: Seq<Seq<char>>| q != t implies #[trigger] post.data_at(q) == pre.data_at(
            q,
        ) by {
            Self::lemma_grow_frame(pre, post, cur, name, q);
        }
        Self::lemma_grow_frame(pre, post, cur, name, t);
    }

    /// Hanging a fresh leaf under an existing node preserves the
    /// structural invariant, once the size counter has caught up.
    proof fn lemma_grow_wf(pre: &PathStore<T>, post: &PathStore<T>, cur: int, name: Seq<char>)
        requires
            pre.wf(),
            Self::grown_by(pre, post, cur, name),
            post.size as int == post.nodes@.len() - 1,
        ensures
            post.wf(),
    {
        let n = pre.nodes@.len() as int;
        let e = post.nodes@[cur].children@.last();
        lemma_seg_lookup_none(pre.nodes@[cur].children@, name);
        assert(post.nodes@[0].parent is None && post.nodes@[0].name@ == "/"@);
        assert forall|i: int| 1 <= i < n + 1 implies {
            &&& (#[trigger] post.nodes@[i]).parent is Some
            &&& (post.nodes@[i].parent.unwrap() as int) < i
            &&& seg_lookup(
                post.nodes@[post.nodes@[i].parent.unwrap() as int].children@,
                post.nodes@[i].name@,
            ) == Some(i as usize)
            &&& seg_ok(post.nodes@[i].name@)
        } by {
            if i == n {
                lemma_seg_lookup_push(pre.nodes@[cur].children@, e, name);
            } else {
                let pj = pre.nodes@[i].parent.unwrap() as int;
                if pj == cur {
                    lemma_seg_lookup_push(pre.nodes@[cur].children@, e, pre.nodes@[i].name@);
                }
            }
        }
        assert forall|i: int, k: int|
            0 <= i < n + 1 && 0 <= k < post.nodes@[i].children@.len() implies {
                let en = #[trigger] post.nodes@[i].children@[k];
                &&& i < en.1 < n + 1
                &&& post.nodes@[en.1 as int].parent == Some((i as usize))
                &&& post.nodes@[en.1 as int].name@ == en.0@
            } by {
            if i == cur {
                if k < pre.nodes@[cur].children@.len() {
                    assert(post.nodes@[cur].children@[k] == pre.nodes@[cur].children@[k]);
                }
            } else if i < n {
                assert(post.nodes@[i].children@[k] == pre.nodes@[i].children@[k]);
            }
        }
        assert forall|i: int, k1: int, k2: int|
            0 <= i < n + 1 && 0 <= k1 < post.nodes@[i].children@.len() && 0 <= k2
                < post.nodes@[i].children@.len() && k1 != k2 implies (#[trigger] post.nodes@[i].children@[k1]).0@
            != (#[trigger] post.nodes@[i].children@[k2]).0@ by {
            if i == cur {
                let m = pre.nodes@[cur].children@.len() as int;
                if k1 < m && k2 < m {
                    assert(post.nodes@[cur].children@[k1] == pre.nodes@[cur].children@[k1]);
                    assert(post.nodes@[cur].children@[k2] == pre.nodes@[cur].children@[k2]);
                } else if k1 == m {
                    assert(post.nodes@[cur].children@[k2] == pre.nodes@[cur].children@[k2]);
                } else {
                    assert(post.nodes@[cur].children@[k1] == pre.nodes@[cur].children@[k1]);
                }
            }
        }
    }

    /// Every prefix of a stored path is stored: the tree is prefix-closed.
    pub proof fn lemma_prefix_closed(&self, p: Seq<Seq<char>>, q: Seq<Seq<char>>)
        requires
            self.contains_path(p),
            q.is_prefix_of(p),
        ensures
            self.contains_path(q),
        decreases p.len(),
    {
        if q.len() == p.len() {
            assert(q =~= p);
        } else {
            assert(q.is_prefix_of(p.drop_last())) by {
                assert(q =~= p.drop_last().subrange(0, q.len() as int));
            }
            assert(self.contains_path(p.drop_last()));
            self.lemma_prefix_closed(p.drop_last(), q);
        }
    }

    /// Creates a store holding only the root node, with the given payload
    /// attached to it.
    pub fn new(data: Option<T>) -> (r: PathStore<T>)
        ensures
            r.wf(),
            r.spec_size() == 0,
            forall|p: Seq<Seq<char>>| #[trigger] r.contains_path(p) <==> p.len() == 0,
            r.data_at(Seq::empty()) == data,
    {
        let mut nodes: Vec<PathNode<T>> = Vec::new();
        nodes.push(PathNode::root(data));
        let r = PathStore { nodes, size: 0 };
        proof {
            assert forall|p: Seq<Seq<char>>| r.contains_path(p) implies p.len() == 0 by {
                if p.len() != 0 {
                    let q = p.subrange(0, 1);
                    assert(q.is_prefix_of(p));
                    r.lemma_prefix_closed(p, q);
                    assert(q.drop_last() =~= Seq::<Seq<char>>::empty());
                    assert(!r.contains_path(q));
                }
            }
        }
        r
    }

    /// Looks a segment name up among the children of arena node `i`.
    fn find_child(&self, i: usize, name: &String) -> (r: Option<usize>)
        requires
            (i as int) < self.nodes@.len(),
        ensures
            r == seg_lookup(self.nodes@[i as int].children@, name@),
    {
        let cs = &self.nodes[i].children;
        let mut k: usize = 0;
        assert(cs@.skip(0) =~= cs@);
        while k < cs.len()
            invariant
                k <= cs@.len(),
                cs@ == self.nodes@[i as int].children@,
                seg_lookup(cs@, name@) == seg_lookup(cs@.skip(k as int), name@),
            decreases cs@.len() - k,
        {
            assert(cs@.skip(k as int)[0] == cs@[k as int]);
            if cs[k].0 == *name {
                return Some(cs[k].1);
            }
            assert(cs@.skip(k as int).drop_first() =~= cs@.skip(k as int + 1));
            k = k + 1;
        }
        assert(cs@.skip(k as int) =~= Seq::<(String, usize)>::empty());
        None
    }

    /// Inserts a path, creating missing intermediate nodes on demand, and
    /// attaches the payload to the node the full path names — overwriting,
    /// on every call, whatever payload was there before (last write wins).
    /// Intermediate nodes created along the way carry no payload.
    ///
    /// Returns `Ok(true)` exactly when at least one new node was created,
    /// `Ok(false)` when the whole path already existed structurally, and
    /// `Err(StorageError::InvalidPath)` — with the store left completely
    /// unchanged — exactly when the path is not absolute.
    pub fn add_path(&mut self, path: &PathKey, data: Option<T>) -> (r: Result<
        bool,
        StorageError,
    >)
        requires
            old(self).wf(),
            path.well_formed(),
        ensures
            final(self).wf(),
            r is Ok <==> path.spec_is_absolute(),
            match r {
                Err(e) => e == StorageError::InvalidPath && *final(self) == *old(self),
                Ok(changed) => {
                    let p = path.segs();
                    &&& changed == !old(self).contains_path(p)
                    &&& final(self).contains_path(p)
                    &&& forall|q: Seq<Seq<char>>|
                        #[trigger] final(self).contains_path(q) <==> old(self).contains_path(q)
                            || q.is_prefix_of(p)
                    &&& final(self).data_at(p) == data
                    &&& forall|q: Seq<Seq<char>>|
                        q != p && old(self).contains_path(q) ==> #[trigger] final(self).data_at(q)
                            == old(self).data_at(q)
                    &&& forall|q: Seq<Seq<char>>|
                        q != p && !old(self).contains_path(q) ==> #[trigger] final(self).data_at(
                            q,
                        ) is None
                },
            },
    {
        if !path.is_absolute() {
            return Err(StorageError::InvalidPath);
        }
        let ghost p = path.segs();
        proof {
            path.lemma_fields();
            assert(p.take(0) =~= Seq::<Seq<char>>::empty());
            assert(Seq::<Seq<char>>::empty().is_prefix_of(p.take(0)));
        }
        let segs = &path.segments;
        let mut cur: usize = 0;
        let mut changed = false;
        let mut idx: usize = 0;
        while idx < segs.len()
            invariant
                self.wf(),
                old(self).wf(),
                path.well_formed(),
                p == path.segs(),
                p == segs@.map_values(|s: String| s@),
                idx <= segs@.len(),
                (cur as int) < self.nodes@.len(),
                self.node_at(p.take(idx as int)) == Some(cur as int),
                forall|q: Seq<Seq<char>>|
                    #[trigger] self.contains_path(q) <==> old(self).contains_path(q)
                        || q.is_prefix_of(p.take(idx as int)),
                changed == !old(self).contains_path(p.take(idx as int)),
                forall|q: Seq<Seq<char>>|
                    old(self).contains_path(q) ==> #[trigger] self.data_at(q) == old(
                        self,
                    ).data_at(q),
                forall|q: Seq<Seq<char>>|
                    !old(self).contains_path(q) && self.contains_path(q)
                        ==> #[trigger] self.data_at(q) is None,
            decreases segs@.len() - idx,
        {
            let seg = &segs[idx];
            let ghost tcur = p.take(idx as int);
            let ghost tnext = p.take(idx as int + 1);
            proof {
                assert(tnext.drop_last() =~= tcur);
                assert(tnext.last() == seg@);
                assert(tcur.is_prefix_of(tnext)) by {
                    assert(tcur =~= tnext.subrange(0, tcur.len() as int));
                }
            }
            match self.find_child(cur, seg) {
                Some(c) => {
                    proof {
                        assert(self.node_at(tnext) == Some(c as int));
                        self.lemma_path_of_node_at(tnext, c as int);
                        assert(tnext.is_prefix_of(tnext)) by {
                            assert(tnext =~= tnext.subrange(0, tnext.len() as int));
                        }
                        assert(old(self).contains_path(tnext)) by {
                            assert(self.contains_path(tnext));
                        }
                        old(self).lemma_prefix_closed(tnext, tcur);
                        assert forall|q: Seq<Seq<char>>| #[trigger]
                            self.contains_path(q) <==> old(self).contains_path(q) || q.is_prefix_of(
                            tnext,
                        ) by {
                            lemma_prefix_extend(p, idx as int, q);
                        }
                    }
                    cur = c;
                },
                None => {
                    let ghost s0 = *self;
                    let c = self.nodes.len();
                    let node = PathNode::new(seg.clone(), None, cur);
                    self.nodes.push(node);
                    let entry = (seg.clone(), c);
                    let nref = &mut self.nodes[cur];
                    nref.children.push(entry);
                    self.size = self.size + 1;
                    changed = true;
                    proof {
                        let s1 = *self;
                        assert(s1.nodes@[cur as int].children@ == s0.nodes@[cur as int].children@
                            .push(entry));
                        assert(seg_ok(seg@)) by {
                            assert(path.segs()[idx as int] == seg@);
                        }
                        assert(Self::grown_by(&s0, &s1, cur as int, seg@));
                        s0.lemma_path_of_node_at(tcur, cur as int);
                        assert(s0.path_of(cur as int).push(seg@) =~= tnext);
                        Self::lemma_grow_frame_all(&s0, &s1, cur as int, seg@);
                        Self::lemma_grow_wf(&s0, &s1, cur as int, seg@);
                        assert(s1.node_at(tnext) == Some(c as int));
                        assert(!s0.contains_path(tnext));
                        assert(!old(self).contains_path(tnext)) by {
                            if old(self).contains_path(tnext) {
                                assert(s0.contains_path(tnext));
                            }
                        }
                        assert forall|q: Seq<Seq<char>>| #[trigger]
                            s1.contains_path(q) <==> old(self).contains_path(q) || q.is_prefix_of(
                            tnext,
                        ) by {
                            lemma_prefix_extend(p, idx as int, q);
                            assert(s0.contains_path(q) <==> old(self).contains_path(q)
                                || q.is_prefix_of(tcur));
                            assert(s1.node_at(q) == (if q == tnext {
                                Some(c as int)
                            } else {
                                s0.node_at(q)
                            }));
                            if q == tnext {
                                assert(q.is_prefix_of(tnext)) by {
                                    assert(q =~= tnext.subrange(0, q.len() as int));
                                }
                            }
                        }
                    }
                    cur = c;
                },
            }
            idx = idx + 1;
        }
        proof {
            assert(p.take(idx as int) =~= p);
        }
        let ghost s1 = *self;
        let nref = &mut self.nodes[cur];
        nref.set_data(data);
        proof {
            let s2 = *self;
            assert forall|q: Seq<Seq<char>>| #[trigger] s2.node_at(q) == s1.node_at(q) by {
                Self::lemma_same_shape(&s1, &s2, q);
            }
            s1.lemma_path_of_node_at(p, cur as int);
            assert forall|q: Seq<Seq<char>>|
                q != p && s1.node_at(q) is Some implies #[trigger] s2.data_at(q) == s1.data_at(
                q,
            ) by {
                let j = s1.node_at(q).unwrap();
                s1.lemma_path_of_node_at(q, j);
                if j == cur as int {
                    assert(q == p);
                }
            }
            assert(s2.wf()) by {
                assert forall|j: int| 0 <= j < s2.nodes@.len() implies {
                    &&& (#[trigger] s2.nodes@[j]).parent == s1.nodes@[j].parent
                    &&& s2.nodes@[j].name == s1.nodes@[j].name
                    &&& s2.nodes@[j].children == s1.nodes@[j].children
                } by {}
            }
            assert(s2.data_at(p) == data);
            assert(changed == !old(self).contains_path(p));
            assert forall|q: Seq<Seq<char>>|
                #[trigger] s2.contains_path(q) <==> old(self).contains_path(q) || q.is_prefix_of(
                p,
            ) by {
                assert(s2.node_at(q) == s1.node_at(q));
                assert(s1.contains_path(q) <==> old(self).contains_path(q) || q.is_prefix_of(
                    p.take(idx as int),
                ));
            }
            assert(forall|q: Seq<Seq<char>>|
                q != p && old(self).contains_path(q) ==> #[trigger] s2.data_at(q) == old(
                    self,
                ).data_at(q));
            assert(forall|q: Seq<Seq<char>>|
                q != p && !old(self).contains_path(q) ==> #[trigger] s2.data_at(q) is None);
        }
        Ok(changed)
    }

    /// A set of stored paths is finite: the store itself holds only
    /// finitely many.
    proof fn lemma_stored_subset_finite(&self, s: Set<Seq<Seq<char>>>)
        requires
            self.wf(),
            forall|q: Seq<Seq<char>>| s.contains(q) ==> self.contains_path(q),
        ensures
            s.finite(),
            s.len() <= self.paths().len(),
    {
        self.lemma_size_counts_paths();
        assert(s.subset_of(self.paths()));
        vstd::set_lib::lemma_len_subset(s, self.paths());
    }

    /// A node with no children closes its subtree: its own path is a leaf,
    /// and no other stored path extends it.
    proof fn lemma_leaf_subtree(&self, i: int)
        requires
            self.wf(),
            0 <= i < self.nodes@.len(),
            self.nodes@[i].children@.len() == 0,
        ensures
            self.is_leaf_path(self.path_of(i)),
            forall|q: Seq<Seq<char>>|
                self.contains_path(q) && #[trigger] self.path_of(i).is_prefix_of(q) ==> q
                    == self.path_of(i),
    {
        let pi = self.path_of(i);
        self.lemma_node_at_path_of(i);
        assert forall|s: Seq<char>| !self.contains_path(pi.push(s)) by {
            assert(pi.push(s).drop_last() =~= pi);
        }
        assert forall|q: Seq<Seq<char>>|
            self.contains_path(q) && #[trigger] pi.is_prefix_of(q) implies q == pi by {
            let m = pi.len() as int;
            if q.len() == m {
                assert(q =~= pi);
            } else {
                let q1 = q.take(m + 1);
                assert(q1.is_prefix_of(q)) by {
                    assert(q1 =~= q.subrange(0, m + 1));
                }
                self.lemma_prefix_closed(q, q1);
                assert(q1.drop_last() =~= pi);
                assert(q1 =~= pi.push(q[m]));
                assert(false);
            }
        }
    }

    /// A stored path that properly extends a node's own path runs through
    /// one of that node's children.
    proof fn lemma_child_step(&self, i: int, q: Seq<Seq<char>>)
        requires
            self.wf(),
            0 <= i < self.nodes@.len(),
            self.contains_path(q),
            self.path_of(i).is_prefix_of(q),
            q != self.path_of(i),
        ensures
            exists|kk: int|
                0 <= kk < self.nodes@[i].children@.len() && self.path_of(
                    (#[trigger] self.nodes@[i].children@[kk]).1 as int,
                ).is_prefix_of(q),
    {
        let pi = self.path_of(i);
        let m = pi.len() as int;
        self.lemma_node_at_path_of(i);
        if q.len() == m {
            assert(q =~= pi);
        }
        let q1 = q.take(m + 1);
        assert(q1.is_prefix_of(q)) by {
            assert(q1 =~= q.subrange(0, m + 1));
        }
        self.lemma_prefix_closed(q, q1);
        assert(q1.drop_last() =~= pi);
        let c = self.node_at(q1).unwrap();
        self.lemma_path_of_node_at(q1, c);
        assert(seg_lookup(self.nodes@[i].children@, q1.last()) == Some(c as usize));
        lemma_seg_lookup_some(self.nodes@[i].children@, q1.last(), c as usize);
        let kk = choose|kk: int|
            0 <= kk < self.nodes@[i].children@.len() && (#[trigger] self.nodes@[i].children@[kk]).0@
                == q1.last() && self.nodes@[i].children@[kk].1 == c as usize;
        assert(self.path_of(self.nodes@[i].children@[kk].1 as int) == q1);
    }

    /// Depth-first traversal below arena node `i`: appends to `out` the
    /// full text of every leaf path at or under `i`, one entry per leaf,
    /// leaving the entries already in `out` untouched.  `prefix` is the
    /// text of `i`'s own path, root sentinel excluded.
    fn walk_inner(&self, i: usize, prefix: String, out: &mut Vec<String>)
        requires
            self.wf(),
            (i as int) < self.nodes@.len(),
            prefix@ == join_segs(self.path_of(i as int)),
        ensures
            old(out)@.is_prefix_of(final(out)@),
            final(out)@.len() == old(out)@.len() + self.subtree_leaves(i as int).len(),
            forall|s: Seq<char>|
                #[trigger] vec_has_str(final(out)@, s) <==> vec_has_str(old(out)@, s) || (exists|
                    q: Seq<Seq<char>>,
                |
                    #[trigger] self.is_leaf_path(q) && self.path_of(i as int).is_prefix_of(q) && s
                        == join_path(q)),
        decreases self.nodes@.len() - i,
    {
        let ghost pi = self.path_of(i as int);
        let clen = self.nodes[i].children.len();
        if clen == 0 {
            proof {
                self.lemma_leaf_subtree(i as int);
                self.lemma_node_at_path_of(i as int);
                assert(pi.is_prefix_of(pi)) by {
                    assert(pi =~= pi.subrange(0, pi.len() as int));
                }
            }
            if i == 0 {
                let mut s = String::new();
                s.append("/");
                proof {
                    assert(pi =~= Seq::<Seq<char>>::empty());
                    reveal_strlit("/");
                    assert(s@ =~= join_path(pi));
                }
                out.push(s);
            } else {
                proof {
                    assert(prefix@ == join_path(pi));
                }
                out.push(prefix);
            }
            proof {
                assert forall|s: Seq<char>|
                    #[trigger] vec_has_str(out@, s) <==> vec_has_str(old(out)@, s) || (exists|
                        q: Seq<Seq<char>>,
                    |
                        #[trigger] self.is_leaf_path(q) && pi.is_prefix_of(q) && s == join_path(
                            q,
                        )) by {
                    if vec_has_str(out@, s) {
                        let k = choose|k: int| 0 <= k < out@.len() && out@[k]@ == s;
                        if k < out@.len() - 1 {
                            assert(vec_has_str(old(out)@, s));
                        } else {
                            assert(self.is_leaf_path(pi) && pi.is_prefix_of(pi) && s == join_path(
                                pi,
                            ));
                        }
                    }
                    if vec_has_str(old(out)@, s) {
                        let k = choose|k: int| 0 <= k < old(out)@.len() && old(out)@[k]@ == s;
                        assert(out@[k]@ == s);
                        assert(vec_has_str(out@, s));
                    }
                    if exists|q: Seq<Seq<char>>|
                        #[trigger] self.is_leaf_path(q) && pi.is_prefix_of(q) && s == join_path(
                            q,
                        ) {
                        assert(out@[out@.len() - 1]@ == s);
                        assert(vec_has_str(out@, s));
                    }
                }
                assert(old(out)@.is_prefix_of(out@)) by {
                    assert(old(out)@ =~= out@.subrange(0, old(out)@.len() as int));
                }
                assert(self.subtree_leaves(i as int) =~= Set::<Seq<Seq<char>>>::empty().insert(
                    pi,
                )) by {
                    assert forall|q: Seq<Seq<char>>|
                        self.subtree_leaves(i as int).contains(q) implies q == pi by {
                        assert(self.contains_path(q));
                    }
                    assert(self.subtree_leaves(i as int).contains(pi));
                }
                assert(self.subtree_leaves(i as int).len() == 1);
            }
        } else {
            let mut k: usize = 0;
            proof {
                assert(self.child_subtree_leaves(i as int, 0) =~= Set::<Seq<Seq<char>>>::empty());
                assert(out@.is_prefix_of(out@)) by {
                    assert(out@ =~= out@.subrange(0, out@.len() as int));
                }
            }
            while k < clen
                invariant
                    self.wf(),
                    (i as int) < self.nodes@.len(),
                    clen == self.nodes@[i as int].children@.len(),
                    k <= clen,
                    pi == self.path_of(i as int),
                    prefix@ == join_segs(pi),
                    old(out)@.is_prefix_of(out@),
                    self.child_subtree_leaves(i as int, k as int).finite(),
                    out@.len() == old(out)@.len() + self.child_subtree_leaves(
                        i as int,
                        k as int,
                    ).len(),
                    forall|s: Seq<char>|
                        #[trigger] vec_has_str(out@, s) <==> vec_has_str(old(out)@, s) || (exists|
                            q: Seq<Seq<char>>,
                            kk: int,
                        |
                            #[trigger] self.is_leaf_path(q) && 0 <= kk < k && self.path_of(
                                (#[trigger] self.nodes@[i as int].children@[kk]).1 as int,
                            ).is_prefix_of(q) && s == join_path(q)),
                decreases clen - k,
            {
                let c = self.nodes[i].children[k].1;
                let ghost nm = self.nodes@[i as int].children@[k as int].0@;
                proof {
                    assert(self.path_of(c as int) == pi.push(nm));
                    assert(pi.push(nm).drop_last() =~= pi);
                }
                let mut np = prefix.clone();
                np.append("/");
                np.append(self.nodes[i].children[k].0.as_str());
                proof {
                    reveal_strlit("/");
                    assert(np@ =~= join_segs(self.path_of(c as int)));
                }
                let ghost out_before = out@;
                self.walk_inner(c, np, out);
                proof {
                    let pc = self.path_of(c as int);
                    assert forall|s: Seq<char>|
                        #[trigger] vec_has_str(out@, s) <==> vec_has_str(old(out)@, s) || (exists|
                            q: Seq<Seq<char>>,
                            kk: int,
                        |
                            #[trigger] self.is_leaf_path(q) && 0 <= kk < k + 1 && self.path_of(
                                (#[trigger] self.nodes@[i as int].children@[kk]).1 as int,
                            ).is_prefix_of(q) && s == join_path(q)) by {
                        if vec_has_str(out@, s) {
                            if vec_has_str(out_before, s) {
                            } else {
                                let q = choose|q: Seq<Seq<char>>|
                                    #[trigger] self.is_leaf_path(q) && pc.is_prefix_of(q) && s
                                        == join_path(q);
                                assert(self.is_leaf_path(q) && 0 <= (k as int) < k + 1
                                    && self.path_of(
                                    self.nodes@[i as int].children@[k as int].1 as int,
                                ).is_prefix_of(q) && s == join_path(q));
                            }
                        }
                        if exists|q: Seq<Seq<char>>, kk: int|
                            #[trigger] self.is_leaf_path(q) && 0 <= kk < k + 1 && self.path_of(
                                (#[trigger] self.nodes@[i as int].children@[kk]).1 as int,
                            ).is_prefix_of(q) && s == join_path(q) {
                            let (q, kk) = choose|q: Seq<Seq<char>>, kk: int|
                                #[trigger] self.is_leaf_path(q) && 0 <= kk < k + 1 && self.path_of(
                                    (#[trigger] self.nodes@[i as int].children@[kk]).1 as int,
                                ).is_prefix_of(q) && s == join_path(q);
                            if kk < k {
                                assert(vec_has_str(out_before, s));
                            } else {
                                assert(pc.is_prefix_of(q));
                            }
                            assert(vec_has_str(out@, s));
                        }
                    }
                    let prev = self.child_subtree_leaves(i as int, k as int);
                    let csl = self.subtree_leaves(c as int);
                    assert forall|q: Seq<Seq<char>>| csl.contains(q) implies self.contains_path(
                        q,
                    ) by {}
                    self.lemma_stored_subset_finite(csl);
                    assert forall|q: Seq<Seq<char>>| !(prev.contains(q) && csl.contains(q)) by {
                        if prev.contains(q) && csl.contains(q) {
                            let kk = choose|kk: int|
                                0 <= kk < k && self.path_of(
                                    (#[trigger] self.nodes@[i as int].children@[kk]).1 as int,
                                ).is_prefix_of(q);
                            let ce = self.nodes@[i as int].children@[kk];
                            assert(self.path_of(ce.1 as int) == pi.push(ce.0@));
                            let m = pi.len() as int;
                            assert(q[m] == ce.0@);
                            assert(q[m] == nm);
                            assert(false);
                        }
                    }
                    assert(prev.disjoint(csl));
                    vstd::set_lib::lemma_set_disjoint_lens(prev, csl);
                    vstd::set_lib::lemma_set_union_finite_iff(prev, csl);
                    assert(self.child_subtree_leaves(i as int, k as int + 1) =~= prev + csl) by {
                        assert forall|q: Seq<Seq<char>>|
                            self.child_subtree_leaves(i as int, k as int + 1).contains(
                                q,
                            ) implies (prev + csl).contains(q) by {
                            let kk = choose|kk: int|
                                0 <= kk < k + 1 && self.path_of(
                                    (#[trigger] self.nodes@[i as int].children@[kk]).1 as int,
                                ).is_prefix_of(q);
                            if kk == k {
                                assert(csl.contains(q));
                            } else {
                                assert(prev.contains(q));
                            }
                        }
                        assert forall|q: Seq<Seq<char>>|
                            (prev + csl).contains(q) implies self.child_subtree_leaves(
                                i as int,
                                k as int + 1,
                            ).contains(q) by {
                            if csl.contains(q) {
                                assert(self.nodes@[i as int].children@[k as int].1 == c);
                                assert(0 <= (k as int) < k + 1 && self.path_of(
                                    (self.nodes@[i as int].children@[k as int]).1 as int,
                                ).is_prefix_of(q));
                            } else {
                                assert(prev.contains(q));
                                let kk = choose|kk: int|
                                    0 <= kk < k && self.path_of(
                                        (#[trigger] self.nodes@[i as int].children@[kk]).1 as int,
                                    ).is_prefix_of(q);
                                assert(0 <= kk < k + 1 && self.path_of(
                                    (self.nodes@[i as int].children@[kk]).1 as int,
                                ).is_prefix_of(q));
                            }
                        }
                    }
                    lemma_prefix_transitive(old(out)@, out_before, out@);
                }
                k = k + 1;
            }
            proof {
                assert forall|s: Seq<char>|
                    #[trigger] vec_has_str(out@, s) <==> vec_has_str(old(out)@, s) || (exists|
                        q: Seq<Seq<char>>,
                    |
                        #[trigger] self.is_leaf_path(q) && pi.is_prefix_of(q) && s == join_path(
                            q,
                        )) by {
                    if vec_has_str(out@, s) && !vec_has_str(old(out)@, s) {
                        let (q, kk) = choose|q: Seq<Seq<char>>, kk: int|
                            #[trigger] self.is_leaf_path(q) && 0 <= kk < clen && self.path_of(
                                (#[trigger] self.nodes@[i as int].children@[kk]).1 as int,
                            ).is_prefix_of(q) && s == join_path(q);
                        let pc = self.path_of(self.nodes@[i as int].children@[kk].1 as int);
                        assert(pc == pi.push(self.nodes@[i as int].children@[kk].0@));
                        assert(pi.is_prefix_of(q)) by {
                            assert(pi =~= q.subrange(0, pi.len() as int));
                        }
                    }
                    if exists|q: Seq<Seq<char>>|
                        #[trigger] self.is_leaf_path(q) && pi.is_prefix_of(q) && s == join_path(
                            q,
                        ) {
                        let q = choose|q: Seq<Seq<char>>|
                            #[trigger] self.is_leaf_path(q) && pi.is_prefix_of(q) && s == join_path(
                                q,
                            );
                        let c0 = self.nodes@[i as int].children@[0].1;
                        self.lemma_node_at_path_of(c0 as int);
                        assert(self.path_of(c0 as int) == pi.push(
                            self.nodes@[i as int].children@[0].0@,
                        ));
                        assert(q != pi) by {
                            assert(self.contains_path(pi.push(
                                self.nodes@[i as int].children@[0].0@,
                            )));
                        }
                        self.lemma_child_step(i as int, q);
                        assert(vec_has_str(out@, s));
                    }
                }
                assert forall|q: Seq<Seq<char>>|
                    self.subtree_leaves(i as int).contains(q) <==> self.child_subtree_leaves(
                    i as int,
                    clen as int,
                ).contains(q) by {
                    if self.child_subtree_leaves(i as int, clen as int).contains(q) {
                        let kk = choose|kk: int|
                            0 <= kk < clen && self.path_of(
                                (#[trigger] self.nodes@[i as int].children@[kk]).1 as int,
                            ).is_prefix_of(q);
                        let ce = self.nodes@[i as int].children@[kk];
                        assert(self.path_of(ce.1 as int) == pi.push(ce.0@));
                        assert(pi.is_prefix_of(q)) by {
                            assert(pi =~= q.subrange(0, pi.len() as int));
                        }
                    }
                    if self.subtree_leaves(i as int).contains(q) {
                        let c0 = self.nodes@[i as int].children@[0].1;
                        self.lemma_node_at_path_of(c0 as int);
                        assert(self.path_of(c0 as int) == pi.push(
                            self.nodes@[i as int].children@[0].0@,
                        ));
                        assert(q != pi) by {
                            assert(self.contains_path(pi.push(
                                self.nodes@[i as int].children@[0].0@,
                            )));
                        }
                        self.lemma_child_step(i as int, q);
                    }
                }
                assert(self.subtree_leaves(i as int) =~= self.child_subtree_leaves(
                    i as int,
                    clen as int,
                ));
            }
        }
    }

    /// Enumerates the full path text of every current leaf, one entry per
    /// leaf, in unspecified order.  Exactly the leaves are reported: a
    /// node carrying a payload but having children contributes nothing.
    pub fn walk(&self) -> (r: Vec<String>)
        requires
            self.wf(),
        ensures
            self.leaf_paths().finite(),
            r@.len() == self.leaf_paths().len(),
            forall|s: Seq<char>|
                #[trigger] vec_has_str(r@, s) <==> (exists|q: Seq<Seq<char>>|
                    #[trigger] self.is_leaf_path(q) && s == join_path(q)),
    {
        let mut out: Vec<String> = Vec::new();
        proof {
            assert(self.path_of(0) =~= Seq::<Seq<char>>::empty());
            assert(join_segs(self.path_of(0)) =~= Seq::<char>::empty());
        }
        let prefix = String::new();
        self.walk_inner(0, prefix, &mut out);
        proof {
            assert forall|q: Seq<Seq<char>>| #[trigger] self.path_of(0).is_prefix_of(q) by {
                assert(self.path_of(0) =~= q.subrange(0, 0));
            }
            assert(self.subtree_leaves(0) =~= self.leaf_paths());
            assert forall|q: Seq<Seq<char>>|
                self.leaf_paths().contains(q) implies self.contains_path(q) by {}
            self.lemma_stored_subset_finite(self.leaf_paths());
        }
        out
    }

    /// The recorded size counts exactly the distinct non-root paths
    /// stored: shared prefixes are never double-counted, and nothing is
    /// ever deleted.
    pub proof fn lemma_size_counts_paths(&self)
        requires
            self.wf(),
        ensures
            self.paths().finite(),
            self.paths().len() == self.spec_size() + 1,
    {
        let n = self.nodes@.len() as int;
        let rng = vstd::set_lib::set_int_range(0, n);
        let f = |j: int| self.path_of(j);
        vstd::set_lib::lemma_int_range(0, n);
        assert forall|q: Seq<Seq<char>>| self.paths().contains(q) implies rng.map(f).contains(
            q,
        ) by {
            let j = self.node_at(q).unwrap();
            self.lemma_path_of_node_at(q, j);
            assert(rng.contains(j) && f(j) == q);
        }
        assert forall|j: int| rng.contains(j) implies self.paths().contains(f(j)) by {
            self.lemma_node_at_path_of(j);
        }
        assert(self.paths() =~= rng.map(f));
        assert forall|x: int, y: int| rng.contains(x) && rng.contains(y) && x != y implies f(x)
            != f(y) by {
            self.lemma_node_at_path_of(x);
            self.lemma_node_at_path_of(y);
        }
        lemma_injective_image_len(rng, f);
    }

    /// Re-inserting a path that is already present creates nothing: the
    /// set of stored paths — and with it the size — is unchanged.  (The
    /// relation between the two stores is what `add_path`'s contract
    /// grants of a successful call; that contract further says the call
    /// returned `false` and still overwrote the payload at `p`.)
    pub proof fn lemma_reinsert_creates_nothing(
        pre: &PathStore<T>,
        post: &PathStore<T>,
        p: Seq<Seq<char>>,
    )
        requires
            pre.wf(),
            post.wf(),
            pre.contains_path(p),
            forall|q: Seq<Seq<char>>|
                #[trigger] post.contains_path(q) <==> pre.contains_path(q) || q.is_prefix_of(p),
        ensures
            post.paths() =~= pre.paths(),
            post.spec_size() == pre.spec_size(),
    {
        assert forall|q: Seq<Seq<char>>|
            post.paths().contains(q) <==> pre.paths().contains(q) by {
            assert(post.contains_path(q) <==> pre.contains_path(q) || q.is_prefix_of(p));
            if q.is_prefix_of(p) {
                pre.lemma_prefix_closed(p, q);
            }
        }
        assert(post.paths() =~= pre.paths());
        pre.lemma_size_counts_paths();
        post.lemma_size_counts_paths();
        assert(post.paths().len() == pre.paths().len());
    }

    /// Round trip: in a store whose paths are exactly the prefixes of the
    /// members of a set `a` of non-empty paths, none of which is a prefix
    /// of another, the leaves are exactly the members of `a` — so `walk`
    /// reports exactly those paths.
    pub proof fn lemma_round_trip(s: &PathStore<T>, a: Set<Seq<Seq<char>>>)
        requires
            forall|p: Seq<Seq<char>>| a.contains(p) ==> p.len() > 0,
            forall|p: Seq<Seq<char>>, q: Seq<Seq<char>>|
                a.contains(p) && a.contains(q) && p != q ==> !p.is_prefix_of(q),
            forall|q: Seq<Seq<char>>|
                #[trigger] s.contains_path(q) <==> exists|p: Seq<Seq<char>>|
                    a.contains(p) && q.is_prefix_of(p),
        ensures
            forall|q: Seq<Seq<char>>| #[trigger] s.is_leaf_path(q) <==> a.contains(q),
    {
        assert forall|q: Seq<Seq<char>>| #[trigger] s.is_leaf_path(q) <==> a.contains(q) by {
            if a.contains(q) {
                assert(q.is_prefix_of(q)) by {
                    assert(q =~= q.subrange(0, q.len() as int));
                }
                assert(s.contains_path(q));
                assert forall|x: Seq<char>| !s.contains_path(q.push(x)) by {
                    if s.contains_path(q.push(x)) {
                        let p = choose|p: Seq<Seq<char>>|
                            a.contains(p) && q.push(x).is_prefix_of(p);
                        assert(q.is_prefix_of(p)) by {
                            assert(q =~= p.subrange(0, q.len() as int));
                        }
                        assert(q != p);
                    }
                }
            }
            if s.is_leaf_path(q) {
                assert(s.contains_path(q));
                let p = choose|p: Seq<Seq<char>>| a.contains(p) && q.is_prefix_of(p);
                if q != p {
                    assert(q.len() <= p.len());
                    if q.len() == p.len() {
                        assert(q =~= p);
                    }
                    let x = p[q.len() as int];
                    assert(q.push(x).is_prefix_of(p)) by {
                        assert(q.push(x) =~= p.subrange(0, q.len() as int + 1));
                    }
                    assert(s.contains_path(q.push(x)));
                    assert(false);
                }
                assert(a.contains(q));
            }
        }
    }

    /// Reads the payload attached at this exact path: `Some` exactly when
    /// the path is absolute, its node is present, and a payload was
    /// attached there.  Pure read; the tree is not changed.
    pub fn get_data(&self, path: &PathKey) -> (r: Option<&T>)
        requires
            self.wf(),
            path.well_formed(),
        ensures
            ({
                let p = path.segs();
                if path.spec_is_absolute() && self.contains_path(p) {
                    match r {
                        Some(d) => self.data_at(p) == Some(*d),
                        None => self.data_at(p) is None,
                    }
                } else {
                    r is None
                }
            }),
    {
        if !path.is_absolute() {
            return None;
        }
        let ghost p = path.segs();
        proof {
            path.lemma_fields();
            assert(p.take(0) =~= Seq::<Seq<char>>::empty());
        }
        let segs = &path.segments;
        let mut cur: usize = 0;
        let mut idx: usize = 0;
        while idx < segs.len()
            invariant
                self.wf(),
                p == path.segs(),
                p == segs@.map_values(|s: String| s@),
                idx <= segs@.len(),
                (cur as int) < self.nodes@.len(),
                self.node_at(p.take(idx as int)) == Some(cur as int),
            decreases segs@.len() - idx,
        {
            let seg = &segs[idx];
            let ghost tnext = p.take(idx as int + 1);
            proof {
                assert(tnext.drop_last() =~= p.take(idx as int));
                assert(tnext.last() == seg@);
            }
            match self.find_child(cur, seg) {
                Some(c) => {
                    proof {
                        assert(self.node_at(tnext) == Some(c as int));
                        self.lemma_path_of_node_at(tnext, c as int);
                    }
                    cur = c;
                },
                None => {
                    proof {
                        assert(!self.contains_path(tnext));
                        assert(tnext.is_prefix_of(p)) by {
                            assert(tnext =~= p.subrange(0, idx as int + 1));
                        }
                        if self.contains_path(p) {
                            self.lemma_prefix_closed(p, tnext);
                        }
                    }
                    return None;
                },
            }
            idx = idx + 1;
        }
        proof {
            assert(p.take(idx as int) =~= p);
        }
        match &self.nodes[cur].data {
            Some(d) => Some(d),
            None => None,
        }
    }

    /// The current count of non-root nodes.
    pub fn size(&self) -> (r: usize)
        requires
            self.wf(),
        ensures
            r == self.spec_size(),
            self.paths().finite(),
            r + 1 == self.paths().len(),
    {
        proof {
            self.lemma_size_counts_paths();
        }
        self.size
    }
}

} // verus!
