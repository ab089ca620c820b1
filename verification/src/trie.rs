//! The pattern trie: one node for every text that begins a pattern, built by
//! inserting the patterns in order.

use crate::text::{
    is_known_prefix, lemma_patterns_equal_to, lemma_patterns_equal_to_push, patterns_equal_to,
};
use vstd::prelude::*;

verus! {

/// An edge out of a node: the codepoint that labels it and the node it leads to.
#[derive(Clone, Copy)]
pub struct Edge {
    pub label: char,
    pub child: usize,
}

/// The trie as arrays, one entry for each node; node 0 is the root.
pub struct Trie {
    /// The parent of each node; the root, node 0, is its own parent.
    pub parent: Vec<usize>,
    /// The codepoint on the edge that enters each node.
    pub label: Vec<char>,
    /// The edges that leave each node, in the order they were created.
    pub edges: Vec<Vec<Edge>>,
    /// The patterns that end exactly at each node, ascending.
    pub direct: Vec<Vec<usize>>,
    /// The text that leads from the root to each node.
    pub texts: Ghost<Seq<Seq<char>>>,
}

/// `w` begins one of the patterns `ps`, or begins the text `extra` (the part
/// of a further pattern that has been inserted so far).
pub open spec fn in_trie(ps: Seq<Seq<char>>, extra: Seq<char>, w: Seq<char>) -> bool {
    is_known_prefix(ps, w) || w.is_prefix_of(extra)
}

impl Trie {
    /// The number of nodes.
    pub open spec fn size(&self) -> int {
        self.parent@.len() as int
    }

    /// The text of node `v`.
    pub open spec fn text(&self, v: int) -> Seq<char> {
        self.texts@[v]
    }

    /// Some node stands for the text `w`.
    pub open spec fn has_node(&self, w: Seq<char>) -> bool {
        exists|v: int| 0 <= v < self.size() && #[trigger] self.text(v) == w
    }

    /// Node `v` is entered from its parent by an edge listed there.
    pub open spec fn listed(&self, v: int) -> bool {
        exists|j: int|
            0 <= j < self.edges@[self.parent@[v] as int]@.len() && (
            #[trigger] self.edges@[self.parent@[v] as int]@[j]).child == v
    }

    /// Edge `j` of node `p` leads to a child of `p` that is entered by its label.
    pub open spec fn edge_ok(&self, p: int, j: int) -> bool {
        let e = self.edges@[p]@[j];
        &&& 0 < e.child < self.size()
        &&& self.parent@[e.child as int] == p
        &&& self.label@[e.child as int] == e.label
    }

    /// Node `v` lists the patterns of `ps` equal to its text, ascending.
    pub open spec fn direct_ok(&self, ps: Seq<Seq<char>>, v: int) -> bool {
        let ids = patterns_equal_to(ps, self.text(v), ps.len() as int);
        &&& self.direct@[v]@.len() == ids.len()
        &&& forall|j: int| 0 <= j < ids.len() ==> #[trigger] self.direct@[v]@[j] == ids[j]
    }

    /// The nodes are exactly the texts that begin a pattern of `ps` or begin
    /// `extra`, each once; edges and parents agree; and every node lists the
    /// patterns of `ps` that equal its text.
    pub open spec fn wf(&self, ps: Seq<Seq<char>>, extra: Seq<char>) -> bool {
        &&& self.size() >= 1
        &&& self.label@.len() == self.size()
        &&& self.edges@.len() == self.size()
        &&& self.direct@.len() == self.size()
        &&& self.texts@.len() == self.size()
        &&& self.text(0) == Seq::<char>::empty()
        &&& self.parent@[0] == 0
        &&& forall|v: int|
            0 < v < self.size() ==> (#[trigger] self.parent@[v]) < v && self.text(v) == self.text(
                self.parent@[v] as int,
            ).push(self.label@[v])
        &&& forall|u: int, v: int|
            0 <= u < v < self.size() ==> #[trigger] self.text(u) != #[trigger] self.text(v)
        &&& forall|v: int| 0 <= v < self.size() ==> (#[trigger] self.text(v)).len() <= v
        &&& forall|v: int| 0 <= v < self.size() ==> in_trie(ps, extra, #[trigger] self.text(v))
        &&& forall|w: Seq<char>| #[trigger] in_trie(ps, extra, w) ==> self.has_node(w)
        &&& forall|p: int, j: int|
            0 <= p < self.size() && 0 <= j < self.edges@[p]@.len() ==> #[trigger] self.edge_ok(p, j)
        &&& forall|p: int, i: int, j: int|
            0 <= p < self.size() && 0 <= i < j < self.edges@[p]@.len() ==> (
            #[trigger] self.edges@[p]@[i]).label != (#[trigger] self.edges@[p]@[j]).label
        &&& forall|v: int| 0 < v < self.size() ==> #[trigger] self.listed(v)
        &&& forall|v: int| 0 <= v < self.size() ==> #[trigger] self.direct_ok(ps, v)
    }

    /// The trie of no patterns: the root alone.
    pub fn new() -> (t: Trie)
        ensures
            t.wf(Seq::empty(), Seq::empty()),
            t.size() == 1,
    {
        let mut parent: Vec<usize> = Vec::new();
        parent.push(0);
        let mut label: Vec<char> = Vec::new();
        label.push('\0');
        let mut edges: Vec<Vec<Edge>> = Vec::new();
        edges.push(Vec::new());
        let mut direct: Vec<Vec<usize>> = Vec::new();
        direct.push(Vec::new());
        let ghost texts = Seq::<Seq<char>>::empty().push(Seq::<char>::empty());
        let t = Trie { parent, label, edges, direct, texts: Ghost(texts) };
        proof {
            let none = Seq::<Seq<char>>::empty();
            let e = Seq::<char>::empty();
            assert forall|w: Seq<char>| #[trigger] in_trie(none, e, w) implies t.has_node(w) by {
                assert(w =~= e);
                assert(t.text(0) == w);
            }
            assert(t.direct_ok(none, 0));
        }
        t
    }

    /// The child of node `p` under `c`, if there is one.
    pub fn find_child(&self, p: usize, c: char, Ghost(ps): Ghost<Seq<Seq<char>>>, Ghost(extra): Ghost<
        Seq<char>,
    >) -> (r: Option<usize>)
        requires
            self.wf(ps, extra),
            p < self.size(),
        ensures
            match r {
                Some(v) => 0 < v < self.size() && self.text(v as int) == self.text(p as int).push(c),
                None => {
                    &&& !self.has_node(self.text(p as int).push(c))
                    &&& forall|j: int|
                        0 <= j < self.edges@[p as int]@.len() ==> (
                        #[trigger] self.edges@[p as int]@[j]).label != c
                },
            },
    {
        let row = &self.edges[p];
        let mut j: usize = 0;
        while j < row.len()
            invariant
                j <= row@.len(),
                row@ == self.edges@[p as int]@,
                self.wf(ps, extra),
                p < self.size(),
                forall|i: int| 0 <= i < j ==> (#[trigger] row@[i]).label != c,
            decreases row@.len() - j,
        {
            if row[j].label == c {
                assert(self.edge_ok(p as int, j as int));
                return Some(row[j].child);
            }
            j += 1;
        }
        proof {
            let w = self.text(p as int).push(c);
            if self.has_node(w) {
                let v = choose|v: int| 0 <= v < self.size() && #[trigger] self.text(v) == w;
                assert(v != 0) by {
                    assert(w.len() > 0);
                }
                let q = self.parent@[v] as int;
                assert(self.text(v) == self.text(q).push(self.label@[v]));
                assert(self.text(q) == w.drop_last());
                assert(self.text(p as int) == w.drop_last());
                assert(self.label@[v] == w.last());
                assert(q == p) by {
                    if q < p {
                        assert(self.text(q) != self.text(p as int));
                    } else if p < q {
                        assert(self.text(p as int) != self.text(q));
                    }
                }
                assert(self.listed(v));
                let i = choose|i: int|
                    0 <= i < self.edges@[q]@.len() && (#[trigger] self.edges@[q]@[i]).child == v;
                assert(self.edge_ok(q, i));
                assert(false);
            }
        }
        None
    }

    /// Adds a node under `p`, entered by `c`, for a text that has no node yet.
    fn add_child(
        &mut self,
        p: usize,
        c: char,
        Ghost(ps): Ghost<Seq<Seq<char>>>,
        Ghost(extra): Ghost<Seq<char>>,
    ) -> (v: usize)
        requires
            old(self).wf(ps, extra),
            p < old(self).size(),
            old(self).text(p as int) == extra,
            !old(self).has_node(extra.push(c)),
            forall|j: int|
                0 <= j < old(self).edges@[p as int]@.len() ==> (
                #[trigger] old(self).edges@[p as int]@[j]).label != c,
        ensures
            final(self).wf(ps, extra.push(c)),
            v == old(self).size(),
            final(self).size() == old(self).size() + 1,
            final(self).text(v as int) == extra.push(c),
    {
        let v = self.parent.len();
        let ghost old_self = *self;
        let ghost w = extra.push(c);
        self.parent.push(p);
        self.label.push(c);
        self.edges.push(Vec::new());
        self.direct.push(Vec::new());
        self.edges[p].push(Edge { label: c, child: v });
        proof {
            self.texts@ = self.texts@.push(w);
            assert forall|u: int| 0 <= u < old_self.size() implies self.text(u) == old_self.text(
                u,
            ) by {}
            assert(self.edges@[p as int]@ == old_self.edges@[p as int]@.push(
                Edge { label: c, child: v },
            ));
            assert forall|q: int| 0 <= q < v && q != p implies self.edges@[q] == old_self.edges@[q] by {}
            assert forall|x: Seq<char>| #[trigger] in_trie(ps, w, x) implies self.has_node(x) by {
                if in_trie(ps, extra, x) {
                    assert(old_self.has_node(x));
                    let u = choose|u: int| 0 <= u < old_self.size() && #[trigger] old_self.text(u) == x;
                    assert(self.text(u) == x);
                } else {
                    assert(x.is_prefix_of(w));
                    if x.len() <= extra.len() {
                        assert(x.is_prefix_of(extra));
                    }
                    assert(x =~= w);
                    assert(self.text(v as int) == x);
                }
            }
            assert forall|q: int, j: int|
                0 <= q < self.size() && 0 <= j < self.edges@[q]@.len() implies #[trigger] self.edge_ok(
                q,
                j,
            ) by {
                if q == p && j == old_self.edges@[q]@.len() {
                } else {
                    assert(old_self.edge_ok(q, j));
                }
            }
            assert forall|u: int| 0 < u < self.size() implies #[trigger] self.listed(u) by {
                if u < v {
                    assert(old_self.listed(u));
                    let q = old_self.parent@[u] as int;
                    let j = choose|j: int|
                        0 <= j < old_self.edges@[q]@.len() && (#[trigger] old_self.edges@[q]@[j]).child
                            == u;
                    assert(self.parent@[u] == q);
                    assert(self.edges@[q]@[j] == old_self.edges@[q]@[j]);
                    assert(self.edges@[self.parent@[u] as int]@[j].child == u);
                } else {
                    let j = old_self.edges@[p as int]@.len() as int;
                    assert(self.parent@[u] == p);
                    assert(self.edges@[self.parent@[u] as int]@[j].child == v);
                }
            }
            assert forall|u: int| 0 <= u < self.size() implies #[trigger] self.direct_ok(ps, u) by {
                if u < v {
                    assert(old_self.direct_ok(ps, u));
                } else {
                    let ids = patterns_equal_to(ps, w, ps.len() as int);
                    lemma_patterns_equal_to(ps, w, ps.len() as int);
                    if ids.len() > 0 {
                        assert(w.is_prefix_of(ps[ids[0]]));
                        assert(in_trie(ps, extra, w));
                    }
                }
            }
            assert forall|u: int| 0 <= u < self.size() implies (#[trigger] self.text(u)).len()
                <= u by {
                if u < v {
                    assert(old_self.text(u).len() <= u);
                } else {
                    assert(old_self.text(p as int).len() <= p);
                }
            }
            assert forall|a: int, b: int| 0 <= a < b < self.size() implies #[trigger] self.text(a)
                != #[trigger] self.text(b) by {
                if b == v {
                    if self.text(a) == w {
                        assert(old_self.text(a) == w);
                        assert(old_self.has_node(w));
                    }
                } else {
                    assert(old_self.text(a) != old_self.text(b));
                }
            }
            assert forall|u: int| 0 <= u < self.size() implies in_trie(
                ps,
                w,
                #[trigger] self.text(u),
            ) by {
                if u < v {
                    assert(in_trie(ps, extra, old_self.text(u)));
                    if old_self.text(u).is_prefix_of(extra) {
                        assert(old_self.text(u).is_prefix_of(w));
                    }
                }
            }
        }
        v
    }

    /// Inserts the pattern `pat`, which becomes the pattern with index `id`.
    pub fn insert(&mut self, pat: &Vec<char>, id: usize, Ghost(ps): Ghost<Seq<Seq<char>>>)
        requires
            old(self).wf(ps, Seq::empty()),
            id == ps.len(),
        ensures
            final(self).wf(ps.push(pat@), Seq::empty()),
            final(self).size() <= old(self).size() + pat@.len(),
    {
        let mut cur: usize = 0;
        let mut k: usize = 0;
        assert(pat@.take(0) =~= Seq::<char>::empty());
        while k < pat.len()
            invariant
                k <= pat@.len(),
                self.wf(ps, pat@.take(k as int)),
                cur < self.size(),
                self.text(cur as int) == pat@.take(k as int),
                self.size() <= old(self).size() + k,
            decreases pat@.len() - k,
        {
            let c = pat[k];
            let ghost extra = pat@.take(k as int);
            let ghost next = pat@.take(k + 1);
            assert(next == extra.push(c));
            match self.find_child(cur, c, Ghost(ps), Ghost(extra)) {
                Some(v) => {
                    proof {
                        assert forall|x: Seq<char>| #[trigger] in_trie(ps, next, x) implies self.has_node(
                            x,
                        ) by {
                            if !in_trie(ps, extra, x) {
                                if x.len() <= extra.len() {
                                    assert(x.is_prefix_of(extra));
                                }
                                assert(x =~= next);
                                assert(self.text(v as int) == x);
                            }
                        }
                        assert forall|u: int| 0 <= u < self.size() implies in_trie(
                            ps,
                            next,
                            #[trigger] self.text(u),
                        ) by {
                            assert(in_trie(ps, extra, self.text(u)));
                            if self.text(u).is_prefix_of(extra) {
                                assert(self.text(u).is_prefix_of(next));
                            }
                        }
                    }
                    cur = v;
                },
                None => {
                    cur = self.add_child(cur, c, Ghost(ps), Ghost(extra));
                },
            }
            k += 1;
        }
        let ghost before = *self;
        let ghost all = ps.push(pat@);
        let ghost none = Seq::<char>::empty();
        assert(pat@.take(pat@.len() as int) == pat@);
        self.direct[cur].push(id);
        proof {
            assert forall|x: Seq<char>| is_known_prefix(all, x) <==> in_trie(ps, pat@, x) by {
                if is_known_prefix(all, x) {
                    let i = choose|i: int| 0 <= i < all.len() && #[trigger] x.is_prefix_of(all[i]);
                    if i < ps.len() {
                        assert(x.is_prefix_of(ps[i]));
                    }
                }
                if is_known_prefix(ps, x) {
                    let i = choose|i: int| 0 <= i < ps.len() && #[trigger] x.is_prefix_of(ps[i]);
                    assert(x.is_prefix_of(all[i]));
                }
                if x.is_prefix_of(pat@) {
                    assert(x.is_prefix_of(all[ps.len() as int]));
                }
            }
            assert forall|x: Seq<char>| #[trigger] in_trie(all, none, x) implies self.has_node(x) by {
                if x.is_prefix_of(none) {
                    assert(x.is_prefix_of(pat@));
                }
                assert(in_trie(ps, pat@, x));
                assert(before.has_node(x));
                let u = choose|u: int| 0 <= u < before.size() && #[trigger] before.text(u) == x;
                assert(self.text(u) == x);
            }
            assert forall|u: int| 0 <= u < self.size() implies in_trie(
                all,
                none,
                #[trigger] self.text(u),
            ) by {
                assert(in_trie(ps, pat@, before.text(u)));
            }
            assert forall|q: int, j: int|
                0 <= q < self.size() && 0 <= j < self.edges@[q]@.len() implies #[trigger] self.edge_ok(
                q,
                j,
            ) by {
                assert(before.edge_ok(q, j));
            }
            assert(self.edges@ == before.edges@);
            assert(self.parent@ == before.parent@);
            assert forall|a: int, b: int| 0 <= a < b < self.size() implies #[trigger] self.text(a)
                != #[trigger] self.text(b) by {
                assert(before.text(a) != before.text(b));
            }
            assert forall|u: int| 0 <= u < self.size() implies (#[trigger] self.text(u)).len()
                <= u by {
                assert(before.text(u).len() <= u);
            }
            assert forall|u: int| 0 < u < self.size() implies #[trigger] self.listed(u) by {
                assert(before.listed(u));
                let q = before.parent@[u] as int;
                let j = choose|j: int|
                    0 <= j < before.edges@[q]@.len() && (#[trigger] before.edges@[q]@[j]).child == u;
                assert(self.edges@[self.parent@[u] as int]@[j].child == u);
            }
            assert forall|u: int| 0 <= u < self.size() implies #[trigger] self.direct_ok(all, u) by {
                assert(before.direct_ok(ps, u));
                lemma_patterns_equal_to_push(ps, pat@, self.text(u), ps.len() as int);
                if u != cur {
                    if u < cur {
                        assert(before.text(u) != before.text(cur as int));
                    } else {
                        assert(before.text(cur as int) != before.text(u));
                    }
                    assert(self.direct@[u] == before.direct@[u]);
                }
            }
        }
    }
}

} // verus!
