//! Compaction of the pattern trie into the double array.
//!
//! The nodes are taken in the order they were created, so a node is placed
//! before its children are. For each node a `base` is searched such that the
//! slots of all its children are free; the children then take these slots.

use crate::alphabet::{code_in, mapped_in, numbers};
use crate::double_array::{DoubleArray, Output, UNUSED};
use crate::position::{lemma_storage_len_range, storage_len, width_of};
use crate::text::is_known_prefix;
use crate::trie::{in_trie, Edge, Trie};
use vstd::prelude::*;

verus! {

/// The double array under construction, with the slot of each placed node.
pub struct Layout {
    pub da: DoubleArray,
    /// The slot of each trie node, `UNUSED` until the node is placed.
    pub pos: Vec<usize>,
    /// The codepoint on the edge that enters each state.
    pub labels: Vec<char>,
    /// The trie node that each used slot holds.
    pub node_of: Ghost<Seq<int>>,
}

/// Slot `t` holds no state: it lies beyond the arrays or is marked unused.
pub open spec fn slot_free(check: Seq<usize>, t: int) -> bool {
    t >= check.len() || check[t] == UNUSED
}

/// With base `b`, the slots of the edges of `row` from index `from` on are free.
pub open spec fn row_free(
    check: Seq<usize>,
    codes: Seq<usize>,
    row: Seq<Edge>,
    b: int,
    from: int,
) -> bool {
    forall|i: int|
        from <= i < row.len() ==> slot_free(check, b + code_in(codes, (#[trigger] row[i]).label))
}

/// The codepoints on the edges of `row` have numbers, of which `b` and any
/// one add up to less than `limit`.
pub open spec fn row_mapped(codes: Seq<usize>, row: Seq<Edge>, b: int, limit: int) -> bool {
    forall|i: int|
        0 <= i < row.len() ==> mapped_in(codes, (#[trigger] row[i]).label) && b + code_in(
            codes,
            row[i].label,
        ) < limit
}

/// The output entries of the patterns `ids`, all of the given length.
pub fn direct_entries(ids: &Vec<usize>, length: usize) -> (out: Vec<Output>)
    ensures
        out@.len() == ids@.len(),
        forall|j: int|
            0 <= j < ids@.len() ==> (#[trigger] out@[j]).value == ids@[j] && out@[j].length
                == length,
{
    let mut out: Vec<Output> = Vec::new();
    let mut j: usize = 0;
    while j < ids.len()
        invariant
            j <= ids@.len(),
            out@.len() == j,
            forall|i: int|
                0 <= i < j ==> (#[trigger] out@[i]).value == ids@[i] && out@[i].length == length,
        decreases ids@.len() - j,
    {
        out.push(Output { value: ids[j], length });
        j += 1;
    }
    out
}

/// Whether every edge of `row` finds a free slot under base `b`.
fn row_fits(check: &Vec<usize>, codes: &Vec<usize>, row: &Vec<Edge>, b: usize) -> (ok: bool)
    requires
        row_mapped(codes@, row@, b as int, usize::MAX as int),
    ensures
        ok == row_free(check@, codes@, row@, b as int, 0),
{
    let mut i: usize = 0;
    while i < row.len()
        invariant
            i <= row@.len(),
            row_mapped(codes@, row@, b as int, usize::MAX as int),
            forall|k: int|
                0 <= k < i ==> slot_free(check@, b + code_in(codes@, (#[trigger] row@[k]).label)),
        decreases row@.len() - i,
    {
        assert(mapped_in(codes@, row@[i as int].label));
        let t = b + codes[row[i].label as usize];
        if t < check.len() && check[t] != UNUSED {
            assert(!slot_free(check@, b + code_in(codes@, row@[i as int].label)));
            return false;
        }
        i += 1;
    }
    true
}

/// A base, at least 1 and at most the number of slots, under which every
/// edge of `row` finds a free slot. The search starts at `hint`.
fn find_base(check: &Vec<usize>, codes: &Vec<usize>, row: &Vec<Edge>, hint: usize) -> (b: usize)
    requires
        check@.len() >= 1,
        row_mapped(codes@, row@, check@.len() as int, usize::MAX as int),
    ensures
        1 <= b <= check@.len(),
        row_free(check@, codes@, row@, b as int, 0),
{
    let n = check.len();
    let mut b: usize = if hint < 1 {
        1
    } else if hint > n {
        n
    } else {
        hint
    };
    while b < n
        invariant
            1 <= b <= n,
            n == check@.len(),
            row_mapped(codes@, row@, check@.len() as int, usize::MAX as int),
        decreases n - b,
    {
        if row_fits(check, codes, row, b) {
            return b;
        }
        b += 1;
    }
    b
}

/// Lays the trie out as a double array.
///
/// Every state gets its text, its depth and, as the start of its output
/// list, the patterns equal to its text; failure links are not set here.
/// `codes` numbers the codepoints on the edges of the trie, below `size`;
/// the arrays stay below `1 + n * size` slots for `n` nodes.
pub fn compact(trie: &Trie, codes: Vec<usize>, size: usize, Ghost(ps): Ghost<Seq<Seq<char>>>) -> (lay:
    Layout)
    requires
        trie.wf(ps, Seq::empty()),
        ps.len() > 0,
        numbers(codes@, size as int),
        forall|v: int| 0 < v < trie.size() ==> mapped_in(codes@, #[trigger] trie.label@[v]),
        1 + trie.size() * size < usize::MAX,
        4 * trie.size() <= usize::MAX,
    ensures
        lay.da.shape_ok(ps),
        lay.labels@.len() == lay.da.check@.len(),
        forall|t: int| #[trigger] lay.da.is_state(t) ==> lay.da.seeded(ps, t),
        forall|t: int| #[trigger] lay.da.is_state(t) ==> lay.da.depth@[t] < trie.size(),
        lay.da.distinct(),
        forall|t: int|
            #[trigger] lay.da.is_state(t) && t != 0 ==> lay.labels@[t] == lay.da.text(t).last(),
{
    let n = trie.parent.len();
    let ghost k = size as int;
    let ghost table = codes@;
    let mut lay = Layout::new(trie, codes, Ghost(ps));
    let mut first_free: usize = 1;
    let mut p: usize = 0;
    while p < n
        invariant
            p <= n,
            n == trie.size(),
            k >= 0,
            trie.wf(ps, Seq::empty()),
            lay.da.codes@ == table,
            numbers(table, k),
            forall|v: int| 0 < v < trie.size() ==> mapped_in(table, #[trigger] trie.label@[v]),
            1 + n * k < usize::MAX,
            4 * n <= usize::MAX,
            lay.inv(trie),
            lay.progress(trie, p as int, 0),
            lay.slots() <= 1 + p * k,
            first_free <= lay.slots(),
        decreases n - p,
    {
        let row = &trie.edges[p];
        let ghost m0 = lay.slots();
        proof {
            assert(m0 + k <= 1 + n * k) by (nonlinear_arith)
                requires
                    m0 <= 1 + p * k,
                    p < n,
                    k >= 0,
            ;
            if p > 0 {
                assert(trie.parent@[p as int] < p);
            }
            assert(lay.placed(p as int));
            assert forall|i: int| 0 <= i < row@.len() implies mapped_in(
                table,
                (#[trigger] row@[i]).label,
            ) && 0 + code_in(table, row@[i].label) < k by {
                assert(trie.edge_ok(p as int, i));
            }
            assert(row_mapped(table, row@, 0, k));
            assert(row_mapped(table, row@, m0, usize::MAX as int));
        }
        if row.len() > 0 {
            while first_free < lay.da.check.len() && lay.da.check[first_free] != UNUSED
                invariant
                    first_free <= lay.da.check@.len(),
                decreases lay.da.check@.len() - first_free,
            {
                first_free += 1;
            }
            assert(mapped_in(table, row@[0].label));
            let code = lay.da.codes[row[0].label as usize];
            let hint = if first_free > code {
                first_free - code
            } else {
                1
            };
            let b = find_base(&lay.da.check, &lay.da.codes, row, hint);
            lay.set_base(trie, p, b, Ghost(ps));
            let mut j: usize = 0;
            while j < row.len()
                invariant
                    j <= row@.len(),
                    p < n,
                    n == trie.size(),
                    row@ == trie.edges@[p as int]@,
                    trie.wf(ps, Seq::empty()),
                    lay.da.codes@ == table,
                    row_mapped(table, row@, 0, k),
                    m0 + k < usize::MAX,
                    4 * n <= usize::MAX,
                    1 <= b <= m0,
                    lay.inv(trie),
                    lay.progress(trie, p as int, j as int),
                    lay.placed(p as int),
                    lay.da.base@[lay.pos@[p as int] as int] == b,
                    row_free(lay.da.check@, table, row@, b as int, j as int),
                    lay.slots() <= m0 + k,
                    first_free <= lay.slots(),
                decreases row@.len() - j,
            {
                proof {
                    assert(row_mapped(table, row@, b as int, usize::MAX - 1));
                }
                lay.place(trie, p, b, j, Ghost(ps));
                j += 1;
            }
        }
        proof {
            let full = row@.len() as int;
            assert forall|v: int| 0 < v < trie.size() implies (#[trigger] lay.placed(v)
                <==> trie.parent@[v] < p + 1 || (trie.parent@[v] == p + 1 && Layout::among_first(
                trie,
                p + 1,
                0,
                v,
            ))) by {
                if lay.progress(trie, p as int, 0) {
                    assert(lay.placed(v) <==> trie.parent@[v] < p || (trie.parent@[v] == p
                        && Layout::among_first(trie, p as int, 0, v)));
                }
                if lay.progress(trie, p as int, full) {
                    assert(lay.placed(v) <==> trie.parent@[v] < p || (trie.parent@[v] == p
                        && Layout::among_first(trie, p as int, full, v)));
                }
                if trie.parent@[v] == p {
                    assert(trie.listed(v));
                    let i = choose|i: int|
                        0 <= i < trie.edges@[p as int]@.len() && (
                        #[trigger] trie.edges@[p as int]@[i]).child == v;
                    assert(Layout::among_first(trie, p as int, full, v));
                }
            }
            assert(1 + p * k + k == 1 + (p + 1) * k) by (nonlinear_arith);
        }
        p += 1;
    }
    proof {
        lay.lemma_shape(trie, ps);
    }
    lay
}

impl Layout {
    /// The number of slots.
    pub open spec fn slots(&self) -> int {
        self.da.check@.len() as int
    }

    /// Node `v` has a slot.
    pub open spec fn placed(&self, v: int) -> bool {
        self.pos@[v] != UNUSED
    }

    /// Slot `t` holds a state.
    pub open spec fn used(&self, t: int) -> bool {
        self.da.check@[t] != UNUSED
    }

    /// A placed node has a used slot, and that slot names the node.
    pub open spec fn node_ok(&self, v: int) -> bool {
        &&& self.pos@[v] < self.slots()
        &&& self.used(self.pos@[v] as int)
        &&& self.node_of@[self.pos@[v] as int] == v
    }

    /// A used slot holds what the trie says of its node, and sits where the
    /// base of its parent's slot and its label put it.
    pub open spec fn slot_ok(&self, trie: &Trie, t: int) -> bool {
        let v = self.node_of@[t];
        &&& 0 <= v < trie.size()
        &&& self.pos@[v] == t
        &&& self.da.texts@[t] == trie.text(v)
        &&& self.da.depth@[t] == trie.text(v).len()
        &&& self.da.span@[t] == storage_len(trie.text(v))
        &&& self.da.direct@[t] == trie.direct@[v]@.len()
        &&& self.da.outs@[t]@.len() == trie.direct@[v]@.len()
        &&& forall|j: int|
            0 <= j < trie.direct@[v]@.len() ==> (#[trigger] self.da.outs@[t]@[j]).value
                == trie.direct@[v]@[j] && self.da.outs@[t]@[j].length == storage_len(trie.text(v))
        &&& v != 0 ==> {
            let q = trie.parent@[v] as int;
            &&& self.placed(q)
            &&& self.da.check@[t] == self.pos@[q]
            &&& mapped_in(self.da.codes@, trie.label@[v])
            &&& t == self.da.base@[self.pos@[q] as int] + code_in(self.da.codes@, trie.label@[v])
            &&& self.labels@[t] == trie.label@[v]
        }
    }

    /// The arrays have one entry for each slot, the root is in slot 0, and
    /// placed nodes and used slots name each other.
    pub open spec fn inv(&self, trie: &Trie) -> bool {
        &&& 1 <= self.slots() < usize::MAX
        &&& self.da.base@.len() == self.slots()
        &&& self.da.fail@.len() == self.slots()
        &&& self.da.depth@.len() == self.slots()
        &&& self.da.span@.len() == self.slots()
        &&& self.da.outs@.len() == self.slots()
        &&& self.da.direct@.len() == self.slots()
        &&& self.da.texts@.len() == self.slots()
        &&& self.labels@.len() == self.slots()
        &&& self.node_of@.len() == self.slots()
        &&& self.pos@.len() == trie.size()
        &&& numbers(self.da.codes@, usize::MAX as int)
        &&& self.pos@[0] == 0
        &&& self.da.check@[0] == 0
        &&& self.node_of@[0] == 0
        &&& forall|t: int| 0 <= t < self.slots() ==> #[trigger] self.da.base@[t] >= 1
        &&& forall|v: int| 0 <= v < trie.size() && #[trigger] self.placed(v) ==> self.node_ok(v)
        &&& forall|t: int| 0 <= t < self.slots() && #[trigger] self.used(t) ==> self.slot_ok(trie, t)
    }

    /// Node `v` is the child reached by one of the first `j` edges of `p`.
    pub open spec fn among_first(trie: &Trie, p: int, j: int, v: int) -> bool {
        exists|i: int| 0 <= i < j && (#[trigger] trie.edges@[p]@[i]).child == v
    }

    /// The placed nodes are the root, the children of the nodes before `p`,
    /// and the children under the first `j` edges of `p`.
    pub open spec fn progress(&self, trie: &Trie, p: int, j: int) -> bool {
        forall|v: int|
            0 < v < trie.size() ==> (#[trigger] self.placed(v) <==> trie.parent@[v] < p || (
            trie.parent@[v] == p && Self::among_first(trie, p, j, v)))
    }

    /// `self` is `prev` with unused slots added at the end.
    pub open spec fn extends(&self, prev: &Layout) -> bool {
        let m = prev.slots();
        &&& self.slots() >= m
        &&& self.pos@ == prev.pos@
        &&& self.da.codes@ == prev.da.codes@
        &&& self.da.base@.subrange(0, m) == prev.da.base@
        &&& self.da.check@.subrange(0, m) == prev.da.check@
        &&& self.da.fail@.subrange(0, m) == prev.da.fail@
        &&& self.da.depth@.subrange(0, m) == prev.da.depth@
        &&& self.da.span@.subrange(0, m) == prev.da.span@
        &&& self.da.outs@.subrange(0, m) == prev.da.outs@
        &&& self.da.direct@.subrange(0, m) == prev.da.direct@
        &&& self.da.texts@.subrange(0, m) == prev.da.texts@
        &&& self.labels@.subrange(0, m) == prev.labels@
        &&& self.node_of@.subrange(0, m) == prev.node_of@
        &&& forall|t: int| m <= t < self.slots() ==> !#[trigger] self.used(t)
    }

    /// Unused slots at the end change nothing of what holds of the layout.
    proof fn lemma_extends_keeps(&self, prev: &Layout, trie: &Trie, ps: Seq<Seq<char>>)
        requires
            trie.wf(ps, Seq::empty()),
            prev.inv(trie),
            self.extends(prev),
            self.slots() < usize::MAX,
            self.da.base@.len() == self.slots(),
            self.da.fail@.len() == self.slots(),
            self.da.depth@.len() == self.slots(),
            self.da.span@.len() == self.slots(),
            self.da.outs@.len() == self.slots(),
            self.da.direct@.len() == self.slots(),
            self.da.texts@.len() == self.slots(),
            self.labels@.len() == self.slots(),
            self.node_of@.len() == self.slots(),
            forall|t: int| prev.slots() <= t < self.slots() ==> #[trigger] self.da.base@[t] >= 1,
        ensures
            self.inv(trie),
            forall|p: int, j: int| prev.progress(trie, p, j) ==> self.progress(trie, p, j),
            forall|row: Seq<Edge>, b: int, j: int|
                0 <= b && row_free(prev.da.check@, prev.da.codes@, row, b, j) ==> row_free(
                    self.da.check@,
                    self.da.codes@,
                    row,
                    b,
                    j,
                ),
    {
        let m = prev.slots();
        assert forall|t: int| 0 <= t < m implies {
            &&& self.da.base@[t] == prev.da.base@[t]
            &&& self.da.check@[t] == prev.da.check@[t]
            &&& self.da.depth@[t] == prev.da.depth@[t]
            &&& self.da.span@[t] == prev.da.span@[t]
            &&& self.da.outs@[t] == prev.da.outs@[t]
            &&& self.da.direct@[t] == prev.da.direct@[t]
            &&& self.da.texts@[t] == prev.da.texts@[t]
            &&& self.labels@[t] == prev.labels@[t]
            &&& self.node_of@[t] == prev.node_of@[t]
        } by {
            assert(self.da.base@.subrange(0, m)[t] == self.da.base@[t]);
            assert(self.da.check@.subrange(0, m)[t] == self.da.check@[t]);
            assert(self.da.depth@.subrange(0, m)[t] == self.da.depth@[t]);
            assert(self.da.span@.subrange(0, m)[t] == self.da.span@[t]);
            assert(self.da.outs@.subrange(0, m)[t] == self.da.outs@[t]);
            assert(self.da.direct@.subrange(0, m)[t] == self.da.direct@[t]);
            assert(self.da.texts@.subrange(0, m)[t] == self.da.texts@[t]);
            assert(self.labels@.subrange(0, m)[t] == self.labels@[t]);
            assert(self.node_of@.subrange(0, m)[t] == self.node_of@[t]);
        }
        assert forall|t: int| 0 <= t < self.slots() implies #[trigger] self.da.base@[t] >= 1 by {
            if t < m {
                assert(prev.da.base@[t] >= 1);
            }
        }
        assert forall|v: int| 0 <= v < trie.size() && #[trigger] self.placed(v) implies self.node_ok(
            v,
        ) by {
            assert(prev.placed(v));
            assert(prev.node_ok(v));
        }
        assert forall|t: int| 0 <= t < self.slots() && #[trigger] self.used(t) implies self.slot_ok(
            trie,
            t,
        ) by {
            assert(t < m);
            assert(prev.used(t));
            assert(prev.slot_ok(trie, t));
            let v = prev.node_of@[t];
            if v != 0 {
                let q = trie.parent@[v] as int;
                assert(prev.placed(q));
                assert(prev.node_ok(q));
            }
        }
        assert forall|p: int, j: int| prev.progress(trie, p, j) implies self.progress(trie, p, j) by {
            assert forall|v: int| 0 < v < trie.size() implies (#[trigger] self.placed(v)
                <==> trie.parent@[v] < p || (trie.parent@[v] == p && Self::among_first(
                trie,
                p,
                j,
                v,
            ))) by {
                assert(self.placed(v) == prev.placed(v));
            }
        }
        assert forall|row: Seq<Edge>, b: int, j: int|
            0 <= b && row_free(prev.da.check@, prev.da.codes@, row, b, j) implies row_free(
            self.da.check@,
            self.da.codes@,
            row,
            b,
            j,
        ) by {
            assert forall|i: int| j <= i < row.len() implies slot_free(
                self.da.check@,
                b + code_in(self.da.codes@, (#[trigger] row[i]).label),
            ) by {
                let t = b + code_in(self.da.codes@, row[i].label);
                assert(slot_free(prev.da.check@, t));
                if t < self.slots() && t >= m {
                    assert(!self.used(t));
                }
            }
        }
    }

    /// Adds unused slots until there are at least `n`.
    fn grow(&mut self, n: usize, Ghost(trie): Ghost<&Trie>, Ghost(ps): Ghost<Seq<Seq<char>>>)
        requires
            trie.wf(ps, Seq::empty()),
            old(self).inv(trie),
            n < usize::MAX,
        ensures
            final(self).inv(trie),
            final(self).extends(old(self)),
            final(self).slots() == if old(self).slots() >= n {
                old(self).slots()
            } else {
                n as int
            },
            forall|p: int, j: int|
                old(self).progress(trie, p, j) ==> final(self).progress(trie, p, j),
            forall|row: Seq<Edge>, b: int, j: int|
                0 <= b && row_free(old(self).da.check@, old(self).da.codes@, row, b, j)
                    ==> row_free(final(self).da.check@, final(self).da.codes@, row, b, j),
    {
        let ghost prev = *self;
        proof {
            let m = prev.slots();
            assert(self.da.base@.subrange(0, m) == prev.da.base@);
            assert(self.da.check@.subrange(0, m) == prev.da.check@);
            assert(self.da.fail@.subrange(0, m) == prev.da.fail@);
            assert(self.da.depth@.subrange(0, m) == prev.da.depth@);
            assert(self.da.span@.subrange(0, m) == prev.da.span@);
            assert(self.da.outs@.subrange(0, m) == prev.da.outs@);
            assert(self.da.direct@.subrange(0, m) == prev.da.direct@);
            assert(self.da.texts@.subrange(0, m) =~= prev.da.texts@);
            assert(self.labels@.subrange(0, m) == prev.labels@);
            assert(self.node_of@.subrange(0, m) =~= prev.node_of@);
        }
        while self.da.check.len() < n
            invariant
                trie.wf(ps, Seq::empty()),
                prev.inv(trie),
                n < usize::MAX,
                self.extends(&prev),
                self.slots() <= n || self.slots() == prev.slots(),
                self.da.base@.len() == self.slots(),
                self.da.fail@.len() == self.slots(),
                self.da.depth@.len() == self.slots(),
                self.da.span@.len() == self.slots(),
                self.da.outs@.len() == self.slots(),
                self.da.direct@.len() == self.slots(),
                self.da.texts@.len() == self.slots(),
                self.labels@.len() == self.slots(),
                self.node_of@.len() == self.slots(),
                forall|t: int| prev.slots() <= t < self.slots() ==> #[trigger] self.da.base@[t] >= 1,
            decreases n - self.da.check@.len(),
        {
            let ghost before = *self;
            self.da.base.push(1);
            self.da.check.push(UNUSED);
            self.da.fail.push(0);
            self.da.depth.push(0);
            self.da.span.push(0);
            self.da.outs.push(Vec::new());
            self.da.direct.push(0);
            self.labels.push('\0');
            proof {
                self.da.texts@ = self.da.texts@.push(Seq::empty());
                self.node_of@ = self.node_of@.push(0);
                let m = prev.slots();
                assert(self.da.base@.subrange(0, m) == before.da.base@.subrange(0, m));
                assert(self.da.check@.subrange(0, m) == before.da.check@.subrange(0, m));
                assert(self.da.fail@.subrange(0, m) == before.da.fail@.subrange(0, m));
                assert(self.da.depth@.subrange(0, m) == before.da.depth@.subrange(0, m));
                assert(self.da.span@.subrange(0, m) == before.da.span@.subrange(0, m));
                assert(self.da.outs@.subrange(0, m) == before.da.outs@.subrange(0, m));
                assert(self.da.direct@.subrange(0, m) == before.da.direct@.subrange(0, m));
                assert(self.da.texts@.subrange(0, m) =~= before.da.texts@.subrange(0, m));
                assert(self.labels@.subrange(0, m) == before.labels@.subrange(0, m));
                assert(self.node_of@.subrange(0, m) =~= before.node_of@.subrange(0, m));
                assert forall|t: int| m <= t < self.slots() implies !#[trigger] self.used(t) by {
                    if t < before.slots() {
                        assert(!before.used(t));
                    }
                }
            }
        }
        proof {
            self.lemma_extends_keeps(&prev, trie, ps);
        }
    }

    /// The layout in which only the root is placed, in slot 0.
    fn new(trie: &Trie, codes: Vec<usize>, Ghost(ps): Ghost<Seq<Seq<char>>>) -> (lay: Layout)
        requires
            trie.wf(ps, Seq::empty()),
            numbers(codes@, usize::MAX as int),
        ensures
            lay.da.codes@ == codes@,
            lay.inv(trie),
            lay.progress(trie, 0, 0),
            lay.slots() == 1,
    {
        let n = trie.parent.len();
        let mut pos: Vec<usize> = Vec::new();
        pos.push(0);
        let mut v: usize = 1;
        while v < n
            invariant
                1 <= v <= n,
                pos@.len() == v,
                pos@[0] == 0,
                forall|u: int| 0 < u < v ==> #[trigger] pos@[u] == UNUSED,
            decreases n - v,
        {
            pos.push(UNUSED);
            v += 1;
        }
        let entries = direct_entries(&trie.direct[0], 0);
        let mut base: Vec<usize> = Vec::new();
        base.push(1);
        let mut check: Vec<usize> = Vec::new();
        check.push(0);
        let mut fail: Vec<usize> = Vec::new();
        fail.push(0);
        let mut depth: Vec<usize> = Vec::new();
        depth.push(0);
        let mut span: Vec<usize> = Vec::new();
        span.push(0);
        let mut direct: Vec<usize> = Vec::new();
        direct.push(entries.len());
        let mut outs: Vec<Vec<Output>> = Vec::new();
        outs.push(entries);
        let mut labels: Vec<char> = Vec::new();
        labels.push('\0');
        let ghost texts = Seq::<Seq<char>>::empty().push(Seq::<char>::empty());
        let ghost node_of = Seq::<int>::empty().push(0int);
        let lay = Layout {
            da: DoubleArray {
                codes,
                base,
                check,
                fail,
                depth,
                span,
                outs,
                direct,
                texts: Ghost(texts),
            },
            pos,
            labels,
            node_of: Ghost(node_of),
        };
        proof {
            assert(lay.slot_ok(trie, 0));
            assert forall|u: int| 0 < u < trie.size() implies (#[trigger] lay.placed(u)
                <==> trie.parent@[u] < 0 || (trie.parent@[u] == 0 && Self::among_first(
                trie,
                0,
                0,
                u,
            ))) by {
                assert(lay.pos@[u] == UNUSED);
            }
        }
        lay
    }

    /// Records `b` as the base of node `p`, none of whose children is placed yet.
    fn set_base(&mut self, trie: &Trie, p: usize, b: usize, Ghost(ps): Ghost<Seq<Seq<char>>>)
        requires
            trie.wf(ps, Seq::empty()),
            old(self).inv(trie),
            p < trie.size(),
            old(self).progress(trie, p as int, 0),
            old(self).placed(p as int),
            b >= 1,
        ensures
            final(self).inv(trie),
            final(self).progress(trie, p as int, 0),
            final(self).placed(p as int),
            final(self).da.base@[final(self).pos@[p as int] as int] == b,
            final(self).da.check@ == old(self).da.check@,
            final(self).da.codes@ == old(self).da.codes@,
    {
        let ghost prev = *self;
        proof {
            assert(prev.node_ok(p as int));
        }
        let s = self.pos[p];
        self.da.base[s] = b;
        proof {
            assert forall|v: int| 0 <= v < trie.size() && #[trigger] self.placed(v) implies self.node_ok(
                v,
            ) by {
                assert(prev.placed(v));
                assert(prev.node_ok(v));
            }
            assert forall|x: int| 0 <= x < self.slots() && #[trigger] self.used(x) implies self.slot_ok(
                trie,
                x,
            ) by {
                assert(prev.used(x));
                assert(prev.slot_ok(trie, x));
                let v = prev.node_of@[x];
                if v != 0 {
                    let q = trie.parent@[v] as int;
                    assert(prev.placed(q));
                    assert(prev.node_ok(q));
                    assert(prev.placed(v));
                    if prev.pos@[q] == s {
                        assert(q == p);
                        assert(!Self::among_first(trie, p as int, 0, v));
                        assert(false);
                    }
                }
            }
            assert forall|v: int| 0 < v < trie.size() implies (#[trigger] self.placed(v)
                <==> trie.parent@[v] < p || (trie.parent@[v] == p && Self::among_first(
                trie,
                p as int,
                0,
                v,
            ))) by {
                assert(self.placed(v) == prev.placed(v));
            }
        }
    }

    /// Once every node is placed, the arrays encode the trie.
    proof fn lemma_shape(&self, trie: &Trie, ps: Seq<Seq<char>>)
        requires
            trie.wf(ps, Seq::empty()),
            ps.len() > 0,
            self.inv(trie),
            self.progress(trie, trie.size(), 0),
        ensures
            self.da.shape_ok(ps),
            forall|t: int| #[trigger] self.da.is_state(t) ==> self.da.seeded(ps, t),
            forall|t: int| #[trigger] self.da.is_state(t) ==> self.da.depth@[t] < trie.size(),
            self.da.distinct(),
            forall|t: int|
                #[trigger] self.da.is_state(t) && t != 0 ==> self.labels@[t] == self.da.text(
                    t,
                ).last(),
    {
        let none = Seq::<char>::empty();
        reveal(DoubleArray::shape_ok);
        assert(forall|t: int| self.da.is_state(t) <==> 0 <= t < self.slots() && self.used(t));
        assert(self.da.distinct()) by {
            reveal(DoubleArray::distinct);
            assert forall|a: int, b: int|
                #[trigger] self.da.is_state(a) && #[trigger] self.da.is_state(b) && self.da.text(a)
                    == self.da.text(b) implies a == b by {
                assert(self.used(a) && self.used(b));
                assert(self.slot_ok(trie, a));
                assert(self.slot_ok(trie, b));
                let u = self.node_of@[a];
                let v = self.node_of@[b];
                if u < v {
                    assert(trie.text(u) != trie.text(v));
                } else if v < u {
                    assert(trie.text(v) != trie.text(u));
                }
            }
        }
        assert(self.used(0));
        assert(self.slot_ok(trie, 0));
        assert forall|v: int| 0 <= v < trie.size() implies #[trigger] self.placed(v) by {
            if v > 0 {
                assert(trie.parent@[v] < v);
            }
        }
        assert forall|s: int| #[trigger] self.da.is_state(s) implies {
            &&& is_known_prefix(ps, self.da.text(s))
            &&& self.da.depth@[s] == self.da.text(s).len()
            &&& self.da.span@[s] == storage_len(self.da.text(s))
            &&& self.da.base@[s] >= 1
            &&& s != 0 ==> self.da.edge_ok(s)
            &&& self.da.seeded(ps, s)
            &&& s != 0 ==> self.labels@[s] == self.da.text(s).last()
            &&& self.da.depth@[s] < trie.size()
        } by {
            assert(self.used(s));
            assert(self.slot_ok(trie, s));
            let v = self.node_of@[s];
            assert(in_trie(ps, none, trie.text(v)));
            if trie.text(v).is_prefix_of(none) {
                assert(trie.text(v).is_prefix_of(ps[0]));
            }
            assert(trie.direct_ok(ps, v));
            if s != 0 {
                assert(v != 0);
                let q = trie.parent@[v] as int;
                assert(self.placed(q));
                assert(self.node_ok(q));
                assert(self.slot_ok(trie, self.pos@[q] as int));
                assert(trie.text(v) == trie.text(q).push(trie.label@[v]));
                assert(trie.text(v).drop_last() == trie.text(q));
            }
        }
        assert forall|s: int, c: char|
            self.da.is_state(s) && is_known_prefix(
                ps,
                #[trigger] self.da.text(s).push(c),
            ) implies self.da.has_edge(s, c) by {
            assert(self.used(s));
            assert(self.slot_ok(trie, s));
            let q = self.node_of@[s];
            let w = self.da.text(s).push(c);
            assert(in_trie(ps, none, w));
            assert(trie.has_node(w));
            let v = choose|v: int| 0 <= v < trie.size() && #[trigger] trie.text(v) == w;
            assert(v != 0) by {
                assert(w.len() > 0);
            }
            let pv = trie.parent@[v] as int;
            assert(trie.text(v) == trie.text(pv).push(trie.label@[v]));
            assert(trie.text(pv) == w.drop_last());
            assert(trie.text(q) == w.drop_last());
            assert(trie.label@[v] == w.last());
            assert(pv == q) by {
                if pv < q {
                    assert(trie.text(pv) != trie.text(q));
                } else if q < pv {
                    assert(trie.text(q) != trie.text(pv));
                }
            }
            assert(self.placed(v));
            assert(self.node_ok(v));
            assert(self.slot_ok(trie, self.pos@[v] as int));
        }
    }

    /// Gives the child under edge `j` of node `p` the slot that base `b`
    /// assigns to it.
    fn place(&mut self, trie: &Trie, p: usize, b: usize, j: usize, Ghost(ps): Ghost<Seq<Seq<char>>>)
        requires
            trie.wf(ps, Seq::empty()),
            old(self).inv(trie),
            p < trie.size(),
            j < trie.edges@[p as int]@.len(),
            old(self).progress(trie, p as int, j as int),
            old(self).placed(p as int),
            old(self).da.base@[old(self).pos@[p as int] as int] == b,
            row_free(
                old(self).da.check@,
                old(self).da.codes@,
                trie.edges@[p as int]@,
                b as int,
                j as int,
            ),
            row_mapped(old(self).da.codes@, trie.edges@[p as int]@, b as int, usize::MAX - 1),
            4 * trie.size() <= usize::MAX,
        ensures
            final(self).inv(trie),
            final(self).progress(trie, p as int, j + 1),
            final(self).placed(p as int),
            final(self).pos@[p as int] == old(self).pos@[p as int],
            final(self).da.base@[final(self).pos@[p as int] as int] == b,
            final(self).da.codes@ == old(self).da.codes@,
            row_free(
                final(self).da.check@,
                final(self).da.codes@,
                trie.edges@[p as int]@,
                b as int,
                j + 1,
            ),
            final(self).slots() == if old(self).slots() >= b + code_in(
                old(self).da.codes@,
                trie.edges@[p as int]@[j as int].label,
            ) + 1 {
                old(self).slots()
            } else {
                b + code_in(old(self).da.codes@, trie.edges@[p as int]@[j as int].label) + 1
            },
    {
        let e = trie.edges[p][j];
        let child = e.child;
        let ghost row = trie.edges@[p as int]@;
        let ghost table = self.da.codes@;
        assert(mapped_in(table, row[j as int].label));
        let t = b + self.da.codes[e.label as usize];
        let s = self.pos[p];
        proof {
            assert(trie.edge_ok(p as int, j as int));
            assert(old(self).node_ok(p as int));
            assert(old(self).da.base@[s as int] >= 1);
        }
        self.grow(t + 1, Ghost(trie), Ghost(ps));
        let ghost mid = *self;
        proof {
            assert(mid.placed(p as int));
            assert(mid.node_ok(p as int));
            assert(mid.used(s as int));
            assert(mid.slot_ok(trie, s as int));
            assert(mid.da.base@.subrange(0, old(self).slots())[s as int] == mid.da.base@[s as int]);
            assert(slot_free(mid.da.check@, b + code_in(table, row[j as int].label)));
            assert(!mid.used(t as int));
            assert(trie.text(p as int).len() <= p);
            lemma_storage_len_range(trie.text(p as int));
            // the child has not been placed yet
            if mid.placed(child as int) {
                let i = choose|i: int| 0 <= i < j && (#[trigger] trie.edges@[p as int]@[i]).child == child;
                assert(trie.edge_ok(p as int, i));
                assert(trie.edges@[p as int]@[i].label != trie.edges@[p as int]@[j as int].label);
                assert(false);
            }
        }
        let d = self.da.depth[s] + 1;
        let wide = self.da.span[s] + width_of(e.label);
        let entries = direct_entries(&trie.direct[child], wide);
        self.da.check[t] = s;
        self.da.depth[t] = d;
        self.da.span[t] = wide;
        self.da.direct[t] = entries.len();
        self.da.outs[t] = entries;
        self.labels[t] = e.label;
        self.pos[child] = t;
        proof {
            self.da.texts@ = self.da.texts@.update(t as int, trie.text(child as int));
            self.node_of@ = self.node_of@.update(t as int, child as int);
            assert(trie.text(child as int) == trie.text(p as int).push(e.label));
            assert(trie.text(child as int).drop_last() =~= trie.text(p as int));
            assert forall|v: int| 0 <= v < trie.size() && #[trigger] self.placed(v) implies self.node_ok(
                v,
            ) by {
                if v != child {
                    assert(mid.placed(v));
                    assert(mid.node_ok(v));
                }
            }
            assert forall|x: int| 0 <= x < self.slots() && #[trigger] self.used(x) implies self.slot_ok(
                trie,
                x,
            ) by {
                if x != t {
                    assert(mid.used(x));
                    assert(mid.slot_ok(trie, x));
                    let v = mid.node_of@[x];
                    assert(mid.placed(v));
                    if v != 0 {
                        let q = trie.parent@[v] as int;
                        assert(mid.placed(q));
                        assert(mid.node_ok(q));
                    }
                }
            }
            assert forall|v: int| 0 < v < trie.size() implies (#[trigger] self.placed(v)
                <==> trie.parent@[v] < p || (trie.parent@[v] == p && Self::among_first(
                trie,
                p as int,
                j + 1,
                v,
            ))) by {
                assert(mid.placed(v) <==> trie.parent@[v] < p || (trie.parent@[v] == p
                    && Self::among_first(trie, p as int, j as int, v)));
                if v == child {
                    assert(trie.edges@[p as int]@[j as int].child == v);
                } else {
                    assert(self.placed(v) == mid.placed(v));
                    if Self::among_first(trie, p as int, j + 1, v) {
                        let i = choose|i: int|
                            0 <= i < j + 1 && (#[trigger] trie.edges@[p as int]@[i]).child == v;
                        assert(i < j);
                    }
                    if Self::among_first(trie, p as int, j as int, v) {
                        let i = choose|i: int|
                            0 <= i < j && (#[trigger] trie.edges@[p as int]@[i]).child == v;
                        assert(i < j + 1);
                    }
                }
            }
            assert forall|i: int| j + 1 <= i < row.len() implies slot_free(
                self.da.check@,
                b + code_in(table, (#[trigger] row[i]).label),
            ) by {
                assert(row[i].label != row[j as int].label);
                assert(mapped_in(table, row[i].label) && mapped_in(table, row[j as int].label));
                assert(slot_free(mid.da.check@, b + code_in(table, row[i].label)));
            }
        }
    }
}

} // verus!
