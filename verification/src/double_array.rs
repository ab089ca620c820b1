//! The compacted automaton: a double array (`base`, `check`) for the trie
//! edges, with a failure link, a depth and an output list for every state.
//!
//! A state is a slot of the arrays. The slot of the child that state `s` has
//! under codepoint `c` is `base[s]` plus the number of `c` in the alphabet,
//! and that slot belongs to this edge exactly when `check` there names `s`.

use crate::text::{
    all_nonempty, is_known_prefix, lemma_known_prefix_closed, lemma_longest_known_len,
    lemma_longest_known_unique, lemma_suffix_of_suffix, lemma_suffix_push, patterns_ending,
    patterns_equal_to, state_text, suffix,
};
use crate::alphabet::{code_in, mapped_in, numbers, UNMAPPED};
use crate::position::storage_len;
use vstd::prelude::*;

verus! {

/// The `check` entry of a slot that holds no state.
pub const UNUSED: usize = usize::MAX;

/// One entry of an output list: a pattern and the number of code units that
/// store it.
#[derive(Clone, Copy)]
pub struct Output {
    pub value: usize,
    pub length: usize,
}

/// The automaton as arrays, one entry for each slot, and the numbers of the
/// codepoints of its alphabet.
pub struct DoubleArray {
    /// The number of each codepoint of the alphabet.
    pub codes: Vec<usize>,
    pub base: Vec<usize>,
    pub check: Vec<usize>,
    pub fail: Vec<usize>,
    pub depth: Vec<usize>,
    /// For each state the number of code units that store its text.
    pub span: Vec<usize>,
    /// For each state the patterns that end its text, longest first.
    pub outs: Vec<Vec<Output>>,
    /// How many leading entries of `outs[s]` are patterns equal to the text
    /// of `s` itself.
    pub direct: Vec<usize>,
    /// The text that leads from the root to each state.
    pub texts: Ghost<Seq<Seq<char>>>,
}

impl DoubleArray {
    /// Slot `s` holds a state.
    pub open spec fn is_state(&self, s: int) -> bool {
        0 <= s < self.check@.len() && self.check@[s] != UNUSED
    }

    /// The text of the state in slot `s`.
    pub open spec fn text(&self, s: int) -> Seq<char> {
        self.texts@[s]
    }

    /// Slot `t` is the child of the state named by its `check` entry, under
    /// the last codepoint of its text.
    pub open spec fn edge_ok(&self, t: int) -> bool {
        let p = self.check@[t] as int;
        &&& self.is_state(p)
        &&& self.text(t).len() > 0
        &&& self.text(t).drop_last() == self.text(p)
        &&& mapped_in(self.codes@, self.text(t).last())
        &&& t == self.base@[p] + code_in(self.codes@, self.text(t).last())
    }

    /// State `s` has a child under `c`.
    pub open spec fn has_edge(&self, s: int, c: char) -> bool {
        let t = self.base@[s] + code_in(self.codes@, c);
        mapped_in(self.codes@, c) && t < self.check@.len() && self.check@[t] == s
    }

    /// The arrays encode the trie of `ps`: the states are the texts that
    /// begin a pattern, and the edges are the one-codepoint extensions.
    #[verifier::opaque]
    pub open spec fn shape_ok(&self, ps: Seq<Seq<char>>) -> bool {
        &&& 0 < self.check@.len() < usize::MAX
        &&& self.base@.len() == self.check@.len()
        &&& self.fail@.len() == self.check@.len()
        &&& self.depth@.len() == self.check@.len()
        &&& self.span@.len() == self.check@.len()
        &&& self.outs@.len() == self.check@.len()
        &&& self.direct@.len() == self.check@.len()
        &&& self.texts@.len() == self.check@.len()
        &&& self.check@[0] == 0
        &&& self.text(0) == Seq::<char>::empty()
        &&& numbers(self.codes@, usize::MAX as int)
        &&& forall|s: int| #[trigger]
            self.is_state(s) ==> {
                &&& is_known_prefix(ps, self.text(s))
                &&& self.depth@[s] == self.text(s).len()
                &&& self.span@[s] == storage_len(self.text(s))
                &&& self.base@[s] >= 1
                &&& s != 0 ==> self.edge_ok(s)
            }
        &&& forall|s: int, c: char|
            self.is_state(s) && is_known_prefix(ps, #[trigger] self.text(s).push(c))
                ==> self.has_edge(s, c)
    }

    /// The failure link of `s` leads to the state of the longest proper
    /// suffix of its text that begins a pattern.
    pub open spec fn fail_ok(&self, ps: Seq<Seq<char>>, s: int) -> bool {
        if s == 0 {
            self.fail@[s] == 0
        } else {
            &&& self.is_state(self.fail@[s] as int)
            &&& self.text(self.fail@[s] as int) == state_text(ps, self.text(s).drop_first())
        }
    }

    /// The output list of `s` holds the patterns that end its text, in
    /// reporting order, each with its length.
    pub open spec fn outs_ok(&self, ps: Seq<Seq<char>>, s: int) -> bool {
        let ids = patterns_ending(ps, self.text(s), self.text(s).len() as int);
        &&& self.outs@[s]@.len() == ids.len()
        &&& forall|j: int|
            0 <= j < ids.len() ==> {
                &&& (#[trigger] self.outs@[s]@[j]).value == ids[j]
                &&& self.outs@[s]@[j].length == storage_len(ps[ids[j]])
            }
        &&& self.direct@[s] == patterns_equal_to(ps, self.text(s), ps.len() as int).len()
    }

    /// Before the links are set, the output list of `s` holds just the
    /// patterns equal to its text.
    pub open spec fn seeded(&self, ps: Seq<Seq<char>>, s: int) -> bool {
        let ids = patterns_equal_to(ps, self.text(s), ps.len() as int);
        &&& self.outs@[s]@.len() == ids.len()
        &&& self.direct@[s] == ids.len()
        &&& forall|j: int|
            0 <= j < ids.len() ==> {
                &&& (#[trigger] self.outs@[s]@[j]).value == ids[j]
                &&& self.outs@[s]@[j].length == storage_len(self.text(s))
            }
    }

    /// Failure links and output lists are in place for every state whose
    /// text has fewer than `d` codepoints.
    pub open spec fn links_ok_below(&self, ps: Seq<Seq<char>>, d: int) -> bool {
        forall|s: int|
            #[trigger] self.is_state(s) && self.depth@[s] < d ==> self.fail_ok(ps, s)
                && self.outs_ok(ps, s)
    }

    /// No two states have the same text.
    #[verifier::opaque]
    pub open spec fn distinct(&self) -> bool {
        forall|a: int, b: int|
            #[trigger] self.is_state(a) && #[trigger] self.is_state(b) && self.text(a) == self.text(b)
                ==> a == b
    }

    /// The automaton of the pattern set `ps`.
    #[verifier::opaque]
    pub open spec fn wf(&self, ps: Seq<Seq<char>>) -> bool {
        &&& ps.len() > 0
        &&& all_nonempty(ps)
        &&& self.shape_ok(ps)
        &&& self.distinct()
        &&& forall|s: int| #[trigger] self.is_state(s) ==> self.fail_ok(ps, s) && self.outs_ok(ps, s)
    }

    /// All arrays have one entry for each slot.
    pub proof fn lemma_sizes(&self, ps: Seq<Seq<char>>)
        requires
            self.shape_ok(ps),
        ensures
            0 < self.check@.len() < usize::MAX,
            self.base@.len() == self.check@.len(),
            self.fail@.len() == self.check@.len(),
            self.depth@.len() == self.check@.len(),
            self.span@.len() == self.check@.len(),
            self.outs@.len() == self.check@.len(),
            self.direct@.len() == self.check@.len(),
            self.texts@.len() == self.check@.len(),
            self.is_state(0),
            self.text(0) == Seq::<char>::empty(),
    {
        reveal(DoubleArray::shape_ok);
    }

    /// Depth and span of a state measure its text.
    pub proof fn lemma_span(&self, ps: Seq<Seq<char>>, s: int)
        requires
            self.shape_ok(ps),
            self.is_state(s),
        ensures
            self.depth@[s] == self.text(s).len(),
            self.span@[s] == storage_len(self.text(s)),
    {
        reveal(DoubleArray::shape_ok);
    }

    /// The child of state `s` under `c`, if the text of `s` followed by `c`
    /// begins a pattern.
    pub fn child(&self, s: usize, c: char, Ghost(ps): Ghost<Seq<Seq<char>>>) -> (r: Option<usize>)
        requires
            self.shape_ok(ps),
            self.is_state(s as int),
        ensures
            match r {
                Some(t) => {
                    &&& self.is_state(t as int)
                    &&& t != 0
                    &&& self.text(t as int) == self.text(s as int).push(c)
                },
                None => !is_known_prefix(ps, self.text(s as int).push(c)),
            },
    {
        proof {
            reveal(DoubleArray::shape_ok);
        }
        let at = c as usize;
        if at >= self.codes.len() {
            assert(!self.has_edge(s as int, c));
            return None;
        }
        let code = self.codes[at];
        if code == UNMAPPED {
            assert(!self.has_edge(s as int, c));
            return None;
        }
        let b = self.base[s];
        let n = self.check.len();
        if b < n && code < n - b {
            let t = b + code;
            if self.check[t] == s {
                proof {
                    assert(self.is_state(t as int));
                    assert(self.edge_ok(t as int));
                    let u = self.text(t as int);
                    assert(mapped_in(self.codes@, u.last()) && mapped_in(self.codes@, c));
                    assert(u.last() == c);
                    assert(u == u.drop_last().push(u.last()));
                }
                Some(t)
            } else {
                assert(!self.has_edge(s as int, c));
                None
            }
        } else {
            assert(!self.has_edge(s as int, c));
            None
        }
    }

    /// The state after reading `c` in state `s`: the child under `c` of the
    /// first state on the failure chain of `s` that has one, or the root.
    pub fn next_state(&self, s: usize, c: char, Ghost(ps): Ghost<Seq<Seq<char>>>) -> (r: usize)
        requires
            self.shape_ok(ps),
            self.is_state(s as int),
            self.links_ok_below(ps, self.depth@[s as int] + 1),
        ensures
            self.is_state(r as int),
            self.text(r as int) == state_text(ps, self.text(s as int).push(c)),
    {
        let ghost w = self.text(s as int);
        let mut x = s;
        proof {
            reveal(DoubleArray::shape_ok);
        }
        loop
            invariant
                self.shape_ok(ps),
                self.is_state(s as int),
                self.is_state(x as int),
                w == self.text(s as int),
                self.depth@[x as int] <= self.depth@[s as int],
                self.links_ok_below(ps, self.depth@[s as int] + 1),
                self.text(x as int) == suffix(w, self.text(x as int).len() as int),
                forall|j: int|
                    self.text(x as int).len() < j <= w.len() ==> !is_known_prefix(
                        ps,
                        #[trigger] suffix(w, j).push(c),
                    ),
            decreases self.depth@[x as int],
        {
            let ghost u = self.text(x as int);
            proof {
                reveal(DoubleArray::shape_ok);
            }
            match self.child(x, c, Ghost(ps)) {
                Some(t) => {
                    proof {
                        let wc = w.push(c);
                        let m = u.len() + 1;
                        lemma_suffix_push(w, c, u.len() as int);
                        assert forall|j: int| m < j <= wc.len() implies !is_known_prefix(
                            ps,
                            #[trigger] suffix(wc, j),
                        ) by {
                            lemma_suffix_push(w, c, j - 1);
                        }
                        lemma_longest_known_unique(ps, wc, m as int);
                    }
                    return t;
                },
                None => {},
            }
            if x == 0 {
                proof {
                    let wc = w.push(c);
                    assert forall|j: int| 0 < j <= wc.len() implies !is_known_prefix(
                        ps,
                        #[trigger] suffix(wc, j),
                    ) by {
                        lemma_suffix_push(w, c, j - 1);
                        if j == 1 {
                            assert(suffix(w, 0) == u);
                        }
                    }
                    lemma_longest_known_unique(ps, wc, 0);
                    assert(suffix(wc, 0) == Seq::<char>::empty());
                }
                return 0;
            }
            let f = self.fail[x];
            proof {
                assert(self.fail_ok(ps, x as int));
                assert(self.edge_ok(x as int));
                let rest = u.drop_first();
                let v = self.text(f as int);
                lemma_longest_known_len(ps, rest, rest.len());
                lemma_suffix_of_suffix(w, u.len() as int, v.len() as int);
                assert(rest == suffix(u, u.len() - 1));
                lemma_suffix_of_suffix(u, u.len() - 1, v.len() as int);
                assert forall|j: int| v.len() < j <= w.len() implies !is_known_prefix(
                    ps,
                    #[trigger] suffix(w, j).push(c),
                ) by {
                    if j == u.len() {
                    } else if j < u.len() {
                        lemma_suffix_of_suffix(w, u.len() as int, j);
                        lemma_suffix_of_suffix(u, u.len() - 1, j);
                        assert(suffix(w, j) == suffix(rest, j));
                        if is_known_prefix(ps, suffix(w, j).push(c)) {
                            assert(suffix(w, j).is_prefix_of(suffix(w, j).push(c)));
                            lemma_known_prefix_closed(ps, suffix(w, j).push(c), suffix(w, j));
                        }
                    }
                }
            }
            x = f;
        }
    }
}

} // verus!
