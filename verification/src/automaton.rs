//! The automaton: built once from a pattern set, then searched any number of
//! times.

use crate::compact::compact;
use crate::double_array::{DoubleArray, UNUSED};
use crate::error::{ConstructionError, InvalidConfiguration};
use crate::leftmost::find_leftmost;
use crate::alphabet::{alphabet_size, covers, lemma_distinct_count, flatten, numbers, total_len};
use crate::limits::{fits_index_range, measure};
use crate::links::set_links;
use crate::laws::{
    law_found_matches_in_sequence, law_found_matches_occur, law_overlapping_matches_occur,
    lemma_disjoint, lemma_occur_within, lemma_within,
};
use crate::matches::{
    find_matches, no_suffix_matches, occurrences_of, overlapping_matches, Match, MatchKind,
    Occurrence,
};
use crate::position::PositionMap;
use crate::search::{find_overlapping, find_overlapping_no_suffix, find_standard, start};
use crate::text::{
    all_nonempty, is_known_prefix, lemma_patterns_equal_to, patterns_ending, patterns_equal_to,
    state_text, suffix,
};
use crate::trie::{in_trie, Trie};
use vstd::prelude::*;

verus! {

/// The patterns, given as strings, as texts.
pub open spec fn texts_of(patterns: Seq<String>) -> Seq<Seq<char>> {
    patterns.map_values(|s: String| s@)
}

/// Why no automaton is built for the pattern set `ps`, if none is: the set
/// is empty, or holds an empty pattern, or is too large.
pub open spec fn rejection(ps: Seq<Seq<char>>) -> Option<ConstructionError> {
    if ps.len() == 0 {
        Some(ConstructionError::NoPatterns)
    } else if !all_nonempty(ps) {
        Some(ConstructionError::EmptyPattern)
    } else if !fits_index_range(ps) {
        Some(ConstructionError::TooLarge)
    } else {
        None
    }
}

/// The codepoints of a string.
fn decode(s: &str) -> (v: Vec<char>)
    ensures
        v@ == s@,
{
    let mut v: Vec<char> = Vec::new();
    for c in it: s.chars()
        invariant
            v@ == it.seq().take(it.index()),
    {
        v.push(c);
    }
    v
}

/// The codepoints of each pattern.
fn decode_all(patterns: &Vec<String>) -> (pats: Vec<Vec<char>>)
    ensures
        pats@.len() == patterns@.len(),
        forall|i: int| 0 <= i < pats@.len() ==> (#[trigger] pats@[i])@ == patterns@[i]@,
{
    let mut pats: Vec<Vec<char>> = Vec::new();
    let mut i: usize = 0;
    while i < patterns.len()
        invariant
            i <= patterns@.len(),
            pats@.len() == i,
            forall|j: int| 0 <= j < i ==> (#[trigger] pats@[j])@ == patterns@[j]@,
        decreases patterns@.len() - i,
    {
        let p = decode(patterns[i].as_str());
        pats.push(p);
        i += 1;
    }
    pats
}

/// Whether every pattern has at least one codepoint.
fn none_empty(pats: &Vec<Vec<char>>, Ghost(ps): Ghost<Seq<Seq<char>>>) -> (ok: bool)
    requires
        ps.len() == pats@.len(),
        forall|i: int| 0 <= i < ps.len() ==> ps[i] == (#[trigger] pats@[i])@,
    ensures
        ok == all_nonempty(ps),
{
    let mut i: usize = 0;
    while i < pats.len()
        invariant
            i <= pats@.len(),
            ps.len() == pats@.len(),
            forall|j: int| 0 <= j < ps.len() ==> ps[j] == (#[trigger] pats@[j])@,
            forall|j: int| 0 <= j < i ==> (#[trigger] ps[j]).len() > 0,
        decreases pats@.len() - i,
    {
        if pats[i].len() == 0 {
            assert(ps[i as int].len() == 0);
            return false;
        }
        i += 1;
    }
    true
}

/// The trie of the patterns.
fn build_trie(pats: &Vec<Vec<char>>, Ghost(ps): Ghost<Seq<Seq<char>>>) -> (trie: Trie)
    requires
        ps.len() == pats@.len(),
        forall|i: int| 0 <= i < ps.len() ==> ps[i] == (#[trigger] pats@[i])@,
    ensures
        trie.wf(ps, Seq::empty()),
        trie.size() <= 1 + total_len(ps),
{
    let mut trie = Trie::new();
    let mut i: usize = 0;
    proof {
        assert(ps.take(0) =~= Seq::<Seq<char>>::empty());
    }
    while i < pats.len()
        invariant
            i <= pats@.len(),
            ps.len() == pats@.len(),
            forall|j: int| 0 <= j < ps.len() ==> ps[j] == (#[trigger] pats@[j])@,
            trie.wf(ps.take(i as int), Seq::empty()),
            trie.size() <= 1 + total_len(ps.take(i as int)),
        decreases pats@.len() - i,
    {
        proof {
            assert(ps.take(i + 1) =~= ps.take(i as int).push(pats@[i as int]@));
            assert(ps.take(i + 1).drop_last() =~= ps.take(i as int));
        }
        trie.insert(&pats[i], i, Ghost(ps.take(i as int)));
        i += 1;
    }
    proof {
        assert(ps.take(ps.len() as int) =~= ps);
    }
    trie
}

/// The automaton of the patterns, whose alphabet `codes` numbers.
fn build(
    pats: &Vec<Vec<char>>,
    codes: Vec<usize>,
    size: usize,
    Ghost(ps): Ghost<Seq<Seq<char>>>,
) -> (da: DoubleArray)
    requires
        ps.len() == pats@.len(),
        forall|i: int| 0 <= i < ps.len() ==> ps[i] == (#[trigger] pats@[i])@,
        ps.len() > 0,
        all_nonempty(ps),
        fits_index_range(ps),
        size == alphabet_size(ps),
        numbers(codes@, size as int),
        covers(codes@, ps),
    ensures
        da.wf(ps),
{
    let trie = build_trie(pats, Ghost(ps));
    let n = trie.parent.len();
    proof {
        let none = Seq::<char>::empty();
        assert forall|v: int| 0 < v < trie.size() implies crate::alphabet::mapped_in(
            codes@,
            #[trigger] trie.label@[v],
        ) by {
            let w = trie.text(v);
            assert(trie.parent@[v] < v);
            assert(w == trie.text(trie.parent@[v] as int).push(trie.label@[v]));
            assert(in_trie(ps, none, w));
            assert(is_known_prefix(ps, w));
            let i = choose|i: int| 0 <= i < ps.len() && #[trigger] w.is_prefix_of(ps[i]);
            assert(ps[i][w.len() - 1] == w[w.len() - 1]);
        }
        lemma_distinct_count(flatten(ps));
        let t = total_len(ps);
        let nn = trie.size();
        assert(1 + nn * size <= (t + 1) * (size + 4)) by (nonlinear_arith)
            requires
                1 <= nn <= t + 1,
                size >= 0,
        ;
        assert(4 * nn <= (t + 1) * (size + 4)) by (nonlinear_arith)
            requires
                1 <= nn <= t + 1,
                size >= 0,
        ;
    }
    let lay = compact(&trie, codes, size, Ghost(ps));
    set_links(lay.da, &lay.labels, n, Ghost(ps))
}

/// The texts of the patterns that the occurrences `occs` name.
pub open spec fn texts_matched(ps: Seq<Seq<char>>, occs: Seq<Occurrence>) -> Seq<Seq<char>> {
    occs.map_values(|o: Occurrence| ps[o.value])
}

/// A multi-pattern search automaton.
///
/// The automaton is built from a sequence of patterns, none of them empty.
/// A pattern is known by its index in that sequence, and this index is the
/// value that its matches carry. The same pattern may be given more than
/// once; it then has several indices and, where a search reports every
/// pattern, is reported once for each. Once built, the automaton does not
/// change.
pub struct Automaton {
    kind: MatchKind,
    texts: Vec<String>,
    da: DoubleArray,
}

impl Automaton {
    #[verifier::type_invariant]
    spec fn inv(&self) -> bool {
        self.da.wf(texts_of(self.texts@))
    }

    /// The patterns of the automaton, in the order they were given; the
    /// index of a pattern here is the value its matches carry.
    pub closed spec fn patterns(&self) -> Seq<Seq<char>> {
        texts_of(self.texts@)
    }

    /// The match kind the automaton was built for.
    pub closed spec fn match_kind(&self) -> MatchKind {
        self.kind
    }

    /// Builds the automaton of `patterns` for searches of the given kind.
    ///
    /// A pattern set is rejected when it is empty, when one of its patterns
    /// is empty, or when it is too large for the states of its automaton to
    /// be indexed; every other pattern set is accepted.
    pub fn new(patterns: Vec<String>, kind: MatchKind) -> (r: Result<Automaton, ConstructionError>)
        ensures
            match r {
                Ok(a) => {
                    &&& rejection(texts_of(patterns@)) is None
                    &&& a.patterns() == texts_of(patterns@)
                    &&& a.match_kind() == kind
                },
                Err(e) => rejection(texts_of(patterns@)) == Some(e),
            },
    {
        let ghost ps = texts_of(patterns@);
        if patterns.len() == 0 {
            return Err(ConstructionError::NoPatterns);
        }
        let pats = decode_all(&patterns);
        if !none_empty(&pats, Ghost(ps)) {
            return Err(ConstructionError::EmptyPattern);
        }
        let (codes, size) = match measure(&pats, Ghost(ps)) {
            Some(alphabet) => alphabet,
            None => {
                return Err(ConstructionError::TooLarge);
            },
        };
        let da = build(&pats, codes, size, Ghost(ps));
        Ok(Automaton { kind, texts: patterns, da })
    }

    /// The number of patterns.
    pub fn pattern_count(&self) -> (n: usize)
        ensures
            n == self.patterns().len(),
    {
        self.texts.len()
    }

    /// The text of the pattern with index `id`, if there is one.
    pub fn pattern(&self, id: usize) -> (text: Option<String>)
        ensures
            match text {
                Some(t) => id < self.patterns().len() && t@ == self.patterns()[id as int],
                None => id >= self.patterns().len(),
            },
    {
        if id < self.texts.len() {
            Some(self.texts[id].clone())
        } else {
            None
        }
    }

    /// The match kind the automaton was built for.
    pub fn kind(&self) -> (kind: MatchKind)
        ensures
            kind == self.match_kind(),
    {
        self.kind
    }

    /// `state` is a state of the automaton.
    pub closed spec fn is_state(&self, state: usize) -> bool {
        self.da.is_state(state as int)
    }

    /// The text that the automaton remembers in `state`: of what it has
    /// read, the longest suffix that begins a pattern.
    pub closed spec fn remembered(&self, state: usize) -> Seq<char> {
        self.da.text(state as int)
    }

    /// `state` is the one state that remembers what it remembers.
    pub open spec fn is_the_state(&self, state: usize) -> bool {
        &&& self.is_state(state)
        &&& forall|other: usize|
            #[trigger] self.is_state(other) && self.remembered(other) == self.remembered(state)
                ==> other == state
    }

    /// The state in which nothing has been read.
    pub fn root(&self) -> (state: usize)
        ensures
            self.is_the_state(state),
            self.remembered(state) == Seq::<char>::empty(),
    {
        proof {
            use_type_invariant(self);
        }
        let state = start(&self.da, Ghost(self.patterns()));
        proof {
            self.lemma_one_state(state);
        }
        state
    }

    /// No other state remembers what `state` remembers.
    proof fn lemma_one_state(&self, state: usize)
        requires
            self.inv(),
            self.is_state(state),
        ensures
            self.is_the_state(state),
    {
        reveal(DoubleArray::wf);
        reveal(DoubleArray::distinct);
        assert forall|other: usize|
            #[trigger] self.is_state(other) && self.remembered(other) == self.remembered(
                state,
            ) implies other == state by {
            assert(self.da.is_state(other as int) && self.da.is_state(state as int));
        }
    }

    /// The state after reading `c` in `state`. What is not a state counts
    /// as the root.
    pub fn transition(&self, state: usize, c: char) -> (next: usize)
        ensures
            self.is_the_state(next),
            self.is_state(state) ==> self.remembered(next) == state_text(
                self.patterns(),
                self.remembered(state).push(c),
            ),
            !self.is_state(state) ==> self.remembered(next) == state_text(
                self.patterns(),
                Seq::<char>::empty().push(c),
            ),
    {
        proof {
            use_type_invariant(self);
        }
        let ghost ps = self.patterns();
        let from = if self.has_state(state) {
            state
        } else {
            start(&self.da, Ghost(ps))
        };
        proof {
            reveal(DoubleArray::wf);
        }
        let next = self.da.next_state(from, c, Ghost(ps));
        proof {
            self.lemma_one_state(next);
        }
        next
    }

    /// Whether `state` is a state of the automaton.
    pub fn has_state(&self, state: usize) -> (yes: bool)
        ensures
            yes == self.is_state(state),
    {
        proof {
            use_type_invariant(self);
            reveal(DoubleArray::wf);
            self.da.lemma_sizes(self.patterns());
        }
        state < self.da.check.len() && self.da.check[state] != UNUSED
    }

    /// The patterns that end the text remembered in `state`, in the order
    /// in which their matches are reported: longer patterns first, equal
    /// patterns by index. Nothing for what is not a state.
    pub fn outputs(&self, state: usize) -> (ids: Vec<usize>)
        ensures
            self.is_state(state) ==> ids@.map_values(|id: usize| id as int) == patterns_ending(
                self.patterns(),
                self.remembered(state),
                self.remembered(state).len() as int,
            ),
            !self.is_state(state) ==> ids@.len() == 0,
    {
        let mut ids: Vec<usize> = Vec::new();
        if self.has_state(state) {
            proof {
                use_type_invariant(self);
                reveal(DoubleArray::wf);
                self.da.lemma_sizes(self.patterns());
                assert(self.da.outs_ok(self.patterns(), state as int));
            }
            let list = &self.da.outs[state];
            let ghost all = patterns_ending(
                self.patterns(),
                self.remembered(state),
                self.remembered(state).len() as int,
            );
            let mut j: usize = 0;
            while j < list.len()
                invariant
                    j <= list@.len(),
                    list@.len() == all.len(),
                    forall|i: int| 0 <= i < all.len() ==> (#[trigger] list@[i]).value == all[i],
                    ids@.map_values(|id: usize| id as int) == all.take(j as int),
                decreases list@.len() - j,
            {
                proof {
                    assert(ids@.push(list@[j as int].value).map_values(|id: usize| id as int)
                        =~= ids@.map_values(|id: usize| id as int).push(all[j as int]));
                    assert(all.take(j + 1) =~= all.take(j as int).push(all[j as int]));
                }
                ids.push(list[j].value);
                j += 1;
            }
            proof {
                assert(all.take(all.len() as int) =~= all);
            }
        }
        ids
    }

    /// The patterns equal to the text remembered in `state`, by index.
    /// Nothing for what is not a state.
    pub fn direct_outputs(&self, state: usize) -> (ids: Vec<usize>)
        ensures
            self.is_state(state) ==> ids@.map_values(|id: usize| id as int) == patterns_equal_to(
                self.patterns(),
                self.remembered(state),
                self.patterns().len() as int,
            ),
            !self.is_state(state) ==> ids@.len() == 0,
    {
        let mut ids: Vec<usize> = Vec::new();
        if self.has_state(state) {
            let ghost ps = self.patterns();
            let ghost u = self.remembered(state);
            let ghost here = patterns_equal_to(ps, u, ps.len() as int);
            let ghost all = patterns_ending(ps, u, u.len() as int);
            proof {
                use_type_invariant(self);
                reveal(DoubleArray::wf);
                self.da.lemma_sizes(ps);
                assert(self.da.outs_ok(ps, state as int));
                if u.len() > 0 {
                    assert(suffix(u, u.len() as int) =~= u);
                } else {
                    lemma_patterns_equal_to(ps, u, ps.len() as int);
                    if here.len() > 0 {
                        assert(ps[here[0]].len() > 0);
                    }
                }
                assert(all.take(here.len() as int) =~= here);
            }
            let list = &self.da.outs[state];
            let count = self.da.direct[state];
            let mut j: usize = 0;
            while j < count
                invariant
                    j <= count <= list@.len(),
                    count == here.len(),
                    list@.len() == all.len(),
                    all.take(here.len() as int) == here,
                    forall|i: int| 0 <= i < all.len() ==> (#[trigger] list@[i]).value == all[i],
                    ids@.map_values(|id: usize| id as int) == here.take(j as int),
                decreases count - j,
            {
                proof {
                    assert(here[j as int] == all.take(here.len() as int)[j as int]);
                    assert(ids@.push(list@[j as int].value).map_values(|id: usize| id as int)
                        =~= ids@.map_values(|id: usize| id as int).push(here[j as int]));
                    assert(here.take(j + 1) =~= here.take(j as int).push(here[j as int]));
                }
                ids.push(list[j].value);
                j += 1;
            }
            proof {
                assert(here.take(here.len() as int) =~= here);
            }
        }
        ids
    }

    /// The non-overlapping matches in `haystack`, as the match kind of the
    /// automaton defines them, from left to right.
    ///
    /// Every match lies within the haystack and names a pattern, and each
    /// match ends before the next begins.
    pub fn find(&self, haystack: &str) -> (out: Vec<Match>)
        ensures
            occurrences_of(out@) == find_matches(self.patterns(), self.match_kind(), haystack@),
            forall|i: int|
                0 <= i < out@.len() ==> (#[trigger] out@[i]).start <= out@[i].end <= haystack@.len()
                    && out@[i].value < self.patterns().len(),
            forall|i: int, j: int|
                0 <= i < j < out@.len() ==> (#[trigger] out@[i]).end <= (#[trigger] out@[j]).start,
    {
        proof {
            use_type_invariant(self);
        }
        let ghost ps = self.patterns();
        let ghost expected = find_matches(ps, self.kind, haystack@);
        let hay = decode(haystack);
        let map = PositionMap::new(&hay);
        let raw = match self.kind {
            MatchKind::Standard => find_standard(&self.da, &hay, Ghost(ps)),
            MatchKind::LeftmostLongest => find_leftmost(
                &self.da,
                &hay,
                MatchKind::LeftmostLongest,
                Ghost(ps),
            ),
            MatchKind::LeftmostFirst => find_leftmost(
                &self.da,
                &hay,
                MatchKind::LeftmostFirst,
                Ghost(ps),
            ),
        };
        proof {
            law_found_matches_occur(ps, self.kind, haystack@);
            law_found_matches_in_sequence(ps, self.kind, haystack@);
            lemma_occur_within(ps, haystack@, expected);
        }
        let out = map.in_codepoints(&raw, Ghost(hay@), Ghost(expected));
        proof {
            lemma_within(ps, haystack@, out@);
            lemma_disjoint(out@);
        }
        out
    }

    /// Every occurrence of every pattern in `haystack`, by the place where
    /// it ends, longer patterns first. Only an automaton of the standard
    /// match kind answers.
    pub fn find_overlapping(&self, haystack: &str) -> (r: Result<Vec<Match>, InvalidConfiguration>)
        ensures
            match r {
                Ok(out) => {
                    &&& self.match_kind() == MatchKind::Standard
                    &&& occurrences_of(out@) == overlapping_matches(self.patterns(), haystack@)
                    &&& forall|i: int|
                        0 <= i < out@.len() ==> (#[trigger] out@[i]).start <= out@[i].end
                            <= haystack@.len() && out@[i].value < self.patterns().len()
                },
                Err(_) => self.match_kind() != MatchKind::Standard,
            },
    {
        proof {
            use_type_invariant(self);
        }
        match self.kind {
            MatchKind::Standard => {
                let ghost ps = self.patterns();
                let ghost expected = overlapping_matches(ps, haystack@);
                let hay = decode(haystack);
                let map = PositionMap::new(&hay);
                let raw = find_overlapping(&self.da, &hay, Ghost(ps));
                proof {
                    law_overlapping_matches_occur(ps, haystack@);
                    lemma_occur_within(ps, haystack@, expected);
                }
                let out = map.in_codepoints(&raw, Ghost(hay@), Ghost(expected));
                proof {
                    lemma_within(ps, haystack@, out@);
                }
                Ok(out)
            },
            _ => Err(InvalidConfiguration),
        }
    }

    /// At every place of `haystack`, the occurrences of the patterns equal
    /// to the text the automaton remembers there; occurrences of shorter
    /// patterns that end at the same place are left out. Only an automaton
    /// of the standard match kind answers.
    pub fn find_overlapping_no_suffix(&self, haystack: &str) -> (r: Result<
        Vec<Match>,
        InvalidConfiguration,
    >)
        ensures
            match r {
                Ok(out) => {
                    &&& self.match_kind() == MatchKind::Standard
                    &&& occurrences_of(out@) == no_suffix_matches(self.patterns(), haystack@)
                    &&& forall|i: int|
                        0 <= i < out@.len() ==> (#[trigger] out@[i]).start <= out@[i].end
                            <= haystack@.len() && out@[i].value < self.patterns().len()
                },
                Err(_) => self.match_kind() != MatchKind::Standard,
            },
    {
        proof {
            use_type_invariant(self);
        }
        match self.kind {
            MatchKind::Standard => {
                let ghost ps = self.patterns();
                let ghost expected = no_suffix_matches(ps, haystack@);
                let hay = decode(haystack);
                let map = PositionMap::new(&hay);
                let raw = find_overlapping_no_suffix(&self.da, &hay, Ghost(ps));
                proof {
                    law_overlapping_matches_occur(ps, haystack@);
                    lemma_occur_within(ps, haystack@, expected);
                }
                let out = map.in_codepoints(&raw, Ghost(hay@), Ghost(expected));
                proof {
                    lemma_within(ps, haystack@, out@);
                }
                Ok(out)
            },
            _ => Err(InvalidConfiguration),
        }
    }

    /// The texts of the patterns that the matches `found` name.
    fn texts_for(&self, found: &Vec<Match>) -> (out: Vec<String>)
        requires
            forall|i: int| 0 <= i < found@.len() ==> (#[trigger] found@[i]).value < self.patterns().len(),
        ensures
            texts_of(out@) == texts_matched(self.patterns(), occurrences_of(found@)),
    {
        let mut out: Vec<String> = Vec::new();
        let mut i: usize = 0;
        let ghost ps = self.patterns();
        let ghost occs = occurrences_of(found@);
        proof {
            assert(texts_of(out@) =~= texts_matched(ps, occs.take(0)));
        }
        while i < found.len()
            invariant
                i <= found@.len(),
                ps == self.patterns(),
                occs == occurrences_of(found@),
                forall|k: int| 0 <= k < found@.len() ==> (#[trigger] found@[k]).value < ps.len(),
                texts_of(out@) == texts_matched(ps, occs.take(i as int)),
            decreases found@.len() - i,
        {
            let m = found[i];
            let text = self.texts[m.value].clone();
            proof {
                assert(occs[i as int] == m@);
                assert(text@ == ps[m.value as int]);
                assert(occs.take(i + 1) =~= occs.take(i as int).push(occs[i as int]));
                assert(texts_of(out@.push(text)) =~= texts_of(out@).push(text@));
                assert(texts_matched(ps, occs.take(i + 1)) =~= texts_matched(
                    ps,
                    occs.take(i as int),
                ).push(ps[m.value as int]));
            }
            out.push(text);
            i += 1;
        }
        proof {
            assert(occs.take(occs.len() as int) =~= occs);
        }
        out
    }

    /// The patterns matched by `find`, as strings, in the order of the
    /// matches.
    pub fn find_as_strings(&self, haystack: &str) -> (out: Vec<String>)
        ensures
            texts_of(out@) == texts_matched(
                self.patterns(),
                find_matches(self.patterns(), self.match_kind(), haystack@),
            ),
    {
        let found = self.find(haystack);
        self.texts_for(&found)
    }

    /// The patterns matched by `find_overlapping`, as strings, in the order
    /// of the matches.
    pub fn find_overlapping_as_strings(&self, haystack: &str) -> (r: Result<
        Vec<String>,
        InvalidConfiguration,
    >)
        ensures
            match r {
                Ok(out) => {
                    &&& self.match_kind() == MatchKind::Standard
                    &&& texts_of(out@) == texts_matched(
                        self.patterns(),
                        overlapping_matches(self.patterns(), haystack@),
                    )
                },
                Err(_) => self.match_kind() != MatchKind::Standard,
            },
    {
        match self.find_overlapping(haystack) {
            Ok(found) => Ok(self.texts_for(&found)),
            Err(e) => Err(e),
        }
    }

    /// The patterns matched by `find_overlapping_no_suffix`, as strings, in
    /// the order of the matches.
    pub fn find_overlapping_no_suffix_as_strings(&self, haystack: &str) -> (r: Result<
        Vec<String>,
        InvalidConfiguration,
    >)
        ensures
            match r {
                Ok(out) => {
                    &&& self.match_kind() == MatchKind::Standard
                    &&& texts_of(out@) == texts_matched(
                        self.patterns(),
                        no_suffix_matches(self.patterns(), haystack@),
                    )
                },
                Err(_) => self.match_kind() != MatchKind::Standard,
            },
    {
        match self.find_overlapping_no_suffix(haystack) {
            Ok(found) => Ok(self.texts_for(&found)),
            Err(e) => Err(e),
        }
    }
}

} // verus!
