//! The leftmost searches.
//!
//! From the place where the last match ended, the automaton is walked until
//! the text it remembers begins behind the best match found so far: no later
//! match can then begin as early, so the best match is reported and the scan
//! starts again behind it.

use crate::double_array::DoubleArray;
use crate::matches::{
    choice_at, ending_at, first_at, leftmost_from, longest_at, occurrences_of, preferred, Match,
    MatchKind, Occurrence,
};
use crate::position::{all_stored, lemma_offset_order, offset_of, storage_len, stored};
use crate::search::{advance, lemma_occurrences_push, outputs_here, span_of, start, step};
use crate::text::{
    all_nonempty, lemma_longest_known_len, lemma_patterns_ending,
    lemma_patterns_equal_to, occurs_at, patterns_ending, patterns_equal_to, state_text, suffix,
};
use vstd::prelude::*;

verus! {

/// The occurrence of `a` at `sa` is reported rather than that of `b` at `sb`.
pub open spec fn at_least_as_good(
    ps: Seq<Seq<char>>,
    kind: MatchKind,
    sa: int,
    a: int,
    sb: int,
    b: int,
) -> bool {
    sa < sb || (sa == sb && preferred(ps, kind, a, b))
}

/// Pattern `id` occurs at `s`, not before `lo` and not beyond `e`.
pub open spec fn in_window(ps: Seq<Seq<char>>, h: Seq<char>, lo: int, e: int, id: int, s: int) -> bool {
    lo <= s && occurs_at(ps, h, id, s) && s + ps[id].len() <= e
}

/// `cand` is the occurrence to report among those within `lo..e`, or there
/// is none.
pub open spec fn best_in_window(
    ps: Seq<Seq<char>>,
    kind: MatchKind,
    h: Seq<char>,
    lo: int,
    e: int,
    cand: Option<Match>,
) -> bool {
    match cand {
        None => forall|id: int, s: int| !#[trigger] in_window(ps, h, lo, e, id, s),
        Some(m) => {
            &&& in_window(ps, h, lo, e, m.value as int, m.start as int)
            &&& m.end == m.start + ps[m.value as int].len()
            &&& forall|id: int, s: int| #[trigger]
                in_window(ps, h, lo, e, id, s) ==> at_least_as_good(
                    ps,
                    kind,
                    m.start as int,
                    m.value as int,
                    s,
                    id,
                )
        },
    }
}

/// Whether the match `fresh`, which ends later than `old`, takes its place.
pub open spec fn replaces(kind: MatchKind, old: Option<Match>, fresh: Match) -> bool {
    match old {
        None => true,
        Some(m) => fresh.start < m.start || (fresh.start == m.start && (match kind {
            MatchKind::LeftmostFirst => fresh.value < m.value,
            _ => true,
        })),
    }
}

/// What `first_at` finds is the first pattern from `from` on that occurs.
pub proof fn lemma_first_at(ps: Seq<Seq<char>>, h: Seq<char>, s: int, from: int)
    requires
        0 <= from,
    ensures
        match first_at(ps, h, s, from) {
            None => forall|id: int| from <= id < ps.len() ==> !#[trigger] occurs_at(ps, h, id, s),
            Some(i) => {
                &&& from <= i < ps.len()
                &&& occurs_at(ps, h, i, s)
                &&& forall|id: int| from <= id < i ==> !#[trigger] occurs_at(ps, h, id, s)
            },
        },
    decreases ps.len() - from,
{
    if from < ps.len() && !occurs_at(ps, h, from, s) {
        lemma_first_at(ps, h, s, from + 1);
    }
}

/// What `longest_at` finds is the longest pattern of at most `len`
/// codepoints that occurs, and of equal ones the first.
pub proof fn lemma_longest_at(ps: Seq<Seq<char>>, h: Seq<char>, s: int, len: int)
    requires
        0 <= s,
    ensures
        match longest_at(ps, h, s, len) {
            None => forall|id: int| #[trigger]
                occurs_at(ps, h, id, s) ==> !(0 < ps[id].len() <= len),
            Some(i) => {
                &&& occurs_at(ps, h, i, s)
                &&& 0 < ps[i].len() <= len
                &&& forall|id: int| #[trigger]
                    occurs_at(ps, h, id, s) && 0 < ps[id].len() <= len ==> preferred(
                        ps,
                        MatchKind::LeftmostLongest,
                        i,
                        id,
                    )
            },
        },
    decreases len,
{
    if len > 0 {
        let u = h.subrange(s, s + len);
        let ids = patterns_equal_to(ps, u, ps.len() as int);
        lemma_patterns_equal_to(ps, u, ps.len() as int);
        if s + len <= h.len() && ids.len() > 0 {
            let i = ids[0];
            assert forall|id: int| #[trigger]
                occurs_at(ps, h, id, s) && 0 < ps[id].len() <= len implies preferred(
                ps,
                MatchKind::LeftmostLongest,
                i,
                id,
            ) by {
                if ps[id].len() == len {
                    assert(ps[id] == u);
                    let j = choose|j: int| 0 <= j < ids.len() && ids[j] == id;
                    if j > 0 {
                        assert(ids[0] < ids[j]);
                    }
                }
            }
        } else {
            lemma_longest_at(ps, h, s, len - 1);
            assert forall|id: int| #[trigger] occurs_at(ps, h, id, s) implies ps[id].len() != len by {
                if ps[id].len() == len {
                    assert(ps[id] == u);
                    assert(ids.contains(id));
                }
            }
        }
    }
}

/// The pattern chosen at `s` occurs there and is preferred to every pattern
/// that occurs there; none is chosen only if none occurs.
pub proof fn lemma_choice_at(ps: Seq<Seq<char>>, kind: MatchKind, h: Seq<char>, s: int)
    requires
        all_nonempty(ps),
        kind != MatchKind::Standard,
        0 <= s <= h.len(),
    ensures
        match choice_at(ps, kind, h, s) {
            None => forall|id: int| !#[trigger] occurs_at(ps, h, id, s),
            Some(i) => {
                &&& occurs_at(ps, h, i, s)
                &&& forall|id: int| #[trigger]
                    occurs_at(ps, h, id, s) ==> preferred(ps, kind, i, id)
            },
        },
{
    match kind {
        MatchKind::LeftmostFirst => {
            lemma_first_at(ps, h, s, 0);
        },
        _ => {
            lemma_longest_at(ps, h, s, h.len() - s);
        },
    }
}

/// Where no pattern begins, a leftmost search reports nothing.
pub proof fn lemma_leftmost_skip(ps: Seq<Seq<char>>, kind: MatchKind, h: Seq<char>, lo: int, s: int)
    requires
        all_nonempty(ps),
        kind != MatchKind::Standard,
        0 <= lo <= s <= h.len(),
        forall|id: int, x: int| lo <= x < s ==> !#[trigger] occurs_at(ps, h, id, x),
    ensures
        leftmost_from(ps, kind, h, lo) == leftmost_from(ps, kind, h, s),
    decreases s - lo,
{
    if lo < s {
        lemma_choice_at(ps, kind, h, lo);
        if choice_at(ps, kind, h, lo) is Some {
            assert(occurs_at(ps, h, choice_at(ps, kind, h, lo)->0, lo));
        }
        lemma_leftmost_skip(ps, kind, h, lo + 1, s);
    }
}

/// When no pattern occurs from `lo` on, a leftmost search from there
/// reports nothing.
pub proof fn lemma_leftmost_none(ps: Seq<Seq<char>>, kind: MatchKind, h: Seq<char>, lo: int)
    requires
        all_nonempty(ps),
        kind != MatchKind::Standard,
        0 <= lo <= h.len(),
        best_in_window(ps, kind, h, lo, h.len() as int, None),
    ensures
        leftmost_from(ps, kind, h, lo) == Seq::<crate::matches::Occurrence>::empty(),
{
    assert forall|id: int, x: int| lo <= x < h.len() implies !#[trigger] occurs_at(ps, h, id, x) by {
        assert(!in_window(ps, h, lo, h.len() as int, id, x));
    }
    lemma_leftmost_skip(ps, kind, h, lo, h.len() as int);
}

/// The best occurrence from `lo` on is what a leftmost search from `lo`
/// reports first, and it goes on behind it.
pub proof fn lemma_leftmost_found(ps: Seq<Seq<char>>, kind: MatchKind, h: Seq<char>, lo: int, m: Match)
    requires
        all_nonempty(ps),
        kind != MatchKind::Standard,
        0 <= lo <= h.len(),
        best_in_window(ps, kind, h, lo, h.len() as int, Some(m)),
    ensures
        lo <= m.start < m.end <= h.len(),
        m.value < ps.len(),
        leftmost_from(ps, kind, h, lo) == seq![m@] + leftmost_from(ps, kind, h, m.end as int),
{
    let s = m.start as int;
    let n = h.len() as int;
    assert(in_window(ps, h, lo, n, m.value as int, s));
    assert forall|id: int, x: int| lo <= x < s implies !#[trigger] occurs_at(ps, h, id, x) by {
        if occurs_at(ps, h, id, x) {
            assert(in_window(ps, h, lo, n, id, x));
        }
    }
    lemma_leftmost_skip(ps, kind, h, lo, s);
    lemma_choice_at(ps, kind, h, s);
    let i = choice_at(ps, kind, h, s)->0;
    assert(occurs_at(ps, h, m.value as int, s));
    assert(in_window(ps, h, lo, n, i, s));
    assert(preferred(ps, kind, m.value as int, i));
    assert(preferred(ps, kind, i, m.value as int));
    assert(i == m.value);
    assert(m@ == ending_at(ps, s + ps[i].len(), i));
}

/// Taking in the patterns that end at `e` keeps the candidate the best.
pub proof fn lemma_window_grows(
    ps: Seq<Seq<char>>,
    kind: MatchKind,
    h: Seq<char>,
    lo: int,
    e: int,
    old: Option<Match>,
    fresh: Option<Match>,
)
    requires
        all_nonempty(ps),
        kind != MatchKind::Standard,
        0 <= lo < e <= h.len(),
        best_in_window(ps, kind, h, lo, e - 1, old),
        ({
            let ids = patterns_ending(ps, h.subrange(lo, e), e - lo);
            match fresh {
                None => ids.len() == 0,
                Some(f) => {
                    &&& ids.len() > 0
                    &&& f.value == ids[0]
                    &&& f.end == e
                    &&& f.start == e - ps[ids[0]].len()
                },
            }
        }),
    ensures
        best_in_window(
            ps,
            kind,
            h,
            lo,
            e,
            if fresh is Some && replaces(kind, old, fresh->0) {
                fresh
            } else {
                old
            },
        ),
{
    let w = h.subrange(lo, e);
    let ids = patterns_ending(ps, w, e - lo);
    lemma_patterns_ending(ps, w, e - lo);
    let new = if fresh is Some && replaces(kind, old, fresh->0) {
        fresh
    } else {
        old
    };
    // every occurrence that ends at `e` within the window is listed
    assert forall|id: int, s: int| #[trigger]
        in_window(ps, h, lo, e, id, s) && s + ps[id].len() == e implies ids.contains(id) by {
        assert(suffix(w, ps[id].len() as int) =~= h.subrange(s, e));
    }
    if fresh is Some {
        let f = fresh->0;
        let first = ids[0];
        assert(suffix(w, ps[first].len() as int) =~= h.subrange(f.start as int, e));
        assert(in_window(ps, h, lo, e, first, f.start as int));
        assert forall|id: int, s: int| #[trigger]
            in_window(ps, h, lo, e, id, s) && s + ps[id].len() == e implies at_least_as_good(
            ps,
            kind,
            f.start as int,
            first,
            s,
            id,
        ) by {
            let j = choose|j: int| 0 <= j < ids.len() && ids[j] == id;
            if j > 0 {
                assert(crate::text::reported_before(ps, ids[0], ids[j]));
            }
        }
        match old {
            None => {
                assert forall|id: int, s: int| #[trigger]
                    in_window(ps, h, lo, e, id, s) implies s + ps[id].len() == e by {
                    if s + ps[id].len() <= e - 1 {
                        assert(in_window(ps, h, lo, e - 1, id, s));
                    }
                }
            },
            Some(m) => {
                assert(in_window(ps, h, lo, e - 1, m.value as int, m.start as int));
                assert(in_window(ps, h, lo, e, m.value as int, m.start as int));
                assert forall|id: int, s: int| #[trigger]
                    in_window(ps, h, lo, e, id, s) implies at_least_as_good(
                    ps,
                    kind,
                    new->0.start as int,
                    new->0.value as int,
                    s,
                    id,
                ) by {
                    if s + ps[id].len() <= e - 1 {
                        assert(in_window(ps, h, lo, e - 1, id, s));
                    }
                }
            },
        }
    } else {
        assert forall|id: int, s: int| #[trigger]
            in_window(ps, h, lo, e, id, s) implies in_window(ps, h, lo, e - 1, id, s) by {
            if s + ps[id].len() == e {
                assert(ids.contains(id));
            }
        }
        match old {
            None => {},
            Some(m) => {
                assert(in_window(ps, h, lo, e - 1, m.value as int, m.start as int));
            },
        }
    }
}

/// Once the remembered text begins behind the candidate, no occurrence that
/// ends later can begin as early as the candidate does.
pub proof fn lemma_window_closed(
    ps: Seq<Seq<char>>,
    kind: MatchKind,
    h: Seq<char>,
    lo: int,
    e: int,
    m: Match,
)
    requires
        0 <= lo < e <= h.len(),
        best_in_window(ps, kind, h, lo, e - 1, Some(m)),
        e - state_text(ps, h.subrange(lo, e)).len() > m.start,
    ensures
        best_in_window(ps, kind, h, lo, h.len() as int, Some(m)),
{
    let w = h.subrange(lo, e);
    lemma_longest_known_len(ps, w, w.len());
    assert(in_window(ps, h, lo, e - 1, m.value as int, m.start as int));
    assert(in_window(ps, h, lo, h.len() as int, m.value as int, m.start as int));
    assert forall|id: int, s: int| #[trigger]
        in_window(ps, h, lo, h.len() as int, id, s) implies at_least_as_good(
        ps,
        kind,
        m.start as int,
        m.value as int,
        s,
        id,
    ) by {
        if s + ps[id].len() <= e - 1 {
            assert(in_window(ps, h, lo, e - 1, id, s));
        } else if s < e {
            let u = h.subrange(s, e);
            assert(u.is_prefix_of(ps[id]));
            assert(suffix(w, e - s) =~= u);
        }
    }
}

/// A match found by a leftmost search, in storage offsets, and the index of
/// the codepoint behind it, where the search goes on.
pub struct Candidate {
    pub found: Match,
    pub next: usize,
}

/// The candidate `c` is the match `m` of `h`.
pub open spec fn agrees(h: Seq<char>, c: Option<Candidate>, m: Option<Match>) -> bool {
    match (c, m) {
        (None, None) => true,
        (Some(c), Some(m)) => c.found@ == stored(h, m@) && c.next == m.end,
        _ => false,
    }
}

/// The match that a leftmost search reports first when it starts at
/// codepoint `lo`, whose storage offset is `from`.
pub fn next_leftmost(
    da: &DoubleArray,
    hay: &Vec<char>,
    kind: MatchKind,
    lo: usize,
    from: usize,
    Ghost(ps): Ghost<Seq<Seq<char>>>,
) -> (r: (Option<Candidate>, Ghost<Option<Match>>))
    requires
        da.wf(ps),
        all_nonempty(ps),
        kind != MatchKind::Standard,
        lo <= hay@.len(),
        from == offset_of(hay@, lo as int),
        storage_len(hay@) <= usize::MAX,
    ensures
        best_in_window(ps, kind, hay@, lo as int, hay@.len() as int, r.1@),
        agrees(hay@, r.0, r.1@),
{
    let n = hay.len();
    let mut state: usize = start(da, Ghost(ps));
    let mut e: usize = lo;
    let mut off: usize = from;
    let mut cand: Option<Candidate> = None;
    let ghost mut best: Option<Match> = None;
    proof {
        assert(hay@.subrange(lo as int, lo as int) =~= Seq::<char>::empty());
        assert forall|id: int, s: int| !#[trigger] in_window(ps, hay@, lo as int, lo as int, id, s) by {
            if in_window(ps, hay@, lo as int, lo as int, id, s) {
                assert(ps[id].len() > 0);
            }
        }
    }
    while e < n
        invariant_except_break
            lo <= e <= n,
            off == offset_of(hay@, e as int),
            da.is_state(state as int),
            da.text(state as int) == state_text(ps, hay@.subrange(lo as int, e as int)),
            best_in_window(ps, kind, hay@, lo as int, e as int, best),
        invariant
            n == hay@.len(),
            da.wf(ps),
            all_nonempty(ps),
            kind != MatchKind::Standard,
            storage_len(hay@) <= usize::MAX,
            agrees(hay@, cand, best),
        ensures
            best_in_window(ps, kind, hay@, lo as int, n as int, best),
        decreases n - e,
    {
        let ghost w = hay@.subrange(lo as int, e as int);
        state = step(da, state, hay[e], Ghost(ps), Ghost(w));
        off = advance(hay, e, off);
        e += 1;
        let ghost here = hay@.subrange(lo as int, e as int);
        let ghost ids = patterns_ending(ps, here, e - lo);
        proof {
            assert(w.push(hay@[e - 1]) =~= here);
            assert(here =~= hay@.subrange(e - here.len(), e as int));
        }
        let span = span_of(da, state, Ghost(ps), Ghost(hay@), Ghost(here), Ghost(e as int));
        match &cand {
            Some(c) => {
                if off - span > c.found.start {
                    proof {
                        let m = best->0;
                        assert(in_window(ps, hay@, lo as int, e - 1, m.value as int, m.start as int));
                        lemma_offset_order(
                            hay@,
                            e - state_text(ps, here).len(),
                            m.start as int,
                        );
                        lemma_window_closed(ps, kind, hay@, lo as int, e as int, m);
                    }
                    break ;
                }
            },
            None => {},
        }
        let (list, _) = outputs_here(da, state, Ghost(ps), Ghost(hay@), Ghost(here), Ghost(e as int));
        if list.len() > 0 {
            let o = list[0];
            let fresh = Match { start: off - o.length, end: off, value: o.value };
            let ghost ideal = Match {
                start: (e - ps[ids[0]].len()) as usize,
                end: e,
                value: o.value,
            };
            proof {
                lemma_patterns_ending(ps, here, e - lo);
                assert(ideal@ == ending_at(ps, e as int, ids[0]));
                assert(fresh@ == stored(hay@, ideal@));
                if best is Some {
                    let m = best->0;
                    assert(in_window(ps, hay@, lo as int, e - 1, m.value as int, m.start as int));
                    lemma_offset_order(hay@, ideal.start as int, m.start as int);
                }
            }
            let take = match &cand {
                None => true,
                Some(c) => fresh.start < c.found.start || (fresh.start == c.found.start && (match kind {
                    MatchKind::LeftmostFirst => fresh.value < c.found.value,
                    _ => true,
                })),
            };
            proof {
                assert(take == replaces(kind, best, ideal));
                lemma_window_grows(ps, kind, hay@, lo as int, e as int, best, Some(ideal));
            }
            if take {
                cand = Some(Candidate { found: fresh, next: e });
                proof {
                    best = Some(ideal);
                }
            }
        } else {
            proof {
                lemma_window_grows(ps, kind, hay@, lo as int, e as int, best, None);
            }
        }
    }
    (cand, Ghost(best))
}

/// The leftmost search of the given kind; in storage offsets.
pub fn find_leftmost(
    da: &DoubleArray,
    hay: &Vec<char>,
    kind: MatchKind,
    Ghost(ps): Ghost<Seq<Seq<char>>>,
) -> (out: Vec<Match>)
    requires
        da.wf(ps),
        kind != MatchKind::Standard,
        storage_len(hay@) <= usize::MAX,
    ensures
        occurrences_of(out@) == all_stored(hay@, leftmost_from(ps, kind, hay@, 0)),
{
    let mut out: Vec<Match> = Vec::new();
    let mut lo: usize = 0;
    let mut from: usize = 0;
    let ghost total = leftmost_from(ps, kind, hay@, 0);
    let ghost mut done: Seq<Occurrence> = Seq::empty();
    proof {
        reveal(DoubleArray::wf);
        assert(hay@.take(0) =~= Seq::<char>::empty());
        assert(done + total =~= total);
        assert(occurrences_of(out@) =~= all_stored(hay@, done));
    }
    loop
        invariant
            lo <= hay@.len(),
            from == offset_of(hay@, lo as int),
            da.wf(ps),
            all_nonempty(ps),
            kind != MatchKind::Standard,
            storage_len(hay@) <= usize::MAX,
            total == leftmost_from(ps, kind, hay@, 0),
            occurrences_of(out@) == all_stored(hay@, done),
            done + leftmost_from(ps, kind, hay@, lo as int) == total,
        decreases hay@.len() - lo,
    {
        let (cand, Ghost(best)) = next_leftmost(da, hay, kind, lo, from, Ghost(ps));
        match cand {
            None => {
                proof {
                    lemma_leftmost_none(ps, kind, hay@, lo as int);
                    assert(done + leftmost_from(ps, kind, hay@, lo as int) =~= done);
                }
                return out;
            },
            Some(c) => {
                proof {
                    let m = best->0;
                    lemma_leftmost_found(ps, kind, hay@, lo as int, m);
                    lemma_occurrences_push(out@, c.found);
                    let next = leftmost_from(ps, kind, hay@, m.end as int);
                    assert(done.push(m@) + next =~= done + (seq![m@] + next));
                    assert(all_stored(hay@, done.push(m@)) =~= all_stored(hay@, done).push(
                        stored(hay@, m@),
                    ));
                    done = done.push(m@);
                }
                out.push(c.found);
                lo = c.next;
                from = c.found.end;
            },
        }
    }
}

} // verus!
