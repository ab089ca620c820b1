//! The searches: each walks the automaton over the haystack once, from left
//! to right, and reports from the output list of the state it is in.
//!
//! A search keeps, beside the index of the codepoint it reads, the storage
//! offset of that codepoint, and reports its matches in storage offsets.

use crate::double_array::{DoubleArray, Output};
use crate::matches::{
    all_ending_at, direct_at, direct_upto, ending_at, no_suffix_matches, occurrences_of,
    overlapping_at, overlapping_matches, overlapping_upto, standard_from, Match, Occurrence,
};
use crate::position::{
    all_stored, lemma_all_stored_concat, lemma_offset_diff, lemma_offset_step, offset_of,
    storage_len, stored, width_of,
};
use crate::text::{
    lemma_longest_known_len, lemma_patterns_ending, lemma_patterns_ending_state,
    lemma_patterns_equal_to, lemma_state_text_step, patterns_ending, patterns_equal_to,
    state_text, suffix,
};
use vstd::prelude::*;

verus! {

/// Nothing is remembered of an empty text.
pub proof fn lemma_state_text_empty(ps: Seq<Seq<char>>)
    ensures
        state_text(ps, Seq::empty()) == Seq::<char>::empty(),
{
    lemma_longest_known_len(ps, Seq::empty(), 0);
}

/// Appending a match to a result appends its value to the values.
pub proof fn lemma_occurrences_push(out: Seq<Match>, m: Match)
    ensures
        occurrences_of(out.push(m)) == occurrences_of(out).push(m@),
{
    assert(occurrences_of(out.push(m)) =~= occurrences_of(out).push(m@));
}

/// Where the pattern `id` ends the window `w` that ends at codepoint `e` of
/// `h`, its occurrence there begins `storage_len` of the pattern before the
/// storage offset of `e`.
pub proof fn lemma_stored_ending(ps: Seq<Seq<char>>, h: Seq<char>, w: Seq<char>, e: int, id: int)
    requires
        0 <= e <= h.len(),
        w.len() <= e,
        w == h.subrange(e - w.len(), e),
        0 <= id < ps.len(),
        ps[id].len() <= w.len(),
        suffix(w, ps[id].len() as int) == ps[id],
    ensures
        storage_len(ps[id]) <= offset_of(h, e),
        stored(h, ending_at(ps, e, id)) == (Occurrence {
            start: offset_of(h, e) - storage_len(ps[id]),
            end: offset_of(h, e),
            value: id,
        }),
{
    let len = ps[id].len() as int;
    assert(suffix(w, len) =~= h.subrange(e - len, e));
    lemma_offset_diff(h, e - len, e);
}

/// The state in which a scan starts: the root, which remembers nothing.
pub fn start(da: &DoubleArray, Ghost(ps): Ghost<Seq<Seq<char>>>) -> (r: usize)
    requires
        da.wf(ps),
    ensures
        da.is_state(r as int),
        da.text(r as int) == state_text(ps, Seq::empty()),
        da.text(r as int) == Seq::<char>::empty(),
{
    proof {
        reveal(DoubleArray::wf);
        da.lemma_sizes(ps);
        lemma_state_text_empty(ps);
    }
    0
}

/// The state after one more codepoint `c`, when `state` is the state after
/// the text `w`.
pub fn step(
    da: &DoubleArray,
    state: usize,
    c: char,
    Ghost(ps): Ghost<Seq<Seq<char>>>,
    Ghost(w): Ghost<Seq<char>>,
) -> (r: usize)
    requires
        da.wf(ps),
        da.is_state(state as int),
        da.text(state as int) == state_text(ps, w),
    ensures
        da.is_state(r as int),
        da.text(r as int) == state_text(ps, w.push(c)),
        da.text(r as int).len() <= w.len() + 1,
{
    proof {
        reveal(DoubleArray::wf);
        lemma_state_text_step(ps, w, c);
        lemma_longest_known_len(ps, w.push(c), w.push(c).len());
    }
    da.next_state(state, c, Ghost(ps))
}

/// The output list of a state after the window `w`, which ends at codepoint
/// `e` of `h`, with what it holds; and the number of entries at its head
/// that are patterns equal to the text of the state.
pub fn outputs_here<'a>(
    da: &'a DoubleArray,
    state: usize,
    Ghost(ps): Ghost<Seq<Seq<char>>>,
    Ghost(h): Ghost<Seq<char>>,
    Ghost(w): Ghost<Seq<char>>,
    Ghost(e): Ghost<int>,
) -> (r: (&'a Vec<Output>, usize))
    requires
        da.wf(ps),
        da.is_state(state as int),
        da.text(state as int) == state_text(ps, w),
        0 <= e <= h.len(),
        w.len() <= e,
        w == h.subrange(e - w.len(), e),
    ensures
        ({
            let ids = patterns_ending(ps, w, w.len() as int);
            let list = r.0@;
            &&& list.len() == ids.len()
            &&& r.1 <= list.len()
            &&& ids.take(r.1 as int) == patterns_equal_to(ps, state_text(ps, w), ps.len() as int)
            &&& forall|j: int|
                0 <= j < ids.len() ==> {
                    &&& 0 <= #[trigger] ids[j] < ps.len()
                    &&& list[j].value == ids[j]
                    &&& list[j].length <= offset_of(h, e)
                    &&& stored(h, ending_at(ps, e, ids[j])) == (Occurrence {
                        start: offset_of(h, e) - list[j].length,
                        end: offset_of(h, e),
                        value: ids[j],
                    })
                }
        }),
{
    proof {
        reveal(DoubleArray::wf);
        da.lemma_sizes(ps);
        let u = da.text(state as int);
        let ids = patterns_ending(ps, u, u.len() as int);
        let here = patterns_equal_to(ps, u, ps.len() as int);
        assert(da.outs_ok(ps, state as int));
        lemma_patterns_ending_state(ps, w);
        lemma_patterns_ending(ps, u, u.len() as int);
        lemma_longest_known_len(ps, w, w.len());
        assert(u =~= h.subrange(e - u.len(), e));
        assert forall|j: int| 0 <= j < ids.len() implies {
            &&& da.outs@[state as int]@[j].length <= offset_of(h, e)
            &&& stored(h, ending_at(ps, e, #[trigger] ids[j])) == (Occurrence {
                start: offset_of(h, e) - da.outs@[state as int]@[j].length,
                end: offset_of(h, e),
                value: ids[j],
            })
        } by {
            lemma_stored_ending(ps, h, u, e, ids[j]);
        }
        if u.len() > 0 {
            assert(suffix(u, u.len() as int) =~= u);
        } else {
            lemma_patterns_equal_to(ps, u, ps.len() as int);
            if here.len() > 0 {
                assert(ps[here[0]].len() > 0);
            }
        }
        assert(ids.take(here.len() as int) =~= here);
    }
    (&da.outs[state], da.direct[state])
}

/// The number of code units that store the text of a state after the
/// window `w`, which ends at codepoint `e` of `h`.
pub fn span_of(
    da: &DoubleArray,
    state: usize,
    Ghost(ps): Ghost<Seq<Seq<char>>>,
    Ghost(h): Ghost<Seq<char>>,
    Ghost(w): Ghost<Seq<char>>,
    Ghost(e): Ghost<int>,
) -> (span: usize)
    requires
        da.wf(ps),
        da.is_state(state as int),
        da.text(state as int) == state_text(ps, w),
        0 <= e <= h.len(),
        w.len() <= e,
        w == h.subrange(e - w.len(), e),
    ensures
        state_text(ps, w).len() <= e,
        offset_of(h, e) - span == offset_of(h, e - state_text(ps, w).len()),
        span <= offset_of(h, e),
{
    proof {
        reveal(DoubleArray::wf);
        da.lemma_sizes(ps);
        da.lemma_span(ps, state as int);
        let u = da.text(state as int);
        lemma_longest_known_len(ps, w, w.len());
        assert(u =~= h.subrange(e - u.len(), e));
        lemma_offset_diff(h, e - u.len(), e);
    }
    da.span[state]
}

/// Appends to `out` the matches of the first `count` entries of `list`,
/// which all end at the storage offset `end`.
pub fn report(
    list: &Vec<Output>,
    count: usize,
    end: usize,
    out: &mut Vec<Match>,
    Ghost(ps): Ghost<Seq<Seq<char>>>,
    Ghost(h): Ghost<Seq<char>>,
    Ghost(ids): Ghost<Seq<int>>,
    Ghost(e): Ghost<int>,
)
    requires
        count <= list@.len(),
        list@.len() == ids.len(),
        end == offset_of(h, e),
        forall|j: int|
            0 <= j < ids.len() ==> {
                &&& list@[j].value == #[trigger] ids[j]
                &&& list@[j].length <= end
                &&& stored(h, ending_at(ps, e, ids[j])) == (Occurrence {
                    start: end - list@[j].length,
                    end: end as int,
                    value: ids[j],
                })
            },
    ensures
        occurrences_of(final(out)@) == occurrences_of(old(out)@) + all_stored(
            h,
            all_ending_at(ps, ids.take(count as int), e),
        ),
{
    let ghost before = occurrences_of(out@);
    proof {
        assert(all_stored(h, all_ending_at(ps, ids.take(0), e)) =~= Seq::<Occurrence>::empty());
        assert(before + Seq::<Occurrence>::empty() =~= before);
    }
    let mut j: usize = 0;
    while j < count
        invariant
            j <= count <= list@.len(),
            list@.len() == ids.len(),
            end == offset_of(h, e),
            forall|i: int|
                0 <= i < ids.len() ==> {
                    &&& list@[i].value == #[trigger] ids[i]
                    &&& list@[i].length <= end
                    &&& stored(h, ending_at(ps, e, ids[i])) == (Occurrence {
                        start: end - list@[i].length,
                        end: end as int,
                        value: ids[i],
                    })
                },
            occurrences_of(out@) == before + all_stored(
                h,
                all_ending_at(ps, ids.take(j as int), e),
            ),
        decreases count - j,
    {
        let o = list[j];
        assert(o.value == ids[j as int]);
        let m = Match { start: end - o.length, end, value: o.value };
        proof {
            lemma_occurrences_push(out@, m);
            let id = ids[j as int];
            assert(m@ == stored(h, ending_at(ps, e, id)));
            assert(ids.take(j + 1) =~= ids.take(j as int).push(id));
            assert(all_stored(h, all_ending_at(ps, ids.take(j + 1), e)) =~= all_stored(
                h,
                all_ending_at(ps, ids.take(j as int), e),
            ).push(m@));
            assert((before + all_stored(h, all_ending_at(ps, ids.take(j as int), e))).push(m@)
                =~= before + all_stored(h, all_ending_at(ps, ids.take(j + 1), e)));
        }
        out.push(m);
        j += 1;
    }
}

/// The storage offset behind codepoint `e` of `hay`, given that of `e`.
pub fn advance(hay: &Vec<char>, e: usize, off: usize) -> (next: usize)
    requires
        e < hay@.len(),
        off == offset_of(hay@, e as int),
        storage_len(hay@) <= usize::MAX,
    ensures
        next == offset_of(hay@, e + 1),
{
    proof {
        lemma_offset_step(hay@, e as int);
        lemma_offset_diff(hay@, e + 1, hay@.len() as int);
    }
    off + width_of(hay[e])
}

/// Every occurrence of every pattern in `hay`, in the order in which a scan
/// from left to right meets their ends; in storage offsets.
pub fn find_overlapping(da: &DoubleArray, hay: &Vec<char>, Ghost(ps): Ghost<Seq<Seq<char>>>) -> (out:
    Vec<Match>)
    requires
        da.wf(ps),
        storage_len(hay@) <= usize::MAX,
    ensures
        occurrences_of(out@) == all_stored(hay@, overlapping_matches(ps, hay@)),
{
    let mut out: Vec<Match> = Vec::new();
    let mut state: usize = start(da, Ghost(ps));
    let mut e: usize = 0;
    let mut off: usize = 0;
    proof {
        assert(hay@.take(0) =~= Seq::<char>::empty());
        assert(occurrences_of(out@) =~= all_stored(hay@, overlapping_upto(ps, hay@, 0)));
    }
    while e < hay.len()
        invariant
            e <= hay@.len(),
            da.wf(ps),
            storage_len(hay@) <= usize::MAX,
            off == offset_of(hay@, e as int),
            da.is_state(state as int),
            da.text(state as int) == state_text(ps, hay@.take(e as int)),
            occurrences_of(out@) == all_stored(hay@, overlapping_upto(ps, hay@, e as int)),
        decreases hay@.len() - e,
    {
        let ghost w = hay@.take(e as int);
        state = step(da, state, hay[e], Ghost(ps), Ghost(w));
        off = advance(hay, e, off);
        e += 1;
        let ghost here = hay@.take(e as int);
        proof {
            assert(w.push(hay@[e - 1]) =~= here);
            assert(here =~= hay@.subrange(e - here.len(), e as int));
        }
        let (list, _) = outputs_here(da, state, Ghost(ps), Ghost(hay@), Ghost(here), Ghost(e as int));
        let ghost ids = patterns_ending(ps, here, e as int);
        report(list, list.len(), off, &mut out, Ghost(ps), Ghost(hay@), Ghost(ids), Ghost(e as int));
        proof {
            assert(ids.take(ids.len() as int) =~= ids);
            lemma_all_stored_concat(
                hay@,
                overlapping_upto(ps, hay@, e - 1),
                overlapping_at(ps, hay@, e as int),
            );
        }
    }
    out
}

/// At every place of `hay`, the occurrences of the patterns equal to the
/// text that the automaton remembers there; in storage offsets.
pub fn find_overlapping_no_suffix(
    da: &DoubleArray,
    hay: &Vec<char>,
    Ghost(ps): Ghost<Seq<Seq<char>>>,
) -> (out: Vec<Match>)
    requires
        da.wf(ps),
        storage_len(hay@) <= usize::MAX,
    ensures
        occurrences_of(out@) == all_stored(hay@, no_suffix_matches(ps, hay@)),
{
    let mut out: Vec<Match> = Vec::new();
    let mut state: usize = start(da, Ghost(ps));
    let mut e: usize = 0;
    let mut off: usize = 0;
    proof {
        assert(hay@.take(0) =~= Seq::<char>::empty());
        assert(occurrences_of(out@) =~= all_stored(hay@, direct_upto(ps, hay@, 0)));
    }
    while e < hay.len()
        invariant
            e <= hay@.len(),
            da.wf(ps),
            storage_len(hay@) <= usize::MAX,
            off == offset_of(hay@, e as int),
            da.is_state(state as int),
            da.text(state as int) == state_text(ps, hay@.take(e as int)),
            occurrences_of(out@) == all_stored(hay@, direct_upto(ps, hay@, e as int)),
        decreases hay@.len() - e,
    {
        let ghost w = hay@.take(e as int);
        state = step(da, state, hay[e], Ghost(ps), Ghost(w));
        off = advance(hay, e, off);
        e += 1;
        let ghost here = hay@.take(e as int);
        proof {
            assert(w.push(hay@[e - 1]) =~= here);
            assert(here =~= hay@.subrange(e - here.len(), e as int));
        }
        let (list, count) = outputs_here(
            da,
            state,
            Ghost(ps),
            Ghost(hay@),
            Ghost(here),
            Ghost(e as int),
        );
        let ghost ids = patterns_ending(ps, here, e as int);
        report(list, count, off, &mut out, Ghost(ps), Ghost(hay@), Ghost(ids), Ghost(e as int));
        proof {
            lemma_all_stored_concat(
                hay@,
                direct_upto(ps, hay@, e - 1),
                direct_at(ps, hay@, e as int),
            );
        }
    }
    out
}

/// The standard search: a match is reported as soon as a pattern ends, and
/// the scan goes on behind it as if the haystack began there; in storage
/// offsets.
pub fn find_standard(da: &DoubleArray, hay: &Vec<char>, Ghost(ps): Ghost<Seq<Seq<char>>>) -> (out:
    Vec<Match>)
    requires
        da.wf(ps),
        storage_len(hay@) <= usize::MAX,
    ensures
        occurrences_of(out@) == all_stored(hay@, standard_from(ps, hay@, 0, 0)),
{
    let mut out: Vec<Match> = Vec::new();
    let mut state: usize = start(da, Ghost(ps));
    let mut e: usize = 0;
    let mut off: usize = 0;
    let ghost mut lo: int = 0;
    let ghost mut done: Seq<Occurrence> = Seq::empty();
    let ghost total = standard_from(ps, hay@, 0, 0);
    proof {
        assert(hay@.take(0) =~= Seq::<char>::empty());
        assert(hay@.subrange(0, 0) =~= Seq::<char>::empty());
        assert(done + total =~= total);
        assert(occurrences_of(out@) =~= all_stored(hay@, done));
    }
    while e < hay.len()
        invariant
            0 <= lo <= e <= hay@.len(),
            da.wf(ps),
            storage_len(hay@) <= usize::MAX,
            off == offset_of(hay@, e as int),
            da.is_state(state as int),
            da.text(state as int) == state_text(ps, hay@.subrange(lo, e as int)),
            occurrences_of(out@) == all_stored(hay@, done),
            done + standard_from(ps, hay@, lo, e as int) == total,
        decreases hay@.len() - e,
    {
        let ghost w = hay@.subrange(lo, e as int);
        let ghost rest = standard_from(ps, hay@, lo, e as int);
        state = step(da, state, hay[e], Ghost(ps), Ghost(w));
        off = advance(hay, e, off);
        e += 1;
        let ghost here = hay@.subrange(lo, e as int);
        proof {
            assert(w.push(hay@[e - 1]) =~= here);
            assert(here =~= hay@.subrange(e - here.len(), e as int));
        }
        let (list, _) = outputs_here(da, state, Ghost(ps), Ghost(hay@), Ghost(here), Ghost(e as int));
        if list.len() > 0 {
            let o = list[0];
            let m = Match { start: off - o.length, end: off, value: o.value };
            proof {
                let ids = patterns_ending(ps, here, e - lo);
                let found = ending_at(ps, e as int, ids[0]);
                assert(m@ == stored(hay@, found));
                lemma_occurrences_push(out@, m);
                let next = standard_from(ps, hay@, e as int, e as int);
                assert(rest == seq![found] + next);
                assert(done.push(found) + next =~= done + (seq![found] + next));
                assert(all_stored(hay@, done.push(found)) =~= all_stored(hay@, done).push(
                    stored(hay@, found),
                ));
                assert(hay@.subrange(e as int, e as int) =~= Seq::<char>::empty());
                done = done.push(found);
                lo = e as int;
            }
            out.push(m);
            state = start(da, Ghost(ps));
        }
    }
    proof {
        assert(done + Seq::<Occurrence>::empty() =~= done);
    }
    out
}

} // verus!
