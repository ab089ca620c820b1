//! What holds of every result of every search.

use crate::leftmost::lemma_choice_at;
use crate::matches::{
    all_ending_at, choice_at, direct_at, direct_upto, ending_at, find_matches, first_at,
    leftmost_from, longest_at, no_suffix_matches, occurrences_of, overlapping_at,
    overlapping_matches, overlapping_upto, preferred, standard_from, Match, MatchKind,
    Occurrence,
};
use crate::position::all_within;
use crate::text::{
    all_nonempty, lemma_longest_known_len, lemma_patterns_ending, lemma_patterns_equal_to,
    occurs_at, patterns_ending, patterns_equal_to, state_text, suffix,
};
use vstd::prelude::*;

verus! {

/// `o` is an occurrence of a pattern in `h`: its value is the index of a
/// pattern, and the codepoints `o.start..o.end` of `h` are that pattern.
pub open spec fn is_occurrence(ps: Seq<Seq<char>>, h: Seq<char>, o: Occurrence) -> bool {
    occurs_at(ps, h, o.value, o.start) && o.end == o.start + ps[o.value].len()
}

/// Every member of `occs` is an occurrence that begins at or after `lo`.
pub open spec fn all_occur(ps: Seq<Seq<char>>, h: Seq<char>, occs: Seq<Occurrence>, lo: int) -> bool {
    forall|k: int|
        0 <= k < occs.len() ==> is_occurrence(ps, h, #[trigger] occs[k]) && lo <= occs[k].start
}

/// Each member of `occs` ends before the next begins.
pub open spec fn in_sequence(occs: Seq<Occurrence>) -> bool {
    forall|i: int, j: int| 0 <= i < j < occs.len() ==> (#[trigger] occs[i]).end <= (#[trigger] occs[j]).start
}

/// Patterns that end the haystack read up to `e` occur there.
proof fn lemma_all_ending_at(ps: Seq<Seq<char>>, h: Seq<char>, ids: Seq<int>, e: int)
    requires
        0 <= e <= h.len(),
        forall|j: int|
            0 <= j < ids.len() ==> {
                let id = #[trigger] ids[j];
                &&& 0 <= id < ps.len()
                &&& ps[id].len() <= e
                &&& h.subrange(e - ps[id].len(), e) == ps[id]
            },
    ensures
        all_occur(ps, h, all_ending_at(ps, ids, e), 0),
{
    let occs = all_ending_at(ps, ids, e);
    assert forall|k: int| 0 <= k < occs.len() implies is_occurrence(ps, h, #[trigger] occs[k]) && 0
        <= occs[k].start by {
        let id = ids[k];
        assert(occs[k] == ending_at(ps, e, id));
    }
}

/// Occurrences followed by occurrences are occurrences.
proof fn lemma_all_occur_concat(
    ps: Seq<Seq<char>>,
    h: Seq<char>,
    a: Seq<Occurrence>,
    b: Seq<Occurrence>,
    lo: int,
)
    requires
        all_occur(ps, h, a, lo),
        all_occur(ps, h, b, lo),
    ensures
        all_occur(ps, h, a + b, lo),
{
    assert forall|k: int| 0 <= k < (a + b).len() implies is_occurrence(ps, h, #[trigger] (a + b)[k])
        && lo <= (a + b)[k].start by {
        if k < a.len() {
            assert((a + b)[k] == a[k]);
        } else {
            assert((a + b)[k] == b[k - a.len()]);
        }
    }
}

/// What the overlapping search reports at `e` occurs there.
proof fn lemma_overlapping_at(ps: Seq<Seq<char>>, h: Seq<char>, e: int)
    requires
        0 <= e <= h.len(),
    ensures
        all_occur(ps, h, overlapping_at(ps, h, e), 0),
{
    let w = h.take(e);
    let ids = patterns_ending(ps, w, e);
    lemma_patterns_ending(ps, w, e);
    assert forall|j: int| 0 <= j < ids.len() implies {
        let id = #[trigger] ids[j];
        &&& 0 <= id < ps.len()
        &&& ps[id].len() <= e
        &&& h.subrange(e - ps[id].len(), e) == ps[id]
    } by {
        let id = ids[j];
        assert(suffix(w, ps[id].len() as int) =~= h.subrange(e - ps[id].len(), e));
    }
    lemma_all_ending_at(ps, h, ids, e);
}

/// What the overlapping search reports up to `e` occurs.
proof fn lemma_overlapping_upto(ps: Seq<Seq<char>>, h: Seq<char>, e: int)
    requires
        e <= h.len(),
    ensures
        all_occur(ps, h, overlapping_upto(ps, h, e), 0),
    decreases e,
{
    if e > 0 {
        lemma_overlapping_upto(ps, h, e - 1);
        lemma_overlapping_at(ps, h, e);
        lemma_all_occur_concat(
            ps,
            h,
            overlapping_upto(ps, h, e - 1),
            overlapping_at(ps, h, e),
            0,
        );
    }
}

/// What the search without suffixes reports at `e` occurs there.
proof fn lemma_direct_at(ps: Seq<Seq<char>>, h: Seq<char>, e: int)
    requires
        0 <= e <= h.len(),
    ensures
        all_occur(ps, h, direct_at(ps, h, e), 0),
{
    let w = h.take(e);
    let u = state_text(ps, w);
    let ids = patterns_equal_to(ps, u, ps.len() as int);
    lemma_patterns_equal_to(ps, u, ps.len() as int);
    lemma_longest_known_len(ps, w, w.len());
    assert forall|j: int| 0 <= j < ids.len() implies {
        let id = #[trigger] ids[j];
        &&& 0 <= id < ps.len()
        &&& ps[id].len() <= e
        &&& h.subrange(e - ps[id].len(), e) == ps[id]
    } by {
        assert(suffix(w, u.len() as int) =~= h.subrange(e - u.len(), e));
    }
    lemma_all_ending_at(ps, h, ids, e);
}

/// What the search without suffixes reports up to `e` occurs.
proof fn lemma_direct_upto(ps: Seq<Seq<char>>, h: Seq<char>, e: int)
    requires
        e <= h.len(),
    ensures
        all_occur(ps, h, direct_upto(ps, h, e), 0),
    decreases e,
{
    if e > 0 {
        lemma_direct_upto(ps, h, e - 1);
        lemma_direct_at(ps, h, e);
        lemma_all_occur_concat(ps, h, direct_upto(ps, h, e - 1), direct_at(ps, h, e), 0);
    }
}

/// Putting an occurrence that ends at `mid` before occurrences that begin at
/// or after `mid` keeps them in sequence.
proof fn lemma_cons(
    ps: Seq<Seq<char>>,
    h: Seq<char>,
    o: Occurrence,
    rest: Seq<Occurrence>,
    lo: int,
)
    requires
        is_occurrence(ps, h, o),
        lo <= o.start,
        all_occur(ps, h, rest, o.end),
        in_sequence(rest),
    ensures
        all_occur(ps, h, seq![o] + rest, lo),
        in_sequence(seq![o] + rest),
{
    let all = seq![o] + rest;
    assert forall|k: int| 0 <= k < all.len() implies is_occurrence(ps, h, #[trigger] all[k]) && lo
        <= all[k].start by {
        if k > 0 {
            assert(all[k] == rest[k - 1]);
        }
    }
    assert forall|i: int, j: int| 0 <= i < j < all.len() implies (#[trigger] all[i]).end <= (
    #[trigger] all[j]).start by {
        assert(all[j] == rest[j - 1]);
        if i > 0 {
            assert(all[i] == rest[i - 1]);
        }
    }
}

/// What the standard search reports from `e` on occurs at or after `lo`,
/// in sequence.
proof fn lemma_standard_from(ps: Seq<Seq<char>>, h: Seq<char>, lo: int, e: int)
    requires
        0 <= lo <= e,
    ensures
        all_occur(ps, h, standard_from(ps, h, lo, e), lo),
        in_sequence(standard_from(ps, h, lo, e)),
    decreases h.len() - e,
{
    if e < h.len() {
        let w = h.subrange(lo, e + 1);
        let ids = patterns_ending(ps, w, e + 1 - lo);
        if ids.len() > 0 {
            lemma_patterns_ending(ps, w, e + 1 - lo);
            let id = ids[0];
            let o = ending_at(ps, e + 1, id);
            assert(suffix(w, ps[id].len() as int) =~= h.subrange(o.start, e + 1));
            lemma_standard_from(ps, h, e + 1, e + 1);
            lemma_cons(ps, h, o, standard_from(ps, h, e + 1, e + 1), lo);
        } else {
            lemma_standard_from(ps, h, lo, e + 1);
        }
    }
}

/// What `first_at` finds occurs.
proof fn lemma_first_at_occurs(ps: Seq<Seq<char>>, h: Seq<char>, s: int, from: int)
    requires
        0 <= from,
    ensures
        first_at(ps, h, s, from) is Some ==> occurs_at(ps, h, first_at(ps, h, s, from)->0, s),
    decreases ps.len() - from,
{
    if from < ps.len() && !occurs_at(ps, h, from, s) {
        lemma_first_at_occurs(ps, h, s, from + 1);
    }
}

/// What `longest_at` finds occurs.
proof fn lemma_longest_at_occurs(ps: Seq<Seq<char>>, h: Seq<char>, s: int, len: int)
    requires
        0 <= s,
    ensures
        longest_at(ps, h, s, len) is Some ==> occurs_at(ps, h, longest_at(ps, h, s, len)->0, s),
    decreases len,
{
    if len > 0 {
        let u = h.subrange(s, s + len);
        let ids = patterns_equal_to(ps, u, ps.len() as int);
        if s + len <= h.len() && ids.len() > 0 {
            lemma_patterns_equal_to(ps, u, ps.len() as int);
        } else {
            lemma_longest_at_occurs(ps, h, s, len - 1);
        }
    }
}

/// What a leftmost search reports from `start` on occurs at or after
/// `start`, in sequence.
proof fn lemma_leftmost_from(ps: Seq<Seq<char>>, kind: MatchKind, h: Seq<char>, start: int)
    requires
        0 <= start,
    ensures
        all_occur(ps, h, leftmost_from(ps, kind, h, start), start),
        in_sequence(leftmost_from(ps, kind, h, start)),
    decreases h.len() - start,
{
    if start < h.len() {
        match choice_at(ps, kind, h, start) {
            Some(id) => {
                let end = start + ps[id].len();
                if start < end <= h.len() {
                    match kind {
                        MatchKind::LeftmostFirst => lemma_first_at_occurs(ps, h, start, 0),
                        _ => lemma_longest_at_occurs(ps, h, start, h.len() - start),
                    }
                    lemma_leftmost_from(ps, kind, h, end);
                    lemma_cons(
                        ps,
                        h,
                        ending_at(ps, end, id),
                        leftmost_from(ps, kind, h, end),
                        start,
                    );
                    assert(Seq::empty().push(ending_at(ps, end, id)) =~= seq![
                        ending_at(ps, end, id),
                    ]);
                }
            },
            None => {
                lemma_leftmost_from(ps, kind, h, start + 1);
                let rest = leftmost_from(ps, kind, h, start + 1);
                assert forall|k: int| 0 <= k < rest.len() implies is_occurrence(
                    ps,
                    h,
                    #[trigger] rest[k],
                ) && start <= rest[k].start by {}
            },
        }
    }
}

/// Every match of a non-overlapping search is an occurrence of the pattern
/// it names: it lies within the haystack, and its value is the index of a
/// pattern.
pub proof fn law_found_matches_occur(ps: Seq<Seq<char>>, kind: MatchKind, h: Seq<char>)
    ensures
        all_occur(ps, h, find_matches(ps, kind, h), 0),
{
    match kind {
        MatchKind::Standard => lemma_standard_from(ps, h, 0, 0),
        _ => lemma_leftmost_from(ps, kind, h, 0),
    }
}

/// The matches of a non-overlapping search come in sequence: each ends
/// before the next begins, so their ends ascend.
pub proof fn law_found_matches_in_sequence(ps: Seq<Seq<char>>, kind: MatchKind, h: Seq<char>)
    ensures
        in_sequence(find_matches(ps, kind, h)),
{
    match kind {
        MatchKind::Standard => lemma_standard_from(ps, h, 0, 0),
        _ => lemma_leftmost_from(ps, kind, h, 0),
    }
}

/// Every match of an overlapping search is an occurrence of the pattern it
/// names.
pub proof fn law_overlapping_matches_occur(ps: Seq<Seq<char>>, h: Seq<char>)
    ensures
        all_occur(ps, h, overlapping_matches(ps, h), 0),
        all_occur(ps, h, no_suffix_matches(ps, h), 0),
{
    lemma_overlapping_upto(ps, h, h.len() as int);
    lemma_direct_upto(ps, h, h.len() as int);
}

/// What is reported at `e` is among what is reported up to any later place.
proof fn lemma_upto_holds(ps: Seq<Seq<char>>, h: Seq<char>, n: int, e: int, o: Occurrence)
    requires
        0 < e <= n,
        overlapping_at(ps, h, e).contains(o),
    ensures
        overlapping_upto(ps, h, n).contains(o),
    decreases n - e,
{
    let before = overlapping_upto(ps, h, n - 1);
    let here = overlapping_at(ps, h, n);
    if e < n {
        lemma_upto_holds(ps, h, n - 1, e, o);
        let k = choose|k: int| 0 <= k < before.len() && before[k] == o;
        assert((before + here)[k] == o);
    } else {
        let k = choose|k: int| 0 <= k < here.len() && here[k] == o;
        assert((before + here)[before.len() + k] == o);
    }
}

/// The overlapping search misses nothing: wherever a pattern of at least
/// one codepoint occurs in the haystack, the result holds that occurrence.
pub proof fn law_overlapping_misses_nothing(ps: Seq<Seq<char>>, h: Seq<char>, id: int, start: int)
    requires
        occurs_at(ps, h, id, start),
        ps[id].len() > 0,
    ensures
        overlapping_matches(ps, h).contains(
            Occurrence { start, end: start + ps[id].len(), value: id },
        ),
{
    let e = start + ps[id].len();
    let w = h.take(e);
    let ids = patterns_ending(ps, w, e);
    lemma_patterns_ending(ps, w, e);
    assert(suffix(w, ps[id].len() as int) =~= h.subrange(start, e));
    assert(ids.contains(id));
    let j = choose|j: int| 0 <= j < ids.len() && ids[j] == id;
    assert(all_ending_at(ps, ids, e)[j] == ending_at(ps, e, id));
    lemma_upto_holds(ps, h, h.len() as int, e, ending_at(ps, e, id));
}

/// Whatever a search reports, the overlapping search reports too.
pub proof fn law_overlapping_holds_every_match(ps: Seq<Seq<char>>, kind: MatchKind, h: Seq<char>)
    requires
        all_nonempty(ps),
    ensures
        forall|k: int|
            0 <= k < find_matches(ps, kind, h).len() ==> overlapping_matches(ps, h).contains(
                #[trigger] find_matches(ps, kind, h)[k],
            ),
        forall|k: int|
            0 <= k < no_suffix_matches(ps, h).len() ==> overlapping_matches(ps, h).contains(
                #[trigger] no_suffix_matches(ps, h)[k],
            ),
{
    law_found_matches_occur(ps, kind, h);
    law_overlapping_matches_occur(ps, h);
    assert forall|k: int| 0 <= k < find_matches(ps, kind, h).len() implies overlapping_matches(
        ps,
        h,
    ).contains(#[trigger] find_matches(ps, kind, h)[k]) by {
        let o = find_matches(ps, kind, h)[k];
        assert(is_occurrence(ps, h, o));
        law_overlapping_misses_nothing(ps, h, o.value, o.start);
    }
    assert forall|k: int| 0 <= k < no_suffix_matches(ps, h).len() implies overlapping_matches(
        ps,
        h,
    ).contains(#[trigger] no_suffix_matches(ps, h)[k]) by {
        let o = no_suffix_matches(ps, h)[k];
        assert(is_occurrence(ps, h, o));
        law_overlapping_misses_nothing(ps, h, o.value, o.start);
    }
}

/// Of the occurrences in `h` that begin at or after `lo`, a leftmost search
/// of the given kind reports `o`: none begins before it, and of those that
/// begin where it begins, its pattern is preferred.
pub open spec fn is_leftmost_choice(
    ps: Seq<Seq<char>>,
    kind: MatchKind,
    h: Seq<char>,
    lo: int,
    o: Occurrence,
) -> bool {
    &&& is_occurrence(ps, h, o)
    &&& lo <= o.start
    &&& forall|id: int, s: int|
        lo <= s && #[trigger] occurs_at(ps, h, id, s) ==> o.start < s || (o.start == s
            && preferred(ps, kind, o.value, id))
}

/// A leftmost search that goes on from `lo` reports nothing if no pattern
/// occurs from there on; otherwise it reports first the occurrence that
/// begins leftmost, with the preferred pattern, and goes on behind it.
pub proof fn law_leftmost_choice(ps: Seq<Seq<char>>, kind: MatchKind, h: Seq<char>, lo: int)
    requires
        all_nonempty(ps),
        kind != MatchKind::Standard,
        0 <= lo <= h.len(),
    ensures
        ({
            let found = leftmost_from(ps, kind, h, lo);
            if found.len() == 0 {
                forall|id: int, s: int| lo <= s ==> !#[trigger] occurs_at(ps, h, id, s)
            } else {
                &&& is_leftmost_choice(ps, kind, h, lo, found[0])
                &&& found == seq![found[0]] + leftmost_from(ps, kind, h, found[0].end)
            }
        }),
    decreases h.len() - lo,
{
    let found = leftmost_from(ps, kind, h, lo);
    if lo < h.len() {
        lemma_choice_at(ps, kind, h, lo);
        match choice_at(ps, kind, h, lo) {
            Some(id) => {
                let o = ending_at(ps, lo + ps[id].len(), id);
                assert(found =~= seq![o] + leftmost_from(ps, kind, h, o.end));
                assert(found[0] == o);
            },
            None => {
                law_leftmost_choice(ps, kind, h, lo + 1);
                if found.len() > 0 {
                    let o = found[0];
                    assert forall|id: int, s: int|
                        lo <= s && #[trigger] occurs_at(ps, h, id, s) implies o.start < s || (
                        o.start == s && preferred(ps, kind, o.value, id)) by {}
                } else {
                    assert forall|id: int, s: int| lo <= s implies !#[trigger] occurs_at(
                        ps,
                        h,
                        id,
                        s,
                    ) by {}
                }
            },
        }
    } else {
        assert forall|id: int, s: int| lo <= s implies !#[trigger] occurs_at(ps, h, id, s) by {
            if occurs_at(ps, h, id, s) {
                assert(ps[id].len() > 0);
            }
        }
    }
}

/// Of the occurrences in `h` that begin at or after `lo`, the standard
/// search reports `o`: none ends before it, and of those that end where it
/// ends, it is the longest and, among equal patterns, the first.
pub open spec fn is_standard_choice(ps: Seq<Seq<char>>, h: Seq<char>, lo: int, o: Occurrence) -> bool {
    &&& is_occurrence(ps, h, o)
    &&& lo <= o.start
    &&& forall|id: int, s: int|
        lo <= s && #[trigger] occurs_at(ps, h, id, s) ==> o.end < s + ps[id].len() || (o.end == s
            + ps[id].len() && (o.start < s || (o.start == s && o.value <= id)))
}

/// The law of the standard choice, for a scan that has come to `e` without
/// a pattern ending.
proof fn lemma_standard_choice(ps: Seq<Seq<char>>, h: Seq<char>, lo: int, e: int)
    requires
        all_nonempty(ps),
        0 <= lo <= e <= h.len(),
        forall|id: int, s: int| lo <= s && #[trigger] occurs_at(ps, h, id, s) ==> e < s + ps[id].len(),
    ensures
        ({
            let found = standard_from(ps, h, lo, e);
            if found.len() == 0 {
                forall|id: int, s: int| lo <= s ==> !#[trigger] occurs_at(ps, h, id, s)
            } else {
                &&& is_standard_choice(ps, h, lo, found[0])
                &&& found == seq![found[0]] + standard_from(ps, h, found[0].end, found[0].end)
            }
        }),
    decreases h.len() - e,
{
    let found = standard_from(ps, h, lo, e);
    if e < h.len() {
        let w = h.subrange(lo, e + 1);
        let ids = patterns_ending(ps, w, e + 1 - lo);
        lemma_patterns_ending(ps, w, e + 1 - lo);
        assert forall|id: int, s: int|
            lo <= s && #[trigger] occurs_at(ps, h, id, s) && s + ps[id].len() == e
                + 1 implies ids.contains(id) by {
            assert(suffix(w, ps[id].len() as int) =~= h.subrange(s, e + 1));
        }
        if ids.len() > 0 {
            let o = ending_at(ps, e + 1, ids[0]);
            assert(suffix(w, ps[ids[0]].len() as int) =~= h.subrange(o.start, e + 1));
            assert(found =~= seq![o] + standard_from(ps, h, e + 1, e + 1));
            assert(found[0] == o);
            assert forall|id: int, s: int|
                lo <= s && #[trigger] occurs_at(ps, h, id, s) implies o.end < s + ps[id].len() || (
                o.end == s + ps[id].len() && (o.start < s || (o.start == s && o.value
                    <= id))) by {
                if s + ps[id].len() == e + 1 {
                    let j = choose|j: int| 0 <= j < ids.len() && ids[j] == id;
                    if j > 0 {
                        assert(crate::text::reported_before(ps, ids[0], ids[j]));
                    }
                }
            }
        } else {
            assert forall|id: int, s: int|
                lo <= s && #[trigger] occurs_at(ps, h, id, s) implies e + 1 < s + ps[id].len() by {
                if s + ps[id].len() == e + 1 {
                    assert(ids.contains(id));
                }
            }
            lemma_standard_choice(ps, h, lo, e + 1);
        }
    } else {
        assert forall|id: int, s: int| lo <= s implies !#[trigger] occurs_at(ps, h, id, s) by {}
    }
}

/// A standard search that goes on from `lo` reports nothing if no pattern
/// occurs from there on; otherwise it reports first the occurrence that
/// ends first, the longest of those, and goes on behind it.
pub proof fn law_standard_choice(ps: Seq<Seq<char>>, h: Seq<char>, lo: int)
    requires
        all_nonempty(ps),
        0 <= lo <= h.len(),
    ensures
        ({
            let found = standard_from(ps, h, lo, lo);
            if found.len() == 0 {
                forall|id: int, s: int| lo <= s ==> !#[trigger] occurs_at(ps, h, id, s)
            } else {
                &&& is_standard_choice(ps, h, lo, found[0])
                &&& found == seq![found[0]] + standard_from(ps, h, found[0].end, found[0].end)
            }
        }),
{
    assert forall|id: int, s: int| lo <= s && #[trigger] occurs_at(ps, h, id, s) implies lo < s
        + ps[id].len() by {
        assert(ps[id].len() > 0);
    }
    lemma_standard_choice(ps, h, lo, lo);
}

/// Two results that stand for the same occurrences are the same.
pub proof fn lemma_results_agree(a: Seq<Match>, b: Seq<Match>)
    requires
        occurrences_of(a) == occurrences_of(b),
    ensures
        a == b,
{
    assert(a.len() == occurrences_of(a).len());
    assert(b.len() == occurrences_of(b).len());
    assert forall|i: int| 0 <= i < a.len() implies a[i] == b[i] by {
        assert(occurrences_of(a)[i] == a[i]@);
        assert(occurrences_of(b)[i] == b[i]@);
    }
    assert(a =~= b);
}

/// A search is determined by the pattern set, the match kind and the
/// haystack: whatever two searches with the same three return, they return
/// the same.
pub proof fn law_searches_are_determined(
    ps: Seq<Seq<char>>,
    kind: MatchKind,
    h: Seq<char>,
    a: Seq<Match>,
    b: Seq<Match>,
)
    ensures
        occurrences_of(a) == find_matches(ps, kind, h) && occurrences_of(b) == find_matches(
            ps,
            kind,
            h,
        ) ==> a == b,
        occurrences_of(a) == overlapping_matches(ps, h) && occurrences_of(b)
            == overlapping_matches(ps, h) ==> a == b,
        occurrences_of(a) == no_suffix_matches(ps, h) && occurrences_of(b) == no_suffix_matches(
            ps,
            h,
        ) ==> a == b,
{
    if occurrences_of(a) == occurrences_of(b) {
        lemma_results_agree(a, b);
    }
}

/// Occurrences lie within the haystack.
pub proof fn lemma_occur_within(ps: Seq<Seq<char>>, h: Seq<char>, occs: Seq<Occurrence>)
    requires
        all_occur(ps, h, occs, 0),
    ensures
        all_within(h, occs),
{
    assert forall|k: int| 0 <= k < occs.len() implies 0 <= (#[trigger] occs[k]).start <= occs[k].end
        <= h.len() by {
        assert(is_occurrence(ps, h, occs[k]));
    }
}

/// The matches of `out`, whose occurrences all occur in `h`, lie within `h`
/// and name patterns.
pub proof fn lemma_within(ps: Seq<Seq<char>>, h: Seq<char>, out: Seq<Match>)
    requires
        all_occur(ps, h, occurrences_of(out), 0),
    ensures
        forall|i: int|
            0 <= i < out.len() ==> (#[trigger] out[i]).start <= out[i].end <= h.len() && out[i].value
                < ps.len(),
{
    assert forall|i: int| 0 <= i < out.len() implies (#[trigger] out[i]).start <= out[i].end
        <= h.len() && out[i].value < ps.len() by {
        assert(occurrences_of(out)[i] == out[i]@);
        assert(is_occurrence(ps, h, occurrences_of(out)[i]));
    }
}

/// The matches of `out`, whose occurrences come in sequence, come in
/// sequence.
pub proof fn lemma_disjoint(out: Seq<Match>)
    requires
        in_sequence(occurrences_of(out)),
    ensures
        forall|i: int, j: int|
            0 <= i < j < out.len() ==> (#[trigger] out[i]).end <= (#[trigger] out[j]).start,
{
    assert forall|i: int, j: int| 0 <= i < j < out.len() implies (#[trigger] out[i]).end <= (
    #[trigger] out[j]).start by {
        assert(occurrences_of(out)[i] == out[i]@);
        assert(occurrences_of(out)[j] == out[j]@);
    }
}

} // verus!
