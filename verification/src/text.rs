//! The mathematical vocabulary of multi-pattern search: texts are sequences of
//! codepoints, a pattern set is a sequence of texts, and everything the
//! automaton computes is defined here without reference to any automaton.

use vstd::prelude::*;

verus! {

/// The last `k` codepoints of `w`.
pub open spec fn suffix(w: Seq<char>, k: int) -> Seq<char> {
    w.subrange(w.len() - k, w.len() as int)
}

/// `u` begins at least one pattern. These are exactly the texts that label a
/// path from the root of the pattern trie.
pub open spec fn is_known_prefix(ps: Seq<Seq<char>>, u: Seq<char>) -> bool {
    exists|i: int| 0 <= i < ps.len() && #[trigger] u.is_prefix_of(ps[i])
}

/// The length of the longest suffix of `w`, among those of length at most `k`,
/// that begins a pattern (0 when only the empty suffix does).
pub open spec fn longest_known_len(ps: Seq<Seq<char>>, w: Seq<char>, k: nat) -> nat
    decreases k,
{
    if k == 0 {
        0
    } else if is_known_prefix(ps, suffix(w, k as int)) {
        k
    } else {
        longest_known_len(ps, w, (k - 1) as nat)
    }
}

/// The text an Aho-Corasick automaton remembers after reading `w`: the longest
/// suffix of `w` that begins a pattern.
pub open spec fn state_text(ps: Seq<Seq<char>>, w: Seq<char>) -> Seq<char> {
    suffix(w, longest_known_len(ps, w, w.len()) as int)
}

/// The pattern with index `id` occurs in `h` starting at codepoint `start`.
pub open spec fn occurs_at(ps: Seq<Seq<char>>, h: Seq<char>, id: int, start: int) -> bool {
    &&& 0 <= id < ps.len()
    &&& 0 <= start
    &&& start + ps[id].len() <= h.len()
    &&& h.subrange(start, start + ps[id].len()) == ps[id]
}

/// The indices below `n` of the patterns equal to `u`, ascending.
pub open spec fn patterns_equal_to(ps: Seq<Seq<char>>, u: Seq<char>, n: int) -> Seq<int>
    decreases n,
{
    if n <= 0 {
        Seq::empty()
    } else if ps[n - 1] == u {
        patterns_equal_to(ps, u, n - 1).push(n - 1)
    } else {
        patterns_equal_to(ps, u, n - 1)
    }
}

/// The indices of the patterns that end `w` and have at most `k` codepoints:
/// longer patterns first, equal patterns by ascending index.
pub open spec fn patterns_ending(ps: Seq<Seq<char>>, w: Seq<char>, k: int) -> Seq<int>
    decreases k,
{
    if k <= 0 {
        Seq::empty()
    } else {
        patterns_equal_to(ps, suffix(w, k), ps.len() as int) + patterns_ending(ps, w, k - 1)
    }
}

/// Among the patterns that end at one place, `a` is reported before `b`: it
/// is longer, or as long and earlier in the pattern set.
pub open spec fn reported_before(ps: Seq<Seq<char>>, a: int, b: int) -> bool {
    ps[a].len() > ps[b].len() || (ps[a].len() == ps[b].len() && a < b)
}

/// Every pattern has at least one codepoint.
pub open spec fn all_nonempty(ps: Seq<Seq<char>>) -> bool {
    forall|i: int| 0 <= i < ps.len() ==> (#[trigger] ps[i]).len() > 0
}

/// A suffix of a suffix of `w` is a suffix of `w`.
pub proof fn lemma_suffix_of_suffix(w: Seq<char>, k: int, j: int)
    requires
        0 <= j <= k <= w.len(),
    ensures
        suffix(suffix(w, k), j) == suffix(w, j),
{
}

/// The suffixes of a text with one more codepoint are the suffixes of the
/// text with that codepoint.
pub proof fn lemma_suffix_push(w: Seq<char>, c: char, k: int)
    requires
        0 <= k <= w.len(),
    ensures
        suffix(w.push(c), k + 1) == suffix(w, k).push(c),
{
}

/// A prefix of a text that begins a pattern begins that pattern too.
pub proof fn lemma_known_prefix_closed(ps: Seq<Seq<char>>, u: Seq<char>, v: Seq<char>)
    requires
        is_known_prefix(ps, u),
        v.is_prefix_of(u),
    ensures
        is_known_prefix(ps, v),
{
    let i = choose|i: int| 0 <= i < ps.len() && #[trigger] u.is_prefix_of(ps[i]);
    assert(v.is_prefix_of(ps[i]));
}

/// What `longest_known_len` finds is a known suffix, and no longer suffix
/// within the bound is known.
pub proof fn lemma_longest_known_len(ps: Seq<Seq<char>>, w: Seq<char>, k: nat)
    requires
        k <= w.len(),
    ensures
        longest_known_len(ps, w, k) <= k,
        longest_known_len(ps, w, k) > 0 ==> is_known_prefix(
            ps,
            suffix(w, longest_known_len(ps, w, k) as int),
        ),
        forall|j: int|
            longest_known_len(ps, w, k) < j <= k ==> !is_known_prefix(ps, #[trigger] suffix(w, j)),
    decreases k,
{
    if k > 0 && !is_known_prefix(ps, suffix(w, k as int)) {
        lemma_longest_known_len(ps, w, (k - 1) as nat);
    }
}

/// The longest known suffix is determined by its two defining properties.
pub proof fn lemma_longest_known_unique(ps: Seq<Seq<char>>, w: Seq<char>, m: int)
    requires
        0 <= m <= w.len(),
        m > 0 ==> is_known_prefix(ps, suffix(w, m)),
        forall|j: int| m < j <= w.len() ==> !is_known_prefix(ps, #[trigger] suffix(w, j)),
    ensures
        longest_known_len(ps, w, w.len()) == m,
        state_text(ps, w) == suffix(w, m),
{
    lemma_longest_known_len(ps, w, w.len());
}

/// Reading one more codepoint only needs the remembered text, not the whole
/// input read so far.
pub proof fn lemma_state_text_step(ps: Seq<Seq<char>>, w: Seq<char>, c: char)
    ensures
        state_text(ps, w.push(c)) == state_text(ps, state_text(ps, w).push(c)),
{
    let s = state_text(ps, w);
    let sl = longest_known_len(ps, w, w.len()) as int;
    let wc = w.push(c);
    let sc = s.push(c);
    lemma_longest_known_len(ps, w, w.len());
    lemma_longest_known_len(ps, sc, sc.len());
    let m = longest_known_len(ps, sc, sc.len()) as int;
    assert(suffix(wc, m) == suffix(sc, m)) by {
        if m > 0 {
            lemma_suffix_push(w, c, m - 1);
            lemma_suffix_push(s, c, m - 1);
            lemma_suffix_of_suffix(w, sl, m - 1);
        }
    }
    assert forall|j: int| m < j <= wc.len() implies !is_known_prefix(
        ps,
        #[trigger] suffix(wc, j),
    ) by {
        lemma_suffix_push(w, c, j - 1);
        if j <= sc.len() {
            lemma_suffix_push(s, c, j - 1);
            lemma_suffix_of_suffix(w, sl, j - 1);
            assert(suffix(wc, j) == suffix(sc, j));
        } else if is_known_prefix(ps, suffix(wc, j)) {
            assert(suffix(w, j - 1).is_prefix_of(suffix(wc, j)));
            lemma_known_prefix_closed(ps, suffix(wc, j), suffix(w, j - 1));
        }
    }
    lemma_longest_known_unique(ps, wc, m);
}

/// What `patterns_equal_to` lists: exactly the indices below `n` of patterns
/// equal to `u`, in strictly ascending order.
pub proof fn lemma_patterns_equal_to(ps: Seq<Seq<char>>, u: Seq<char>, n: int)
    requires
        0 <= n <= ps.len(),
    ensures
        forall|j: int|
            0 <= j < patterns_equal_to(ps, u, n).len() ==> {
                let id = #[trigger] patterns_equal_to(ps, u, n)[j];
                0 <= id < n && ps[id] == u
            },
        forall|j: int, k: int|
            0 <= j < k < patterns_equal_to(ps, u, n).len() ==> patterns_equal_to(ps, u, n)[j]
                < patterns_equal_to(ps, u, n)[k],
        forall|id: int|
            0 <= id < n && #[trigger] ps[id] == u ==> patterns_equal_to(ps, u, n).contains(id),
    decreases n,
{
    if n > 0 {
        lemma_patterns_equal_to(ps, u, n - 1);
        let prev = patterns_equal_to(ps, u, n - 1);
        let cur = patterns_equal_to(ps, u, n);
        assert forall|id: int| 0 <= id < n && #[trigger] ps[id] == u implies cur.contains(id) by {
            if id < n - 1 {
                let j = choose|j: int| 0 <= j < prev.len() && prev[j] == id;
                assert(cur[j] == id);
            } else {
                assert(cur[cur.len() - 1] == id);
            }
        }
    }
}

/// Appending a pattern does not change which earlier patterns equal `u`.
pub proof fn lemma_patterns_equal_to_push(ps: Seq<Seq<char>>, p: Seq<char>, u: Seq<char>, n: int)
    requires
        0 <= n <= ps.len(),
    ensures
        patterns_equal_to(ps.push(p), u, n) == patterns_equal_to(ps, u, n),
    decreases n,
{
    if n > 0 {
        lemma_patterns_equal_to_push(ps, p, u, n - 1);
    }
}

/// Only the last `k` codepoints of `w` matter to `patterns_ending(ps, w, k)`.
pub proof fn lemma_patterns_ending_local(ps: Seq<Seq<char>>, w: Seq<char>, v: Seq<char>, k: int)
    requires
        0 <= k <= w.len(),
        k <= v.len(),
        suffix(w, k) == suffix(v, k),
    ensures
        patterns_ending(ps, w, k) == patterns_ending(ps, v, k),
    decreases k,
{
    if k > 0 {
        lemma_suffix_of_suffix(w, k, k - 1);
        lemma_suffix_of_suffix(v, k, k - 1);
        lemma_patterns_ending_local(ps, w, v, k - 1);
    }
}

/// Lengths at which no suffix begins a pattern contribute no ending pattern.
pub proof fn lemma_patterns_ending_skip(ps: Seq<Seq<char>>, w: Seq<char>, k: int, m: int)
    requires
        0 <= m <= k <= w.len(),
        forall|j: int| m < j <= k ==> !is_known_prefix(ps, #[trigger] suffix(w, j)),
    ensures
        patterns_ending(ps, w, k) == patterns_ending(ps, w, m),
    decreases k,
{
    if k > m {
        lemma_patterns_ending_skip(ps, w, k - 1, m);
        let here = patterns_equal_to(ps, suffix(w, k), ps.len() as int);
        lemma_patterns_equal_to(ps, suffix(w, k), ps.len() as int);
        if here.len() > 0 {
            let id = here[0];
            assert(suffix(w, k).is_prefix_of(ps[id]));
        }
        assert(here =~= Seq::empty());
    }
}

/// The patterns that end a text are those that end the text remembered for it.
pub proof fn lemma_patterns_ending_state(ps: Seq<Seq<char>>, w: Seq<char>)
    ensures
        patterns_ending(ps, w, w.len() as int) == patterns_ending(
            ps,
            state_text(ps, w),
            state_text(ps, w).len() as int,
        ),
{
    let m = longest_known_len(ps, w, w.len()) as int;
    lemma_longest_known_len(ps, w, w.len());
    lemma_patterns_ending_skip(ps, w, w.len() as int, m);
    lemma_suffix_of_suffix(w, m, m);
    lemma_patterns_ending_local(ps, w, state_text(ps, w), m);
}

/// The patterns that end a non-empty text are those equal to it, followed by
/// those that end the text remembered for it without its first codepoint.
/// This is how output lists are merged along failure links.
pub proof fn lemma_patterns_ending_merge(ps: Seq<Seq<char>>, w: Seq<char>)
    requires
        w.len() > 0,
    ensures
        patterns_ending(ps, w, w.len() as int) == patterns_equal_to(ps, w, ps.len() as int)
            + patterns_ending(
            ps,
            state_text(ps, w.drop_first()),
            state_text(ps, w.drop_first()).len() as int,
        ),
{
    let rest = w.drop_first();
    assert(suffix(w, w.len() as int) =~= w);
    assert(suffix(w, w.len() - 1) =~= suffix(rest, w.len() - 1));
    lemma_patterns_ending_local(ps, w, rest, w.len() - 1);
    lemma_patterns_ending_state(ps, rest);
}

/// What `patterns_ending` lists: every listed index names a pattern that ends
/// `w`; every non-empty pattern of at most `k` codepoints that ends `w` is
/// listed; and the list runs from longer to shorter, equal lengths by index.
pub proof fn lemma_patterns_ending(ps: Seq<Seq<char>>, w: Seq<char>, k: int)
    requires
        0 <= k <= w.len(),
    ensures
        forall|j: int|
            0 <= j < patterns_ending(ps, w, k).len() ==> {
                let id = #[trigger] patterns_ending(ps, w, k)[j];
                &&& 0 <= id < ps.len()
                &&& 0 < ps[id].len() <= k
                &&& suffix(w, ps[id].len() as int) == ps[id]
            },
        forall|id: int|
            0 <= id < ps.len() && 0 < (#[trigger] ps[id]).len() <= k && suffix(
                w,
                ps[id].len() as int,
            ) == ps[id] ==> patterns_ending(ps, w, k).contains(id),
        forall|i: int, j: int|
            0 <= i < j < patterns_ending(ps, w, k).len() ==> reported_before(
                ps,
                #[trigger] patterns_ending(ps, w, k)[i],
                #[trigger] patterns_ending(ps, w, k)[j],
            ),
    decreases k,
{
    if k > 0 {
        lemma_patterns_ending(ps, w, k - 1);
        let here = patterns_equal_to(ps, suffix(w, k), ps.len() as int);
        let rest = patterns_ending(ps, w, k - 1);
        let all = patterns_ending(ps, w, k);
        lemma_patterns_equal_to(ps, suffix(w, k), ps.len() as int);
        assert forall|j: int| 0 <= j < all.len() implies {
            let id = #[trigger] all[j];
            &&& 0 <= id < ps.len()
            &&& 0 < ps[id].len() <= k
            &&& suffix(w, ps[id].len() as int) == ps[id]
        } by {
            if j < here.len() {
                assert(all[j] == here[j]);
            } else {
                assert(all[j] == rest[j - here.len()]);
            }
        }
        assert forall|id: int|
            0 <= id < ps.len() && 0 < (#[trigger] ps[id]).len() <= k && suffix(
                w,
                ps[id].len() as int,
            ) == ps[id] implies all.contains(id) by {
            if ps[id].len() == k {
                let j = choose|j: int| 0 <= j < here.len() && here[j] == id;
                assert(all[j] == id);
            } else {
                let j = choose|j: int| 0 <= j < rest.len() && rest[j] == id;
                assert(all[here.len() + j] == id);
            }
        }
        assert forall|i: int, j: int| 0 <= i < j < all.len() implies reported_before(
            ps,
            #[trigger] all[i],
            #[trigger] all[j],
        ) by {
            if i < here.len() {
                assert(all[i] == here[i]);
            } else {
                assert(all[i] == rest[i - here.len()]);
            }
            if j < here.len() {
                assert(all[j] == here[j]);
            } else {
                assert(all[j] == rest[j - here.len()]);
            }
        }
    }
}

} // verus!
