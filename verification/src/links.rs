//! Failure links and merged output lists, set breadth-first: the states are
//! taken by the length of their text, so the link of a state is found by
//! walking links that are already in place.

use crate::double_array::{DoubleArray, UNUSED};
use crate::text::{
    all_nonempty, lemma_longest_known_len, lemma_patterns_ending_merge, lemma_patterns_equal_to,
    lemma_state_text_step, patterns_ending, patterns_equal_to, state_text,
};
use vstd::prelude::*;

verus! {

/// `x` is one of the first `k` entries of `bucket`.
pub open spec fn among(bucket: Seq<usize>, k: int, x: int) -> bool {
    exists|i: int| 0 <= i < k && #[trigger] bucket[i] == x
}

/// `buckets[d]` lists, in ascending order, the states below slot `upto`
/// whose text has `d` codepoints.
pub open spec fn grouped(
    check: Seq<usize>,
    depth: Seq<usize>,
    buckets: Seq<Vec<usize>>,
    upto: int,
) -> bool {
    &&& forall|d: int, k: int|
        0 <= d < buckets.len() && 0 <= k < buckets[d]@.len() ==> {
            let s = #[trigger] buckets[d]@[k];
            s < upto && check[s as int] != UNUSED && depth[s as int] == d
        }
    &&& forall|d: int, i: int, k: int|
        0 <= d < buckets.len() && 0 <= i < k < buckets[d]@.len() ==> #[trigger] buckets[d]@[i]
            < #[trigger] buckets[d]@[k]
    &&& forall|s: int|
        0 <= s < upto && #[trigger] check[s] != UNUSED ==> among(
            buckets[depth[s] as int]@,
            buckets[depth[s] as int]@.len() as int,
            s,
        )
}

/// The states grouped by the length of their text.
fn states_by_depth(da: &DoubleArray, n: usize, Ghost(ps): Ghost<Seq<Seq<char>>>) -> (buckets: Vec<
    Vec<usize>,
>)
    requires
        da.shape_ok(ps),
        forall|t: int| #[trigger] da.is_state(t) ==> da.depth@[t] < n,
    ensures
        grouped(da.check@, da.depth@, buckets@, da.check@.len() as int),
        forall|t: int| #[trigger] da.is_state(t) ==> da.depth@[t] < buckets@.len(),
{
    let m = da.check.len();
    let mut deepest: usize = 0;
    let mut t: usize = 0;
    proof {
        reveal(DoubleArray::shape_ok);
    }
    assert(da.is_state(0));
    while t < m
        invariant
            t <= m,
            m == da.check@.len(),
            m == da.depth@.len(),
            deepest < n,
            forall|x: int| #[trigger] da.is_state(x) ==> da.depth@[x] < n,
            forall|x: int| 0 <= x < t && #[trigger] da.is_state(x) ==> da.depth@[x] <= deepest,
        decreases m - t,
    {
        if da.check[t] != UNUSED {
            assert(da.is_state(t as int));
            if da.depth[t] > deepest {
                deepest = da.depth[t];
            }
        }
        t += 1;
    }
    let mut buckets: Vec<Vec<usize>> = Vec::new();
    let mut d: usize = 0;
    while d <= deepest
        invariant
            d <= deepest + 1,
            deepest < n,
            buckets@.len() == d,
            forall|i: int| 0 <= i < d ==> (#[trigger] buckets@[i])@.len() == 0,
        decreases deepest + 1 - d,
    {
        buckets.push(Vec::new());
        d += 1;
    }
    let mut s: usize = 0;
    while s < m
        invariant
            s <= m,
            m == da.check@.len(),
            m == da.depth@.len(),
            buckets@.len() == deepest + 1,
            forall|x: int| 0 <= x < m && #[trigger] da.is_state(x) ==> da.depth@[x] <= deepest,
            grouped(da.check@, da.depth@, buckets@, s as int),
        decreases m - s,
    {
        if da.check[s] != UNUSED {
            assert(da.is_state(s as int));
            let ghost before = buckets@;
            let d = da.depth[s];
            buckets[d].push(s);
            proof {
                let after = buckets@;
                assert forall|e: int, k: int|
                    0 <= e < after.len() && 0 <= k < after[e]@.len() implies {
                    let x = #[trigger] after[e]@[k];
                    x < s + 1 && da.check@[x as int] != UNUSED && da.depth@[x as int] == e
                } by {
                    if e == d && k == before[e]@.len() {
                    } else {
                        assert(after[e]@[k] == before[e]@[k]);
                    }
                }
                assert forall|e: int, i: int, k: int|
                    0 <= e < after.len() && 0 <= i < k < after[e]@.len() implies #[trigger] after[e]@[i]
                    < #[trigger] after[e]@[k] by {
                    assert(after[e]@[i] == before[e]@[i]);
                    if e == d && k == before[e]@.len() {
                    } else {
                        assert(after[e]@[k] == before[e]@[k]);
                    }
                }
                assert forall|x: int|
                    0 <= x < s + 1 && #[trigger] da.check@[x] != UNUSED implies among(
                    after[da.depth@[x] as int]@,
                    after[da.depth@[x] as int]@.len() as int,
                    x,
                ) by {
                    assert(da.is_state(x));
                    let e = da.depth@[x] as int;
                    if x == s {
                        assert(after[e]@[before[e]@.len() as int] == x);
                    } else {
                        assert(among(before[e]@, before[e]@.len() as int, x));
                        let i = choose|i: int| 0 <= i < before[e]@.len() && #[trigger] before[e]@[i] == x;
                        assert(after[e]@[i] == x);
                    }
                }
            }
        }
        s += 1;
    }
    buckets
}

/// `labels` holds, for every state but the root, the codepoint by which the
/// state is entered.
pub open spec fn entered_by(check: Seq<usize>, texts: Seq<Seq<char>>, labels: Seq<char>) -> bool {
    forall|t: int|
        0 < t < check.len() && #[trigger] check[t] != UNUSED ==> labels[t] == texts[t].last()
}

/// `bucket` lists, in ascending order, exactly the states whose text has `d`
/// codepoints.
pub open spec fn is_level(da: &DoubleArray, bucket: Seq<usize>, d: int) -> bool {
    &&& forall|i: int|
        0 <= i < bucket.len() ==> da.is_state((#[trigger] bucket[i]) as int) && da.depth@[bucket[i] as int]
            == d
    &&& forall|i: int, k: int| 0 <= i < k < bucket.len() ==> #[trigger] bucket[i] < #[trigger] bucket[k]
    &&& forall|t: int|
        #[trigger] da.is_state(t) && da.depth@[t] == d ==> among(bucket, bucket.len() as int, t)
}

/// State `t` is linked if its text has fewer than `d` codepoints, or has `d`
/// and `t` is among the first `k` of `bucket`; otherwise it is as the
/// compactor left it.
pub open spec fn stage_ok(
    da: &DoubleArray,
    ps: Seq<Seq<char>>,
    bucket: Seq<usize>,
    d: int,
    k: int,
    t: int,
) -> bool {
    if da.depth@[t] < d || (da.depth@[t] == d && among(bucket, k, t)) {
        da.fail_ok(ps, t) && da.outs_ok(ps, t)
    } else {
        da.seeded(ps, t)
    }
}

/// Every state is at the stage that `d` and `k` tell.
pub open spec fn staged(
    da: &DoubleArray,
    ps: Seq<Seq<char>>,
    bucket: Seq<usize>,
    d: int,
    k: int,
) -> bool {
    forall|t: int| #[trigger] da.is_state(t) ==> stage_ok(da, ps, bucket, d, k, t)
}

/// When a level is done, the next level is where the first was before any
/// of it was linked.
proof fn lemma_level_done(
    da: &DoubleArray,
    ps: Seq<Seq<char>>,
    bucket: Seq<usize>,
    next: Seq<usize>,
    d: int,
)
    requires
        is_level(da, bucket, d),
        staged(da, ps, bucket, d, bucket.len() as int),
    ensures
        staged(da, ps, next, d + 1, 0),
{
    assert forall|t: int| #[trigger] da.is_state(t) implies stage_ok(da, ps, next, d + 1, 0, t) by {
        assert(stage_ok(da, ps, bucket, d, bucket.len() as int, t));
    }
}

/// Linking the member `k` of a level moves the stage on by one.
proof fn lemma_member_linked(
    da: &DoubleArray,
    prev: &DoubleArray,
    ps: Seq<Seq<char>>,
    bucket: Seq<usize>,
    d: int,
    k: int,
)
    requires
        0 <= k < bucket.len(),
        prev.shape_ok(ps),
        is_level(prev, bucket, d),
        staged(prev, ps, bucket, d, k),
        da.same_but_links_of(prev, bucket[k] as int),
        da.fail_ok(ps, bucket[k] as int),
        da.outs_ok(ps, bucket[k] as int),
    ensures
        da.shape_ok(ps),
        is_level(da, bucket, d),
        staged(da, ps, bucket, d, k + 1),
{
    let s = bucket[k] as int;
    da.lemma_links_frame(prev, ps, s);
    assert forall|t: int| #[trigger] da.is_state(t) implies stage_ok(da, ps, bucket, d, k + 1, t) by {
        assert(prev.is_state(t));
        assert(stage_ok(prev, ps, bucket, d, k, t));
        if t == s {
            assert(bucket[k] == t);
        } else {
            if among(bucket, k + 1, t) {
                let i = choose|i: int| 0 <= i < k + 1 && #[trigger] bucket[i] == t;
                assert(among(bucket, k, t));
            }
            if among(bucket, k, t) {
                let i = choose|i: int| 0 <= i < k && #[trigger] bucket[i] == t;
                assert(among(bucket, k + 1, t));
            }
        }
    }
    assert forall|t: int| #[trigger] da.is_state(t) && da.depth@[t] == d implies among(
        bucket,
        bucket.len() as int,
        t,
    ) by {
        assert(prev.is_state(t));
    }
    assert forall|i: int| 0 <= i < bucket.len() implies da.is_state((#[trigger] bucket[i]) as int)
        && da.depth@[bucket[i] as int] == d by {
        assert(prev.is_state(bucket[i] as int));
    }
}

/// Links member `k` of the level `bucket`.
fn link_member(
    da: &mut DoubleArray,
    labels: &Vec<char>,
    bucket: &Vec<usize>,
    d: usize,
    k: usize,
    Ghost(ps): Ghost<Seq<Seq<char>>>,
)
    requires
        1 <= d,
        k < bucket@.len(),
        old(da).shape_ok(ps),
        labels@.len() == old(da).check@.len(),
        entered_by(old(da).check@, old(da).texts@, labels@),
        is_level(old(da), bucket@, d as int),
        staged(old(da), ps, bucket@, d as int, k as int),
    ensures
        final(da).shape_ok(ps),
        final(da).check@ == old(da).check@,
        final(da).depth@ == old(da).depth@,
        final(da).texts@ == old(da).texts@,
        is_level(final(da), bucket@, d as int),
        staged(final(da), ps, bucket@, d as int, k + 1),
{
    let s = bucket[k];
    let ghost prev = *da;
    proof {
        reveal(DoubleArray::shape_ok);
        assert(da.is_state(s as int));
        assert(da.check@[s as int] != UNUSED);
        assert(stage_ok(da, ps, bucket@, d as int, k as int, s as int));
        if among(bucket@, k as int, s as int) {
            let i = choose|i: int| 0 <= i < k && #[trigger] bucket@[i] == s as int;
            assert(bucket@[i] < bucket@[k as int]);
        }
        assert forall|t: int| #[trigger] da.is_state(t) && da.depth@[t] < d implies da.fail_ok(ps, t)
            && da.outs_ok(ps, t) by {
            assert(stage_ok(da, ps, bucket@, d as int, k as int, t));
        }
    }
    da.link(s, labels[s], Ghost(ps));
    proof {
        lemma_member_linked(da, &prev, ps, bucket@, d as int, k as int);
    }
}

/// Sets the failure link and completes the output list of every state.
pub fn set_links(
    da: DoubleArray,
    labels: &Vec<char>,
    n: usize,
    Ghost(ps): Ghost<Seq<Seq<char>>>,
) -> (r: DoubleArray)
    requires
        ps.len() > 0,
        all_nonempty(ps),
        da.shape_ok(ps),
        labels@.len() == da.check@.len(),
        forall|t: int| #[trigger] da.is_state(t) ==> da.seeded(ps, t),
        forall|t: int| #[trigger] da.is_state(t) ==> da.depth@[t] < n,
        forall|t: int| #[trigger] da.is_state(t) && t != 0 ==> labels@[t] == da.text(t).last(),
        da.distinct(),
    ensures
        r.wf(ps),
{
    let mut da = da;
    let ghost first = da;
    proof {
        reveal(DoubleArray::shape_ok);
    }
    da.fail[0] = 0;
    proof {
        da.lemma_links_frame(&first, ps, 0);
    }
    let buckets = states_by_depth(&da, n, Ghost(ps));
    let ghost check = da.check@;
    let ghost depth = da.depth@;
    let ghost texts = da.texts@;
    proof {
        assert forall|t: int| 0 <= t < check.len() && #[trigger] check[t] != UNUSED implies depth[t]
            < buckets@.len() by {
            assert(da.is_state(t));
        }
        reveal(DoubleArray::shape_ok);
        assert forall|t: int|
            0 < t < check.len() && #[trigger] check[t] != UNUSED implies labels@[t]
            == texts[t].last() by {
            assert(first.is_state(t));
        }
        assert(first.is_state(0));
        assert(first.seeded(ps, 0));
        lemma_patterns_equal_to(ps, da.text(0), ps.len() as int);
        let ids = patterns_equal_to(ps, da.text(0), ps.len() as int);
        if ids.len() > 0 {
            assert(ps[ids[0]].len() > 0);
        }
        assert forall|t: int| #[trigger] da.is_state(t) implies stage_ok(
            &da,
            ps,
            Seq::empty(),
            1,
            0,
            t,
        ) by {
            assert(first.is_state(t));
            if t != 0 {
                assert(da.edge_ok(t));
            }
        }
    }
    let mut d: usize = 1;
    while d < buckets.len()
        invariant
            1 <= d,
            da.shape_ok(ps),
            da.check@ == check,
            da.depth@ == depth,
            da.texts@ == texts,
            labels@.len() == check.len(),
            grouped(check, depth, buckets@, check.len() as int),
            forall|t: int|
                0 <= t < check.len() && #[trigger] check[t] != UNUSED ==> depth[t] < buckets@.len(),
            entered_by(check, texts, labels@),
            staged(&da, ps, Seq::empty(), d as int, 0),
        decreases buckets@.len() - d,
    {
        let bucket = &buckets[d];
        let mut k: usize = 0;
        proof {
            lemma_grouped_level(&da, buckets@, d as int);
            assert forall|t: int| #[trigger] da.is_state(t) implies stage_ok(
                &da,
                ps,
                bucket@,
                d as int,
                0,
                t,
            ) by {
                assert(stage_ok(&da, ps, Seq::empty(), d as int, 0, t));
            }
        }
        while k < bucket.len()
            invariant
                1 <= d,
                k <= bucket@.len(),
                da.shape_ok(ps),
                da.check@ == check,
                da.depth@ == depth,
                da.texts@ == texts,
                labels@.len() == check.len(),
                entered_by(check, texts, labels@),
                is_level(&da, bucket@, d as int),
                staged(&da, ps, bucket@, d as int, k as int),
            decreases bucket@.len() - k,
        {
            link_member(&mut da, labels, bucket, d, k, Ghost(ps));
            k += 1;
        }
        proof {
            lemma_level_done(&da, ps, bucket@, Seq::empty(), d as int);
        }
        d += 1;
    }
    proof {
        reveal(DoubleArray::wf);
        assert(da.distinct()) by {
            reveal(DoubleArray::distinct);
            assert forall|a: int, b: int|
                #[trigger] da.is_state(a) && #[trigger] da.is_state(b) && da.text(a) == da.text(
                    b,
                ) implies a == b by {
                assert(first.is_state(a) && first.is_state(b));
                assert(first.text(a) == first.text(b));
            }
        }
        assert forall|t: int| #[trigger] da.is_state(t) implies da.fail_ok(ps, t) && da.outs_ok(
            ps,
            t,
        ) by {
            assert(check[t] != UNUSED);
            assert(stage_ok(&da, ps, Seq::empty(), d as int, 0, t));
        }
    }
    da
}

/// A bucket of the grouping is a level.
proof fn lemma_grouped_level(da: &DoubleArray, buckets: Seq<Vec<usize>>, d: int)
    requires
        0 <= d < buckets.len(),
        grouped(da.check@, da.depth@, buckets, da.check@.len() as int),
    ensures
        is_level(da, buckets[d]@, d),
{
    let bucket = buckets[d]@;
    assert forall|i: int| 0 <= i < bucket.len() implies da.is_state((#[trigger] bucket[i]) as int)
        && da.depth@[bucket[i] as int] == d by {
        assert(buckets[d]@[i] == bucket[i]);
    }
    assert forall|i: int, k: int| 0 <= i < k < bucket.len() implies #[trigger] bucket[i]
        < #[trigger] bucket[k] by {
        assert(buckets[d]@[i] < buckets[d]@[k]);
    }
    assert forall|t: int| #[trigger] da.is_state(t) && da.depth@[t] == d implies among(
        bucket,
        bucket.len() as int,
        t,
    ) by {
        assert(da.check@[t] != UNUSED);
    }
}

impl DoubleArray {
    /// `self` differs from `prev` at most in the failure link and the output
    /// list of state `s`.
    pub open spec fn same_but_links_of(&self, prev: &DoubleArray, s: int) -> bool {
        &&& self.codes@ == prev.codes@
        &&& self.base@ == prev.base@
        &&& self.check@ == prev.check@
        &&& self.depth@ == prev.depth@
        &&& self.span@ == prev.span@
        &&& self.direct@ == prev.direct@
        &&& self.texts@ == prev.texts@
        &&& self.fail@.len() == prev.fail@.len()
        &&& self.outs@.len() == prev.outs@.len()
        &&& forall|x: int|
            0 <= x < self.fail@.len() && x != s ==> #[trigger] self.fail@[x] == prev.fail@[x]
        &&& forall|x: int|
            0 <= x < self.outs@.len() && x != s ==> #[trigger] self.outs@[x] == prev.outs@[x]
    }

    /// The state that the failure link of `s` must lead to, where `c` is
    /// the codepoint by which `s` is entered.
    fn fail_target(&self, s: usize, c: char, Ghost(ps): Ghost<Seq<Seq<char>>>) -> (f: usize)
        requires
            self.shape_ok(ps),
            self.is_state(s as int),
            s != 0,
            c == self.text(s as int).last(),
            self.links_ok_below(ps, self.depth@[s as int] as int),
        ensures
            self.is_state(f as int),
            self.text(f as int) == state_text(ps, self.text(s as int).drop_first()),
            self.depth@[f as int] < self.depth@[s as int],
            self.text(s as int).len() > 0,
    {
        let ghost w = self.text(s as int);
        proof {
            reveal(DoubleArray::shape_ok);
        }
        let p = self.check[s];
        proof {
            assert(self.edge_ok(s as int));
            assert(self.is_state(p as int));
            assert(w == self.text(p as int).push(c));
            lemma_longest_known_len(ps, w.drop_first(), w.drop_first().len());
        }
        if p == 0 {
            proof {
                assert(w.drop_first() =~= Seq::<char>::empty());
                assert(state_text(ps, w.drop_first()) =~= Seq::<char>::empty());
            }
            0
        } else {
            proof {
                assert(self.edge_ok(p as int));
                assert(self.fail_ok(ps, p as int));
            }
            let g = self.fail[p];
            proof {
                let u = self.text(p as int);
                lemma_longest_known_len(ps, u.drop_first(), u.drop_first().len());
                lemma_state_text_step(ps, u.drop_first(), c);
                assert(w.drop_first() =~= u.drop_first().push(c));
            }
            self.next_state(g, c, Ghost(ps))
        }
    }

    /// Sets the failure link of state `s`, entered by `c`, and completes its
    /// output list with the list of the state the link leads to.
    pub fn link(&mut self, s: usize, c: char, Ghost(ps): Ghost<Seq<Seq<char>>>)
        requires
            old(self).shape_ok(ps),
            old(self).is_state(s as int),
            s != 0,
            c == old(self).text(s as int).last(),
            old(self).links_ok_below(ps, old(self).depth@[s as int] as int),
            old(self).seeded(ps, s as int),
        ensures
            final(self).shape_ok(ps),
            final(self).same_but_links_of(old(self), s as int),
            final(self).fail_ok(ps, s as int),
            final(self).outs_ok(ps, s as int),
    {
        let ghost prev = *self;
        let ghost w = self.text(s as int);
        let f = self.fail_target(s, c, Ghost(ps));
        proof {
            self.lemma_sizes(ps);
            assert(self.outs_ok(ps, f as int));
        }
        self.fail[s] = f;
        let count = self.outs[f].len();
        let ghost seed = prev.outs@[s as int]@;
        let ghost tail = prev.outs@[f as int]@;
        let mut j: usize = 0;
        while j < count
            invariant
                j <= count,
                count == tail.len(),
                s != f,
                s < self.outs@.len(),
                f < self.outs@.len(),
                self.codes@ == prev.codes@,
                self.base@ == prev.base@,
                self.check@ == prev.check@,
                self.depth@ == prev.depth@,
                self.span@ == prev.span@,
                self.direct@ == prev.direct@,
                self.texts@ == prev.texts@,
                self.fail@ == prev.fail@.update(s as int, f),
                self.outs@.len() == prev.outs@.len(),
                forall|x: int|
                    0 <= x < self.outs@.len() && x != s ==> #[trigger] self.outs@[x]
                        == prev.outs@[x],
                self.outs@[f as int]@ == tail,
                self.outs@[s as int]@ == seed + tail.take(j as int),
            decreases count - j,
        {
            let o = self.outs[f][j];
            self.outs[s].push(o);
            proof {
                assert(tail.take(j + 1) =~= tail.take(j as int).push(tail[j as int]));
            }
            j += 1;
        }
        proof {
            assert(tail.take(count as int) =~= tail);
            self.lemma_links_frame(&prev, ps, s as int);
            self.lemma_merged_outs(&prev, ps, s as int, f as int);
        }
    }

    /// Changing links and output lists leaves the encoding of the trie alone,
    /// and leaves the links of the other states as good as they were.
    pub proof fn lemma_links_frame(&self, prev: &DoubleArray, ps: Seq<Seq<char>>, s: int)
        requires
            prev.shape_ok(ps),
            self.same_but_links_of(prev, s),
        ensures
            self.shape_ok(ps),
            forall|x: int| self.is_state(x) == prev.is_state(x),
            forall|x: int|
                #[trigger] prev.is_state(x) && x != s && prev.fail_ok(ps, x) ==> self.fail_ok(ps, x),
            forall|x: int|
                #[trigger] prev.is_state(x) && x != s && prev.outs_ok(ps, x) ==> self.outs_ok(ps, x),
            forall|x: int|
                #[trigger] prev.is_state(x) && x != s && prev.seeded(ps, x) ==> self.seeded(ps, x),
    {
        reveal(DoubleArray::shape_ok);
        assert forall|x: int| #[trigger] self.is_state(x) implies {
            &&& crate::text::is_known_prefix(ps, self.text(x))
            &&& self.depth@[x] == self.text(x).len()
            &&& self.span@[x] == crate::position::storage_len(self.text(x))
            &&& self.base@[x] >= 1
            &&& x != 0 ==> self.edge_ok(x)
        } by {
            assert(prev.is_state(x));
            if x != 0 {
                assert(prev.edge_ok(x));
            }
        }
        assert forall|x: int, c: char|
            self.is_state(x) && crate::text::is_known_prefix(
                ps,
                #[trigger] self.text(x).push(c),
            ) implies self.has_edge(x, c) by {
            assert(prev.is_state(x));
            assert(prev.text(x).push(c) == self.text(x).push(c));
            assert(prev.has_edge(x, c));
        }
        assert forall|x: int|
            #[trigger] prev.is_state(x) && x != s && prev.fail_ok(ps, x) implies self.fail_ok(
            ps,
            x,
        ) by {
            assert(self.fail@[x] == prev.fail@[x]);
        }
        assert forall|x: int|
            #[trigger] prev.is_state(x) && x != s && prev.outs_ok(ps, x) implies self.outs_ok(
            ps,
            x,
        ) by {
            assert(self.outs@[x] == prev.outs@[x]);
        }
        assert forall|x: int|
            #[trigger] prev.is_state(x) && x != s && prev.seeded(ps, x) implies self.seeded(
            ps,
            x,
        ) by {
            assert(self.outs@[x] == prev.outs@[x]);
        }
    }

    /// The seed of `s` followed by the finished list of the state its link
    /// leads to is the finished list of `s`.
    proof fn lemma_merged_outs(&self, prev: &DoubleArray, ps: Seq<Seq<char>>, s: int, f: int)
        requires
            prev.is_state(s),
            prev.is_state(f),
            self.same_but_links_of(prev, s),
            s != 0,
            s != f,
            prev.text(s).len() > 0,
            prev.text(f) == state_text(ps, prev.text(s).drop_first()),
            prev.seeded(ps, s),
            prev.outs_ok(ps, f),
            self.fail@[s] == f,
            self.outs@[s]@ == prev.outs@[s]@ + prev.outs@[f]@,
        ensures
            self.fail_ok(ps, s),
            self.outs_ok(ps, s),
    {
        let w = prev.text(s);
        let seed = prev.outs@[s]@;
        let tail = prev.outs@[f]@;
        lemma_patterns_ending_merge(ps, w);
        lemma_patterns_equal_to(ps, w, ps.len() as int);
        let here = patterns_equal_to(ps, w, ps.len() as int);
        let all = patterns_ending(ps, w, w.len() as int);
        assert forall|i: int| 0 <= i < all.len() implies {
            &&& (#[trigger] self.outs@[s]@[i]).value == all[i]
            &&& self.outs@[s]@[i].length == crate::position::storage_len(ps[all[i]])
        } by {
            if i < here.len() {
                assert(self.outs@[s]@[i] == seed[i]);
            } else {
                assert(self.outs@[s]@[i] == tail[i - here.len()]);
            }
        }
    }
}

} // verus!
