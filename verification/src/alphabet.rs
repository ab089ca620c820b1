//! The alphabet of a pattern set.
//!
//! The codepoints that occur in the patterns are numbered in the order in
//! which they first occur. The double array places its edges by these
//! numbers, so its size goes with the number of codepoints in use, not with
//! how large they are.

use vstd::prelude::*;

verus! {

/// The entry of a codepoint that has no number.
pub const UNMAPPED: usize = usize::MAX;

/// The sum of the lengths of the patterns.
pub open spec fn total_len(ps: Seq<Seq<char>>) -> int
    decreases ps.len(),
{
    if ps.len() == 0 {
        0
    } else {
        total_len(ps.drop_last()) + ps.last().len()
    }
}

/// The greatest codepoint of `s`, as a number; 0 for the empty text.
pub open spec fn max_code_in(s: Seq<char>) -> int
    decreases s.len(),
{
    if s.len() == 0 {
        0
    } else if s.last() as int > max_code_in(s.drop_last()) {
        s.last() as int
    } else {
        max_code_in(s.drop_last())
    }
}

/// The greatest codepoint of all patterns, as a number.
pub open spec fn max_code(ps: Seq<Seq<char>>) -> int
    decreases ps.len(),
{
    if ps.len() == 0 {
        0
    } else if max_code_in(ps.last()) > max_code(ps.drop_last()) {
        max_code_in(ps.last())
    } else {
        max_code(ps.drop_last())
    }
}

/// The patterns one after another, as one text.
pub open spec fn flatten(ps: Seq<Seq<char>>) -> Seq<char>
    decreases ps.len(),
{
    if ps.len() == 0 {
        Seq::empty()
    } else {
        flatten(ps.drop_last()) + ps.last()
    }
}

/// The number of different codepoints in `s`.
pub open spec fn distinct_count(s: Seq<char>) -> int
    decreases s.len(),
{
    if s.len() == 0 {
        0
    } else if s.drop_last().contains(s.last()) {
        distinct_count(s.drop_last())
    } else {
        distinct_count(s.drop_last()) + 1
    }
}

/// The number of different codepoints in the patterns.
pub open spec fn alphabet_size(ps: Seq<Seq<char>>) -> int {
    distinct_count(flatten(ps))
}

/// The table gives `c` a number.
pub open spec fn mapped_in(table: Seq<usize>, c: char) -> bool {
    (c as int) < table.len() && table[c as int] != UNMAPPED
}

/// The number that the table gives `c`.
pub open spec fn code_in(table: Seq<usize>, c: char) -> int {
    table[c as int] as int
}

/// The table gives each codepoint it maps a number of its own below `size`.
pub open spec fn numbers(table: Seq<usize>, size: int) -> bool {
    &&& forall|c: char| #[trigger] mapped_in(table, c) ==> code_in(table, c) < size
    &&& forall|a: char, b: char|
        #[trigger] mapped_in(table, a) && #[trigger] mapped_in(table, b) && code_in(table, a)
            == code_in(table, b) ==> a == b
}

/// The table maps every codepoint of every pattern.
pub open spec fn covers(table: Seq<usize>, ps: Seq<Seq<char>>) -> bool {
    forall|i: int, k: int|
        0 <= i < ps.len() && 0 <= k < ps[i].len() ==> mapped_in(table, #[trigger] ps[i][k])
}

/// The number of a codepoint is at most 0x10FFFF.
pub proof fn lemma_code_range(c: char)
    ensures
        0 <= c as int <= 0x10FFFF,
{
}

/// No codepoint of `s` is above `max_code_in(s)`.
pub proof fn lemma_max_code_in(s: Seq<char>, i: int)
    requires
        0 <= i < s.len(),
    ensures
        0 <= s[i] as int <= max_code_in(s),
    decreases s.len(),
{
    lemma_code_range(s[i]);
    if i < s.len() - 1 {
        lemma_max_code_in(s.drop_last(), i);
        assert(s.drop_last()[i] == s[i]);
    } else {
        assert(s[i] == s.last());
    }
}

/// No codepoint of any pattern is above `max_code`.
pub proof fn lemma_max_code(ps: Seq<Seq<char>>, i: int, k: int)
    requires
        0 <= i < ps.len(),
        0 <= k < ps[i].len(),
    ensures
        0 <= ps[i][k] as int <= max_code(ps),
    decreases ps.len(),
{
    if i < ps.len() - 1 {
        lemma_max_code(ps.drop_last(), i, k);
    } else {
        lemma_max_code_in(ps[i], k);
    }
}

/// No codepoint is above 0x10FFFF.
pub proof fn lemma_max_code_range(ps: Seq<Seq<char>>)
    ensures
        0 <= max_code(ps) <= 0x10FFFF,
    decreases ps.len(),
{
    if ps.len() > 0 {
        lemma_max_code_range(ps.drop_last());
        lemma_max_code_in_range(ps.last());
    }
}

/// No codepoint of a text is above 0x10FFFF.
pub proof fn lemma_max_code_in_range(s: Seq<char>)
    ensures
        0 <= max_code_in(s) <= 0x10FFFF,
    decreases s.len(),
{
    if s.len() > 0 {
        lemma_max_code_in_range(s.drop_last());
        lemma_code_range(s.last());
    }
}

/// The greatest codepoint of `s`.
pub(crate) fn scan_text(s: &Vec<char>) -> (m: usize)
    ensures
        m == max_code_in(s@),
{
    let mut m: usize = 0;
    let mut k: usize = 0;
    assert(s@.take(0) =~= Seq::<char>::empty());
    while k < s.len()
        invariant
            k <= s@.len(),
            m == max_code_in(s@.take(k as int)),
        decreases s@.len() - k,
    {
        let code = s[k] as usize;
        proof {
            assert(s@.take(k + 1).drop_last() =~= s@.take(k as int));
            assert(s@.take(k + 1).last() == s@[k as int]);
            lemma_code_range(s@[k as int]);
            assert(code == s@[k as int] as int);
        }
        if code > m {
            m = code;
        }
        k += 1;
    }
    assert(s@.take(s@.len() as int) =~= s@);
    m
}

/// The patterns up to any point are together no longer than all of them.
pub proof fn lemma_total_len_grows(ps: Seq<Seq<char>>, i: int)
    requires
        0 <= i <= ps.len(),
    ensures
        total_len(ps.take(i)) <= total_len(ps),
    decreases ps.len() - i,
{
    if i < ps.len() {
        assert(ps.take(i + 1).drop_last() =~= ps.take(i));
        lemma_total_len_grows(ps, i + 1);
    } else {
        assert(ps.take(i) =~= ps);
    }
}

/// There are at least as many codepoints as different ones.
pub proof fn lemma_distinct_count(s: Seq<char>)
    ensures
        0 <= distinct_count(s) <= s.len(),
    decreases s.len(),
{
    if s.len() > 0 {
        lemma_distinct_count(s.drop_last());
    }
}

/// Every codepoint of every pattern is in the flattened patterns.
pub proof fn lemma_flatten_holds(ps: Seq<Seq<char>>, i: int, k: int)
    requires
        0 <= i < ps.len(),
        0 <= k < ps[i].len(),
    ensures
        flatten(ps).contains(ps[i][k]),
    decreases ps.len(),
{
    let before = flatten(ps.drop_last());
    if i < ps.len() - 1 {
        lemma_flatten_holds(ps.drop_last(), i, k);
        let j = choose|j: int| 0 <= j < before.len() && before[j] == ps[i][k];
        assert(flatten(ps)[j] == ps[i][k]);
    } else {
        assert(flatten(ps)[before.len() + k] == ps[i][k]);
    }
}

/// The flattened patterns are as long as the patterns together.
pub proof fn lemma_flatten_len(ps: Seq<Seq<char>>)
    ensures
        flatten(ps).len() == total_len(ps),
    decreases ps.len(),
{
    if ps.len() > 0 {
        lemma_flatten_len(ps.drop_last());
    }
}

/// A table of `top + 1` entries that maps nothing.
fn blank_table(top: usize) -> (table: Vec<usize>)
    requires
        top <= 0x10FFFF,
    ensures
        table@.len() == top + 1,
        forall|c: char| !#[trigger] mapped_in(table@, c),
{
    let mut table: Vec<usize> = Vec::new();
    let mut i: usize = 0;
    while i <= top
        invariant
            i <= top + 1,
            top <= 0x10FFFF,
            table@.len() == i,
            forall|j: int| 0 <= j < i ==> #[trigger] table@[j] == UNMAPPED,
        decreases top + 1 - i,
    {
        table.push(UNMAPPED);
        i += 1;
    }
    proof {
        assert forall|c: char| !#[trigger] mapped_in(table@, c) by {
            lemma_code_range(c);
        }
    }
    table
}

/// Numbers the codepoints of the patterns in the order in which they first
/// occur. `top` is the greatest codepoint of the patterns.
pub(crate) fn number_codepoints(
    pats: &Vec<Vec<char>>,
    top: usize,
    Ghost(ps): Ghost<Seq<Seq<char>>>,
) -> (r: (Vec<usize>, usize))
    requires
        ps.len() == pats@.len(),
        forall|i: int| 0 <= i < ps.len() ==> ps[i] == (#[trigger] pats@[i])@,
        top == max_code(ps),
        total_len(ps) <= usize::MAX,
    ensures
        r.1 == alphabet_size(ps),
        numbers(r.0@, r.1 as int),
        covers(r.0@, ps),
{
    proof {
        lemma_max_code_range(ps);
    }
    let mut table = blank_table(top);
    let mut next: usize = 0;
    let mut i: usize = 0;
    let ghost mut seen: Seq<char> = Seq::empty();
    proof {
        assert(ps.take(0) =~= Seq::<Seq<char>>::empty());
    }
    while i < pats.len()
        invariant
            i <= pats@.len(),
            ps.len() == pats@.len(),
            forall|j: int| 0 <= j < ps.len() ==> ps[j] == (#[trigger] pats@[j])@,
            top == max_code(ps),
            total_len(ps) <= usize::MAX,
            table@.len() == top + 1,
            seen == flatten(ps.take(i as int)),
            next == distinct_count(seen),
            numbers(table@, next as int),
            forall|c: char| #[trigger] mapped_in(table@, c) <==> seen.contains(c),
        decreases pats@.len() - i,
    {
        let pat = &pats[i];
        let ghost base = seen;
        let mut k: usize = 0;
        proof {
            assert(base + pat@.take(0) =~= base);
        }
        while k < pat.len()
            invariant
                k <= pat@.len(),
                i < ps.len(),
                pat@ == ps[i as int],
                top == max_code(ps),
                total_len(ps) <= usize::MAX,
                base == flatten(ps.take(i as int)),
                table@.len() == top + 1,
                seen == base + pat@.take(k as int),
                next == distinct_count(seen),
                numbers(table@, next as int),
                forall|c: char| #[trigger] mapped_in(table@, c) <==> seen.contains(c),
            decreases pat@.len() - k,
        {
            let c = pat[k];
            let at = c as usize;
            let ghost before = table@;
            let ghost was = seen;
            proof {
                lemma_max_code(ps, i as int, k as int);
                lemma_distinct_count(seen);
                lemma_flatten_len(ps.take(i as int));
                lemma_flatten_len(ps.take(i + 1));
                assert(ps.take(i + 1).drop_last() =~= ps.take(i as int));
                lemma_total_len_grows(ps, i + 1);
                seen = seen.push(c);
                assert(seen =~= base + pat@.take(k + 1));
                assert(seen.drop_last() =~= was);
                assert(mapped_in(before, c) <==> was.contains(c));
            }
            if table[at] == UNMAPPED {
                table[at] = next;
                next += 1;
                proof {
                    assert forall|x: char| #[trigger] mapped_in(table@, x) <==> seen.contains(x) by {
                        lemma_code_range(x);
                        if x == c {
                            assert(seen[was.len() as int] == c);
                        } else {
                            assert(mapped_in(table@, x) == mapped_in(before, x));
                            if was.contains(x) {
                                let j = choose|j: int| 0 <= j < was.len() && was[j] == x;
                                assert(seen[j] == x);
                            }
                            if seen.contains(x) {
                                let j = choose|j: int| 0 <= j < seen.len() && seen[j] == x;
                                assert(was[j] == x);
                            }
                        }
                    }
                    assert forall|x: char| #[trigger] mapped_in(table@, x) implies code_in(table@, x)
                        < next by {
                        if x != c {
                            lemma_code_range(x);
                            assert(mapped_in(before, x));
                        }
                    }
                    assert forall|a: char, b: char|
                        #[trigger] mapped_in(table@, a) && #[trigger] mapped_in(table@, b)
                            && code_in(table@, a) == code_in(table@, b) implies a == b by {
                        lemma_code_range(a);
                        lemma_code_range(b);
                        if a != c {
                            assert(mapped_in(before, a));
                        }
                        if b != c {
                            assert(mapped_in(before, b));
                        }
                    }
                }
            } else {
                proof {
                    assert forall|x: char| #[trigger] mapped_in(table@, x) <==> seen.contains(x) by {
                        if was.contains(x) {
                            let j = choose|j: int| 0 <= j < was.len() && was[j] == x;
                            assert(seen[j] == x);
                        }
                        if seen.contains(x) && x != c {
                            let j = choose|j: int| 0 <= j < seen.len() && seen[j] == x;
                            assert(was[j] == x);
                        }
                    }
                }
            }
            k += 1;
        }
        proof {
            assert(pat@.take(pat@.len() as int) =~= pat@);
            assert(ps.take(i + 1).drop_last() =~= ps.take(i as int));
            assert(ps.take(i + 1).last() == pat@);
        }
        i += 1;
    }
    proof {
        assert(ps.take(ps.len() as int) =~= ps);
        assert forall|a: int, b: int| 0 <= a < ps.len() && 0 <= b < ps[a].len() implies mapped_in(
            table@,
            #[trigger] ps[a][b],
        ) by {
            lemma_flatten_holds(ps, a, b);
        }
    }
    (table, next)
}

} // verus!
