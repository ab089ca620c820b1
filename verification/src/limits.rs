//! How large a pattern set may be.
//!
//! The compactor gives every trie node room for one row of the alphabet, so
//! that a base is always found. A pattern set is accepted when that much
//! room can be indexed.

use crate::alphabet::{
    alphabet_size, covers, lemma_distinct_count, lemma_total_len_grows, max_code,
    number_codepoints, numbers, scan_text, total_len, flatten,
};
use vstd::prelude::*;

verus! {

/// The number of array slots set aside for the pattern set: for each of at
/// most `total_len + 1` trie nodes, one slot for each codepoint of the
/// alphabet and four more.
pub open spec fn index_range_needed(ps: Seq<Seq<char>>) -> int {
    (total_len(ps) + 1) * (alphabet_size(ps) + 4)
}

/// The pattern set is small enough for its automaton to be indexed.
pub open spec fn fits_index_range(ps: Seq<Seq<char>>) -> bool {
    index_range_needed(ps) < usize::MAX
}

/// The alphabet of the patterns, numbered, and its size, if the pattern set
/// fits the index range.
pub(crate) fn measure(pats: &Vec<Vec<char>>, Ghost(ps): Ghost<Seq<Seq<char>>>) -> (r: Option<
    (Vec<usize>, usize),
>)
    requires
        ps.len() == pats@.len(),
        forall|i: int| 0 <= i < ps.len() ==> ps[i] == (#[trigger] pats@[i])@,
    ensures
        r is Some <==> fits_index_range(ps),
        match r {
            Some((table, size)) => {
                &&& size == alphabet_size(ps)
                &&& numbers(table@, size as int)
                &&& covers(table@, ps)
            },
            None => true,
        },
{
    let mut total: usize = 0;
    let mut top: usize = 0;
    let mut i: usize = 0;
    proof {
        assert(ps.take(0) =~= Seq::<Seq<char>>::empty());
        lemma_distinct_count(flatten(ps));
    }
    while i < pats.len()
        invariant
            i <= pats@.len(),
            ps.len() == pats@.len(),
            forall|j: int| 0 <= j < ps.len() ==> ps[j] == (#[trigger] pats@[j])@,
            total == total_len(ps.take(i as int)),
            top == max_code(ps.take(i as int)),
            0 <= alphabet_size(ps),
        decreases pats@.len() - i,
    {
        proof {
            assert(ps.take(i + 1).drop_last() =~= ps.take(i as int));
            assert(ps.take(i + 1).last() == pats@[i as int]@);
        }
        let m = scan_text(&pats[i]);
        match total.checked_add(pats[i].len()) {
            Some(t) => {
                total = t;
            },
            None => {
                proof {
                    lemma_total_len_grows(ps, i + 1);
                    let a = total_len(ps) + 1;
                    let b = alphabet_size(ps) + 4;
                    assert(a * b >= a) by (nonlinear_arith)
                        requires
                            a >= 0,
                            b >= 1,
                    ;
                }
                return None;
            },
        }
        if m > top {
            top = m;
        }
        i += 1;
    }
    proof {
        assert(ps.take(ps.len() as int) =~= ps);
    }
    let (table, size) = number_codepoints(pats, top, Ghost(ps));
    if fits(total, size) {
        Some((table, size))
    } else {
        None
    }
}

/// Whether the automaton of a pattern set can be indexed, given the sum of
/// the lengths of its patterns and the size of its alphabet.
pub fn fits(total: usize, alphabet: usize) -> (ok: bool)
    ensures
        ok == ((total + 1) * (alphabet + 4) < usize::MAX),
{
    let nodes = match total.checked_add(1) {
        Some(n) => n,
        None => {
            proof {
                let a = total + 1;
                let b = alphabet + 4;
                assert(a * b >= a) by (nonlinear_arith)
                    requires
                        a >= 0,
                        b >= 1,
                ;
            }
            return false;
        },
    };
    let row = match alphabet.checked_add(4) {
        Some(w) => w,
        None => {
            proof {
                let a = total + 1;
                let b = alphabet + 4;
                assert(a * b >= b) by (nonlinear_arith)
                    requires
                        a >= 1,
                        b >= 0,
                ;
            }
            return false;
        },
    };
    match nodes.checked_mul(row) {
        Some(room) => room < usize::MAX,
        None => false,
    }
}

} // verus!
