//! Storage offsets and codepoint offsets.
//!
//! A haystack is stored as UTF-8, in which a codepoint takes one to four
//! code units. The searches find their matches in storage offsets, since the
//! automaton keeps the stored length of each pattern; the position map of
//! the haystack turns these into codepoint offsets, which do not depend on
//! how wide the single codepoints are.

use crate::matches::{occurrences_of, Match, Occurrence};
use vstd::prelude::*;

verus! {

/// The number of code units that store the codepoint `c`.
pub open spec fn utf8_width(c: char) -> int {
    if (c as int) < 0x80 {
        1
    } else if (c as int) < 0x800 {
        2
    } else if (c as int) < 0x10000 {
        3
    } else {
        4
    }
}

/// The number of code units that store the text `s`.
pub open spec fn storage_len(s: Seq<char>) -> int
    decreases s.len(),
{
    if s.len() == 0 {
        0
    } else {
        storage_len(s.drop_last()) + utf8_width(s.last())
    }
}

/// The storage offset at which codepoint `i` of `h` begins; for `i` the
/// length of `h`, the offset at which `h` ends.
pub open spec fn offset_of(h: Seq<char>, i: int) -> int {
    storage_len(h.take(i))
}

/// The occurrence `o` in storage offsets.
pub open spec fn stored(h: Seq<char>, o: Occurrence) -> Occurrence {
    Occurrence { start: offset_of(h, o.start), end: offset_of(h, o.end), value: o.value }
}

/// The occurrences `occs` in storage offsets.
pub open spec fn all_stored(h: Seq<char>, occs: Seq<Occurrence>) -> Seq<Occurrence> {
    occs.map_values(|o: Occurrence| stored(h, o))
}

/// Every member of `occs` lies within `h`.
pub open spec fn all_within(h: Seq<char>, occs: Seq<Occurrence>) -> bool {
    forall|k: int| 0 <= k < occs.len() ==> 0 <= (#[trigger] occs[k]).start <= occs[k].end <= h.len()
}

/// Two texts in a row take the code units of both.
pub proof fn lemma_storage_len_concat(a: Seq<char>, b: Seq<char>)
    ensures
        storage_len(a + b) == storage_len(a) + storage_len(b),
    decreases b.len(),
{
    if b.len() == 0 {
        assert(a + b =~= a);
    } else {
        assert((a + b).drop_last() =~= a + b.drop_last());
        lemma_storage_len_concat(a, b.drop_last());
    }
}

/// A text takes at least one and at most four code units for each codepoint.
pub proof fn lemma_storage_len_range(s: Seq<char>)
    ensures
        s.len() <= storage_len(s) <= 4 * s.len(),
    decreases s.len(),
{
    if s.len() > 0 {
        lemma_storage_len_range(s.drop_last());
    }
}

/// The code units between two codepoint offsets are those of the codepoints
/// between them.
pub proof fn lemma_offset_diff(h: Seq<char>, i: int, j: int)
    requires
        0 <= i <= j <= h.len(),
    ensures
        offset_of(h, j) - offset_of(h, i) == storage_len(h.subrange(i, j)),
        j - i <= offset_of(h, j) - offset_of(h, i),
        0 <= offset_of(h, i),
        offset_of(h, j) <= storage_len(h),
{
    assert(h.take(j) =~= h.take(i) + h.subrange(i, j));
    lemma_storage_len_concat(h.take(i), h.subrange(i, j));
    lemma_storage_len_range(h.subrange(i, j));
    lemma_storage_len_range(h.take(i));
    assert(h =~= h.take(j) + h.subrange(j, h.len() as int));
    lemma_storage_len_concat(h.take(j), h.subrange(j, h.len() as int));
    lemma_storage_len_range(h.subrange(j, h.len() as int));
}

/// Codepoint offsets and storage offsets are in the same order.
pub proof fn lemma_offset_order(h: Seq<char>, i: int, j: int)
    requires
        0 <= i <= h.len(),
        0 <= j <= h.len(),
    ensures
        i < j <==> offset_of(h, i) < offset_of(h, j),
        i == j <==> offset_of(h, i) == offset_of(h, j),
{
    if i <= j {
        lemma_offset_diff(h, i, j);
    } else {
        lemma_offset_diff(h, j, i);
    }
}

/// A codepoint ends as many code units behind its offset as it is wide.
pub proof fn lemma_offset_step(h: Seq<char>, i: int)
    requires
        0 <= i < h.len(),
    ensures
        offset_of(h, i + 1) == offset_of(h, i) + utf8_width(h[i]),
{
    assert(h.take(i + 1).drop_last() =~= h.take(i));
}

/// Occurrences are put in storage offsets one by one.
pub proof fn lemma_all_stored_concat(h: Seq<char>, a: Seq<Occurrence>, b: Seq<Occurrence>)
    ensures
        all_stored(h, a + b) == all_stored(h, a) + all_stored(h, b),
{
    assert(all_stored(h, a + b) =~= all_stored(h, a) + all_stored(h, b));
}

/// The number of code units that store `c`.
pub fn width_of(c: char) -> (w: usize)
    ensures
        w == utf8_width(c),
        1 <= w <= 4,
{
    let code = c as u32;
    if code < 0x80 {
        1
    } else if code < 0x800 {
        2
    } else if code < 0x10000 {
        3
    } else {
        4
    }
}

/// For a haystack, the codepoint offset of each storage offset at which a
/// codepoint begins, and of the storage offset at which the haystack ends.
pub struct PositionMap {
    pub map: Vec<usize>,
}

impl PositionMap {
    /// The map is that of the haystack `h`.
    pub open spec fn maps(&self, h: Seq<char>) -> bool {
        &&& self.map@.len() == storage_len(h) + 1
        &&& forall|i: int| 0 <= i <= h.len() ==> self.map@[#[trigger] offset_of(h, i)] == i
    }

    /// The position map of `hay`, made in one pass from left to right.
    pub fn new(hay: &Vec<char>) -> (pm: PositionMap)
        ensures
            pm.maps(hay@),
            storage_len(hay@) < usize::MAX,
    {
        let mut map: Vec<usize> = Vec::new();
        let mut i: usize = 0;
        proof {
            assert(hay@.take(0) =~= Seq::<char>::empty());
        }
        while i < hay.len()
            invariant
                i <= hay@.len(),
                map@.len() == offset_of(hay@, i as int),
                forall|k: int| 0 <= k < i ==> map@[#[trigger] offset_of(hay@, k)] == k,
            decreases hay@.len() - i,
        {
            let w = width_of(hay[i]);
            let ghost before = map@;
            proof {
                lemma_offset_step(hay@, i as int);
            }
            map.push(i);
            let mut j: usize = 1;
            while j < w
                invariant
                    1 <= j <= w,
                    map@.len() == before.len() + j,
                    map@.subrange(0, before.len() as int) == before,
                    map@[before.len() as int] == i,
                decreases w - j,
            {
                let ghost prev = map@;
                map.push(0);
                proof {
                    assert(map@.subrange(0, before.len() as int) =~= prev.subrange(
                        0,
                        before.len() as int,
                    ));
                }
                j += 1;
            }
            proof {
                assert forall|k: int| 0 <= k < i + 1 implies map@[#[trigger] offset_of(hay@, k)]
                    == k by {
                    if k < i {
                        lemma_offset_diff(hay@, k, i as int);
                        assert(map@[offset_of(hay@, k)] == map@.subrange(0, before.len() as int)[offset_of(
                            hay@,
                            k,
                        )]);
                    }
                }
            }
            i += 1;
        }
        let ghost before = map@;
        map.push(i);
        let size = map.len();
        proof {
            assert(size == before.len() + 1);
            assert(hay@.take(hay@.len() as int) =~= hay@);
            assert forall|k: int| 0 <= k <= hay@.len() implies map@[#[trigger] offset_of(hay@, k)]
                == k by {
                if k < hay@.len() {
                    lemma_offset_diff(hay@, k, hay@.len() as int);
                    assert(map@[offset_of(hay@, k)] == before[offset_of(hay@, k)]);
                }
            }
        }
        PositionMap { map }
    }

    /// The matches `raw`, found in storage offsets, in codepoint offsets.
    pub(crate) fn in_codepoints(
        &self,
        raw: &Vec<Match>,
        Ghost(h): Ghost<Seq<char>>,
        Ghost(occs): Ghost<Seq<Occurrence>>,
    ) -> (out: Vec<Match>)
        requires
            self.maps(h),
            all_within(h, occs),
            occurrences_of(raw@) == all_stored(h, occs),
        ensures
            occurrences_of(out@) == occs,
    {
        let mut out: Vec<Match> = Vec::new();
        let mut k: usize = 0;
        proof {
            assert(raw@.len() == occurrences_of(raw@).len());
            assert(occurrences_of(out@) =~= occs.take(0));
        }
        while k < raw.len()
            invariant
                k <= raw@.len(),
                raw@.len() == occs.len(),
                self.maps(h),
                all_within(h, occs),
                occurrences_of(raw@) == all_stored(h, occs),
                occurrences_of(out@) == occs.take(k as int),
            decreases raw@.len() - k,
        {
            let r = raw[k];
            proof {
                let o = occs[k as int];
                assert(occurrences_of(raw@)[k as int] == r@);
                assert(all_stored(h, occs)[k as int] == stored(h, o));
                lemma_offset_diff(h, 0, o.start);
                lemma_offset_diff(h, o.start, o.end);
                assert(self.map@[offset_of(h, o.start)] == o.start);
                assert(self.map@[offset_of(h, o.end)] == o.end);
            }
            let m = Match { start: self.map[r.start], end: self.map[r.end], value: r.value };
            proof {
                assert(m@ == occs[k as int]);
                assert(occurrences_of(out@.push(m)) =~= occurrences_of(out@).push(m@));
                assert(occs.take(k + 1) =~= occs.take(k as int).push(occs[k as int]));
            }
            out.push(m);
            k += 1;
        }
        proof {
            assert(occs.take(occs.len() as int) =~= occs);
        }
        out
    }
}

} // verus!
