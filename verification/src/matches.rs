//! What each kind of search reports, stated over the pattern set and the
//! haystack alone.

use crate::text::{occurs_at, patterns_ending, patterns_equal_to, state_text};
use vstd::prelude::*;

verus! {

/// How the non-overlapping search chooses among the patterns that occur.
#[derive(Clone, Copy, Debug, PartialEq, Eq, Structural)]
pub enum MatchKind {
    /// Report a match as soon as a pattern ends; of the patterns ending
    /// there, the longest.
    Standard,
    /// Report, at the leftmost place where a pattern begins, the longest
    /// pattern that begins there.
    LeftmostLongest,
    /// Report, at the leftmost place where a pattern begins, the pattern
    /// that comes first in the pattern set.
    LeftmostFirst,
}

/// The match kind that the number `code` stands for: 1 for leftmost longest,
/// 2 for leftmost first, any other number for standard.
pub open spec fn kind_of(code: u8) -> MatchKind {
    if code == 1 {
        MatchKind::LeftmostLongest
    } else if code == 2 {
        MatchKind::LeftmostFirst
    } else {
        MatchKind::Standard
    }
}

/// The number that stands for `kind`.
pub open spec fn code_of(kind: MatchKind) -> u8 {
    match kind {
        MatchKind::Standard => 0,
        MatchKind::LeftmostLongest => 1,
        MatchKind::LeftmostFirst => 2,
    }
}

impl Default for MatchKind {
    /// The standard match kind.
    fn default() -> (kind: MatchKind)
        ensures
            kind == MatchKind::Standard,
    {
        MatchKind::Standard
    }
}

impl MatchKind {
    /// The match kind that `code` stands for.
    pub fn from_code(code: u8) -> (kind: MatchKind)
        ensures
            kind == kind_of(code),
    {
        if code == 1 {
            MatchKind::LeftmostLongest
        } else if code == 2 {
            MatchKind::LeftmostFirst
        } else {
            MatchKind::Standard
        }
    }

    /// The number that stands for the match kind.
    pub fn code(self) -> (code: u8)
        ensures
            code == code_of(self),
            kind_of(code) == self,
    {
        match self {
            MatchKind::Standard => 0,
            MatchKind::LeftmostLongest => 1,
            MatchKind::LeftmostFirst => 2,
        }
    }
}

/// One reported match: the codepoints `start..end` of the haystack are the
/// pattern with index `value`.
#[derive(Clone, Copy, Debug, PartialEq, Eq, Structural)]
pub struct Match {
    pub start: usize,
    pub end: usize,
    pub value: usize,
}

/// A match as a mathematical value.
pub ghost struct Occurrence {
    pub start: int,
    pub end: int,
    pub value: int,
}

impl View for Match {
    type V = Occurrence;

    open spec fn view(&self) -> Occurrence {
        Occurrence { start: self.start as int, end: self.end as int, value: self.value as int }
    }
}

/// The matches of a result as mathematical values.
pub open spec fn occurrences_of(out: Seq<Match>) -> Seq<Occurrence> {
    out.map_values(|m: Match| m@)
}

/// The occurrence of pattern `id` that ends at `end`.
pub open spec fn ending_at(ps: Seq<Seq<char>>, end: int, id: int) -> Occurrence {
    Occurrence { start: end - ps[id].len(), end, value: id }
}

/// The occurrences, all ending at `end`, of the patterns `ids` in their order.
pub open spec fn all_ending_at(ps: Seq<Seq<char>>, ids: Seq<int>, end: int) -> Seq<Occurrence> {
    ids.map_values(|id: int| ending_at(ps, end, id))
}

/// Every occurrence of a pattern that ends at `end`: longer patterns first,
/// equal patterns by ascending index.
pub open spec fn overlapping_at(ps: Seq<Seq<char>>, h: Seq<char>, end: int) -> Seq<Occurrence> {
    all_ending_at(ps, patterns_ending(ps, h.take(end), end), end)
}

/// Every occurrence of a pattern that ends at or before `end`, by end.
pub open spec fn overlapping_upto(ps: Seq<Seq<char>>, h: Seq<char>, end: int) -> Seq<Occurrence>
    decreases end,
{
    if end <= 0 {
        Seq::empty()
    } else {
        overlapping_upto(ps, h, end - 1) + overlapping_at(ps, h, end)
    }
}

/// What the overlapping search reports: every occurrence of every pattern.
pub open spec fn overlapping_matches(ps: Seq<Seq<char>>, h: Seq<char>) -> Seq<Occurrence> {
    overlapping_upto(ps, h, h.len() as int)
}

/// The occurrences, ending at `end`, of the patterns equal to the text that
/// the automaton remembers there: the longest suffix of the haystack read so
/// far that begins a pattern. Patterns that end there but are shorter than
/// the remembered text are left out.
pub open spec fn direct_at(ps: Seq<Seq<char>>, h: Seq<char>, end: int) -> Seq<Occurrence> {
    all_ending_at(
        ps,
        patterns_equal_to(ps, state_text(ps, h.take(end)), ps.len() as int),
        end,
    )
}

/// What `direct_at` gives for every place up to `end`, by place.
pub open spec fn direct_upto(ps: Seq<Seq<char>>, h: Seq<char>, end: int) -> Seq<Occurrence>
    decreases end,
{
    if end <= 0 {
        Seq::empty()
    } else {
        direct_upto(ps, h, end - 1) + direct_at(ps, h, end)
    }
}

/// What the overlapping search without suffixes reports.
pub open spec fn no_suffix_matches(ps: Seq<Seq<char>>, h: Seq<char>) -> Seq<Occurrence> {
    direct_upto(ps, h, h.len() as int)
}

/// What the standard search reports from `end` on, when the codepoints
/// before `lo` are consumed and no pattern occurs within `lo..end`: at the
/// first place where a pattern that begins at or after `lo` ends, the longest
/// such pattern (of equal ones the first); then the same from there.
pub open spec fn standard_from(ps: Seq<Seq<char>>, h: Seq<char>, lo: int, end: int) -> Seq<
    Occurrence,
>
    decreases h.len() - end,
{
    if end >= h.len() {
        Seq::empty()
    } else {
        let ids = patterns_ending(ps, h.subrange(lo, end + 1), end + 1 - lo);
        if ids.len() > 0 {
            seq![ending_at(ps, end + 1, ids[0])] + standard_from(ps, h, end + 1, end + 1)
        } else {
            standard_from(ps, h, lo, end + 1)
        }
    }
}

/// The first pattern, from index `id` on, that occurs at `start`.
pub open spec fn first_at(ps: Seq<Seq<char>>, h: Seq<char>, start: int, id: int) -> Option<int>
    decreases ps.len() - id,
{
    if id >= ps.len() {
        None
    } else if occurs_at(ps, h, id, start) {
        Some(id)
    } else {
        first_at(ps, h, start, id + 1)
    }
}

/// The longest pattern of at most `len` codepoints that occurs at `start`;
/// of equal ones the first.
pub open spec fn longest_at(ps: Seq<Seq<char>>, h: Seq<char>, start: int, len: int) -> Option<int>
    decreases len,
{
    if len <= 0 {
        None
    } else {
        let ids = patterns_equal_to(ps, h.subrange(start, start + len), ps.len() as int);
        if start + len <= h.len() && ids.len() > 0 {
            Some(ids[0])
        } else {
            longest_at(ps, h, start, len - 1)
        }
    }
}

/// Of two patterns that occur at the same place, a leftmost search of the
/// given kind reports `a` rather than `b`: the one that comes first in the
/// pattern set or, for the longest, the longer one and of equal ones the
/// first.
pub open spec fn preferred(ps: Seq<Seq<char>>, kind: MatchKind, a: int, b: int) -> bool {
    match kind {
        MatchKind::LeftmostFirst => a <= b,
        _ => ps[a].len() > ps[b].len() || (ps[a].len() == ps[b].len() && a <= b),
    }
}

/// The pattern that a leftmost search reports at `start`, if any occurs there.
pub open spec fn choice_at(ps: Seq<Seq<char>>, kind: MatchKind, h: Seq<char>, start: int) -> Option<
    int,
> {
    match kind {
        MatchKind::LeftmostFirst => first_at(ps, h, start, 0),
        _ => longest_at(ps, h, start, h.len() - start),
    }
}

/// What a leftmost search reports from `start` on: at the first place where
/// a pattern begins, the pattern chosen there; then the same from its end.
pub open spec fn leftmost_from(ps: Seq<Seq<char>>, kind: MatchKind, h: Seq<char>, start: int) -> Seq<
    Occurrence,
>
    decreases h.len() - start,
{
    if start >= h.len() {
        Seq::empty()
    } else {
        match choice_at(ps, kind, h, start) {
            Some(id) => {
                let end = start + ps[id].len();
                if start < end <= h.len() {
                    Seq::empty().push(ending_at(ps, end, id)) + leftmost_from(ps, kind, h, end)
                } else {
                    Seq::empty()
                }
            },
            None => leftmost_from(ps, kind, h, start + 1),
        }
    }
}

/// What the non-overlapping search of the given kind reports.
pub open spec fn find_matches(ps: Seq<Seq<char>>, kind: MatchKind, h: Seq<char>) -> Seq<
    Occurrence,
> {
    match kind {
        MatchKind::Standard => standard_from(ps, h, 0, 0),
        _ => leftmost_from(ps, kind, h, 0),
    }
}

} // verus!
