use daachorse::limits::fits;
use daachorse::position::{width_of, PositionMap};
use daachorse::{Automaton, Match, MatchKind};

fn strings(items: &[&str]) -> Vec<String> {
    items.iter().map(|s| s.to_string()).collect()
}

fn m(start: usize, end: usize, value: usize) -> Match {
    Match { start, end, value }
}

/// Every occurrence of every pattern, found by comparing at every place.
fn occurrences(patterns: &[&str], haystack: &str) -> Vec<Match> {
    let hay: Vec<char> = haystack.chars().collect();
    let pats: Vec<Vec<char>> = patterns.iter().map(|p| p.chars().collect()).collect();
    let mut out = Vec::new();
    for end in 1..=hay.len() {
        let mut here = Vec::new();
        for (id, p) in pats.iter().enumerate() {
            if p.len() <= end && hay[end - p.len()..end] == p[..] {
                here.push(m(end - p.len(), end, id));
            }
        }
        here.sort_by(|a, b| a.start.cmp(&b.start).then(a.value.cmp(&b.value)));
        out.extend(here);
    }
    out
}

const PATTERNS: [&str; 9] = ["he", "she", "his", "hers", "h", "sh", "ers", "is", "e"];
const HAYSTACKS: [&str; 6] = [
    "",
    "ushers",
    "this is his history",
    "sheshehers",
    "xyz",
    "hhhhheeeee",
];

#[test]
fn matches_lie_within_the_haystack() {
    for kind in [MatchKind::Standard, MatchKind::LeftmostLongest, MatchKind::LeftmostFirst] {
        let pma = Automaton::new(strings(&PATTERNS), kind).unwrap();
        for hay in HAYSTACKS {
            let len = hay.chars().count();
            for found in pma.find(hay) {
                assert!(found.start <= found.end && found.end <= len);
                assert!(found.value < pma.pattern_count());
                let text: String = hay.chars().skip(found.start).take(found.end - found.start).collect();
                assert_eq!(text, PATTERNS[found.value]);
            }
        }
    }
    let pma = Automaton::new(strings(&PATTERNS), MatchKind::Standard).unwrap();
    for hay in HAYSTACKS {
        let len = hay.chars().count();
        for found in pma.find_overlapping(hay).unwrap() {
            assert!(found.start <= found.end && found.end <= len);
            assert!(found.value < PATTERNS.len());
        }
        for found in pma.find_overlapping_no_suffix(hay).unwrap() {
            assert!(found.start <= found.end && found.end <= len);
            assert!(found.value < PATTERNS.len());
        }
    }
}

#[test]
fn found_matches_do_not_overlap() {
    for kind in [MatchKind::Standard, MatchKind::LeftmostLongest, MatchKind::LeftmostFirst] {
        let pma = Automaton::new(strings(&PATTERNS), kind).unwrap();
        for hay in HAYSTACKS {
            let found = pma.find(hay);
            for pair in found.windows(2) {
                assert!(pair[0].end <= pair[1].start);
                assert!(pair[0].end < pair[1].end);
            }
        }
    }
}

#[test]
fn repeated_searches_agree() {
    let pma = Automaton::new(strings(&PATTERNS), MatchKind::Standard).unwrap();
    let again = Automaton::new(strings(&PATTERNS), MatchKind::Standard).unwrap();
    for hay in HAYSTACKS {
        assert_eq!(pma.find(hay), pma.find(hay));
        assert_eq!(pma.find(hay), again.find(hay));
        assert_eq!(pma.find_overlapping(hay), pma.find_overlapping(hay));
        assert_eq!(pma.find_overlapping_no_suffix(hay), again.find_overlapping_no_suffix(hay));
    }
}

#[test]
fn overlapping_finds_exactly_the_occurrences() {
    let pma = Automaton::new(strings(&PATTERNS), MatchKind::Standard).unwrap();
    for hay in HAYSTACKS {
        assert_eq!(pma.find_overlapping(hay).unwrap(), occurrences(&PATTERNS, hay));
    }
}

#[test]
fn overlapping_on_ushers() {
    let pma = Automaton::new(strings(&["he", "she", "his", "hers"]), MatchKind::Standard).unwrap();
    assert_eq!(
        pma.find_overlapping("ushers"),
        Ok(vec![m(1, 4, 1), m(2, 4, 0), m(2, 6, 3)])
    );
    assert_eq!(pma.find("ushers"), vec![m(1, 4, 1)]);
}

#[test]
fn standard_reports_longest_pattern_ending_first() {
    // "she" and "he" end together; the longer one is reported, and the scan
    // starts again behind it, so "hers" is not seen
    let pma = Automaton::new(strings(&["he", "she", "hers"]), MatchKind::Standard).unwrap();
    assert_eq!(pma.find("ushers"), vec![m(1, 4, 1)]);
    assert_eq!(pma.find("hehers"), vec![m(0, 2, 0), m(2, 4, 0)]);
}

#[test]
fn leftmost_kinds_differ_on_order() {
    let patterns = ["b", "abcd", "bcd", "a", "abc"];
    let longest = Automaton::new(strings(&patterns), MatchKind::LeftmostLongest).unwrap();
    let first = Automaton::new(strings(&patterns), MatchKind::LeftmostFirst).unwrap();
    assert_eq!(longest.find("abcdabc"), vec![m(0, 4, 1), m(4, 7, 4)]);
    assert_eq!(first.find("abcdabc"), vec![m(0, 4, 1), m(4, 5, 3), m(5, 6, 0)]);
    assert_eq!(longest.find("xbcdx"), vec![m(1, 4, 2)]);
    assert_eq!(first.find("xbcdx"), vec![m(1, 2, 0)]);
}

#[test]
fn leftmost_match_may_end_after_a_later_one() {
    let longest = Automaton::new(strings(&["abcd", "bc"]), MatchKind::LeftmostLongest).unwrap();
    assert_eq!(longest.find("abcd"), vec![m(0, 4, 0)]);
    assert_eq!(longest.find("abcx"), vec![m(1, 3, 1)]);
    assert_eq!(longest.find("abcabcd"), vec![m(1, 3, 1), m(3, 7, 0)]);
    let first = Automaton::new(strings(&["bc", "abcd"]), MatchKind::LeftmostFirst).unwrap();
    assert_eq!(first.find("abcd"), vec![m(0, 4, 1)]);
    assert_eq!(first.find("abcx"), vec![m(1, 3, 0)]);
}

#[test]
fn leftmost_scan_resumes_behind_the_match() {
    // after "a" is reported, "c" lies behind it although the scan had
    // already passed it while "abcdx" could still have matched
    let pma = Automaton::new(strings(&["a", "abcdx", "c"]), MatchKind::LeftmostLongest).unwrap();
    assert_eq!(pma.find("abcdy"), vec![m(0, 1, 0), m(2, 3, 2)]);
    let pma = Automaton::new(strings(&["a", "abcdx", "c"]), MatchKind::LeftmostFirst).unwrap();
    assert_eq!(pma.find("abcdy"), vec![m(0, 1, 0), m(2, 3, 2)]);
}

#[test]
fn equal_patterns_are_all_reported_by_overlapping() {
    let pma = Automaton::new(strings(&["ab", "b", "ab"]), MatchKind::Standard).unwrap();
    assert_eq!(
        pma.find_overlapping("ab"),
        Ok(vec![m(0, 2, 0), m(0, 2, 2), m(1, 2, 1)])
    );
    assert_eq!(
        pma.find_overlapping_no_suffix("ab"),
        Ok(vec![m(0, 2, 0), m(0, 2, 2)])
    );
    assert_eq!(pma.find("ab"), vec![m(0, 2, 0)]);
    let pma = Automaton::new(strings(&["ab", "b", "ab"]), MatchKind::LeftmostLongest).unwrap();
    assert_eq!(pma.find("ab"), vec![m(0, 2, 0)]);
}

#[test]
fn no_suffix_reports_only_what_equals_the_remembered_text() {
    // behind "xcd" the automaton remembers "xcd", which begins "xcdy" and
    // is no pattern: the pattern "cd" that ends there is left out
    let pma = Automaton::new(strings(&["cd", "xcdy"]), MatchKind::Standard).unwrap();
    assert_eq!(pma.find_overlapping("xcd"), Ok(vec![m(1, 3, 0)]));
    assert_eq!(pma.find_overlapping_no_suffix("xcd"), Ok(vec![]));
    assert_eq!(pma.find_overlapping_no_suffix("cd"), Ok(vec![m(0, 2, 0)]));
    assert_eq!(pma.find_overlapping_no_suffix("xcdy"), Ok(vec![m(0, 4, 1)]));
}

#[test]
fn offsets_count_codepoints() {
    let pma = Automaton::new(strings(&["全世界", "世界", "に"]), MatchKind::Standard).unwrap();
    assert_eq!(
        pma.find_overlapping("全世界中に"),
        Ok(vec![m(0, 3, 0), m(1, 3, 1), m(4, 5, 2)])
    );
    assert_eq!(pma.find("全世界中に"), vec![m(0, 3, 0), m(4, 5, 2)]);
    assert_eq!(pma.find_as_strings("全世界中に"), strings(&["全世界", "に"]));
}

#[test]
fn offsets_count_codepoints_of_every_width() {
    // one, two, three and four code units
    let hay = "aé€😀aé€😀";
    for kind in [MatchKind::Standard, MatchKind::LeftmostLongest, MatchKind::LeftmostFirst] {
        let pma = Automaton::new(strings(&["😀", "é€", "€😀a"]), kind).unwrap();
        assert_eq!(
            pma.find(hay),
            vec![m(1, 3, 1), m(3, 4, 0), m(5, 7, 1), m(7, 8, 0)]
        );
    }
    let pma = Automaton::new(strings(&["😀", "é€", "€😀a"]), MatchKind::Standard).unwrap();
    assert_eq!(
        pma.find_overlapping(hay),
        Ok(vec![m(1, 3, 1), m(3, 4, 0), m(2, 5, 2), m(5, 7, 1), m(7, 8, 0)])
    );
}

#[test]
fn position_map_of_mixed_widths() {
    let hay: Vec<char> = "aé€😀".chars().collect();
    let map = PositionMap::new(&hay);
    assert_eq!(map.map, vec![0, 1, 0, 2, 0, 0, 3, 0, 0, 0, 4]);
    let none = PositionMap::new(&Vec::new());
    assert_eq!(none.map, vec![0]);
}

#[test]
fn width_of_each_range() {
    assert_eq!(width_of('\0'), 1);
    assert_eq!(width_of('\u{7f}'), 1);
    assert_eq!(width_of('\u{80}'), 2);
    assert_eq!(width_of('\u{7ff}'), 2);
    assert_eq!(width_of('\u{800}'), 3);
    assert_eq!(width_of('\u{ffff}'), 3);
    assert_eq!(width_of('\u{10000}'), 4);
    assert_eq!(width_of('\u{10ffff}'), 4);
    for c in ['a', 'é', '€', '😀'] {
        assert_eq!(width_of(c), c.len_utf8());
    }
}

#[test]
fn index_range_rule() {
    // (total + 1) * (top + 4) must stay below usize::MAX
    assert!(fits(0, 0));
    assert!(fits(1_000_000, 0x10FFFF));
    assert!(!fits(usize::MAX, 0));
    assert!(!fits(usize::MAX - 1, 0));
    assert!(!fits(usize::MAX / 4, 0));
    assert!(fits(usize::MAX / 4 - 1, 0));
    assert!(!fits(0, usize::MAX - 3));
    assert!(!fits(0, usize::MAX - 4));
    assert!(fits(0, usize::MAX - 5));
    assert!(!fits(usize::MAX / 2, usize::MAX / 2));
}

#[test]
fn pattern_count_and_kind() {
    let pma = Automaton::new(strings(&["a", "b", "a"]), MatchKind::LeftmostFirst).unwrap();
    assert_eq!(pma.pattern_count(), 3);
    assert_eq!(pma.pattern(1), Some("b".to_string()));
    assert_eq!(pma.pattern(2), Some("a".to_string()));
    assert_eq!(pma.pattern(3), None);
    assert_eq!(pma.kind(), MatchKind::LeftmostFirst);
}

#[test]
fn match_kind_codes() {
    assert_eq!(MatchKind::Standard.code(), 0);
    assert_eq!(MatchKind::LeftmostLongest.code(), 1);
    assert_eq!(MatchKind::LeftmostFirst.code(), 2);
    assert_eq!(MatchKind::from_code(0), MatchKind::Standard);
    assert_eq!(MatchKind::from_code(1), MatchKind::LeftmostLongest);
    assert_eq!(MatchKind::from_code(2), MatchKind::LeftmostFirst);
    assert_eq!(MatchKind::from_code(3), MatchKind::Standard);
    assert_eq!(MatchKind::from_code(255), MatchKind::Standard);
    assert_eq!(MatchKind::default(), MatchKind::Standard);
    for kind in [MatchKind::Standard, MatchKind::LeftmostLongest, MatchKind::LeftmostFirst] {
        assert_eq!(MatchKind::from_code(kind.code()), kind);
    }
}

#[test]
fn transitions_follow_the_longest_known_suffix() {
    let pma = Automaton::new(strings(&["abc", "bd", "c"]), MatchKind::Standard).unwrap();
    let root = pma.root();
    let a = pma.transition(root, 'a');
    let ab = pma.transition(a, 'b');
    let abc = pma.transition(ab, 'c');
    assert!(a != root && ab != a && abc != ab);
    // nothing known ends "x"
    assert_eq!(pma.transition(root, 'x'), root);
    assert_eq!(pma.transition(ab, 'x'), root);
    // behind "abd" the automaton remembers "bd"
    let b = pma.transition(root, 'b');
    let bd = pma.transition(b, 'd');
    assert_eq!(pma.transition(ab, 'd'), bd);
    // behind "abca" it remembers "a"
    assert_eq!(pma.transition(abc, 'a'), a);
    assert_eq!(pma.outputs(abc), vec![0, 2]);
    assert_eq!(pma.direct_outputs(abc), vec![0]);
    assert_eq!(pma.outputs(bd), vec![1]);
    assert_eq!(pma.outputs(ab), Vec::<usize>::new());
    assert_eq!(pma.outputs(root), Vec::<usize>::new());
    assert!(pma.has_state(root) && pma.has_state(abc));
}

#[test]
fn what_is_no_state_counts_as_the_root() {
    let pma = Automaton::new(strings(&["ab"]), MatchKind::Standard).unwrap();
    let root = pma.root();
    let a = pma.transition(root, 'a');
    assert!(!pma.has_state(usize::MAX));
    assert_eq!(pma.transition(usize::MAX, 'a'), a);
    assert_eq!(pma.transition(usize::MAX, 'b'), root);
    assert_eq!(pma.outputs(usize::MAX), Vec::<usize>::new());
    assert_eq!(pma.direct_outputs(usize::MAX), Vec::<usize>::new());
}

#[test]
fn many_patterns_with_shared_prefixes() {
    let words: Vec<String> = (0..500).map(|i| format!("w{}x{}", i % 37, i)).collect();
    let pma = Automaton::new(words.clone(), MatchKind::LeftmostLongest).unwrap();
    let hay: String = words.iter().map(|w| format!("{} ", w)).collect();
    let found = pma.find(&hay);
    assert_eq!(found.len(), words.len());
    for (i, f) in found.iter().enumerate() {
        assert_eq!(f.value, i);
    }
    assert_eq!(pma.find_as_strings(&hay), words);
}

#[test]
fn null_codepoint_is_a_codepoint() {
    let pma = Automaton::new(strings(&["\0", "a\0b"]), MatchKind::Standard).unwrap();
    assert_eq!(
        pma.find_overlapping("a\0b\0"),
        Ok(vec![m(1, 2, 0), m(0, 3, 1), m(3, 4, 0)])
    );
}
