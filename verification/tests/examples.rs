use daachorse::{Automaton, ConstructionError, InvalidConfiguration, Match, MatchKind};

fn strings(items: &[&str]) -> Vec<String> {
    items.iter().map(|s| s.to_string()).collect()
}

fn m(start: usize, end: usize, value: usize) -> Match {
    Match { start, end, value }
}

#[test]
fn standard_reports_first_ending_pattern() {
    let pma = Automaton::new(strings(&["bcd", "ab", "a"]), MatchKind::Standard).unwrap();
    assert_eq!(pma.find("abcd"), vec![m(0, 1, 2), m(1, 4, 0)]);
}

#[test]
fn leftmost_longest_prefers_longest_pattern() {
    let pma = Automaton::new(strings(&["ab", "a", "abcd"]), MatchKind::LeftmostLongest).unwrap();
    assert_eq!(pma.find("abcd"), vec![m(0, 4, 2)]);
}

#[test]
fn leftmost_first_prefers_earliest_pattern() {
    let pma = Automaton::new(strings(&["ab", "a", "abcd"]), MatchKind::LeftmostFirst).unwrap();
    assert_eq!(pma.find("abcd"), vec![m(0, 2, 0)]);
}

#[test]
fn overlapping_reports_every_occurrence() {
    let pma = Automaton::new(strings(&["bcd", "ab", "a"]), MatchKind::Standard).unwrap();
    assert_eq!(
        pma.find_overlapping("abcd"),
        Ok(vec![m(0, 1, 2), m(0, 2, 1), m(1, 4, 0)])
    );
}

#[test]
fn overlapping_no_suffix_drops_shorter_patterns() {
    let pma = Automaton::new(strings(&["bcd", "cd", "abc"]), MatchKind::Standard).unwrap();
    assert_eq!(
        pma.find_overlapping_no_suffix("abcd"),
        Ok(vec![m(0, 3, 2), m(1, 4, 0)])
    );
}

#[test]
fn find_as_strings_standard() {
    let pma = Automaton::new(strings(&["bcd", "ab", "a"]), MatchKind::Standard).unwrap();
    assert_eq!(pma.find_as_strings("abcd"), strings(&["a", "bcd"]));
}

#[test]
fn find_as_strings_leftmost_longest() {
    let pma = Automaton::new(strings(&["ab", "a", "abcd"]), MatchKind::LeftmostLongest).unwrap();
    assert_eq!(pma.find_as_strings("abcd"), strings(&["abcd"]));
}

#[test]
fn find_as_strings_leftmost_first() {
    let pma = Automaton::new(strings(&["ab", "a", "abcd"]), MatchKind::LeftmostFirst).unwrap();
    assert_eq!(pma.find_as_strings("abcd"), strings(&["ab"]));
}

#[test]
fn find_overlapping_as_strings_lists_every_pattern() {
    let pma = Automaton::new(strings(&["bcd", "ab", "a"]), MatchKind::Standard).unwrap();
    assert_eq!(
        pma.find_overlapping_as_strings("abcd"),
        Ok(strings(&["a", "ab", "bcd"]))
    );
}

#[test]
fn find_overlapping_no_suffix_as_strings_lists_longest() {
    let pma = Automaton::new(strings(&["bcd", "cd", "abc"]), MatchKind::Standard).unwrap();
    assert_eq!(
        pma.find_overlapping_no_suffix_as_strings("abcd"),
        Ok(strings(&["abc", "bcd"]))
    );
}

#[test]
fn overlapping_needs_standard_kind() {
    for kind in [MatchKind::LeftmostLongest, MatchKind::LeftmostFirst] {
        let pma = Automaton::new(strings(&["ab", "a"]), kind).unwrap();
        assert_eq!(pma.find_overlapping("abab"), Err(InvalidConfiguration));
        assert_eq!(pma.find_overlapping_no_suffix("abab"), Err(InvalidConfiguration));
        assert_eq!(pma.find_overlapping_as_strings("abab"), Err(InvalidConfiguration));
        assert_eq!(
            pma.find_overlapping_no_suffix_as_strings("abab"),
            Err(InvalidConfiguration)
        );
        // the automaton stays usable
        assert_eq!(pma.find("abab"), vec![m(0, 2, 0), m(2, 4, 0)]);
    }
}

#[test]
fn invalid_configuration_message() {
    assert_eq!(InvalidConfiguration.message(), "match_kind must be STANDARD");
}

#[test]
fn empty_pattern_set_is_rejected() {
    let r = Automaton::new(Vec::new(), MatchKind::Standard);
    assert!(matches!(r, Err(ConstructionError::NoPatterns)));
}

#[test]
fn empty_pattern_is_rejected() {
    for kind in [MatchKind::Standard, MatchKind::LeftmostLongest, MatchKind::LeftmostFirst] {
        let r = Automaton::new(strings(&["ab", "", "c"]), kind);
        assert!(matches!(r, Err(ConstructionError::EmptyPattern)));
    }
}

#[test]
fn construction_error_messages() {
    assert_eq!(
        ConstructionError::NoPatterns.message(),
        "the pattern set must hold at least one pattern"
    );
    assert_eq!(
        ConstructionError::EmptyPattern.message(),
        "a pattern must hold at least one character"
    );
    assert_eq!(
        ConstructionError::TooLarge.message(),
        "the automaton is too large to be indexed"
    );
}
