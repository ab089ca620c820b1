use daachorse::{Automaton, Match, MatchKind};

/// A small generator of numbers, the same on every run.
struct Numbers(u64);

impl Numbers {
    fn next(&mut self, below: usize) -> usize {
        self.0 = self
            .0
            .wrapping_mul(6364136223846793005)
            .wrapping_add(1442695040888963407);
        ((self.0 >> 33) as usize) % below
    }

    fn text(&mut self, alphabet: &[char], longest: usize) -> Vec<char> {
        let len = 1 + self.next(longest);
        (0..len).map(|_| alphabet[self.next(alphabet.len())]).collect()
    }
}

fn occurs(pattern: &[char], hay: &[char], start: usize) -> bool {
    start + pattern.len() <= hay.len() && hay[start..start + pattern.len()] == pattern[..]
}

fn standard(pats: &[Vec<char>], hay: &[char]) -> Vec<Match> {
    let mut out = Vec::new();
    let mut lo = 0;
    for end in 1..=hay.len() {
        let mut best: Option<Match> = None;
        for (id, p) in pats.iter().enumerate() {
            if p.len() <= end - lo && occurs(p, hay, end - p.len()) {
                let start = end - p.len();
                if best.map_or(true, |b| start < b.start) {
                    best = Some(Match { start, end, value: id });
                }
            }
        }
        if let Some(b) = best {
            out.push(b);
            lo = end;
        }
    }
    out
}

fn leftmost(pats: &[Vec<char>], hay: &[char], longest: bool) -> Vec<Match> {
    let mut out = Vec::new();
    let mut start = 0;
    while start < hay.len() {
        let mut best: Option<Match> = None;
        for (id, p) in pats.iter().enumerate() {
            if occurs(p, hay, start) {
                let end = start + p.len();
                if best.map_or(true, |b| longest && end > b.end) {
                    best = Some(Match { start, end, value: id });
                }
            }
        }
        match best {
            Some(b) => {
                out.push(b);
                start = b.end;
            }
            None => start += 1,
        }
    }
    out
}

fn overlapping(pats: &[Vec<char>], hay: &[char]) -> Vec<Match> {
    let mut out = Vec::new();
    for end in 1..=hay.len() {
        for len in (1..=end).rev() {
            for (id, p) in pats.iter().enumerate() {
                if p.len() == len && occurs(p, hay, end - len) {
                    out.push(Match { start: end - len, end, value: id });
                }
            }
        }
    }
    out
}

fn no_suffix(pats: &[Vec<char>], hay: &[char]) -> Vec<Match> {
    let mut out = Vec::new();
    for end in 1..=hay.len() {
        // the longest suffix of what is read that begins a pattern
        let mut remembered = 0;
        for len in (1..=end).rev() {
            let suffix = &hay[end - len..end];
            if pats.iter().any(|p| p.len() >= len && p[..len] == suffix[..]) {
                remembered = len;
                break;
            }
        }
        for (id, p) in pats.iter().enumerate() {
            if remembered > 0 && p[..] == hay[end - remembered..end] {
                out.push(Match { start: end - remembered, end, value: id });
            }
        }
    }
    out
}

fn compare(alphabet: &[char], seed: u64, rounds: usize) {
    let mut numbers = Numbers(seed);
    for _ in 0..rounds {
        let count = 1 + numbers.next(6);
        let pats: Vec<Vec<char>> = (0..count).map(|_| numbers.text(alphabet, 4)).collect();
        let strings: Vec<String> = pats.iter().map(|p| p.iter().collect()).collect();
        let hay = numbers.text(alphabet, 24);
        let text: String = hay.iter().collect();

        let pma = Automaton::new(strings.clone(), MatchKind::Standard).unwrap();
        assert_eq!(pma.find(&text), standard(&pats, &hay), "{:?} in {:?}", strings, text);
        assert_eq!(
            pma.find_overlapping(&text).unwrap(),
            overlapping(&pats, &hay),
            "{:?} in {:?}",
            strings,
            text
        );
        assert_eq!(
            pma.find_overlapping_no_suffix(&text).unwrap(),
            no_suffix(&pats, &hay),
            "{:?} in {:?}",
            strings,
            text
        );
        let pma = Automaton::new(strings.clone(), MatchKind::LeftmostLongest).unwrap();
        assert_eq!(pma.find(&text), leftmost(&pats, &hay, true), "{:?} in {:?}", strings, text);
        let pma = Automaton::new(strings.clone(), MatchKind::LeftmostFirst).unwrap();
        assert_eq!(pma.find(&text), leftmost(&pats, &hay, false), "{:?} in {:?}", strings, text);
    }
}

#[test]
fn searches_agree_with_direct_comparison_on_two_letters() {
    compare(&['a', 'b'], 1, 3000);
}

#[test]
fn searches_agree_with_direct_comparison_on_three_letters() {
    compare(&['a', 'b', 'c'], 2, 3000);
}

#[test]
fn searches_agree_with_direct_comparison_on_wide_codepoints() {
    compare(&['a', 'é', '€', '😀'], 3, 2000);
}
