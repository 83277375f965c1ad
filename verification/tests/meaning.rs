use mini_regex::parse::{parse_re, Matcher, MatcherKind, Quantifier};
use mini_regex::rx_match::{test_re, Re};

// The search written as plain recursion, to hold the matcher against.

fn attempt(node: &Matcher, s: &[char], i: usize) -> (bool, usize) {
    match &node.matcher_kind {
        MatcherKind::Wildcard => {
            if i < s.len() {
                (true, 1)
            } else {
                (false, 0)
            }
        }
        MatcherKind::Element(c) => {
            if i < s.len() && *c == s[i] {
                (true, 1)
            } else {
                (false, 0)
            }
        }
        MatcherKind::Group(items) => {
            if i <= s.len() {
                solve(items, &s[i..], 0, 0)
            } else {
                (false, 0)
            }
        }
    }
}

fn solve(nodes: &[Matcher], s: &[char], k: usize, i: usize) -> (bool, usize) {
    if k >= nodes.len() {
        return (true, i);
    }
    let (ok, took) = attempt(&nodes[k], s, i);
    match nodes[k].quantifier {
        Quantifier::ExactlyOne => {
            if ok {
                solve(nodes, s, k + 1, i + took)
            } else {
                (false, i)
            }
        }
        Quantifier::ZeroOrOne => {
            if ok && took > 0 {
                let with = solve(nodes, s, k + 1, i + took);
                if with.0 {
                    with
                } else {
                    solve(nodes, s, k + 1, i)
                }
            } else {
                solve(nodes, s, k + 1, i)
            }
        }
        Quantifier::ZeroOrMore => {
            if i < s.len() && ok && took > 0 {
                let more = solve(nodes, s, k, i + took);
                if more.0 {
                    more
                } else {
                    solve(nodes, s, k + 1, i)
                }
            } else {
                solve(nodes, s, k + 1, i)
            }
        }
    }
}

struct Dice(u64);

impl Dice {
    fn roll(&mut self, sides: u64) -> u64 {
        self.0 = self
            .0
            .wrapping_mul(6364136223846793005)
            .wrapping_add(1442695040888963407);
        (self.0 >> 33) % sides
    }
}

fn some_pattern(dice: &mut Dice, depth: u32) -> String {
    let mut text = String::new();
    for _ in 0..dice.roll(5) {
        match dice.roll(10) {
            0..=4 => text.push(if dice.roll(2) == 0 { 'a' } else { 'b' }),
            5 => text.push('.'),
            6 | 7 if depth < 3 => {
                text.push('(');
                text.push_str(&some_pattern(dice, depth + 1));
                text.push(')');
            }
            _ => text.push('c'),
        }
        match dice.roll(5) {
            0 => text.push('?'),
            1 => text.push('*'),
            2 => text.push('+'),
            _ => {}
        }
    }
    text
}

fn some_subject(dice: &mut Dice) -> Vec<char> {
    let mut subject = Vec::new();
    for _ in 0..dice.roll(7) {
        subject.push(if dice.roll(3) == 0 { 'b' } else { 'a' });
    }
    subject
}

#[test]
fn matcher_agrees_with_the_recursive_search() {
    let mut dice = Dice(2024);
    for _ in 0..20000 {
        let pattern = some_pattern(&mut dice, 0);
        let subject = some_subject(&mut dice);
        let nodes = parse_re(&pattern).unwrap();
        let expected = solve(&nodes, &subject, 0, 0);
        let found = Re::new(&nodes).test_internal(&subject);
        assert_eq!(Ok(expected), found);
    }
}

#[test]
fn test_re_agrees_with_the_recursive_search() {
    let mut dice = Dice(7);
    for _ in 0..20000 {
        let pattern = some_pattern(&mut dice, 0);
        let subject = some_subject(&mut dice);
        let nodes = parse_re(&pattern).unwrap();
        let (matched, end) = solve(&nodes, &subject, 0, 0);
        let expected = if matched { Some(end) } else { None };
        let text: String = subject.iter().collect();
        assert_eq!(Ok(expected), test_re(&pattern, &text));
        if let Some(n) = expected {
            assert!(n <= subject.len());
        }
    }
}

// Whether the nodes fit the whole word, by trying every way to cut it.

fn fits_node(node: &Matcher, piece: &[char]) -> bool {
    match &node.matcher_kind {
        MatcherKind::Wildcard => piece.len() == 1,
        MatcherKind::Element(c) => piece.len() == 1 && piece[0] == *c,
        MatcherKind::Group(items) => fits(items, 0, piece),
    }
}

fn fits(nodes: &[Matcher], k: usize, word: &[char]) -> bool {
    if k >= nodes.len() {
        return word.is_empty();
    }
    let (first, next) = match nodes[k].quantifier {
        Quantifier::ExactlyOne => (0, k + 1),
        Quantifier::ZeroOrOne => {
            if fits(nodes, k + 1, word) {
                return true;
            }
            (0, k + 1)
        }
        Quantifier::ZeroOrMore => {
            if fits(nodes, k + 1, word) {
                return true;
            }
            (1, k)
        }
    };
    (first..=word.len()).any(|m| fits_node(&nodes[k], &word[..m]) && fits(nodes, next, &word[m..]))
}

#[test]
fn every_match_is_real() {
    let mut dice = Dice(99);
    let mut matches = 0;
    for _ in 0..20000 {
        let pattern = some_pattern(&mut dice, 0);
        let subject = some_subject(&mut dice);
        let text: String = subject.iter().collect();
        if let Ok(Some(n)) = test_re(&pattern, &text) {
            let nodes = parse_re(&pattern).unwrap();
            assert!(n <= subject.len());
            assert!(fits(&nodes, 0, &subject[..n]));
            matches += 1;
        }
    }
    assert!(matches > 1000);
}

#[test]
fn fitting_on_chosen_words() {
    let word = |text: &str| -> Vec<char> { text.chars().collect() };
    let nodes = parse_re("a(bcd)?c").unwrap();
    assert!(fits(&nodes, 0, &word("ac")));
    assert!(fits(&nodes, 0, &word("abcdc")));
    assert!(!fits(&nodes, 0, &word("abcc")));
    assert!(!fits(&nodes, 0, &word("a")));
    assert_eq!(Ok(None), test_re("a(bcd)?c", "abcc"));
    let empty_group = parse_re("a()").unwrap();
    assert!(fits(&empty_group, 0, &word("a")));
    assert_eq!(Ok(Some(1)), test_re("a()", "a"));
}
