use mini_regex::parse::{parse_re, Matcher, MatcherKind, ParseError, Quantifier};

#[test]
fn empty() {
    assert_eq!(Ok(vec![]), parse_re(""));
}

#[test]
fn single_char() {
    assert_eq!(
        Ok(vec![Matcher::element('a', Quantifier::ExactlyOne)]),
        parse_re("a")
    );
}

#[test]
fn sequence() {
    assert_eq!(
        Ok(vec![
            Matcher::element('a', Quantifier::ExactlyOne),
            Matcher::element('b', Quantifier::ExactlyOne),
            Matcher::element('c', Quantifier::ExactlyOne)
        ]),
        parse_re("abc")
    );
}

#[test]
fn zero_or_one() {
    assert_eq!(
        Ok(vec![
            Matcher::element('a', Quantifier::ExactlyOne),
            Matcher::element('b', Quantifier::ZeroOrOne),
            Matcher::element('c', Quantifier::ExactlyOne)
        ]),
        parse_re("ab?c")
    );
}

#[test]
fn zero_or_more() {
    assert_eq!(
        Ok(vec![
            Matcher::element('a', Quantifier::ExactlyOne),
            Matcher::element('b', Quantifier::ZeroOrMore),
            Matcher::element('c', Quantifier::ExactlyOne)
        ]),
        parse_re("ab*c")
    );
}

#[test]
fn one_or_more() {
    assert_eq!(
        Ok(vec![
            Matcher::element('a', Quantifier::ExactlyOne),
            Matcher::element('b', Quantifier::ExactlyOne),
            Matcher::element('b', Quantifier::ZeroOrMore),
            Matcher::element('c', Quantifier::ExactlyOne)
        ]),
        parse_re("ab+c")
    );
}

#[test]
fn group() {
    assert_eq!(
        Ok(vec![
            Matcher::element('a', Quantifier::ExactlyOne),
            Matcher::group(Vec::new(), Quantifier::ExactlyOne)
        ]),
        parse_re("a()")
    );
    assert_eq!(
        Ok(vec![
            Matcher::element('a', Quantifier::ExactlyOne),
            Matcher::group(
                vec![
                    Matcher::element('b', Quantifier::ExactlyOne),
                    Matcher::element('c', Quantifier::ExactlyOne),
                ],
                Quantifier::ZeroOrOne
            ),
            Matcher::element('d', Quantifier::ExactlyOne),
        ]),
        parse_re("a(bc)?d")
    );
}

#[test]
fn constructors_set_both_fields() {
    let w = Matcher::wildcard(Quantifier::ZeroOrMore);
    assert_eq!(Quantifier::ZeroOrMore, w.quantifier);
    assert_eq!(MatcherKind::Wildcard, w.matcher_kind);

    let e = Matcher::element('x', Quantifier::ZeroOrOne);
    assert_eq!(Quantifier::ZeroOrOne, e.quantifier);
    assert_eq!(MatcherKind::Element('x'), e.matcher_kind);

    let g = Matcher::group(vec![Matcher::wildcard(Quantifier::ExactlyOne)], Quantifier::ExactlyOne);
    assert_eq!(Quantifier::ExactlyOne, g.quantifier);
    assert_eq!(
        MatcherKind::Group(vec![Matcher::wildcard(Quantifier::ExactlyOne)]),
        g.matcher_kind
    );
}

#[test]
fn clone_is_deep() {
    let node = Matcher::group(
        vec![
            Matcher::element('a', Quantifier::ZeroOrMore),
            Matcher::group(vec![Matcher::wildcard(Quantifier::ZeroOrOne)], Quantifier::ExactlyOne),
        ],
        Quantifier::ZeroOrOne,
    );
    let copy = node.clone();
    assert_eq!(node, copy);
}

#[test]
fn wildcard_symbol() {
    assert_eq!(
        Ok(vec![
            Matcher::wildcard(Quantifier::ExactlyOne),
            Matcher::wildcard(Quantifier::ZeroOrMore),
        ]),
        parse_re("..*")
    );
}

#[test]
fn plus_alone() {
    assert_eq!(
        Ok(vec![
            Matcher::element('a', Quantifier::ExactlyOne),
            Matcher::element('a', Quantifier::ZeroOrMore),
        ]),
        parse_re("a+")
    );
}

#[test]
fn plus_on_group_copies_the_group() {
    let inner = || {
        vec![
            Matcher::element('a', Quantifier::ExactlyOne),
            Matcher::element('b', Quantifier::ZeroOrOne),
        ]
    };
    assert_eq!(
        Ok(vec![
            Matcher::group(inner(), Quantifier::ExactlyOne),
            Matcher::group(inner(), Quantifier::ZeroOrMore),
        ]),
        parse_re("(ab?)+")
    );
}

#[test]
fn escape_makes_a_literal() {
    assert_eq!(
        Ok(vec![
            Matcher::element('a', Quantifier::ExactlyOne),
            Matcher::element('.', Quantifier::ExactlyOne),
            Matcher::element('b', Quantifier::ExactlyOne),
        ]),
        parse_re("a\\.b")
    );
    assert_eq!(
        Ok(vec![Matcher::element('\\', Quantifier::ExactlyOne)]),
        parse_re("\\\\")
    );
    assert_eq!(
        Ok(vec![
            Matcher::element('(', Quantifier::ExactlyOne),
            Matcher::element('*', Quantifier::ZeroOrMore),
            Matcher::element(')', Quantifier::ExactlyOne),
        ]),
        parse_re("\\(\\**\\)")
    );
}

#[test]
fn escape_takes_two_positions() {
    // the element after the escape is not read again as a symbol
    assert_eq!(
        Ok(vec![
            Matcher::element('?', Quantifier::ExactlyOne),
            Matcher::element('x', Quantifier::ExactlyOne),
        ]),
        parse_re("\\?x")
    );
    assert_eq!(
        Ok(vec![Matcher::element('+', Quantifier::ZeroOrOne)]),
        parse_re("\\+?")
    );
}

#[test]
fn nested_groups() {
    assert_eq!(
        Ok(vec![Matcher::group(
            vec![
                Matcher::element('a', Quantifier::ExactlyOne),
                Matcher::group(
                    vec![Matcher::element('b', Quantifier::ExactlyOne)],
                    Quantifier::ZeroOrMore
                ),
            ],
            Quantifier::ExactlyOne
        )]),
        parse_re("(a(b)*)")
    );
}

#[test]
fn non_ascii_elements_are_literals() {
    assert_eq!(
        Ok(vec![
            Matcher::element('é', Quantifier::ExactlyOne),
            Matcher::element('日', Quantifier::ZeroOrMore),
        ]),
        parse_re("é日*")
    );
}

#[test]
fn stacked_quantifiers_are_rejected() {
    assert_eq!(Err(ParseError::DanglingQuantifier), parse_re("a**"));
    assert_eq!(Err(ParseError::DanglingQuantifier), parse_re("a?*"));
    assert_eq!(Err(ParseError::DanglingQuantifier), parse_re("a*?"));
    assert_eq!(Err(ParseError::DanglingQuantifier), parse_re("a??"));
    assert_eq!(Err(ParseError::DanglingQuantifier), parse_re("a*+"));
}

#[test]
fn plus_cannot_be_quantified_again() {
    assert_eq!(Err(ParseError::DanglingQuantifier), parse_re("a+?"));
    assert_eq!(Err(ParseError::DanglingQuantifier), parse_re("a+*"));
    assert_eq!(Err(ParseError::DanglingQuantifier), parse_re("a++"));
}

#[test]
fn quantifier_needs_a_node() {
    assert_eq!(Err(ParseError::DanglingQuantifier), parse_re("?"));
    assert_eq!(Err(ParseError::DanglingQuantifier), parse_re("*a"));
    assert_eq!(Err(ParseError::DanglingQuantifier), parse_re("+"));
    // the level inside a group starts empty
    assert_eq!(Err(ParseError::DanglingQuantifier), parse_re("a(?b)"));
    assert_eq!(Err(ParseError::DanglingQuantifier), parse_re("a(*"));
}

#[test]
fn unmatched_close() {
    assert_eq!(Err(ParseError::UnmatchedClose { index: 0 }), parse_re(")"));
    assert_eq!(Err(ParseError::UnmatchedClose { index: 3 }), parse_re("(a))"));
    assert_eq!(Err(ParseError::UnmatchedClose { index: 2 }), parse_re("ab)("));
}

#[test]
fn unmatched_open() {
    assert_eq!(Err(ParseError::UnmatchedOpen), parse_re("(a"));
    assert_eq!(Err(ParseError::UnmatchedOpen), parse_re("("));
    assert_eq!(Err(ParseError::UnmatchedOpen), parse_re("((a)b"));
}

#[test]
fn bad_escape() {
    assert_eq!(Err(ParseError::BadEscape { index: 0 }), parse_re("\\"));
    assert_eq!(Err(ParseError::BadEscape { index: 2 }), parse_re("ab\\"));
    // an escaped backslash, then a lone one
    assert_eq!(Err(ParseError::BadEscape { index: 2 }), parse_re("\\\\\\"));
    // positions count elements, not bytes
    assert_eq!(Err(ParseError::BadEscape { index: 2 }), parse_re("é日\\"));
}

#[test]
fn first_error_wins() {
    assert_eq!(Err(ParseError::UnmatchedClose { index: 0 }), parse_re(")**"));
    assert_eq!(Err(ParseError::DanglingQuantifier), parse_re("(*))"));
}

#[test]
fn error_messages() {
    assert_eq!(
        "Bad escape character at index 0",
        ParseError::BadEscape { index: 0 }.message()
    );
    assert_eq!(
        "Bad escape character at index 1234567890",
        ParseError::BadEscape { index: 1234567890 }.message()
    );
    assert_eq!(
        "No group to close at index 7",
        ParseError::UnmatchedClose { index: 7 }.message()
    );
    assert_eq!(
        "No group to close at index 100",
        ParseError::UnmatchedClose { index: 100 }.message()
    );
    assert_eq!(
        "Unmatched groups in regular expression",
        ParseError::UnmatchedOpen.message()
    );
    assert_eq!(
        "Quantifier must follow an unqualified element or group",
        ParseError::DanglingQuantifier.message()
    );
}

#[test]
fn compiling_twice_gives_equal_trees() {
    for pattern in ["", "a", "a(b.)*c?", "(a(b(c)+)?)*", "\\(x\\)", "a**", "(a", ")", "x\\"] {
        assert_eq!(parse_re(pattern), parse_re(pattern));
    }
}
