//! The pattern compiler: from pattern text to a sequence of quantified
//! matcher nodes.
//!
//! The pattern language has literal elements, `.` for any one element, `\x`
//! for the literal `x`, `(` and `)` for grouping, and the postfix quantifiers
//! `?`, `*` and `+`.

use vstd::prelude::*;
use vstd::string::StringExecFns;
use crate::text::{chars_of, decimal, decimal_string};

verus! {

/// How often a matcher node may repeat.
#[derive(Debug, PartialEq, Eq, Clone, Copy, Structural)]
pub enum Quantifier {
    ExactlyOne,
    ZeroOrOne,
    ZeroOrMore,
}

/// Mathematical form of what a node matches, apart from its quantifier.
pub ghost enum NodeKind {
    /// Any single element.
    Wildcard,
    /// One element equal to the given one.
    Literal(char),
    /// A nested sequence, matched as one unit.
    Group(Seq<Node>),
}

/// Mathematical form of a quantified matcher node.
pub ghost struct Node {
    pub quantifier: Quantifier,
    pub kind: NodeKind,
}

/// What a single matcher node matches, apart from its quantifier.
#[derive(Debug, PartialEq)]
pub enum MatcherKind {
    Wildcard,
    Element(char),
    Group(Vec<Matcher>),
}

/// One parsed unit of a pattern together with its quantifier.
#[derive(Debug, PartialEq)]
pub struct Matcher {
    pub quantifier: Quantifier,
    pub matcher_kind: MatcherKind,
}

/// The nodes that a sequence of matchers stands for.
pub open spec fn nodes_view(items: Seq<Matcher>) -> Seq<Node>
    decreases items, 2int,
{
    Seq::new(
        items.len(),
        |i: int|
            if 0 <= i < items.len() {
                items[i]@
            } else {
                arbitrary()
            },
    )
}

impl View for MatcherKind {
    type V = NodeKind;

    open spec fn view(&self) -> NodeKind
        decreases self, 0int,
    {
        match self {
            MatcherKind::Wildcard => NodeKind::Wildcard,
            MatcherKind::Element(c) => NodeKind::Literal(*c),
            MatcherKind::Group(items) => NodeKind::Group(nodes_view(items@)),
        }
    }
}

impl View for Matcher {
    type V = Node;

    open spec fn view(&self) -> Node
        decreases self, 1int,
    {
        Node { quantifier: self.quantifier, kind: self.matcher_kind@ }
    }
}

/// Copies a sequence of matchers.
fn clone_items(items: &Vec<Matcher>) -> (copy: Vec<Matcher>)
    ensures
        nodes_view(copy@) == nodes_view(items@),
    decreases items, 2int,
{
    let mut copy: Vec<Matcher> = Vec::new();
    let mut j: usize = 0;
    while j < items.len()
        invariant
            j <= items.len(),
            copy.len() == j,
            forall|t: int| 0 <= t < j ==> copy[t]@ == items[t]@,
        decreases items.len() - j,
    {
        copy.push(items[j].clone());
        j += 1;
    }
    assert(nodes_view(copy@) =~= nodes_view(items@));
    copy
}

impl Clone for MatcherKind {
    /// A deep copy: the clone stands for the same kind of node.
    fn clone(&self) -> (copy: Self)
        ensures
            copy@ == self@,
        decreases self, 0int,
    {
        match self {
            MatcherKind::Wildcard => MatcherKind::Wildcard,
            MatcherKind::Element(c) => MatcherKind::Element(*c),
            MatcherKind::Group(items) => MatcherKind::Group(clone_items(items)),
        }
    }
}

impl Clone for Matcher {
    /// A deep copy: the clone stands for the same node.
    fn clone(&self) -> (copy: Self)
        ensures
            copy@ == self@,
        decreases self, 1int,
    {
        Matcher { quantifier: self.quantifier, matcher_kind: self.matcher_kind.clone() }
    }
}

impl Matcher {
    /// A node that matches any single element.
    pub fn wildcard(q: Quantifier) -> (m: Self)
        ensures
            m.quantifier == q,
            m.matcher_kind == MatcherKind::Wildcard,
            m@ == (Node { quantifier: q, kind: NodeKind::Wildcard }),
    {
        Self { quantifier: q, matcher_kind: MatcherKind::Wildcard }
    }

    /// A node that matches one element equal to `c`.
    pub fn element(c: char, q: Quantifier) -> (m: Self)
        ensures
            m.quantifier == q,
            m.matcher_kind == MatcherKind::Element(c),
            m@ == (Node { quantifier: q, kind: NodeKind::Literal(c) }),
    {
        Self { quantifier: q, matcher_kind: MatcherKind::Element(c) }
    }

    /// A node that matches the sequence `items` as one unit.
    pub fn group(items: Vec<Matcher>, q: Quantifier) -> (m: Self)
        ensures
            m.quantifier == q,
            m.matcher_kind == MatcherKind::Group(items),
            m@ == (Node { quantifier: q, kind: NodeKind::Group(nodes_view(items@)) }),
    {
        Self { quantifier: q, matcher_kind: MatcherKind::Group(items) }
    }
}

/// Why a pattern failed to compile. Positions count the elements of the
/// pattern from 0.
#[derive(Debug, PartialEq, Eq, Clone, Copy, Structural)]
pub enum ParseError {
    /// The pattern ends in a `\` with nothing after it; `index` is the
    /// position of that `\`.
    BadEscape { index: usize },
    /// A `)` with no open group; `index` is its position.
    UnmatchedClose { index: usize },
    /// The pattern ended while a group was still open.
    UnmatchedOpen,
    /// A `?`, `*` or `+` with no node before it at its nesting level, or
    /// after a node that already has a quantifier.
    DanglingQuantifier,
}

impl ParseError {
    /// The text of the error, as `message` writes it.
    pub open spec fn message_text(self) -> Seq<char> {
        match self {
            ParseError::BadEscape { index } => "Bad escape character at index "@ + decimal(
                index as nat,
            ),
            ParseError::UnmatchedClose { index } => "No group to close at index "@ + decimal(
                index as nat,
            ),
            ParseError::UnmatchedOpen => "Unmatched groups in regular expression"@,
            ParseError::DanglingQuantifier =>
                "Quantifier must follow an unqualified element or group"@,
        }
    }

    /// A sentence that describes the error.
    pub fn message(&self) -> (text: String)
        ensures
            text@ == self.message_text(),
    {
        match self {
            ParseError::BadEscape { index } => {
                let number = decimal_string(*index);
                String::from_str("Bad escape character at index ").concat(number.as_str())
            },
            ParseError::UnmatchedClose { index } => {
                let number = decimal_string(*index);
                String::from_str("No group to close at index ").concat(number.as_str())
            },
            ParseError::UnmatchedOpen => String::from_str("Unmatched groups in regular expression"),
            ParseError::DanglingQuantifier => String::from_str(
                "Quantifier must follow an unqualified element or group",
            ),
        }
    }
}

/// The levels with `node` appended to the innermost one.
pub open spec fn appended(levels: Seq<Seq<Node>>, node: Node) -> Seq<Seq<Node>> {
    levels.drop_last().push(levels.last().push(node))
}

/// Whether a quantifier may follow here: the innermost level has a last
/// node, and that node has no quantifier yet.
pub open spec fn quantifiable(levels: Seq<Seq<Node>>) -> bool {
    levels.last().len() > 0 && levels.last().last().quantifier == Quantifier::ExactlyOne
}

/// The last node of the innermost level, with quantifier `q`.
pub open spec fn last_with(levels: Seq<Seq<Node>>, q: Quantifier) -> Node {
    Node { quantifier: q, kind: levels.last().last().kind }
}

/// The levels with the quantifier of the last node of the innermost level
/// set to `q`.
pub open spec fn requantified(levels: Seq<Seq<Node>>, q: Quantifier) -> Seq<Seq<Node>> {
    levels.drop_last().push(levels.last().drop_last().push(last_with(levels, q)))
}

/// The levels with the innermost one closed: it becomes a group node with
/// no quantifier, appended to the level around it.
pub open spec fn closed(levels: Seq<Seq<Node>>) -> Seq<Seq<Node>> {
    appended(
        levels.drop_last(),
        Node { quantifier: Quantifier::ExactlyOne, kind: NodeKind::Group(levels.last()) },
    )
}

/// A node without quantifier for the literal element `c`.
pub open spec fn literal(c: char) -> Node {
    Node { quantifier: Quantifier::ExactlyOne, kind: NodeKind::Literal(c) }
}

/// What compiling gives when `pattern` has been read up to position `pos`
/// and `levels` holds the open nesting levels, outermost first.
pub open spec fn compile_from(levels: Seq<Seq<Node>>, pattern: Seq<char>, pos: nat) -> Result<
    Seq<Node>,
    ParseError,
>
    decreases pattern.len() - pos,
{
    if pos >= pattern.len() {
        if levels.len() == 1 {
            Ok(levels[0])
        } else {
            Err(ParseError::UnmatchedOpen)
        }
    } else {
        let c = pattern[pos as int];
        if c == '.' {
            let any = Node { quantifier: Quantifier::ExactlyOne, kind: NodeKind::Wildcard };
            compile_from(appended(levels, any), pattern, pos + 1)
        } else if c == '\\' {
            if pos + 1 >= pattern.len() {
                Err(ParseError::BadEscape { index: pos as usize })
            } else {
                compile_from(appended(levels, literal(pattern[pos as int + 1])), pattern, pos + 2)
            }
        } else if c == '(' {
            compile_from(levels.push(Seq::empty()), pattern, pos + 1)
        } else if c == ')' {
            if levels.len() <= 1 {
                Err(ParseError::UnmatchedClose { index: pos as usize })
            } else {
                compile_from(closed(levels), pattern, pos + 1)
            }
        } else if c == '?' || c == '*' || c == '+' {
            if !quantifiable(levels) {
                Err(ParseError::DanglingQuantifier)
            } else if c == '?' {
                compile_from(requantified(levels, Quantifier::ZeroOrOne), pattern, pos + 1)
            } else if c == '*' {
                compile_from(requantified(levels, Quantifier::ZeroOrMore), pattern, pos + 1)
            } else {
                compile_from(
                    appended(levels, last_with(levels, Quantifier::ZeroOrMore)),
                    pattern,
                    pos + 1,
                )
            }
        } else {
            compile_from(appended(levels, literal(c)), pattern, pos + 1)
        }
    }
}

/// The compiled form of `pattern`, or the reason why it has none.
pub open spec fn compile(pattern: Seq<char>) -> Result<Seq<Node>, ParseError> {
    compile_from(seq![Seq::empty()], pattern, 0)
}

/// Whether `c` has a meaning of its own in a pattern.
pub open spec fn is_symbol(c: char) -> bool {
    c == '.' || c == '\\' || c == '(' || c == ')' || c == '?' || c == '*' || c == '+'
}

/// The nodes of a pattern that is made of the plain literals of `word`.
pub open spec fn plain(word: Seq<char>) -> Seq<Node> {
    Seq::new(word.len(), |j: int| literal(word[j]))
}

/// Reading plain text adds one literal per element to the root level.
proof fn lemma_compile_plain_from(word: Seq<char>, pos: nat)
    requires
        forall|j: int| 0 <= j < word.len() ==> !is_symbol(#[trigger] word[j]),
        pos <= word.len(),
    ensures
        compile_from(seq![plain(word.subrange(0, pos as int))], word, pos) == Ok::<
            Seq<Node>,
            ParseError,
        >(plain(word)),
    decreases word.len() - pos,
{
    let levels = seq![plain(word.subrange(0, pos as int))];
    if pos < word.len() {
        assert(!is_symbol(word[pos as int]));
        assert(appended(levels, literal(word[pos as int])) =~~= seq![
            plain(word.subrange(0, pos as int + 1)),
        ]);
        lemma_compile_plain_from(word, pos + 1);
    } else {
        assert(word.subrange(0, pos as int) =~= word);
    }
}

/// Text without symbols compiles to itself: one plain literal per element,
/// in order.
pub proof fn lemma_compile_plain(word: Seq<char>)
    requires
        forall|j: int| 0 <= j < word.len() ==> !is_symbol(#[trigger] word[j]),
    ensures
        compile(word) == Ok::<Seq<Node>, ParseError>(plain(word)),
{
    assert(seq![plain(word.subrange(0, 0))] =~~= seq![Seq::<Node>::empty()]);
    lemma_compile_plain_from(word, 0);
}

/// Whether `outcome` is what compiling `pattern` gives: the same error, or
/// matchers that stand for the compiled nodes.
pub open spec fn parsed(pattern: Seq<char>, outcome: Result<Vec<Matcher>, ParseError>) -> bool {
    match compile(pattern) {
        Ok(nodes) => outcome is Ok && nodes_view(outcome->Ok_0@) == nodes,
        Err(e) => outcome == Err::<Vec<Matcher>, ParseError>(e),
    }
}

/// Whether two outcomes of compiling agree: both carry the same error, or
/// both hold trees that stand for the same nodes.
pub open spec fn same_parse(
    first: Result<Vec<Matcher>, ParseError>,
    second: Result<Vec<Matcher>, ParseError>,
) -> bool {
    match (first, second) {
        (Ok(a), Ok(b)) => nodes_view(a@) == nodes_view(b@),
        (Err(a), Err(b)) => a == b,
        _ => false,
    }
}

/// Compiling is deterministic: whatever two compilations of the same
/// pattern text return, they agree. Both fail with the same error, or both
/// give structurally equal trees.
pub proof fn lemma_compile_deterministic(
    pattern: Seq<char>,
    first: Result<Vec<Matcher>, ParseError>,
    second: Result<Vec<Matcher>, ParseError>,
)
    requires
        parsed(pattern, first),
        parsed(pattern, second),
    ensures
        same_parse(first, second),
{
}

/// The open levels that a stack of matcher sequences stands for.
pub open spec fn levels_view(stack: Seq<Vec<Matcher>>) -> Seq<Seq<Node>> {
    Seq::new(stack.len(), |j: int| nodes_view(stack[j]@))
}

/// Appends `m` to the innermost open level.
fn push_node(stack: &mut Vec<Vec<Matcher>>, m: Matcher)
    requires
        old(stack).len() > 0,
    ensures
        final(stack).len() == old(stack).len(),
        levels_view(final(stack)@) == appended(levels_view(old(stack)@), m@),
{
    let top = stack.last_mut().unwrap();
    top.push(m);
    assert(levels_view(stack@) =~~= appended(levels_view(old(stack)@), m@));
}

/// Gives the last node of the innermost level the quantifier `q`, where a
/// quantifier may follow; otherwise changes nothing and reports the error.
fn set_last_quantifier(stack: &mut Vec<Vec<Matcher>>, q: Quantifier) -> (r: Result<(), ParseError>)
    requires
        old(stack).len() > 0,
    ensures
        final(stack).len() == old(stack).len(),
        quantifiable(levels_view(old(stack)@)) ==> r is Ok && levels_view(final(stack)@)
            == requantified(levels_view(old(stack)@), q),
        !quantifiable(levels_view(old(stack)@)) ==> r == Err::<(), ParseError>(
            ParseError::DanglingQuantifier,
        ) && levels_view(final(stack)@) == levels_view(old(stack)@),
{
    let ghost before = levels_view(stack@);
    let top = stack.last_mut().unwrap();
    let r = match top.last_mut() {
        None => Err(ParseError::DanglingQuantifier),
        Some(last_elem) => {
            if last_elem.quantifier != Quantifier::ExactlyOne {
                Err(ParseError::DanglingQuantifier)
            } else {
                last_elem.quantifier = q;
                Ok(())
            }
        },
    };
    proof {
        let after = levels_view(stack@);
        assert(after.len() == before.len());
        assert(after.drop_last() =~= before.drop_last());
        if quantifiable(before) {
            assert(after.last() =~= before.last().drop_last().push(last_with(before, q)));
            assert(after =~= requantified(before, q));
        } else {
            assert(after.last() =~= before.last());
            assert(after =~= before);
        }
    }
    r
}

/// Compiles pattern text into its sequence of matcher nodes, in one pass
/// from left to right over a stack of open nesting levels.
///
/// Fails when a `\` ends the pattern, when a `)` has no open group, when a
/// quantifier has nothing to apply to, or when a group is left open.
pub fn parse_re(re: &str) -> (r: Result<Vec<Matcher>, ParseError>)
    ensures
        parsed(re@, r),
{
    let pattern = chars_of(re);
    let mut stack: Vec<Vec<Matcher>> = Vec::new();
    stack.push(Vec::new());
    assert(levels_view(stack@) =~~= seq![Seq::<Node>::empty()]);

    let mut i: usize = 0;
    while i < pattern.len()
        invariant
            pattern@ == re@,
            i <= pattern.len(),
            stack.len() >= 1,
            compile_from(levels_view(stack@), pattern@, i as nat) == compile(pattern@),
        decreases pattern.len() - i,
    {
        let ghost levels = levels_view(stack@);
        let next = pattern[i];
        match next {
            '.' => {
                push_node(&mut stack, Matcher::wildcard(Quantifier::ExactlyOne));
                i += 1;
            },
            '\\' => {
                if i + 1 >= pattern.len() {
                    return Err(ParseError::BadEscape { index: i });
                }
                push_node(&mut stack, Matcher::element(pattern[i + 1], Quantifier::ExactlyOne));
                i += 2;
            },
            '(' => {
                stack.push(Vec::new());
                assert(levels_view(stack@) =~~= levels.push(Seq::empty()));
                i += 1;
            },
            ')' => {
                if stack.len() <= 1 {
                    return Err(ParseError::UnmatchedClose { index: i });
                }
                let states = stack.pop().unwrap();
                assert(levels_view(stack@) =~~= levels.drop_last());
                push_node(&mut stack, Matcher::group(states, Quantifier::ExactlyOne));
                i += 1;
            },
            '?' => {
                set_last_quantifier(&mut stack, Quantifier::ZeroOrOne)?;
                i += 1;
            },
            '*' => {
                set_last_quantifier(&mut stack, Quantifier::ZeroOrMore)?;
                i += 1;
            },
            '+' => {
                let top = &stack[stack.len() - 1];
                if top.len() == 0 {
                    return Err(ParseError::DanglingQuantifier);
                }
                let last_elem = &top[top.len() - 1];
                if last_elem.quantifier != Quantifier::ExactlyOne {
                    return Err(ParseError::DanglingQuantifier);
                }
                // split into two nodes: the node itself, then zero or more of it
                let mut zero_or_more_copy = last_elem.clone();
                zero_or_more_copy.quantifier = Quantifier::ZeroOrMore;
                push_node(&mut stack, zero_or_more_copy);
                i += 1;
            },
            _ => {
                push_node(&mut stack, Matcher::element(next, Quantifier::ExactlyOne));
                i += 1;
            },
        }
    }

    if stack.len() != 1 {
        return Err(ParseError::UnmatchedOpen);
    }
    Ok(stack.pop().unwrap())
}

} // verus!
