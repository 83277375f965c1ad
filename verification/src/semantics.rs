//! What it means for a compiled pattern to match a subject.
//!
//! The meaning is given as a recursive search: nodes are taken left to
//! right, repetition is greedy, and a failure further right makes the
//! nearest repeating node give back its most recent repetition. A group is
//! matched as one unit by a search of its own, and never gives back a
//! part of what it took.

use vstd::prelude::*;
use crate::parse::{literal, plain, Node, NodeKind, Quantifier};

verus! {

/// One attempt to match the bare node (its quantifier set aside) at offset
/// `i`: whether it matched, and how many elements the attempt covered.
///
/// A wildcard and a literal need an element at `i`, so they fail at the end
/// of the subject. A group is matched by running its own sequence on the
/// rest of the subject, which may be empty: a group matches there when its
/// sequence matches the empty prefix. When the group's run fails, the
/// second component is the offset that the run reports.
pub open spec fn attempt(node: Node, s: Seq<char>, i: nat) -> (bool, nat)
    decreases node, 0int, 0int,
{
    match node.kind {
        NodeKind::Wildcard => if i < s.len() { (true, 1) } else { (false, 0) },
        NodeKind::Literal(c) => if i < s.len() && s[i as int] == c { (true, 1) } else { (false, 0) },
        NodeKind::Group(items) => {
            if i <= s.len() {
                run(items, s.subrange(i as int, s.len() as int))
            } else {
                (false, 0)
            }
        },
    }
}

/// The room left in the subject from offset `i`.
pub open spec fn room(s: Seq<char>, i: nat) -> nat {
    if i <= s.len() { (s.len() - i) as nat } else { 0 }
}

/// The outcome of matching the nodes from index `k` on, starting at offset
/// `i`: `(true, end)` with the offset just past the match, or `(false, at)`
/// with the offset at which the last alternative tried gave up.
///
/// - A node without quantifier must match once; where it does not, the
///   search from here fails at `i`.
/// - An optional node that matches at least one element is first kept; if
///   the rest then fails, the rest is tried again without it. An optional
///   node that does not match, or matches nothing, takes nothing: the
///   search moves on at `i`.
/// - A repeating node repeats while it matches at least one element and
///   the subject is not exhausted; if the rest then fails, the rest is
///   tried again with one repetition less, down to none.
pub open spec fn solve(nodes: Seq<Node>, s: Seq<char>, k: nat, i: nat) -> (bool, nat)
    decreases nodes, nodes.len() - k, room(s, i),
{
    if k >= nodes.len() {
        (true, i)
    } else {
        let a = attempt(nodes[k as int], s, i);
        match nodes[k as int].quantifier {
            Quantifier::ExactlyOne => {
                if a.0 {
                    solve(nodes, s, k + 1, i + a.1)
                } else {
                    (false, i)
                }
            },
            Quantifier::ZeroOrOne => {
                if a.0 && a.1 > 0 {
                    let with = solve(nodes, s, k + 1, i + a.1);
                    if with.0 { with } else { solve(nodes, s, k + 1, i) }
                } else {
                    solve(nodes, s, k + 1, i)
                }
            },
            Quantifier::ZeroOrMore => {
                if i < s.len() && a.0 && a.1 > 0 {
                    let more = solve(nodes, s, k, i + a.1);
                    if more.0 { more } else { solve(nodes, s, k + 1, i) }
                } else {
                    solve(nodes, s, k + 1, i)
                }
            },
        }
    }
}

/// The outcome of matching a whole node sequence against a subject,
/// anchored at offset 0.
pub open spec fn run(nodes: Seq<Node>, s: Seq<char>) -> (bool, nat)
    decreases nodes, nodes.len() + 1, 0int,
{
    solve(nodes, s, 0, 0)
}

/// Where a failing search gives up: the index of the node at which the
/// last alternative tried fails. In that alternative every optional and
/// every repeating node takes nothing, so it is the first node without
/// quantifier that does not match when only such nodes take anything.
/// Where no such node fails, the result is the number of nodes.
pub open spec fn gives_up_at(nodes: Seq<Node>, s: Seq<char>, k: nat, i: nat) -> nat
    decreases nodes.len() - k,
{
    if k >= nodes.len() {
        nodes.len()
    } else {
        match nodes[k as int].quantifier {
            Quantifier::ExactlyOne => {
                let a = attempt(nodes[k as int], s, i);
                if a.0 {
                    gives_up_at(nodes, s, k + 1, i + a.1)
                } else {
                    k
                }
            },
            _ => gives_up_at(nodes, s, k + 1, i),
        }
    }
}

/// A search that fails gives up at one of its nodes, at or after the node
/// it began with, and that node has no quantifier.
pub proof fn lemma_gives_up_inside(nodes: Seq<Node>, s: Seq<char>, k: nat, i: nat)
    ensures
        !solve(nodes, s, k, i).0 ==> {
            &&& k <= gives_up_at(nodes, s, k, i) < nodes.len()
            &&& nodes[gives_up_at(nodes, s, k, i) as int].quantifier == Quantifier::ExactlyOne
        },
    decreases nodes.len() - k,
{
    if k < nodes.len() {
        let a = attempt(nodes[k as int], s, i);
        match nodes[k as int].quantifier {
            Quantifier::ExactlyOne => {
                if a.0 {
                    lemma_gives_up_inside(nodes, s, k + 1, i + a.1);
                }
            },
            _ => {
                lemma_gives_up_inside(nodes, s, k + 1, i);
            },
        }
    }
}

/// An attempt never covers more than what is left of the subject.
pub proof fn lemma_attempt_in_bounds(node: Node, s: Seq<char>, i: nat)
    ensures
        attempt(node, s, i).1 <= room(s, i),
    decreases node, 0int, 0int,
{
    if i <= s.len() {
        match node.kind {
            NodeKind::Group(items) => {
                lemma_solve_in_bounds(items, s.subrange(i as int, s.len() as int), 0, 0);
            },
            _ => {},
        }
    }
}

/// A search that starts inside the subject ends inside it, whether it
/// matches or not.
pub proof fn lemma_solve_in_bounds(nodes: Seq<Node>, s: Seq<char>, k: nat, i: nat)
    requires
        i <= s.len(),
    ensures
        solve(nodes, s, k, i).1 <= s.len(),
    decreases nodes, nodes.len() - k, room(s, i),
{
    if k < nodes.len() {
        let a = attempt(nodes[k as int], s, i);
        lemma_attempt_in_bounds(nodes[k as int], s, i);
        match nodes[k as int].quantifier {
            Quantifier::ExactlyOne => {
                if a.0 {
                    lemma_solve_in_bounds(nodes, s, k + 1, i + a.1);
                }
            },
            Quantifier::ZeroOrOne => {
                if a.0 && a.1 > 0 {
                    lemma_solve_in_bounds(nodes, s, k + 1, i + a.1);
                }
                lemma_solve_in_bounds(nodes, s, k + 1, i);
            },
            Quantifier::ZeroOrMore => {
                if i < s.len() && a.0 && a.1 > 0 {
                    lemma_solve_in_bounds(nodes, s, k, i + a.1);
                }
                lemma_solve_in_bounds(nodes, s, k + 1, i);
            },
        }
    }
}

/// A match is a prefix of the subject: its length never exceeds the
/// subject's.
pub proof fn lemma_run_in_bounds(nodes: Seq<Node>, s: Seq<char>)
    ensures
        run(nodes, s).1 <= s.len(),
{
    lemma_solve_in_bounds(nodes, s, 0, 0);
}

/// Matching is anchored: a pattern that begins with a plain literal does
/// not match a subject that begins with anything else, however well the
/// pattern fits further right. The failure is reported at offset 0.
pub proof fn lemma_anchored_at_start(nodes: Seq<Node>, s: Seq<char>, c: char)
    requires
        nodes.len() > 0,
        nodes[0] == (Node { quantifier: Quantifier::ExactlyOne, kind: NodeKind::Literal(c) }),
        s.len() == 0 || s[0] != c,
    ensures
        run(nodes, s) == (false, 0nat),
{
}

/// Plain literals that have matched up to `k` match on exactly when the
/// subject begins with all of them.
proof fn lemma_plain_from(word: Seq<char>, s: Seq<char>, k: nat)
    requires
        k <= word.len(),
        k <= s.len(),
        word.subrange(0, k as int) =~= s.subrange(0, k as int),
    ensures
        solve(plain(word), s, k, k).0 <==> word.is_prefix_of(s),
        solve(plain(word), s, k, k).0 ==> solve(plain(word), s, k, k).1 == word.len(),
    decreases word.len() - k,
{
    let nodes = plain(word);
    if k < word.len() {
        assert(nodes[k as int] == literal(word[k as int]));
        let a = attempt(nodes[k as int], s, k);
        if k < s.len() && s[k as int] == word[k as int] {
            assert(a == (true, 1nat));
            assert(solve(nodes, s, k, k) == solve(nodes, s, k + 1, k + 1));
            assert(word.subrange(0, k as int + 1) =~= word.subrange(0, k as int).push(
                word[k as int],
            ));
            assert(s.subrange(0, k as int + 1) =~= s.subrange(0, k as int).push(s[k as int]));
            lemma_plain_from(word, s, k + 1);
        } else {
            assert(a == (false, 0nat));
            assert(solve(nodes, s, k, k) == (false, k));
            if word.is_prefix_of(s) {
                assert(word[k as int] == s.subrange(0, word.len() as int)[k as int]);
            }
        }
    } else {
        assert(solve(nodes, s, k, k) == (true, k));
        assert(word.subrange(0, k as int) =~= word);
    }
}

/// A pattern of plain literals matches exactly the subjects that begin
/// with those elements, and matches as many elements as it has.
pub proof fn lemma_plain_match(word: Seq<char>, s: Seq<char>)
    ensures
        run(plain(word), s) == (true, word.len()) <==> word.is_prefix_of(s),
        run(plain(word), s).0 <==> word.is_prefix_of(s),
{
    assert(word.subrange(0, 0) =~= s.subrange(0, 0));
    lemma_plain_from(word, s, 0);
}

/// Whether the bare node (its quantifier set aside) matches the whole of
/// `piece`: a wildcard any one element, a literal its own element, a group
/// whatever its sequence fits.
pub open spec fn fits_node(node: Node, piece: Seq<char>) -> bool
    decreases node, 0int, 0int,
{
    match node.kind {
        NodeKind::Wildcard => piece.len() == 1,
        NodeKind::Literal(c) => piece =~= seq![c],
        NodeKind::Group(items) => fits(items, 0, piece),
    }
}

/// Whether the nodes from index `k` on fit the whole of `word`: `word` is
/// a concatenation, in the order of the nodes, of one piece for each node
/// without quantifier, at most one for each optional node, and any number
/// of pieces for each repeating node.
pub open spec fn fits(nodes: Seq<Node>, k: nat, word: Seq<char>) -> bool
    decreases nodes, nodes.len() - k, word.len(),
{
    if k >= nodes.len() {
        word.len() == 0
    } else {
        match nodes[k as int].quantifier {
            Quantifier::ExactlyOne => exists|m: int|
                0 <= m <= word.len() && fits_node(nodes[k as int], #[trigger] word.subrange(0, m))
                    && fits(nodes, k + 1, word.subrange(m, word.len() as int)),
            Quantifier::ZeroOrOne => fits(nodes, k + 1, word) || exists|m: int|
                0 <= m <= word.len() && fits_node(nodes[k as int], #[trigger] word.subrange(0, m))
                    && fits(nodes, k + 1, word.subrange(m, word.len() as int)),
            Quantifier::ZeroOrMore => fits(nodes, k + 1, word) || exists|m: int|
                0 < m <= word.len() && fits_node(nodes[k as int], #[trigger] word.subrange(0, m))
                    && fits(nodes, k, word.subrange(m, word.len() as int)),
        }
    }
}

/// An attempt that matches covers a piece that the node fits.
pub proof fn lemma_attempt_fits(node: Node, s: Seq<char>, i: nat)
    ensures
        attempt(node, s, i).0 ==> i + attempt(node, s, i).1 <= s.len() && fits_node(
            node,
            s.subrange(i as int, i as int + attempt(node, s, i).1),
        ),
    decreases node, 0int, 0int,
{
    let a = attempt(node, s, i);
    if a.0 {
        match node.kind {
            NodeKind::Group(items) => {
                let rest = s.subrange(i as int, s.len() as int);
                lemma_solve_fits(items, rest, 0, 0);
                assert(rest.subrange(0, a.1 as int) =~= s.subrange(i as int, i as int + a.1));
            },
            _ => {
                assert(s.subrange(i as int, i as int + 1) =~= seq![s[i as int]]);
            },
        }
    }
}

/// A search that succeeds has found a real match: it ends at or after
/// its start, inside the subject, and the nodes fit what lies between.
pub proof fn lemma_solve_fits(nodes: Seq<Node>, s: Seq<char>, k: nat, i: nat)
    requires
        i <= s.len(),
    ensures
        solve(nodes, s, k, i).0 ==> i <= solve(nodes, s, k, i).1 <= s.len() && fits(
            nodes,
            k,
            s.subrange(i as int, solve(nodes, s, k, i).1 as int),
        ),
    decreases nodes, nodes.len() - k, room(s, i),
{
    let found = solve(nodes, s, k, i);
    let end = found.1;
    let word = s.subrange(i as int, end as int);
    if found.0 && k < nodes.len() {
        let node = nodes[k as int];
        let a = attempt(node, s, i);
        lemma_attempt_fits(node, s, i);
        let kept = match node.quantifier {
            Quantifier::ExactlyOne => true,
            Quantifier::ZeroOrOne => a.0 && a.1 > 0 && solve(nodes, s, k + 1, i + a.1).0,
            Quantifier::ZeroOrMore => i < s.len() && a.0 && a.1 > 0 && solve(
                nodes,
                s,
                k,
                i + a.1,
            ).0,
        };
        if kept {
            // the node keeps the piece of this attempt, of length `m`
            let m = a.1 as int;
            if node.quantifier == Quantifier::ZeroOrMore {
                lemma_solve_fits(nodes, s, k, i + a.1);
            } else {
                lemma_solve_fits(nodes, s, k + 1, i + a.1);
            }
            assert(word.subrange(0, m) =~= s.subrange(i as int, i as int + a.1));
            assert(word.subrange(m, word.len() as int) =~= s.subrange(i as int + a.1, end as int));
        } else {
            // the node takes nothing
            lemma_solve_fits(nodes, s, k + 1, i);
        }
    }
}

/// A match is real: when the pattern matches with length `n`, its nodes
/// fit the first `n` elements of the subject.
pub proof fn lemma_run_fits(nodes: Seq<Node>, s: Seq<char>)
    ensures
        run(nodes, s).0 ==> run(nodes, s).1 <= s.len() && fits(
            nodes,
            0,
            s.subrange(0, run(nodes, s).1 as int),
        ),
{
    lemma_solve_fits(nodes, s, 0, 0);
}

} // verus!
