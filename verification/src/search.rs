//! A mathematical account of the matcher's bookkeeping: what a stack of
//! backtrack frames stands for, what the search will still return from
//! it, and how many rounds it can still take.

use vstd::prelude::*;
use crate::parse::{Node, Quantifier};
use crate::semantics::{attempt, gives_up_at, room, solve};

verus! {

/// Mathematical form of a backtrack frame: whether the node may give
/// repetitions back, and the amounts it took, oldest first.
pub ghost struct Frame {
    pub retryable: bool,
    pub taken: Seq<usize>,
}

/// The sum of the amounts.
pub open spec fn sum(taken: Seq<usize>) -> nat
    decreases taken.len(),
{
    if taken.len() == 0 {
        0
    } else {
        sum(taken.drop_last()) + taken.last() as nat
    }
}

/// The offset that the frames account for: all that they took.
pub open spec fn total(frames: Seq<Frame>) -> nat
    decreases frames.len(),
{
    if frames.len() == 0 {
        0
    } else {
        total(frames.drop_last()) + sum(frames.last().taken)
    }
}

/// Whether the frame can give back a repetition.
pub open spec fn can_retry(frame: Frame) -> bool {
    frame.retryable && frame.taken.len() > 0
}

/// The frame once it has given back its most recent repetition.
pub open spec fn shortened(frame: Frame) -> Frame {
    Frame { retryable: frame.retryable, taken: frame.taken.drop_last() }
}

/// The frames that backtracking leaves: everything above the topmost
/// frame that can give something back is dropped, and that frame is
/// shortened. `None` when no frame can.
pub open spec fn retract(frames: Seq<Frame>) -> Option<Seq<Frame>>
    decreases frames.len(),
{
    if frames.len() == 0 {
        None
    } else if can_retry(frames.last()) {
        Some(frames.drop_last().push(shortened(frames.last())))
    } else {
        retract(frames.drop_last())
    }
}

/// How a search ends: whether it matched, the offset it reports, and,
/// where it did not match, the index of the node at which it gave up (0
/// where it matched).
pub ghost struct Verdict {
    pub matched: bool,
    pub offset: nat,
    pub node: nat,
}

/// The verdict of a search that matched up to `end`.
pub open spec fn success(end: nat) -> Verdict {
    Verdict { matched: true, offset: end, node: 0 }
}

/// How the search ends once everything to the right of `frames` has
/// failed, the last failure at offset `at` and at the node `node`.
pub open spec fn after_failure(
    nodes: Seq<Node>,
    s: Seq<char>,
    frames: Seq<Frame>,
    at: nat,
    node: nat,
) -> Verdict
    decreases frames.len(),
        (if frames.len() > 0 {
            frames.last().taken.len()
        } else {
            0
        }),
{
    if frames.len() == 0 {
        Verdict { matched: false, offset: at, node }
    } else if can_retry(frames.last()) {
        let back = frames.drop_last().push(shortened(frames.last()));
        let next = solve(nodes, s, back.len(), total(back));
        if next.0 {
            success(next.1)
        } else {
            after_failure(
                nodes,
                s,
                back,
                next.1,
                gives_up_at(nodes, s, back.len(), total(back)),
            )
        }
    } else {
        after_failure(nodes, s, frames.drop_last(), at, node)
    }
}

/// How the search ends when it goes on from `frames` with the next node,
/// at the offset that the frames account for.
pub open spec fn outcome(nodes: Seq<Node>, s: Seq<char>, frames: Seq<Frame>) -> Verdict {
    let next = solve(nodes, s, frames.len(), total(frames));
    if next.0 {
        success(next.1)
    } else {
        after_failure(
            nodes,
            s,
            frames,
            next.1,
            gives_up_at(nodes, s, frames.len(), total(frames)),
        )
    }
}

/// A bound on the rounds that the search from node `k` at offset `i`
/// takes until it has matched or given up.
pub open spec fn steps(nodes: Seq<Node>, s: Seq<char>, k: nat, i: nat) -> nat
    decreases nodes.len() - k, room(s, i),
{
    if k >= nodes.len() {
        0
    } else {
        let a = attempt(nodes[k as int], s, i);
        match nodes[k as int].quantifier {
            Quantifier::ExactlyOne => {
                if a.0 {
                    1 + steps(nodes, s, k + 1, i + a.1)
                } else {
                    1
                }
            },
            Quantifier::ZeroOrOne => {
                if a.0 && a.1 > 0 {
                    1 + steps(nodes, s, k + 1, i + a.1) + (if solve(nodes, s, k + 1, i + a.1).0 {
                        0
                    } else {
                        steps(nodes, s, k + 1, i)
                    })
                } else {
                    1 + steps(nodes, s, k + 1, i)
                }
            },
            Quantifier::ZeroOrMore => {
                if i < s.len() && a.0 && a.1 > 0 {
                    1 + steps(nodes, s, k, i + a.1) + (if solve(nodes, s, k, i + a.1).0 {
                        0
                    } else {
                        steps(nodes, s, k + 1, i)
                    })
                } else {
                    1 + steps(nodes, s, k + 1, i)
                }
            },
        }
    }
}

/// A bound on the rounds still to come once everything to the right of
/// `frames` has failed.
pub open spec fn steps_after_failure(nodes: Seq<Node>, s: Seq<char>, frames: Seq<Frame>) -> nat
    decreases frames.len(),
        (if frames.len() > 0 {
            frames.last().taken.len()
        } else {
            0
        }),
{
    if frames.len() == 0 {
        0
    } else if can_retry(frames.last()) {
        let back = frames.drop_last().push(shortened(frames.last()));
        steps(nodes, s, back.len(), total(back)) + (if solve(
            nodes,
            s,
            back.len(),
            total(back),
        ).0 {
            0
        } else {
            steps_after_failure(nodes, s, back)
        })
    } else {
        steps_after_failure(nodes, s, frames.drop_last())
    }
}

/// A bound on the rounds still to come when the search goes on from
/// `frames` with the next node.
pub open spec fn remaining(nodes: Seq<Node>, s: Seq<char>, frames: Seq<Frame>) -> nat {
    steps(nodes, s, frames.len(), total(frames)) + (if solve(
        nodes,
        s,
        frames.len(),
        total(frames),
    ).0 {
        0
    } else {
        steps_after_failure(nodes, s, frames)
    })
}

/// One more amount adds to the sum.
pub proof fn lemma_sum_push(taken: Seq<usize>, c: usize)
    ensures
        sum(taken.push(c)) == sum(taken) + c,
{
    assert(taken.push(c).drop_last() =~= taken);
}

/// A single amount is its own sum.
pub proof fn lemma_sum_one(c: usize)
    ensures
        sum(seq![c]) == c,
{
    lemma_sum_push(Seq::empty(), c);
    assert(Seq::<usize>::empty().push(c) =~= seq![c]);
}

/// One more frame adds what it took to the total.
pub proof fn lemma_total_push(frames: Seq<Frame>, f: Frame)
    ensures
        total(frames.push(f)) == total(frames) + sum(f.taken),
{
    assert(frames.push(f).drop_last() =~= frames);
}

/// A frame that cannot give anything back does not change what follows a
/// failure.
pub proof fn lemma_settled_frame(
    nodes: Seq<Node>,
    s: Seq<char>,
    frames: Seq<Frame>,
    f: Frame,
    at: nat,
    node: nat,
)
    requires
        !can_retry(f),
    ensures
        after_failure(nodes, s, frames.push(f), at, node) == after_failure(
            nodes,
            s,
            frames,
            at,
            node,
        ),
        steps_after_failure(nodes, s, frames.push(f)) == steps_after_failure(nodes, s, frames),
{
    assert(frames.push(f).drop_last() =~= frames);
}

/// Backtracking leaves at least one frame, no more frames than before,
/// and accounts for no more than before.
pub proof fn lemma_retract_shape(frames: Seq<Frame>)
    ensures
        retract(frames) matches Some(back) ==> 0 < back.len() <= frames.len() && total(back)
            <= total(frames),
    decreases frames.len(),
{
    if frames.len() > 0 {
        if can_retry(frames.last()) {
            let f = frames.last();
            let back = frames.drop_last().push(shortened(f));
            lemma_total_push(frames.drop_last(), shortened(f));
            assert(f.taken.drop_last().push(f.taken.last()) =~= f.taken);
            lemma_sum_push(f.taken.drop_last(), f.taken.last());
        } else {
            lemma_retract_shape(frames.drop_last());
        }
    }
}

/// After a failure the search goes on from the frames that backtracking
/// leaves, and gives up where it leaves none.
pub proof fn lemma_failure_retracts(
    nodes: Seq<Node>,
    s: Seq<char>,
    frames: Seq<Frame>,
    at: nat,
    node: nat,
)
    ensures
        after_failure(nodes, s, frames, at, node) == (match retract(frames) {
            Some(back) => outcome(nodes, s, back),
            None => Verdict { matched: false, offset: at, node },
        }),
        steps_after_failure(nodes, s, frames) == (match retract(frames) {
            Some(back) => remaining(nodes, s, back),
            None => 0,
        }),
    decreases frames.len(),
{
    if frames.len() > 0 && !can_retry(frames.last()) {
        lemma_failure_retracts(nodes, s, frames.drop_last(), at, node);
    }
}

/// When the next node, one without quantifier, does not match, the search
/// goes on from the frames that backtracking leaves and has used up a
/// round; where backtracking leaves none, it has given up at this node
/// and at this offset.
pub proof fn lemma_node_fails(nodes: Seq<Node>, s: Seq<char>, frames: Seq<Frame>)
    requires
        frames.len() < nodes.len(),
        nodes[frames.len() as int].quantifier == Quantifier::ExactlyOne,
        !attempt(nodes[frames.len() as int], s, total(frames)).0,
    ensures
        match retract(frames) {
            Some(back) => {
                &&& outcome(nodes, s, back) == outcome(nodes, s, frames)
                &&& remaining(nodes, s, back) < remaining(nodes, s, frames)
                &&& 0 < back.len() <= frames.len()
                &&& total(back) <= total(frames)
            },
            None => outcome(nodes, s, frames) == (Verdict {
                matched: false,
                offset: total(frames),
                node: frames.len(),
            }),
        },
{
    lemma_failure_retracts(nodes, s, frames, total(frames), frames.len());
    lemma_retract_shape(frames);
}

/// Pushing the one frame of a node without quantifier that matched, or of
/// an optional node, keeps the outcome and uses up a round. The frame
/// holds what the node took: what a matching attempt covered, and nothing
/// where the attempt did not match. Only the frame of an optional node
/// that took something can give it back.
pub proof fn lemma_push_single(
    nodes: Seq<Node>,
    s: Seq<char>,
    frames: Seq<Frame>,
    retryable: bool,
    taken: usize,
)
    requires
        frames.len() < nodes.len(),
        ({
            let a = attempt(nodes[frames.len() as int], s, total(frames));
            match nodes[frames.len() as int].quantifier {
                Quantifier::ExactlyOne => a.0 && !retryable && taken == a.1,
                Quantifier::ZeroOrOne => retryable == (a.0 && a.1 > 0) && taken == (if a.0 {
                    a.1
                } else {
                    0
                }),
                Quantifier::ZeroOrMore => false,
            }
        }),
    ensures
        total(frames.push(Frame { retryable, taken: seq![taken] })) == total(frames) + taken,
        outcome(nodes, s, frames.push(Frame { retryable, taken: seq![taken] })) == outcome(
            nodes,
            s,
            frames,
        ),
        remaining(nodes, s, frames.push(Frame { retryable, taken: seq![taken] })) + 1
            == remaining(nodes, s, frames),
{
    let k = frames.len();
    let i = total(frames);
    let f = Frame { retryable, taken: seq![taken] };
    let with = solve(nodes, s, k + 1, i + taken as nat);
    let without = solve(nodes, s, k + 1, i);
    lemma_sum_one(taken);
    lemma_total_push(frames, f);
    if retryable {
        // an optional node that took something: the rest is tried with it,
        // then without it
        let pushed = frames.push(f);
        let back = pushed.drop_last().push(shortened(f));
        assert(seq![taken].drop_last() =~= Seq::<usize>::empty());
        assert(pushed.drop_last() =~= frames);
        assert(back =~= frames.push(shortened(f)));
        lemma_total_push(frames, shortened(f));
        lemma_settled_frame(
            nodes,
            s,
            frames,
            shortened(f),
            without.1,
            gives_up_at(nodes, s, k + 1, i),
        );
        assert(solve(nodes, s, k, i) == (if with.0 {
            with
        } else {
            without
        }));
    } else {
        assert(solve(nodes, s, k, i) == with);
        lemma_settled_frame(
            nodes,
            s,
            frames,
            f,
            with.1,
            gives_up_at(nodes, s, k + 1, i + taken as nat),
        );
    }
}

/// How the search ends while a repeating node is still taking
/// repetitions: `taken` holds those taken so far, on top of `frames`.
pub open spec fn outcome_repeating(
    nodes: Seq<Node>,
    s: Seq<char>,
    frames: Seq<Frame>,
    taken: Seq<usize>,
) -> Verdict {
    let next = solve(nodes, s, frames.len(), total(frames) + sum(taken));
    if next.0 {
        success(next.1)
    } else {
        after_failure(
            nodes,
            s,
            frames.push(Frame { retryable: true, taken }),
            next.1,
            gives_up_at(nodes, s, frames.len(), total(frames) + sum(taken)),
        )
    }
}

/// The rounds still to come while a repeating node is taking repetitions.
pub open spec fn remaining_repeating(
    nodes: Seq<Node>,
    s: Seq<char>,
    frames: Seq<Frame>,
    taken: Seq<usize>,
) -> nat {
    steps(nodes, s, frames.len(), total(frames) + sum(taken)) + (if solve(
        nodes,
        s,
        frames.len(),
        total(frames) + sum(taken),
    ).0 {
        0
    } else {
        steps_after_failure(nodes, s, frames.push(Frame { retryable: true, taken }))
    })
}

/// Before its first repetition a repeating node changes nothing.
pub proof fn lemma_repeat_start(nodes: Seq<Node>, s: Seq<char>, frames: Seq<Frame>)
    ensures
        outcome_repeating(nodes, s, frames, Seq::empty()) == outcome(nodes, s, frames),
        remaining_repeating(nodes, s, frames, Seq::empty()) == remaining(nodes, s, frames),
{
    let f = Frame { retryable: true, taken: Seq::empty() };
    let next = solve(nodes, s, frames.len(), total(frames));
    lemma_settled_frame(
        nodes,
        s,
        frames,
        f,
        next.1,
        gives_up_at(nodes, s, frames.len(), total(frames)),
    );
}

/// One more repetition keeps the outcome and leaves fewer rounds.
pub proof fn lemma_repeat_more(
    nodes: Seq<Node>,
    s: Seq<char>,
    frames: Seq<Frame>,
    taken: Seq<usize>,
    c: usize,
)
    requires
        frames.len() < nodes.len(),
        nodes[frames.len() as int].quantifier == Quantifier::ZeroOrMore,
        total(frames) + sum(taken) < s.len(),
        attempt(nodes[frames.len() as int], s, total(frames) + sum(taken)) == (true, c as nat),
        c > 0,
    ensures
        sum(taken.push(c)) == sum(taken) + c,
        outcome_repeating(nodes, s, frames, taken.push(c)) == outcome_repeating(
            nodes,
            s,
            frames,
            taken,
        ),
        remaining_repeating(nodes, s, frames, taken.push(c)) < remaining_repeating(
            nodes,
            s,
            frames,
            taken,
        ),
{
    let k = frames.len();
    let i = total(frames) + sum(taken);
    let longer = Frame { retryable: true, taken: taken.push(c) };
    let shorter = Frame { retryable: true, taken };
    let pushed = frames.push(longer);
    let back = pushed.drop_last().push(shortened(longer));
    lemma_sum_push(taken, c);
    assert(taken.push(c).drop_last() =~= taken);
    assert(pushed.drop_last() =~= frames);
    assert(back =~= frames.push(shorter));
    lemma_total_push(frames, shorter);
    let more = solve(nodes, s, k, i + c as nat);
    let stop = solve(nodes, s, k + 1, i);
    assert(solve(nodes, s, k, i) == (if more.0 {
        more
    } else {
        stop
    }));
}

/// When a repeating node can take no more, pushing its frame keeps the
/// outcome and uses up a round. A node that took nothing gets a frame
/// that cannot give anything back.
pub proof fn lemma_repeat_done(
    nodes: Seq<Node>,
    s: Seq<char>,
    frames: Seq<Frame>,
    taken: Seq<usize>,
    f: Frame,
)
    requires
        frames.len() < nodes.len(),
        nodes[frames.len() as int].quantifier == Quantifier::ZeroOrMore,
        ({
            let a = attempt(nodes[frames.len() as int], s, total(frames) + sum(taken));
            !(total(frames) + sum(taken) < s.len() && a.0 && a.1 > 0)
        }),
        f == (if taken.len() > 0 {
            Frame { retryable: true, taken }
        } else {
            Frame { retryable: false, taken: seq![0usize] }
        }),
    ensures
        total(frames.push(f)) == total(frames) + sum(taken),
        outcome(nodes, s, frames.push(f)) == outcome_repeating(nodes, s, frames, taken),
        remaining(nodes, s, frames.push(f)) + 1 == remaining_repeating(nodes, s, frames, taken),
{
    let k = frames.len();
    let i = total(frames) + sum(taken);
    lemma_total_push(frames, f);
    let next = solve(nodes, s, k + 1, i);
    let node = gives_up_at(nodes, s, k + 1, i);
    assert(solve(nodes, s, k, i) == next);
    if taken.len() == 0 {
        lemma_sum_one(0usize);
        lemma_settled_frame(nodes, s, frames, f, next.1, node);
        lemma_settled_frame(nodes, s, frames, Frame { retryable: true, taken }, next.1, node);
    }
}

} // verus!
