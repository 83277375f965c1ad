//! The backtracking matcher: it runs a compiled pattern against a subject,
//! anchored at offset 0, with an explicit stack of backtrack frames in
//! place of recursion over the pattern.
//!
//! The search is the naive one: its running time can grow exponentially
//! with the subject on patterns that nest or chain repetitions.

use vstd::prelude::*;
use crate::parse::{
    compile, is_symbol, lemma_compile_plain, nodes_view, parse_re, Matcher, MatcherKind, Node,
    NodeKind, ParseError, Quantifier,
};
use crate::search::{
    lemma_node_fails, lemma_push_single, lemma_repeat_done, lemma_repeat_more,
    lemma_repeat_start, lemma_retract_shape, lemma_sum_push, lemma_total_push, outcome,
    outcome_repeating, remaining, remaining_repeating, retract, shortened, sum, total, Frame,
};
use crate::semantics::{
    attempt, fits, gives_up_at, lemma_attempt_in_bounds, lemma_plain_match, lemma_run_fits,
    lemma_run_in_bounds, run,
};
use crate::text::chars_of;

verus! {

/// What one node took from the subject, and whether it can give some of
/// it back.
struct BacktrackState {
    is_backtrackable: bool,
    matcher: Matcher,
    consumptions: Vec<usize>,
}

/// The state of one run of the matcher.
pub struct Re {
    /// The current offset into the subject.
    i: usize,
    /// The nodes still to come after the current one, the next one on top.
    matcher_stack: Vec<Matcher>,
    /// The node being matched.
    current_state: Option<Matcher>,
    /// One frame for each node already matched, the latest on top.
    backtrack_stack: Vec<BacktrackState>,
}

/// The frames that a backtrack stack stands for.
spec fn frames_view(stack: Seq<BacktrackState>) -> Seq<Frame> {
    Seq::new(
        stack.len(),
        |j: int| Frame { retryable: stack[j].is_backtrackable, taken: stack[j].consumptions@ },
    )
}

/// Whether `found` is the executable form of `verdict`.
pub open spec fn answers(found: Result<(bool, usize), String>, verdict: (bool, nat)) -> bool {
    found matches Ok(pair) && pair.0 == verdict.0 && pair.1 == verdict.1
}

impl Re {
    /// The nodes that have a frame, in the order of the pattern.
    pub closed spec fn matched(&self) -> Seq<Node> {
        Seq::new(self.backtrack_stack.len() as nat, |j: int| self.backtrack_stack[j].matcher@)
    }

    /// The node in the slot of the node being matched, if any.
    pub closed spec fn current(&self) -> Option<Node> {
        match self.current_state {
            Some(m) => Some(m@),
            None => None,
        }
    }

    /// The nodes on the pending stack, the next one first.
    pub closed spec fn pending(&self) -> Seq<Node> {
        Seq::new(
            self.matcher_stack.len() as nat,
            |j: int| self.matcher_stack[self.matcher_stack.len() - 1 - j]@,
        )
    }

    /// The current offset into the subject.
    pub closed spec fn offset(&self) -> nat {
        self.i as nat
    }

    /// The invariant of a run: the offset is the sum of what the frames
    /// took.
    pub closed spec fn well_formed(&self) -> bool {
        self.i == total(self.frames())
    }

    /// Whether a run can begin: there are no frames, and the offset is 0.
    /// The pattern of the run is what is pending; the slot of the current
    /// node is not looked at.
    pub closed spec fn ready(&self) -> bool {
        &&& self.i == 0
        &&& self.backtrack_stack.len() == 0
    }

    /// Whether frames and pending stack are laid out along `nodes`: the
    /// frames belong to the first nodes in order, and the pending stack
    /// holds the nodes from index `from` on, the first of them on top.
    spec fn laid_out(&self, nodes: Seq<Node>, from: int) -> bool {
        let k = self.backtrack_stack.len() as int;
        &&& k <= from
        &&& from + self.matcher_stack.len() == nodes.len()
        &&& forall|j: int| 0 <= j < k ==> (#[trigger] self.backtrack_stack[j]).matcher@ == nodes[j]
        &&& forall|j: int|
            0 <= j < self.matcher_stack.len() ==> (#[trigger] self.matcher_stack[j])@
                == nodes[nodes.len() - 1 - j]
    }

    /// Whether the state is at rest on `nodes`: every node has a frame or
    /// is pending.
    spec fn resting(&self, nodes: Seq<Node>) -> bool {
        self.laid_out(nodes, self.backtrack_stack.len() as int)
    }

    /// Whether the state is at work on `nodes`: the node after those with
    /// a frame is in the slot, and the nodes after it are pending.
    spec fn running(&self, nodes: Seq<Node>) -> bool {
        &&& self.laid_out(nodes, self.backtrack_stack.len() + 1)
        &&& self.current_state matches Some(m) && m@ == nodes[self.backtrack_stack.len() as int]
    }

    /// The pattern of a state at work: the nodes with a frame, the node in
    /// the slot, and the pending nodes.
    spec fn program(&self) -> Seq<Node> {
        self.matched() + seq![self.current_state->Some_0@] + self.pending()
    }

    /// The frames on the backtrack stack.
    spec fn frames(&self) -> Seq<Frame> {
        frames_view(self.backtrack_stack@)
    }

    /// A state at rest on `nodes` holds exactly `nodes`.
    proof fn lemma_resting(&self, nodes: Seq<Node>)
        requires
            self.resting(nodes),
        ensures
            self.matched() + self.pending() == nodes,
            self.backtrack_stack.len() == 0 ==> self.pending() == nodes,
            self.matcher_stack.len() == 0 ==> self.matched() == nodes,
    {
        assert(self.matched() + self.pending() =~= nodes);
        if self.backtrack_stack.len() == 0 {
            assert(self.pending() =~= nodes);
        }
        if self.matcher_stack.len() == 0 {
            assert(self.matched() =~= nodes);
        }
    }

    /// A state that is ready is at rest on what is pending.
    proof fn lemma_ready(&self)
        requires
            self.ready(),
        ensures
            self.resting(self.pending()),
            self.frames() == Seq::<Frame>::empty(),
            total(self.frames()) == 0,
    {
        assert(self.frames() =~= Seq::<Frame>::empty());
    }

    /// A state at work holds its program.
    proof fn lemma_running(&self)
        requires
            self.current_state is Some,
        ensures
            self.running(self.program()),
    {
    }

    /// A run of the pattern `states` that has not begun.
    pub fn new(states: &Vec<Matcher>) -> (re: Self)
        ensures
            re.ready(),
            re.well_formed(),
            re.current() is None,
            re.pending() == nodes_view(states@),
    {
        let mut matcher_stack: Vec<Matcher> = Vec::new();
        let mut j: usize = states.len();
        while j > 0
            invariant
                j <= states.len(),
                matcher_stack.len() == states.len() - j,
                forall|t: int|
                    0 <= t < matcher_stack.len() ==> (#[trigger] matcher_stack[t])@
                        == states[states.len() - 1 - t]@,
            decreases j,
        {
            j -= 1;
            matcher_stack.push(states[j].clone());
        }
        let re = Self {
            i: 0,
            matcher_stack,
            backtrack_stack: Vec::new(),
            current_state: None,
        };
        assert(re.pending() =~= nodes_view(states@));
        assert(re.frames() =~= Seq::<Frame>::empty());
        re
    }

    /// Returns to the latest point where a node can give back a
    /// repetition: a copy of the current node and the nodes of all frames
    /// above that point go to the pending stack, what they took is handed
    /// back, and the frame at that point loses its most recent repetition.
    /// The node after it becomes the current one.
    ///
    /// Where no frame can give anything back, the whole pattern ends up
    /// pending, the offset is 0 again, the slot of the current node is
    /// left as it was, and the result is `false`.
    fn backtrack(&mut self) -> (could_backtrack: bool)
        requires
            old(self).current_state is Some,
            old(self).well_formed(),
        ensures
            final(self).well_formed(),
            match retract(old(self).frames()) {
                Some(back) => {
                    &&& could_backtrack
                    &&& final(self).frames() == back
                    &&& final(self).running(old(self).program())
                },
                None => {
                    &&& !could_backtrack
                    &&& final(self).i == 0
                    &&& final(self).backtrack_stack.len() == 0
                    &&& final(self).current_state == old(self).current_state
                    &&& final(self).pending() == old(self).program()
                },
            },
    {
        let ghost nodes = self.program();
        let ghost start = self.frames();
        let ghost slot = self.current_state;
        proof {
            self.lemma_running();
        }
        let copy = self.current_state.as_ref().unwrap().clone();
        self.matcher_stack.push(copy);
        let mut could_backtrack = false;

        while self.backtrack_stack.len() > 0
            invariant_except_break
                !could_backtrack,
            invariant
                self.current_state == slot,
                self.resting(nodes),
                self.well_formed(),
                self.matcher_stack.len() > 0,
                could_backtrack ==> retract(start) == Some(self.frames()),
                !could_backtrack ==> retract(start) == retract(self.frames()),
            ensures
                could_backtrack || self.backtrack_stack.len() == 0,
            decreases self.backtrack_stack.len(),
        {
            let ghost below = self.frames().drop_last();
            let ghost top = self.frames().last();
            let BacktrackState { is_backtrackable, matcher, mut consumptions } =
                self.backtrack_stack.pop().unwrap();
            assert(self.frames() =~= below);
            assert(top.taken == consumptions@ && top.retryable == is_backtrackable);

            if is_backtrackable {
                if consumptions.len() == 0 {
                    self.matcher_stack.push(matcher);
                    assert(sum(top.taken) == 0);
                    continue;
                } else {
                    let n = consumptions.pop().unwrap();
                    proof {
                        assert(top.taken =~= consumptions@.push(n));
                        lemma_sum_push(consumptions@, n);
                        lemma_total_push(below, shortened(top));
                    }
                    self.i -= n;
                    self.backtrack_stack.push(
                        BacktrackState { is_backtrackable, matcher, consumptions },
                    );
                    assert(self.frames() =~= below.push(shortened(top)));
                    could_backtrack = true;
                    break;
                }
            }
            self.matcher_stack.push(matcher);
            while consumptions.len() > 0
                invariant
                    self.current_state == slot,
                    self.resting(nodes),
                    self.frames() == below,
                    self.matcher_stack.len() > 0,
                    self.i == total(below) + sum(consumptions@),
                decreases consumptions.len(),
            {
                let n = consumptions.pop().unwrap();
                proof {
                    lemma_sum_push(consumptions@, n);
                }
                self.i -= n;
            }
            assert(sum(consumptions@) == 0);
        }

        if could_backtrack {
            proof {
                lemma_retract_shape(start);
            }
            self.current_state = self.matcher_stack.pop();
        } else {
            proof {
                assert(self.frames() =~= Seq::<Frame>::empty());
                self.lemma_resting(nodes);
            }
        }
        could_backtrack
    }

    /// Runs the pending pattern against `s`, anchored at offset 0: `(true,
    /// end)` with the offset just past the match, or `(false, at)` with the
    /// offset at which the last alternative gave up.
    ///
    /// Nodes are taken from left to right, and each repeating node first
    /// takes as much as it can. When a node fails, the latest node that
    /// can give back a repetition gives one back, and the search goes on
    /// from there; it fails when no node can. The search tries every such
    /// combination in turn, so its time can grow exponentially with `s`.
    ///
    /// Matching itself cannot fail: the result is always `Ok`. After a
    /// match nothing is pending, no node is in the slot, every node has
    /// its frame, and the frames account for the match. After a run that
    /// found no match the whole pattern is pending again and the run is
    /// ready to begin anew; the slot still holds the node at which the
    /// search gave up.
    pub fn test_internal(&mut self, s: &[char]) -> (r: Result<(bool, usize), String>)
        requires
            old(self).ready(),
        ensures
            answers(r, run(old(self).pending(), s@)),
            final(self).well_formed(),
            run(old(self).pending(), s@).0 ==> {
                &&& final(self).matched() == old(self).pending()
                &&& final(self).current() is None
                &&& final(self).pending() == Seq::<Node>::empty()
                &&& final(self).offset() == run(old(self).pending(), s@).1
            },
            !run(old(self).pending(), s@).0 ==> {
                &&& final(self).ready()
                &&& final(self).pending() == old(self).pending()
                &&& final(self).current() == Some(
                    old(self).pending()[gives_up_at(old(self).pending(), s@, 0, 0) as int],
                )
            },
        decreases old(self).pending(), 1int,
    {
        let ghost nodes = self.pending();
        let ghost answer = outcome(nodes, s@, Seq::empty());
        proof {
            self.lemma_ready();
        }
        self.current_state = self.matcher_stack.pop();

        while self.current_state.is_some()
            invariant
                nodes == old(self).pending(),
                answer == outcome(nodes, s@, Seq::empty()),
                self.current_state is Some ==> self.running(nodes),
                self.current_state is None ==> self.resting(nodes) && self.matcher_stack.len()
                    == 0,
                self.well_formed(),
                self.i <= s.len(),
                outcome(nodes, s@, self.frames()) == answer,
            decreases remaining(nodes, s@, self.frames()),
        {
            let ghost frames = self.frames();
            let ghost k = frames.len();
            let ghost before = remaining(nodes, s@, frames);
            let st = self.current_state.as_ref().unwrap();
            proof {
                lemma_attempt_in_bounds(nodes[k as int], s@, self.i as nat);
            }
            match st.quantifier {
                Quantifier::ExactlyOne => {
                    let (is_match, consumed) = matches_string_at_index(st, s, self.i)?;
                    if !is_match {
                        let index_before_backtracking = self.i;
                        proof {
                            lemma_node_fails(nodes, s@, frames);
                            assert(self.program() =~= nodes);
                        }
                        let could_backtrack = self.backtrack();
                        if !could_backtrack {
                            return Ok((false, index_before_backtracking));
                        }
                    } else {
                        let matcher = self.current_state.take().unwrap();
                        let consumptions = vec![consumed];
                        assert(consumptions@ =~= seq![consumed]);
                        self.backtrack_stack.push(
                            BacktrackState { is_backtrackable: false, matcher, consumptions },
                        );
                        self.i += consumed;
                        self.current_state = self.matcher_stack.pop();
                        proof {
                            assert(self.frames() =~= frames.push(
                                Frame { retryable: false, taken: seq![consumed] },
                            ));
                            lemma_push_single(nodes, s@, frames, false, consumed);
                        }
                    }
                },
                Quantifier::ZeroOrOne => {
                    if self.i >= s.len() {
                        let matcher = self.current_state.take().unwrap();
                        let consumptions = vec![0];
                        assert(consumptions@ =~= seq![0usize]);
                        self.backtrack_stack.push(
                            BacktrackState { is_backtrackable: false, matcher, consumptions },
                        );
                        self.current_state = self.matcher_stack.pop();
                        proof {
                            assert(self.frames() =~= frames.push(
                                Frame { retryable: false, taken: seq![0usize] },
                            ));
                            lemma_push_single(nodes, s@, frames, false, 0);
                        }
                    } else {
                        let (is_match, reached) = matches_string_at_index(st, s, self.i)?;
                        // an attempt that did not match takes nothing
                        let consumed: usize = if is_match {
                            reached
                        } else {
                            0
                        };
                        self.i += consumed;
                        let is_backtrackable = is_match && consumed > 0;
                        let matcher = self.current_state.take().unwrap();
                        let consumptions = vec![consumed];
                        assert(consumptions@ =~= seq![consumed]);
                        self.backtrack_stack.push(
                            BacktrackState { is_backtrackable, matcher, consumptions },
                        );
                        self.current_state = self.matcher_stack.pop();
                        proof {
                            assert(self.frames() =~= frames.push(
                                Frame { retryable: is_backtrackable, taken: seq![consumed] },
                            ));
                            lemma_push_single(nodes, s@, frames, is_backtrackable, consumed);
                        }
                    }
                },
                Quantifier::ZeroOrMore => {
                    let mut consumptions: Vec<usize> = Vec::new();
                    proof {
                        lemma_repeat_start(nodes, s@, frames);
                    }
                    loop
                        invariant
                            nodes == old(self).pending(),
                            self.running(nodes),
                            self.frames() == frames,
                            k == frames.len(),
                            self.current_state == Some(*st),
                            nodes[k as int].quantifier == Quantifier::ZeroOrMore,
                            self.i == total(frames) + sum(consumptions@),
                            self.i <= s.len(),
                            outcome_repeating(nodes, s@, frames, consumptions@) == answer,
                            remaining_repeating(nodes, s@, frames, consumptions@) <= before,
                        ensures
                            ({
                                let a = attempt(nodes[k as int], s@, self.i as nat);
                                !(self.i < s.len() && a.0 && a.1 > 0)
                            }),
                        decreases s.len() - self.i,
                    {
                        if self.i >= s.len() {
                            break;
                        }
                        proof {
                            lemma_attempt_in_bounds(nodes[k as int], s@, self.i as nat);
                        }
                        let (is_match, consumed) = matches_string_at_index(st, s, self.i)?;
                        if !is_match || consumed == 0 {
                            break;
                        }
                        proof {
                            lemma_repeat_more(nodes, s@, frames, consumptions@, consumed);
                        }
                        consumptions.push(consumed);
                        self.i += consumed;
                    }
                    let ghost taken = consumptions@;
                    let is_backtrackable = consumptions.len() > 0;
                    if !is_backtrackable {
                        consumptions.push(0);
                    }
                    let matcher = self.current_state.take().unwrap();
                    self.backtrack_stack.push(
                        BacktrackState { is_backtrackable, matcher, consumptions },
                    );
                    self.current_state = self.matcher_stack.pop();
                    proof {
                        let f = Frame { retryable: is_backtrackable, taken: consumptions@ };
                        assert(self.frames() =~= frames.push(f));
                        if !is_backtrackable {
                            assert(consumptions@ =~= seq![0usize]);
                        }
                        lemma_repeat_done(nodes, s@, frames, taken, f);
                    }
                },
            }
        }
        proof {
            self.lemma_resting(nodes);
            assert(self.pending() =~= Seq::<Node>::empty());
        }
        Ok((true, self.i))
    }
}

/// One attempt to match the bare node (its quantifier set aside) at offset
/// `i` of `s`: whether it matched, and how many elements the attempt
/// covered.
///
/// A wildcard and a literal need an element at `i`, so they fail at the end
/// of `s`. A group is matched by a run of its own sequence on the rest of
/// `s`, which may be empty. The result is always `Ok`.
pub fn matches_string_at_index(matcher: &Matcher, s: &[char], i: usize) -> (r: Result<
    (bool, usize),
    String,
>)
    ensures
        answers(r, attempt(matcher@, s@, i as nat)),
    decreases matcher@, 0int,
{
    if i > s.len() {
        return Ok((false, 0));
    }
    match &matcher.matcher_kind {
        MatcherKind::Wildcard => {
            if i < s.len() {
                return Ok((true, 1));
            } else {
                return Ok((false, 0));
            }
        },
        MatcherKind::Element(c) => {
            if i < s.len() && *c == s[i] {
                return Ok((true, 1));
            } else {
                return Ok((false, 0));
            }
        },
        MatcherKind::Group(items) => {
            let mut re = Re::new(items);
            proof {
                let node = matcher@;
                assert(node.kind == NodeKind::Group(re.pending()));
                assert(decreases_to!(node => node.kind));
                assert(decreases_to!(node.kind => node.kind->Group_0));
            }
            return re.test_internal(&s[i..s.len()]);
        },
    }
}

/// What matching the pattern text against the subject gives: the reason
/// why the pattern does not compile, or else the length of the prefix of
/// the subject that its compiled form matches, if it matches one.
pub open spec fn match_pattern(pattern: Seq<char>, subject: Seq<char>) -> Result<
    Option<nat>,
    ParseError,
> {
    match compile(pattern) {
        Err(e) => Err(e),
        Ok(nodes) => {
            let found = run(nodes, subject);
            Ok(
                if found.0 {
                    Some(found.1)
                } else {
                    None
                },
            )
        },
    }
}

/// Whether `outcome` is what matching `pattern` against `subject` gives,
/// a compile error being reported by its message.
pub open spec fn matched(
    pattern: Seq<char>,
    subject: Seq<char>,
    outcome: Result<Option<usize>, String>,
) -> bool {
    match match_pattern(pattern, subject) {
        Err(e) => outcome matches Err(message) && message@ == e.message_text(),
        Ok(None) => outcome matches Ok(None),
        Ok(Some(n)) => outcome matches Ok(Some(m)) && m == n,
    }
}

/// Whether two outcomes of matching agree: the same match length, no match
/// both times, or the same message.
pub open spec fn same_match(
    first: Result<Option<usize>, String>,
    second: Result<Option<usize>, String>,
) -> bool {
    match (first, second) {
        (Ok(a), Ok(b)) => a == b,
        (Err(a), Err(b)) => a@ == b@,
        _ => false,
    }
}

/// Matching is deterministic: whatever two matches of the same pattern
/// text against the same subject return, they agree.
pub proof fn lemma_match_deterministic(
    pattern: Seq<char>,
    subject: Seq<char>,
    first: Result<Option<usize>, String>,
    second: Result<Option<usize>, String>,
)
    requires
        matched(pattern, subject, first),
        matched(pattern, subject, second),
    ensures
        same_match(first, second),
{
}

/// A reported match is real: when matching gives `Some(n)`, the pattern
/// compiles, and its nodes fit the first `n` elements of the subject.
pub proof fn lemma_match_fits(pattern: Seq<char>, subject: Seq<char>, n: nat)
    requires
        match_pattern(pattern, subject) == Ok::<Option<nat>, ParseError>(Some(n)),
    ensures
        n <= subject.len(),
        compile(pattern) matches Ok(nodes) && fits(nodes, 0, subject.subrange(0, n as int)),
{
    lemma_run_fits(compile(pattern)->Ok_0, subject);
}

/// A pattern without symbols matches exactly the subjects that begin with
/// the pattern's own text, and matches as many elements as it has.
pub proof fn lemma_match_plain(word: Seq<char>, subject: Seq<char>)
    requires
        forall|j: int| 0 <= j < word.len() ==> !is_symbol(#[trigger] word[j]),
    ensures
        match_pattern(word, subject) == Ok::<Option<nat>, ParseError>(
            if word.is_prefix_of(subject) {
                Some(word.len())
            } else {
                None
            },
        ),
{
    lemma_compile_plain(word);
    lemma_plain_match(word, subject);
}

/// Matches the pattern `re` against the subject `s`, anchored at offset 0.
///
/// `Ok(Some(n))` when the pattern matches the first `n` elements of `s`,
/// `Ok(None)` when it compiles but does not match there, and `Err` with a
/// message when it does not compile. Other start offsets are not tried.
pub fn test_re(re: &str, s: &str) -> (r: Result<Option<usize>, String>)
    ensures
        matched(re@, s@, r),
        r matches Ok(Some(n)) ==> n <= s@.len(),
{
    let chars: Vec<char> = chars_of(s);
    let nodes = match parse_re(re) {
        Ok(nodes) => nodes,
        Err(e) => {
            return Err(e.message());
        },
    };
    proof {
        lemma_run_in_bounds(nodes_view(nodes@), s@);
    }
    let match_result = Re::new(&nodes).test_internal(chars.as_slice())?;
    if let (true, i) = match_result {
        Ok(Some(i))
    } else {
        Ok(None)
    }
}

} // verus!
