//! The merge-insertion sort as a machine that stops at every question.
//!
//! A [`Stepper`] for `n` items hands out one question at a time
//! ([`Stepper::step`]) and takes one answer at a time ([`Stepper::answer`]).
//! What it asks, and what it ends with, is what the transcript
//! ([`crate::transcript::rank`]) tells for the answers taken so far: a
//! stepper is known by its number of items and its list of answers, and
//! feeding the same answers to a new stepper brings it to the same place.

use vstd::prelude::*;
use vstd::pervasive::unreached;
use crate::estimate::spec_estimate_turns;
use crate::ordering::lemma_answer_used;
use crate::jacobsthal::{jacobsthal_order, jacobsthal_seq, lemma_jacobsthal_seq_is_arrangement};
use crate::progress::{
    completes, lemma_completes_now, lemma_inserting_ends, lemma_merge_entry, lemma_pair_answered,
    lemma_pairs_settled, lemma_search_answered, lemma_search_begins, lemma_search_ends,
    lemma_searching_asks, lemma_short_completes, resumes_inserting, resumes_searching,
};
use crate::rearrange::{
    insertable, is_rearrangement, lemma_insert_insertable, lemma_largest, lemma_mains,
    lemma_seed_insertable, lemma_sort_rearranges,
};
use crate::sorter::{largest_of, lemma_largest_is_element, position_of, zeros};
use crate::transcript::{
    bound_of, iota, largest, lemma_position_range, lemma_sort_bound, loser, mains_of, midpoint,
    partners_of, rank, seed_chain, sort, straggler_of, waiting_list, winner, Outcome,
};

verus! {

/// What a stepper needs next.
#[derive(Debug, Clone, Copy, PartialEq, Eq, Structural)]
pub enum Step {
    /// An answer to "does item `a` rank before item `b`?".
    Compare { a: usize, b: usize },
    /// Nothing: the ranking is complete.
    Done,
}

/// Where a stepper stands towards its driver.
pub enum Status {
    /// No question is out, and no ranking has been found yet.
    Idle,
    /// A question is out and waits for its answer.
    Asked,
    /// The ranking is complete and kept for the driver.
    Finished,
    /// The ranking is complete and has been handed out.
    Delivered,
}

/// A stepper as its driver knows it: the number of items, the answers it
/// has taken, and where it stands.
pub struct StepperView {
    pub count: nat,
    pub history: Seq<bool>,
    pub status: Status,
}

impl StepperView {
    /// A stepper for `count` items that has taken no answer.
    pub open spec fn fresh(count: nat) -> StepperView {
        StepperView {
            count,
            history: Seq::empty(),
            status: if count <= 1 {
                Status::Finished
            } else {
                Status::Idle
            },
        }
    }

    /// What the sort comes to on the answers taken.
    pub open spec fn outcome(self) -> Outcome {
        rank(self.count, self.history)
    }

    /// The current step: the question that the sort waits on, or `Done`.
    pub open spec fn step(self) -> Step {
        match self.outcome() {
            Outcome::Asks { a, b } => Step::Compare { a, b },
            Outcome::Sorted { order, next } => Step::Done,
        }
    }

    /// The ranking that the stepper keeps for its driver, if it does.
    pub open spec fn order(self) -> Option<Seq<usize>> {
        match self.outcome() {
            Outcome::Sorted { order, next } => if self.status is Finished {
                Some(order)
            } else {
                None
            },
            Outcome::Asks { a, b } => None,
        }
    }

    /// The stepper after `step`: the question is out, or the ranking found.
    pub open spec fn stepped(self) -> StepperView {
        StepperView {
            count: self.count,
            history: self.history,
            status: if self.status is Delivered {
                Status::Delivered
            } else if self.outcome() is Asks {
                Status::Asked
            } else {
                Status::Finished
            },
        }
    }

    /// The stepper after `answer`: the answer is taken if a question was
    /// out, and dropped if none was; then the stepper steps.
    pub open spec fn answered(self, answer: bool) -> StepperView {
        if self.status is Asked {
            (StepperView {
                count: self.count,
                history: self.history.push(answer),
                status: Status::Idle,
            }).stepped()
        } else {
            self.stepped()
        }
    }

    /// The stepper after `take_order`: a ranking that was kept is handed
    /// out.
    pub open spec fn taken(self) -> StepperView {
        StepperView {
            count: self.count,
            history: self.history,
            status: if self.status is Finished {
                Status::Delivered
            } else {
                self.status
            },
        }
    }

    /// The stepper after `step` and then one `answer` for each of `answers`.
    pub open spec fn replayed(self, answers: Seq<bool>) -> StepperView
        decreases answers.len(),
    {
        if answers.len() == 0 {
            self.stepped()
        } else {
            self.replayed(answers.drop_last()).answered(answers.last())
        }
    }

    /// What holds of every stepper: it has taken no more answers than the
    /// estimate allows, a question that is out is the one the sort waits on,
    /// and a ranking that was found has used every answer taken.
    pub open spec fn is_live(self) -> bool {
        &&& self.count <= usize::MAX
        &&& spec_estimate_turns(self.count) <= usize::MAX
        &&& self.history.len() <= spec_estimate_turns(self.count)
        &&& self.outcome() matches Outcome::Sorted { order, next } ==> next == self.history.len()
        &&& self.status is Asked ==> self.outcome() is Asks
        &&& (self.status is Finished || self.status is Delivered) ==> self.outcome() is Sorted
    }

    /// A new stepper is live.
    pub proof fn lemma_fresh_live(count: nat)
        requires
            count <= usize::MAX,
            spec_estimate_turns(count) <= usize::MAX,
        ensures
            Self::fresh(count).is_live(),
    {
        lemma_sort_bound(iota(count), Seq::empty(), 0);
    }

    /// Stepping keeps a stepper live, and stepping again changes nothing:
    /// neither the stepper nor the step returned.
    pub proof fn lemma_step_idempotent(self)
        requires
            self.is_live(),
        ensures
            self.stepped().is_live(),
            self.stepped().stepped() == self.stepped(),
            self.stepped().step() == self.step(),
    {
    }

    /// Taking an answer keeps a stepper live.
    pub proof fn lemma_answered_live(self, answer: bool)
        requires
            self.is_live(),
        ensures
            self.answered(answer).is_live(),
    {
        if self.status is Asked {
            lemma_sort_bound(iota(self.count), self.history, 0);
            lemma_answer_used(iota(self.count), self.history, answer);
        }
    }

    /// Handing out the ranking keeps a stepper live.
    pub proof fn lemma_taken_live(self)
        requires
            self.is_live(),
        ensures
            self.taken().is_live(),
            self.taken().order() is None,
    {
    }

    /// The replay law.  A new stepper that has stepped and then been given
    /// the answers `answers`, one by one, is live and stands where the sort
    /// stands on these answers: it has taken them in order up to the one
    /// that completed the ranking, if any did, and dropped the answers
    /// after that one; it waits on a question exactly if it has taken them
    /// all and the sort is not over.
    pub proof fn lemma_replay(count: nat, answers: Seq<bool>)
        requires
            count <= usize::MAX,
            spec_estimate_turns(count) <= usize::MAX,
        ensures
            ({
                let v = Self::fresh(count).replayed(answers);
                &&& v.is_live()
                &&& v.count == count
                &&& v.history.is_prefix_of(answers)
                &&& v.status is Asked || v.status is Finished
                &&& v.status is Asked ==> v.history == answers
            }),
        decreases answers.len(),
    {
        Self::lemma_fresh_live(count);
        if answers.len() == 0 {
            assert(Seq::<bool>::empty().is_prefix_of(answers));
        } else {
            let before = Self::fresh(count).replayed(answers.drop_last());
            Self::lemma_replay(count, answers.drop_last());
            before.lemma_answered_live(answers.last());
            let v = before.answered(answers.last());
            if before.status is Asked {
                assert(before.history.push(answers.last()) =~= answers);
                assert(answers.is_prefix_of(answers));
            } else {
                assert(before.history.is_prefix_of(answers)) by {
                    assert(answers.subrange(0, before.history.len() as int)
                        =~= answers.drop_last().subrange(0, before.history.len() as int));
                }
            }
        }
    }

    /// A stepper that has found the ranking takes no further answer.
    pub proof fn lemma_replay_over(self, answers: Seq<bool>, k: int)
        requires
            self.is_live(),
            0 <= k <= answers.len(),
            self.replayed(answers.take(k)).status is Finished,
        ensures
            self.replayed(answers) == self.replayed(answers.take(k)),
        decreases answers.len() - k,
    {
        if k < answers.len() {
            assert(answers.take(k + 1).drop_last() =~= answers.take(k));
            self.lemma_replay_over(answers, k + 1);
        } else {
            assert(answers.take(k) =~= answers);
        }
    }
}

/// One level of the sort at work.
struct Frame {
    elements: Vec<usize>,
    state: State,
    /// How many answers had been taken when the level began.
    start: Ghost<int>,
}

/// What a level is doing.
enum State {
    /// Just entered.
    Start,
    /// Comparing the pairs, one at a time.
    Pairing {
        i: usize,
        num_pairs: usize,
        mains: Vec<usize>,
        partner_of: Vec<usize>,
        straggler: Option<usize>,
    },
    /// Waiting for the level above to sort the mains.
    AwaitMains { partner_of: Vec<usize>, straggler: Option<usize> },
    /// Inserting the waiting elements in Jacobsthal order.
    Insert {
        chain: Vec<usize>,
        pending: Vec<(usize, Option<usize>)>,
        order: Vec<usize>,
        order_idx: usize,
        search: Option<SearchState>,
    },
    /// Finished, with the result to hand down.
    Done(Vec<usize>),
}

/// A binary search under way: `elem` goes somewhere in `lo ..= hi`, and
/// `mid` is the position it is being compared with, if any.
#[derive(Clone, Copy)]
struct SearchState {
    elem: usize,
    lo: usize,
    hi: usize,
    mid: Option<usize>,
}

/// The question that is out, and which state asked it.
#[derive(Clone, Copy)]
enum Pending {
    Pairing { a: usize, b: usize },
    Search { a: usize, b: usize },
}

/// A resumable merge-insertion sort of the items `0 .. n`.
pub struct Stepper {
    stack: Vec<Frame>,
    pending: Option<Pending>,
    comparisons: usize,
    done: Option<Vec<usize>>,
    /// The number of items.
    count: Ghost<nat>,
    /// The answers taken.
    history: Ghost<Seq<bool>>,
}

/// The elements of a level are items, none of them twice, and the level
/// began within the answers taken.
spec fn entry_ok(e: Seq<usize>, start: int, history: Seq<bool>, n: nat) -> bool {
    &&& n <= usize::MAX
    &&& e.len() <= usize::MAX
    &&& e.no_duplicates()
    &&& forall|j: int| 0 <= j < e.len() ==> #[trigger] e[j] < n
    &&& 0 <= start <= history.len()
}

/// The step that a pending question is shown as.
spec fn shown(pending: Pending) -> Step {
    match pending {
        Pending::Pairing { a, b } => Step::Compare { a, b },
        Pending::Search { a, b } => Step::Compare { a, b },
    }
}

/// A level that compares its pairs has taken one answer for each of the
/// first `i` pairs, and holds their mains and partners.
#[verifier::opaque]
spec fn pairing_ok(
    e: Seq<usize>,
    start: int,
    i: int,
    num_pairs: int,
    mains: Seq<usize>,
    partner: Seq<usize>,
    straggler: Option<usize>,
    pending: Option<Pending>,
    history: Seq<bool>,
) -> bool {
    &&& e.len() >= 2
    &&& num_pairs == e.len() / 2
    &&& 0 <= i <= num_pairs
    &&& history.len() == start + i
    &&& mains == mains_of(e, history, start, i)
    &&& partner == partners_of(e, history, start, i)
    &&& partner.len() == largest(e) + 1
    &&& straggler == straggler_of(e)
    &&& match pending {
        None => true,
        Some(Pending::Pairing { a, b }) => i < num_pairs && a == e[2 * i] && b == e[2 * i + 1],
        Some(Pending::Search { a, b }) => false,
    }
}

/// The window of the search for entry `idx`: the one under way, or the
/// one that is about to begin below the entry's bound.
spec fn window(
    chain: Seq<usize>,
    waiting: Seq<(usize, Option<usize>)>,
    order: Seq<usize>,
    idx: int,
    search: Option<SearchState>,
) -> (int, int) {
    match search {
        Some(s) => (s.lo as int, s.hi as int),
        None => (0, bound_of(chain, waiting[order[idx] as int].1)),
    }
}

/// A level that inserts stands where the run stands after the answers
/// taken: about to insert entry `idx`, or searching for its place.
#[verifier::opaque]
spec fn inserting_ok(
    e: Seq<usize>,
    start: int,
    chain: Seq<usize>,
    waiting: Seq<(usize, Option<usize>)>,
    order: Seq<usize>,
    idx: int,
    search: Option<SearchState>,
    pending: Option<Pending>,
    history: Seq<bool>,
    n: nat,
) -> bool {
    &&& e.len() >= 2
    &&& waiting.len() == e.len() - e.len() / 2 - 1
    &&& order == jacobsthal_seq(waiting.len())
    &&& 0 <= idx <= order.len()
    &&& chain.len() + (order.len() - idx) == e.len()
    &&& insertable(n as int, chain, waiting)
    &&& match search {
        None => pending is None && resumes_inserting(e, start, chain, waiting, order, idx, history),
        Some(s) => {
            &&& idx < order.len()
            &&& s.elem == waiting[order[idx] as int].0
            &&& s.lo <= s.hi <= chain.len()
            &&& resumes_searching(
                e,
                start,
                chain,
                waiting,
                order,
                idx,
                s.lo as int,
                s.hi as int,
                history,
            )
            &&& match s.mid {
                None => pending is None,
                Some(m) => s.lo < s.hi && m == midpoint(s.lo as int, s.hi as int) && pending
                    == Some(Pending::Search { a: s.elem, b: chain[m as int] }),
            }
        },
    }
}

/// A level that waits has compared its pairs; its mains are the elements
/// of the level above.
#[verifier::opaque]
spec fn awaiting_ok(
    e: Seq<usize>,
    start: int,
    partner: Seq<usize>,
    straggler: Option<usize>,
    above: Seq<usize>,
    above_start: int,
    history: Seq<bool>,
) -> bool {
    &&& e.len() >= 2
    &&& above_start == start + e.len() / 2
    &&& above_start <= history.len()
    &&& above == mains_of(e, history, start, (e.len() / 2) as int)
    &&& partner == partners_of(e, history, start, (e.len() / 2) as int)
    &&& straggler == straggler_of(e)
}

/// The level at the top of the stack stands where the run on its elements
/// stands after the answers taken.
spec fn top_ok(
    e: Seq<usize>,
    start: int,
    state: State,
    pending: Option<Pending>,
    history: Seq<bool>,
    n: nat,
) -> bool {
    match state {
        State::Start => start == history.len() && pending is None,
        State::Pairing { i, num_pairs, mains, partner_of, straggler } => pairing_ok(
            e,
            start,
            i as int,
            num_pairs as int,
            mains@,
            partner_of@,
            straggler,
            pending,
            history,
        ),
        State::AwaitMains { partner_of, straggler } => false,
        State::Insert { chain, pending: waiting, order, order_idx, search } => inserting_ok(
            e,
            start,
            chain@,
            waiting@,
            order@,
            order_idx as int,
            search,
            pending,
            history,
            n,
        ),
        State::Done(result) => pending is None && completes(e, start, history, result@),
    }
}

/// A level below the top waits for the level above it.
spec fn awaits_ok(
    e: Seq<usize>,
    start: int,
    state: State,
    above: Seq<usize>,
    above_start: int,
    history: Seq<bool>,
) -> bool {
    state matches State::AwaitMains { partner_of, straggler } && awaiting_ok(
        e,
        start,
        partner_of@,
        straggler,
        above,
        above_start,
        history,
    )
}

/// Every level is sound in itself, every level but the top waits for the
/// one above it, and the bottom level is the sort of all the items.
#[verifier::opaque]
spec fn base_ok(stack: Seq<Frame>, history: Seq<bool>, n: nat) -> bool {
    &&& forall|k: int|
        0 <= k < stack.len() ==> entry_ok(
            (#[trigger] stack[k]).elements@,
            stack[k].start@,
            history,
            n,
        )
    &&& forall|k: int|
        0 <= k < stack.len() - 1 ==> awaits_ok(
            (#[trigger] stack[k]).elements@,
            stack[k].start@,
            stack[k].state,
            stack[k + 1].elements@,
            stack[k + 1].start@,
            history,
        )
    &&& stack.len() > 0 ==> stack[0].elements@ == iota(n) && stack[0].start@ == 0
}

/// The stack of a sort under way.
spec fn running(stack: Seq<Frame>, pending: Option<Pending>, history: Seq<bool>, n: nat) -> bool {
    &&& stack.len() >= 1
    &&& base_ok(stack, history, n)
    &&& top_ok(
        stack.last().elements@,
        stack.last().start@,
        stack.last().state,
        pending,
        history,
        n,
    )
}

/// The steps that the insertions of a level of `m` elements take at most.
spec fn insert_work(m: nat) -> nat {
    (2 * (m - m / 2 - 1) + 2) as nat
}

/// The steps that a level of `m` elements takes at most, the levels above
/// it included.
spec fn level_work(m: nat) -> nat
    decreases m,
{
    if m <= 1 {
        2
    } else {
        2 + insert_work(m) + level_work(m / 2)
    }
}

/// The steps that a level has left at most, those that end with a question
/// not counted.
spec fn frame_work(frame: Frame) -> nat {
    let m = frame.elements@.len();
    match frame.state {
        State::Start => level_work(m),
        State::Pairing { i, num_pairs, mains, partner_of, straggler } => (level_work(m) - 1) as nat,
        State::AwaitMains { partner_of, straggler } => insert_work(m),
        State::Insert { chain, pending, order, order_idx, search } => (2 * (order.len()
            - order_idx) + 2 - if search is Some {
            1int
        } else {
            0int
        }) as nat,
        State::Done(result) => 1,
    }
}

/// The steps that the stack has left at most.
spec fn stack_work(stack: Seq<Frame>) -> nat
    decreases stack.len(),
{
    if stack.len() == 0 {
        0
    } else {
        stack_work(stack.drop_last()) + frame_work(stack.last())
    }
}

proof fn lemma_work_push(stack: Seq<Frame>, frame: Frame)
    ensures
        stack_work(stack.push(frame)) == stack_work(stack) + frame_work(frame),
{
    assert(stack.push(frame).drop_last() =~= stack);
}

proof fn lemma_work_top(stack: Seq<Frame>)
    requires
        stack.len() >= 1,
    ensures
        stack_work(stack) == stack_work(stack.drop_last()) + frame_work(stack.last()),
{
}

/// More answers leave the levels below the top as they are.
proof fn lemma_base_longer(stack: Seq<Frame>, history: Seq<bool>, longer: Seq<bool>, n: nat)
    requires
        base_ok(stack, history, n),
        history.is_prefix_of(longer),
    ensures
        base_ok(stack, longer, n),
{
    reveal(base_ok);
    reveal(awaiting_ok);
    assert forall|k: int| 0 <= k < stack.len() - 1 implies awaits_ok(
        (#[trigger] stack[k]).elements@,
        stack[k].start@,
        stack[k].state,
        stack[k + 1].elements@,
        stack[k + 1].start@,
        longer,
    ) by {
        let e = stack[k].elements@;
        assert(entry_ok(e, stack[k].start@, history, n));
        lemma_pairs_settled(e, history, longer, stack[k].start@, (e.len() / 2) as int);
    }
    assert forall|k: int| 0 <= k < stack.len() implies entry_ok(
        (#[trigger] stack[k]).elements@,
        stack[k].start@,
        longer,
        n,
    ) by {
        assert(entry_ok(stack[k].elements@, stack[k].start@, history, n));
    }
}

/// What the stack tells of its top level.
proof fn lemma_base_top(stack: Seq<Frame>, history: Seq<bool>, n: nat)
    requires
        stack.len() >= 1,
        base_ok(stack, history, n),
    ensures
        entry_ok(stack.last().elements@, stack.last().start@, history, n),
        stack.len() == 1 ==> stack.last().elements@ == iota(n) && stack.last().start@ == 0,
        stack.len() >= 2 ==> entry_ok(
            stack[stack.len() - 2].elements@,
            stack[stack.len() - 2].start@,
            history,
            n,
        ) && awaits_ok(
            stack[stack.len() - 2].elements@,
            stack[stack.len() - 2].start@,
            stack[stack.len() - 2].state,
            stack.last().elements@,
            stack.last().start@,
            history,
        ),
{
    reveal(base_ok);
    assert(entry_ok(
        stack[stack.len() - 1].elements@,
        stack[stack.len() - 1].start@,
        history,
        n,
    ));
    if stack.len() >= 2 {
        let k = stack.len() - 2;
        assert(entry_ok(stack[k].elements@, stack[k].start@, history, n));
        assert(awaits_ok(
            stack[k].elements@,
            stack[k].start@,
            stack[k].state,
            stack[k + 1].elements@,
            stack[k + 1].start@,
            history,
        ));
    }
}

/// Taking the top level off leaves the levels below as they are.
proof fn lemma_base_pop(stack: Seq<Frame>, history: Seq<bool>, n: nat)
    requires
        stack.len() >= 1,
        base_ok(stack, history, n),
    ensures
        base_ok(stack.drop_last(), history, n),
{
    reveal(base_ok);
    let rest = stack.drop_last();
    assert forall|k: int| 0 <= k < rest.len() implies entry_ok(
        (#[trigger] rest[k]).elements@,
        rest[k].start@,
        history,
        n,
    ) by {
        assert(rest[k] == stack[k]);
    }
    assert forall|k: int| 0 <= k < rest.len() - 1 implies awaits_ok(
        (#[trigger] rest[k]).elements@,
        rest[k].start@,
        rest[k].state,
        rest[k + 1].elements@,
        rest[k + 1].start@,
        history,
    ) by {
        assert(rest[k] == stack[k]);
        assert(rest[k + 1] == stack[k + 1]);
    }
}

/// A level that the one below waits for can be put on top.
proof fn lemma_base_push(stack: Seq<Frame>, frame: Frame, history: Seq<bool>, n: nat)
    requires
        base_ok(stack, history, n),
        entry_ok(frame.elements@, frame.start@, history, n),
        stack.len() == 0 ==> frame.elements@ == iota(n) && frame.start@ == 0,
        stack.len() > 0 ==> awaits_ok(
            stack.last().elements@,
            stack.last().start@,
            stack.last().state,
            frame.elements@,
            frame.start@,
            history,
        ),
    ensures
        base_ok(stack.push(frame), history, n),
{
    reveal(base_ok);
    let more = stack.push(frame);
    assert forall|k: int| 0 <= k < more.len() implies entry_ok(
        (#[trigger] more[k]).elements@,
        more[k].start@,
        history,
        n,
    ) by {
        if k < stack.len() {
            assert(more[k] == stack[k]);
        }
    }
    assert forall|k: int| 0 <= k < more.len() - 1 implies awaits_ok(
        (#[trigger] more[k]).elements@,
        more[k].start@,
        more[k].state,
        more[k + 1].elements@,
        more[k + 1].start@,
        history,
    ) by {
        assert(more[k] == stack[k]);
        if k + 1 < stack.len() {
            assert(more[k + 1] == stack[k + 1]);
        }
    }
}

/// A question that a level asks is the question that the whole sort asks.
proof fn lemma_asks_below(
    stack: Seq<Frame>,
    history: Seq<bool>,
    n: nat,
    k: int,
    a: usize,
    b: usize,
)
    requires
        base_ok(stack, history, n),
        0 <= k < stack.len(),
        sort(stack[k].elements@, history, stack[k].start@) == (Outcome::Asks { a, b }),
    ensures
        rank(n, history) == (Outcome::Asks { a, b }),
    decreases k,
{
    reveal(base_ok);
    reveal(awaiting_ok);
    if k > 0 {
        let below = stack[k - 1];
        assert(awaits_ok(
            below.elements@,
            below.start@,
            below.state,
            stack[k].elements@,
            stack[k].start@,
            history,
        ));
        lemma_asks_below(stack, history, n, k - 1, a, b);
    }
}

/// The question that is out is the question that the level at the top
/// asks, and the state of the level is the one that asked it.
proof fn lemma_top_asks(
    e: Seq<usize>,
    start: int,
    state: State,
    pending: Pending,
    history: Seq<bool>,
    n: nat,
)
    requires
        entry_ok(e, start, history, n),
        top_ok(e, start, state, Some(pending), history, n),
    ensures
        sort(e, history, start) matches Outcome::Asks { a, b } && shown(pending) == (Step::Compare {
            a,
            b,
        }),
        pending is Pairing ==> state is Pairing,
        pending is Search ==> (state matches State::Insert {
            chain,
            pending: waiting,
            order,
            order_idx,
            search,
        } && search matches Some(s) && s.mid is Some),
{
    reveal(pairing_ok);
    reveal(inserting_ok);
    match state {
        State::Insert { chain, pending: waiting, order, order_idx, search } => {
            let s = search->0;
            lemma_searching_asks(
                e,
                start,
                chain@,
                waiting@,
                order@,
                order_idx as int,
                s.lo as int,
                s.hi as int,
                history,
            );
        },
        _ => {},
    }
}

/// A level that has just been entered is finished if it has fewer than two
/// elements, and begins to compare its pairs otherwise.
proof fn lemma_start_leaves(e: Seq<usize>, start: int, history: Seq<bool>, n: nat)
    requires
        entry_ok(e, start, history, n),
        start == history.len(),
    ensures
        e.len() <= 1 ==> completes(e, start, history, e),
        e.len() >= 2 ==> largest(e) < n && pairing_ok(
            e,
            start,
            0,
            (e.len() / 2) as int,
            Seq::empty(),
            Seq::new((largest(e) + 1) as nat, |j: int| 0usize),
            straggler_of(e),
            None,
            history,
        ),
{
    reveal(pairing_ok);
    if e.len() <= 1 {
        lemma_short_completes(e, history);
    } else {
        lemma_largest_is_element(e);
        let j = choose|j: int| 0 <= j < e.len() && e[j] == largest(e);
        assert(e[j] < n);
        assert(mains_of(e, history, start, 0) =~= Seq::<usize>::empty());
    }
}

/// What a level that compares its pairs can rely on.
proof fn lemma_pairing_facts(
    e: Seq<usize>,
    start: int,
    i: int,
    num_pairs: int,
    mains: Seq<usize>,
    partner: Seq<usize>,
    straggler: Option<usize>,
    pending: Option<Pending>,
    history: Seq<bool>,
    n: nat,
)
    requires
        entry_ok(e, start, history, n),
        pairing_ok(e, start, i, num_pairs, mains, partner, straggler, pending, history),
    ensures
        e.len() >= 2,
        num_pairs == e.len() / 2,
        0 <= i <= num_pairs,
        mains.len() == i,
        partner.len() == largest(e) + 1,
        forall|j: int| 0 <= j < e.len() ==> #[trigger] e[j] < partner.len(),
        pending matches Some(p) ==> i < num_pairs && p == (Pending::Pairing {
            a: e[2 * i],
            b: e[2 * i + 1],
        }),
{
    reveal(pairing_ok);
    assert forall|j: int| 0 <= j < e.len() implies #[trigger] e[j] < partner.len() by {
        lemma_largest(e, j);
    }
}

/// A level with a pair left sends out the question about it.
proof fn lemma_pairing_asks(
    e: Seq<usize>,
    start: int,
    i: int,
    num_pairs: int,
    mains: Seq<usize>,
    partner: Seq<usize>,
    straggler: Option<usize>,
    history: Seq<bool>,
)
    requires
        pairing_ok(e, start, i, num_pairs, mains, partner, straggler, None, history),
        i < num_pairs,
    ensures
        pairing_ok(
            e,
            start,
            i,
            num_pairs,
            mains,
            partner,
            straggler,
            Some(Pending::Pairing { a: e[2 * i], b: e[2 * i + 1] }),
            history,
        ),
{
    reveal(pairing_ok);
}

/// The answer about a pair settles its main and its partner.
proof fn lemma_pairing_answered(
    e: Seq<usize>,
    start: int,
    i: int,
    num_pairs: int,
    mains: Seq<usize>,
    partner: Seq<usize>,
    straggler: Option<usize>,
    pending: Pending,
    history: Seq<bool>,
    answer: bool,
    n: nat,
)
    requires
        entry_ok(e, start, history, n),
        pairing_ok(e, start, i, num_pairs, mains, partner, straggler, Some(pending), history),
    ensures
        entry_ok(e, start, history.push(answer), n),
        pairing_ok(
            e,
            start,
            i + 1,
            num_pairs,
            mains.push(loser(e, i, answer)),
            partner.update(loser(e, i, answer) as int, winner(e, i, answer)),
            straggler,
            None,
            history.push(answer),
        ),
{
    reveal(pairing_ok);
    lemma_pair_answered(e, history, start, i, answer);
    lemma_largest(e, 2 * i);
    lemma_largest(e, 2 * i + 1);
}

/// A level with no pair left waits for its mains, which make a level of
/// their own.
proof fn lemma_pairing_ends(
    e: Seq<usize>,
    start: int,
    i: int,
    num_pairs: int,
    mains: Seq<usize>,
    partner: Seq<usize>,
    straggler: Option<usize>,
    history: Seq<bool>,
    n: nat,
)
    requires
        entry_ok(e, start, history, n),
        pairing_ok(e, start, i, num_pairs, mains, partner, straggler, None, history),
        i >= num_pairs,
    ensures
        awaiting_ok(e, start, partner, straggler, mains, start + num_pairs, history),
        entry_ok(mains, start + num_pairs, history, n),
        start + num_pairs == history.len(),
        mains.len() == e.len() / 2,
        e.len() >= 2,
{
    reveal(pairing_ok);
    reveal(awaiting_ok);
    lemma_mains(e, history, start, num_pairs);
    assert forall|j: int| 0 <= j < mains.len() implies #[trigger] mains[j] < n by {
        assert(e.contains(mains[j]));
        let k = choose|k: int| 0 <= k < e.len() && e[k] == mains[j];
        assert(e[k] < n);
    }
}

/// What a level that inserts can rely on.
proof fn lemma_inserting_facts(
    e: Seq<usize>,
    start: int,
    chain: Seq<usize>,
    waiting: Seq<(usize, Option<usize>)>,
    order: Seq<usize>,
    idx: int,
    search: Option<SearchState>,
    pending: Option<Pending>,
    history: Seq<bool>,
    n: nat,
)
    requires
        entry_ok(e, start, history, n),
        inserting_ok(e, start, chain, waiting, order, idx, search, pending, history, n),
    ensures
        0 <= idx <= order.len(),
        order.len() == e.len() - e.len() / 2 - 1,
        chain.len() + (order.len() - idx) == e.len(),
        idx < order.len() ==> {
            &&& order[idx] < waiting.len()
            &&& (waiting[order[idx] as int].1 matches Some(m) ==> chain.contains(m))
            &&& 0 <= window(chain, waiting, order, idx, search).0 <= window(
                chain,
                waiting,
                order,
                idx,
                search,
            ).1 <= chain.len()
        },
        search matches Some(s) ==> idx < order.len() && s.elem == waiting[order[idx] as int].0 && (
        s.mid matches Some(m) ==> s.lo < s.hi && m == midpoint(s.lo as int, s.hi as int)),
        pending matches Some(p) ==> (search matches Some(s) && s.mid matches Some(m) && p == (
        Pending::Search { a: s.elem, b: chain[m as int] })),
{
    reveal(inserting_ok);
    lemma_jacobsthal_seq_is_arrangement(waiting.len());
    if idx < order.len() {
        let main = waiting[order[idx] as int].1;
        if main is Some {
            lemma_position_range(chain, main->0);
        }
    }
}

/// A level that has inserted every entry is finished.
proof fn lemma_inserting_done(
    e: Seq<usize>,
    start: int,
    chain: Seq<usize>,
    waiting: Seq<(usize, Option<usize>)>,
    order: Seq<usize>,
    idx: int,
    search: Option<SearchState>,
    history: Seq<bool>,
    n: nat,
)
    requires
        inserting_ok(e, start, chain, waiting, order, idx, search, None, history, n),
        idx >= order.len(),
    ensures
        completes(e, start, history, chain),
{
    reveal(inserting_ok);
    lemma_inserting_ends(e, start, chain, waiting, order, idx, history);
}

/// The search for entry `idx` is under way in the window of the level.
proof fn lemma_inserting_window(
    e: Seq<usize>,
    start: int,
    chain: Seq<usize>,
    waiting: Seq<(usize, Option<usize>)>,
    order: Seq<usize>,
    idx: int,
    search: Option<SearchState>,
    pending: Option<Pending>,
    history: Seq<bool>,
    n: nat,
)
    requires
        inserting_ok(e, start, chain, waiting, order, idx, search, pending, history, n),
        idx < order.len(),
    ensures
        resumes_searching(
            e,
            start,
            chain,
            waiting,
            order,
            idx,
            window(chain, waiting, order, idx, search).0,
            window(chain, waiting, order, idx, search).1,
            history,
        ),
{
    reveal(inserting_ok);
    if search is None {
        lemma_search_begins(e, start, chain, waiting, order, idx, history);
    }
}

/// A search that has come down to one position puts the element there.
proof fn lemma_inserting_places(
    e: Seq<usize>,
    start: int,
    chain: Seq<usize>,
    waiting: Seq<(usize, Option<usize>)>,
    order: Seq<usize>,
    idx: int,
    search: Option<SearchState>,
    pending: Option<Pending>,
    history: Seq<bool>,
    n: nat,
)
    requires
        entry_ok(e, start, history, n),
        inserting_ok(e, start, chain, waiting, order, idx, search, pending, history, n),
        idx < order.len(),
        window(chain, waiting, order, idx, search).0 == window(
            chain,
            waiting,
            order,
            idx,
            search,
        ).1,
    ensures
        inserting_ok(
            e,
            start,
            chain.insert(
                window(chain, waiting, order, idx, search).0,
                waiting[order[idx] as int].0,
            ),
            waiting,
            order,
            idx + 1,
            None,
            None,
            history,
            n,
        ),
{
    lemma_inserting_facts(e, start, chain, waiting, order, idx, search, pending, history, n);
    lemma_inserting_window(e, start, chain, waiting, order, idx, search, pending, history, n);
    reveal(inserting_ok);
    let lo = window(chain, waiting, order, idx, search).0;
    lemma_search_ends(e, start, chain, waiting, order, idx, lo, history);
    lemma_insert_insertable(n as int, chain, waiting, lo, waiting[order[idx] as int].0);
}

/// A search with positions left sends out the question about the middle
/// one.
proof fn lemma_inserting_asks(
    e: Seq<usize>,
    start: int,
    chain: Seq<usize>,
    waiting: Seq<(usize, Option<usize>)>,
    order: Seq<usize>,
    idx: int,
    search: Option<SearchState>,
    history: Seq<bool>,
    n: nat,
)
    requires
        entry_ok(e, start, history, n),
        inserting_ok(e, start, chain, waiting, order, idx, search, None, history, n),
        idx < order.len(),
        window(chain, waiting, order, idx, search).0 < window(chain, waiting, order, idx, search).1,
    ensures
        ({
            let lo = window(chain, waiting, order, idx, search).0;
            let hi = window(chain, waiting, order, idx, search).1;
            let elem = waiting[order[idx] as int].0;
            inserting_ok(
                e,
                start,
                chain,
                waiting,
                order,
                idx,
                Some(
                    SearchState {
                        elem,
                        lo: lo as usize,
                        hi: hi as usize,
                        mid: Some(midpoint(lo, hi) as usize),
                    },
                ),
                Some(Pending::Search { a: elem, b: chain[midpoint(lo, hi)] }),
                history,
                n,
            )
        }),
{
    lemma_inserting_facts(e, start, chain, waiting, order, idx, search, None, history, n);
    lemma_inserting_window(e, start, chain, waiting, order, idx, search, None, history, n);
    reveal(inserting_ok);
}

/// An answer halves the window of the search.
proof fn lemma_inserting_answered(
    e: Seq<usize>,
    start: int,
    chain: Seq<usize>,
    waiting: Seq<(usize, Option<usize>)>,
    order: Seq<usize>,
    idx: int,
    s: SearchState,
    pending: Pending,
    history: Seq<bool>,
    answer: bool,
    n: nat,
)
    requires
        entry_ok(e, start, history, n),
        inserting_ok(e, start, chain, waiting, order, idx, Some(s), Some(pending), history, n),
    ensures
        entry_ok(e, start, history.push(answer), n),
        s.mid is Some,
        s.lo <= s.mid->0 < s.hi <= chain.len(),
        inserting_ok(
            e,
            start,
            chain,
            waiting,
            order,
            idx,
            Some(
                SearchState {
                    elem: s.elem,
                    lo: if answer {
                        s.lo
                    } else {
                        (s.mid->0 + 1) as usize
                    },
                    hi: if answer {
                        s.mid->0
                    } else {
                        s.hi
                    },
                    mid: None,
                },
            ),
            None,
            history.push(answer),
            n,
        ),
{
    reveal(inserting_ok);
    lemma_search_answered(
        e,
        start,
        chain,
        waiting,
        order,
        idx,
        s.lo as int,
        s.hi as int,
        history,
        answer,
    );
}

/// A level that waited, handed the result of the level above, turns to
/// its insertions.
proof fn lemma_merge(
    e: Seq<usize>,
    start: int,
    partner: Seq<usize>,
    straggler: Option<usize>,
    above: Seq<usize>,
    above_start: int,
    result: Seq<usize>,
    history: Seq<bool>,
    n: nat,
)
    requires
        entry_ok(e, start, history, n),
        entry_ok(above, above_start, history, n),
        awaiting_ok(e, start, partner, straggler, above, above_start, history),
        completes(above, above_start, history, result),
    ensures
        result.len() >= 1,
        result.len() == e.len() / 2,
        2 * result.len() <= usize::MAX,
        forall|k: int| 0 <= k < result.len() ==> (#[trigger] result[k]) < partner.len(),
        inserting_ok(
            e,
            start,
            seed_chain(partner, result),
            waiting_list(partner, result, straggler),
            jacobsthal_seq(waiting_list(partner, result, straggler).len()),
            0,
            None,
            None,
            history,
            n,
        ),
{
    reveal(awaiting_ok);
    reveal(inserting_ok);
    let pairs = (e.len() / 2) as int;
    lemma_completes_now(above, above_start, history, result);
    lemma_sort_rearranges(above, history, above_start);
    lemma_seed_insertable(e, history, start, result, n as int);
    let paired = history.take(start + pairs);
    assert(paired.is_prefix_of(history)) by {
        assert(history.subrange(0, paired.len() as int) =~= paired);
    }
    lemma_pairs_settled(e, paired, history, start, pairs);
    lemma_merge_entry(e, start, paired, history, result);
    lemma_jacobsthal_seq_is_arrangement(waiting_list(partner, result, straggler).len());
}

impl View for Stepper {
    type V = StepperView;

    closed spec fn view(&self) -> StepperView {
        StepperView {
            count: self.count@,
            history: self.history@,
            status: if self.done is Some {
                Status::Finished
            } else if self.stack.len() == 0 {
                Status::Delivered
            } else if self.pending is Some {
                Status::Asked
            } else {
                Status::Idle
            },
        }
    }
}

impl Frame {
    fn new(elements: Vec<usize>, Ghost(start): Ghost<int>) -> (frame: Frame)
        ensures
            frame.elements == elements,
            frame.state is Start,
            frame.start@ == start,
    {
        Frame { elements, state: State::Start, start: Ghost(start) }
    }
}

/// The items `0 .. n`, in this order.
fn indices(n: usize) -> (all: Vec<usize>)
    ensures
        all@ == iota(n as nat),
{
    let mut all: Vec<usize> = Vec::with_capacity(n);
    let mut i: usize = 0;
    while i < n
        invariant
            i <= n,
            all@ == iota(i as nat),
        decreases n - i,
    {
        all.push(i);
        i += 1;
        assert(all@ =~= iota(i as nat));
    }
    all
}

/// A copy of `elements`.
fn copy_of(elements: &Vec<usize>) -> (copy: Vec<usize>)
    ensures
        copy@ == elements@,
{
    let mut copy: Vec<usize> = Vec::with_capacity(elements.len());
    let mut i: usize = 0;
    while i < elements.len()
        invariant
            i <= elements.len(),
            copy@ == elements@.take(i as int),
        decreases elements.len() - i,
    {
        copy.push(elements[i]);
        i += 1;
        assert(copy@ =~= elements@.take(i as int));
    }
    assert(elements@.take(elements.len() as int) =~= elements@);
    copy
}

impl Stepper {
    /// What the stepper rests on between any two of its steps.
    pub closed spec fn wf(&self) -> bool {
        let n = self.count@;
        let history = self.history@;
        &&& spec_estimate_turns(n) <= usize::MAX
        &&& n <= usize::MAX
        &&& self.comparisons == history.len()
        &&& history.len() <= spec_estimate_turns(n)
        &&& rank(n, history) matches Outcome::Sorted { order, next } ==> next == history.len()
        &&& match self.done {
            Some(order) => self.stack.len() == 0 && self.pending is None && rank(n, history) == (
            Outcome::Sorted { order: order@, next: history.len() as int }),
            None => if self.stack.len() == 0 {
                self.pending is None && (rank(n, history) matches Outcome::Sorted { order, next }
                    && next == history.len())
            } else {
                running(self.stack@, self.pending, history, n)
            },
        }
    }

    /// A stepper that stands sound is live.
    pub proof fn lemma_live(&self)
        requires
            self.wf(),
        ensures
            self@.is_live(),
    {
        if self.done is None && self.stack.len() > 0 && self.pending is Some {
            self.lemma_pending_asks();
        }
    }

    /// The question that is out is the one that the sort waits on.
    proof fn lemma_pending_asks(&self)
        requires
            self.wf(),
            self.pending is Some,
        ensures
            rank(self.count@, self.history@) matches Outcome::Asks { a, b } && shown(
                self.pending->0,
            ) == (Step::Compare { a, b }),
    {
        let stack = self.stack@;
        let top = stack.last();
        lemma_base_top(stack, self.history@, self.count@);
        lemma_top_asks(
            top.elements@,
            top.start@,
            top.state,
            self.pending->0,
            self.history@,
            self.count@,
        );
        match sort(top.elements@, self.history@, top.start@) {
            Outcome::Asks { a, b } => {
                lemma_asks_below(stack, self.history@, self.count@, stack.len() - 1, a, b);
            },
            _ => {},
        }
    }

    /// Makes a stepper for the items `0 .. n`.  Fewer than two items are
    /// ranked as they are, without a question.
    ///
    /// The stepper counts its answers in a machine word, which asks that the
    /// estimate for `n` fits one.
    pub fn new(n: usize) -> (stepper: Stepper)
        requires
            spec_estimate_turns(n as nat) <= usize::MAX,
        ensures
            stepper.wf(),
            stepper@ == StepperView::fresh(n as nat),
    {
        let all: Vec<usize> = indices(n);
        proof {
            lemma_sort_bound(iota(n as nat), Seq::empty(), 0);
        }
        if n <= 1 {
            return Stepper {
                stack: Vec::new(),
                pending: None,
                comparisons: 0,
                done: Some(all),
                count: Ghost(n as nat),
                history: Ghost(Seq::empty()),
            };
        }
        let mut stack: Vec<Frame> = Vec::new();
        let root = Frame::new(all, Ghost(0));
        proof {
            reveal(base_ok);
            lemma_base_push(stack@, root, Seq::empty(), n as nat);
        }
        stack.push(root);
        Stepper {
            stack,
            pending: None,
            comparisons: 0,
            done: None,
            count: Ghost(n as nat),
            history: Ghost(Seq::empty()),
        }
    }

    /// Returns the current step: the question that the sort waits on, or
    /// `Done`.  The stepper works on until it has one of the two; calling
    /// `step` again changes nothing and returns the same.  A ranking that
    /// has been handed out stays handed out: the step is `Done` then, too.
    pub fn step(&mut self) -> (step: Step)
        requires
            old(self).wf(),
        ensures
            final(self).wf(),
            final(self)@ == old(self)@.stepped(),
            step == old(self)@.step(),
    {
        if let Some(step) = self.pending_step() {
            proof {
                self.lemma_pending_asks();
            }
            return step;
        }
        loop
            invariant
                self.wf(),
                self.pending is None,
                self.count@ == old(self).count@,
                self.history@ == old(self).history@,
                self@.status is Delivered <==> old(self)@.status is Delivered,
            decreases stack_work(self.stack@),
        {
            if self.done.is_some() {
                return Step::Done;
            }
            if self.stack.len() == 0 {
                return Step::Done;
            }
            if self.pop_done_frame() {
                continue ;
            }
            if let Some(step) = self.advance_frame() {
                proof {
                    self.lemma_pending_asks();
                }
                return step;
            }
        }
    }

    /// Takes the answer to the question that is out (`true`: the item named
    /// first ranks before the other) and returns the next step.  With no
    /// question out, the answer is dropped and the current step returned.
    pub fn answer(&mut self, better_is_a: bool) -> (step: Step)
        requires
            old(self).wf(),
        ensures
            final(self).wf(),
            final(self)@ == old(self)@.answered(better_is_a),
            step == final(self)@.step(),
    {
        let pending: Pending = match self.pending {
            Some(pending) => pending,
            None => {
                return self.step();
            },
        };
        let ghost before = self.history@;
        let ghost after = before.push(better_is_a);
        let ghost n = self.count@;
        let ghost full = self.stack@;
        proof {
            self.lemma_pending_asks();
            lemma_sort_bound(iota(n), before, 0);
            lemma_base_top(full, before, n);
            lemma_top_asks(
                full.last().elements@,
                full.last().start@,
                full.last().state,
                pending,
                before,
                n,
            );
            assert(before.is_prefix_of(after)) by {
                assert(after.subrange(0, before.len() as int) =~= before);
            }
            lemma_base_longer(full, before, after, n);
            lemma_base_top(full, after, n);
            lemma_base_pop(full, after, n);
        }
        self.pending = None;
        self.comparisons += 1;
        let ghost below = full.drop_last();
        let frame: Frame = self.stack.pop().unwrap();
        let Frame { elements, state, start } = frame;
        let ghost e = elements@;
        match pending {
            Pending::Pairing { .. } => {
                match state {
                    State::Pairing { i, num_pairs, mut mains, mut partner_of, straggler } => {
                        proof {
                            lemma_pairing_facts(
                                e,
                                start@,
                                i as int,
                                num_pairs as int,
                                mains@,
                                partner_of@,
                                straggler,
                                Some(pending),
                                before,
                                n,
                            );
                            lemma_pairing_answered(
                                e,
                                start@,
                                i as int,
                                num_pairs as int,
                                mains@,
                                partner_of@,
                                straggler,
                                pending,
                                before,
                                better_is_a,
                                n,
                            );
                        }
                        let a: usize = elements[2 * i];
                        let b: usize = elements[2 * i + 1];
                        if better_is_a {
                            mains.push(b);
                            partner_of[b] = a;
                        } else {
                            mains.push(a);
                            partner_of[a] = b;
                        }
                        let next = Frame {
                            elements,
                            state: State::Pairing {
                                i: i + 1,
                                num_pairs,
                                mains,
                                partner_of,
                                straggler,
                            },
                            start,
                        };
                        proof {
                            lemma_base_push(below, next, after, n);
                        }
                        self.stack.push(next);
                    },
                    _ => {
                        proof {
                            assert(false);
                        }
                        unreached::<()>()
                    },
                }
            },
            Pending::Search { .. } => {
                match state {
                    State::Insert { mut chain, pending: waiting, order, mut order_idx, search } => {
                        let found: SearchState = search.unwrap();
                        proof {
                            lemma_inserting_facts(
                                e,
                                start@,
                                chain@,
                                waiting@,
                                order@,
                                order_idx as int,
                                search,
                                Some(pending),
                                before,
                                n,
                            );
                            lemma_inserting_answered(
                                e,
                                start@,
                                chain@,
                                waiting@,
                                order@,
                                order_idx as int,
                                found,
                                pending,
                                before,
                                better_is_a,
                                n,
                            );
                        }
                        let mid: usize = found.mid.unwrap();
                        let mut lo: usize = found.lo;
                        let mut hi: usize = found.hi;
                        if better_is_a {
                            hi = mid;
                        } else {
                            lo = mid + 1;
                        }
                        let mut kept: Option<SearchState> = Some(
                            SearchState { elem: found.elem, lo, hi, mid: None },
                        );
                        if lo == hi {
                            proof {
                                lemma_inserting_places(
                                    e,
                                    start@,
                                    chain@,
                                    waiting@,
                                    order@,
                                    order_idx as int,
                                    kept,
                                    None,
                                    after,
                                    n,
                                );
                            }
                            chain.insert(lo, found.elem);
                            kept = None;
                            order_idx += 1;
                        }
                        let next = Frame {
                            elements,
                            state: State::Insert {
                                chain,
                                pending: waiting,
                                order,
                                order_idx,
                                search: kept,
                            },
                            start,
                        };
                        proof {
                            lemma_base_push(below, next, after, n);
                        }
                        self.stack.push(next);
                    },
                    _ => {
                        proof {
                            assert(false);
                        }
                        unreached::<()>()
                    },
                }
            },
        }
        proof {
            lemma_answer_used(iota(n), before, better_is_a);
            self.history@ = after;
        }
        self.step()
    }

    /// Hands out the ranking, once: the items' indices, best first.  Returns
    /// `None` while the sort is under way, and after the ranking has been
    /// handed out.
    pub fn take_order(&mut self) -> (order: Option<Vec<usize>>)
        requires
            old(self).wf(),
        ensures
            final(self).wf(),
            final(self)@ == old(self)@.taken(),
            match old(self)@.order() {
                Some(ranking) => order matches Some(v) && v@ == ranking && is_rearrangement(
                    ranking,
                    iota(old(self)@.count),
                ),
                None => order is None,
            },
    {
        proof {
            lemma_sort_rearranges(iota(self.count@), self.history@, 0);
        }
        let order = self.done.take();
        order
    }

    /// Returns the number of answers taken so far, which never exceeds the
    /// estimate for the number of items.
    pub fn comparisons_made(&self) -> (made: usize)
        requires
            self.wf(),
        ensures
            made == self@.history.len(),
            made <= spec_estimate_turns(self@.count),
    {
        self.comparisons
    }

    /// The question that is out, as a step.
    fn pending_step(&self) -> (step: Option<Step>)
        ensures
            match self.pending {
                Some(pending) => step == Some(shown(pending)),
                None => step is None,
            },
    {
        let pending = self.pending?;
        match pending {
            Pending::Pairing { a, b } => Some(Step::Compare { a, b }),
            Pending::Search { a, b } => Some(Step::Compare { a, b }),
        }
    }

    /// Takes a finished level off the stack and hands its result to the
    /// level below, or keeps it as the ranking if there is none below.
    /// Returns whether the top level was finished.
    fn pop_done_frame(&mut self) -> (popped: bool)
        requires
            old(self).wf(),
            old(self).done is None,
            old(self).stack.len() > 0,
            old(self).pending is None,
        ensures
            final(self).wf(),
            final(self).pending is None,
            final(self).count@ == old(self).count@,
            final(self).history@ == old(self).history@,
            !(final(self)@.status is Delivered),
            popped ==> stack_work(final(self).stack@) < stack_work(old(self).stack@),
            !popped ==> final(self).stack@ == old(self).stack@ && final(self).done is None && !(
            old(self).stack@.last().state is Done),
    {
        let is_done: bool = match &self.stack[self.stack.len() - 1].state {
            State::Done(_) => true,
            _ => false,
        };
        if !is_done {
            return false;
        }
        let ghost n = self.count@;
        let ghost history = self.history@;
        let ghost full = self.stack@;
        proof {
            lemma_base_top(full, history, n);
            lemma_base_pop(full, history, n);
            lemma_work_top(full);
        }
        let frame: Frame = self.stack.pop().unwrap();
        let ghost rest = self.stack@;
        let Frame { elements, state, start } = frame;
        match state {
            State::Done(result) => {
                proof {
                    if rest.len() >= 1 {
                        let below = rest.last();
                        assert(below == full[full.len() - 2]);
                        lemma_merge(
                            below.elements@,
                            below.start@,
                            below.state->AwaitMains_partner_of@,
                            below.state->AwaitMains_straggler,
                            elements@,
                            start@,
                            result@,
                            history,
                            n,
                        );
                        lemma_base_pop(rest, history, n);
                        lemma_work_top(rest);
                    } else {
                        lemma_completes_now(elements@, start@, history, result@);
                    }
                }
                self.propagate_result(result);
                proof {
                    if rest.len() >= 1 {
                        let heir = self.stack@.last();
                        let lower = rest.drop_last();
                        assert(self.stack@ =~= lower.push(heir));
                        lemma_base_top(rest, history, n);
                        lemma_inserting_facts(
                            heir.elements@,
                            heir.start@,
                            heir.state->Insert_chain@,
                            heir.state->Insert_pending@,
                            heir.state->Insert_order@,
                            0,
                            None,
                            None,
                            history,
                            n,
                        );
                        lemma_base_push(lower, heir, history, n);
                        lemma_work_push(lower, heir);
                    }
                }
                true
            },
            _ => {
                proof {
                    assert(false);
                }
                unreached()
            },
        }
    }

    /// Moves the level at the top one step on.  Returns the question if the
    /// step ended with one.
    fn advance_frame(&mut self) -> (step: Option<Step>)
        requires
            old(self).wf(),
            old(self).done is None,
            old(self).stack.len() > 0,
            old(self).pending is None,
            !(old(self).stack@.last().state is Done),
        ensures
            final(self).wf(),
            final(self).done is None,
            final(self).stack.len() > 0,
            final(self).count@ == old(self).count@,
            final(self).history@ == old(self).history@,
            match step {
                Some(s) => final(self).pending is Some && s == shown(final(self).pending->0),
                None => final(self).pending is None && stack_work(final(self).stack@) < stack_work(
                    old(self).stack@,
                ),
            },
    {
        let ghost n = self.count@;
        let ghost history = self.history@;
        let ghost full = self.stack@;
        proof {
            lemma_base_top(full, history, n);
            lemma_base_pop(full, history, n);
            lemma_work_top(full);
        }
        let frame: Frame = match self.stack.pop() {
            Some(frame) => frame,
            None => {
                return None;
            },
        };
        let ghost below = self.stack@;
        let Frame { elements, state, start } = frame;
        let ghost e = elements@;
        let (next_state, step, child) = match state {
            State::Start => {
                proof {
                    lemma_start_leaves(e, start@, history, n);
                }
                (Self::advance_start(&elements), None, None)
            },
            State::Pairing { i, num_pairs, mains, partner_of, straggler } => {
                proof {
                    lemma_pairing_facts(
                        e,
                        start@,
                        i as int,
                        num_pairs as int,
                        mains@,
                        partner_of@,
                        straggler,
                        None,
                        history,
                        n,
                    );
                    if i < num_pairs {
                        lemma_pairing_asks(
                            e,
                            start@,
                            i as int,
                            num_pairs as int,
                            mains@,
                            partner_of@,
                            straggler,
                            history,
                        );
                    } else {
                        lemma_pairing_ends(
                            e,
                            start@,
                            i as int,
                            num_pairs as int,
                            mains@,
                            partner_of@,
                            straggler,
                            history,
                            n,
                        );
                    }
                }
                self.advance_pairing(
                    &elements,
                    i,
                    num_pairs,
                    mains,
                    partner_of,
                    straggler,
                    Ghost(start@),
                )
            },
            State::AwaitMains { partner_of, straggler } => {
                proof {
                    assert(false);
                }
                unreached()
            },
            State::Insert { chain, pending, order, order_idx, search } => {
                proof {
                    lemma_inserting_facts(
                        e,
                        start@,
                        chain@,
                        pending@,
                        order@,
                        order_idx as int,
                        search,
                        None,
                        history,
                        n,
                    );
                    if order_idx as int >= order.len() {
                        lemma_inserting_done(
                            e,
                            start@,
                            chain@,
                            pending@,
                            order@,
                            order_idx as int,
                            search,
                            history,
                            n,
                        );
                    } else {
                        let w = window(chain@, pending@, order@, order_idx as int, search);
                        if w.0 == w.1 {
                            lemma_inserting_places(
                                e,
                                start@,
                                chain@,
                                pending@,
                                order@,
                                order_idx as int,
                                search,
                                None,
                                history,
                                n,
                            );
                        } else {
                            lemma_inserting_asks(
                                e,
                                start@,
                                chain@,
                                pending@,
                                order@,
                                order_idx as int,
                                search,
                                history,
                                n,
                            );
                        }
                    }
                }
                let (state, step) = self.advance_insert(chain, pending, order, order_idx, search);
                (state, step, None)
            },
            State::Done(result) => (State::Done(result), None, None),
        };
        let next = Frame { elements, state: next_state, start };
        proof {
            lemma_base_push(below, next, history, n);
            lemma_work_push(below, next);
        }
        self.stack.push(next);
        if let Some(child) = child {
            proof {
                lemma_base_push(self.stack@, child, history, n);
                lemma_work_push(self.stack@, child);
            }
            self.stack.push(child);
        }
        step
    }

    /// The first step of a level: fewer than two elements are finished as
    /// they are; otherwise the pairing begins, with no main yet, a partner
    /// table of zeros that reaches up to the largest element, and the last
    /// of an odd number of elements as the straggler.
    fn advance_start(elements: &Vec<usize>) -> (state: State)
        requires
            forall|j: int| 0 <= j < elements.len() ==> elements[j] < usize::MAX,
        ensures
            elements.len() <= 1 ==> (state matches State::Done(result) && result@ == elements@),
            elements.len() >= 2 ==> (state matches State::Pairing {
                i,
                num_pairs,
                mains,
                partner_of,
                straggler,
            } && i == 0 && num_pairs == elements.len() / 2 && mains@ == Seq::<usize>::empty()
                && partner_of@ == Seq::new((largest(elements@) + 1) as nat, |j: int| 0usize)
                && straggler == straggler_of(elements@)),
    {
        let n: usize = elements.len();
        if n <= 1 {
            return State::Done(copy_of(elements));
        }
        let num_pairs: usize = n / 2;
        let max_elem: usize = largest_of(elements);
        proof {
            lemma_largest_is_element(elements@);
        }
        let partner_of: Vec<usize> = zeros(max_elem + 1);
        let mains: Vec<usize> = Vec::with_capacity(num_pairs);
        let straggler: Option<usize> = if n % 2 == 1 {
            Some(elements[n - 1])
        } else {
            None
        };
        State::Pairing { i: 0, num_pairs, mains, partner_of, straggler }
    }

    /// A step of the pairing: with a pair left, its question goes out;
    /// with none left, the level waits and a new level for the mains is
    /// handed back.
    fn advance_pairing(
        &mut self,
        elements: &Vec<usize>,
        i: usize,
        num_pairs: usize,
        mains: Vec<usize>,
        partner_of: Vec<usize>,
        straggler: Option<usize>,
        Ghost(start): Ghost<int>,
    ) -> (next: (State, Option<Step>, Option<Frame>))
        requires
            i < num_pairs ==> 2 * i + 1 < elements.len(),
        ensures
            final(self).stack == old(self).stack,
            final(self).comparisons == old(self).comparisons,
            final(self).done == old(self).done,
            final(self).count == old(self).count,
            final(self).history == old(self).history,
            i < num_pairs ==> final(self).pending == Some(
                Pending::Pairing { a: elements[2 * i as int], b: elements[2 * i + 1] },
            ) && next.0 == (State::Pairing { i, num_pairs, mains, partner_of, straggler })
                && next.1 == Some(Step::Compare { a: elements[2 * i as int], b: elements[2 * i + 1] })
                && next.2 is None,
            i >= num_pairs ==> final(self).pending == old(self).pending && next.0 == (
            State::AwaitMains { partner_of, straggler }) && next.1 is None && (next.2 matches Some(
                child,
            ) && child.elements == mains && child.state is Start && child.start@ == start
                + num_pairs),
    {
        if i < num_pairs {
            let a: usize = elements[2 * i];
            let b: usize = elements[2 * i + 1];
            self.pending = Some(Pending::Pairing { a, b });
            return (
                State::Pairing { i, num_pairs, mains, partner_of, straggler },
                Some(Step::Compare { a, b }),
                None,
            );
        }
        (
            State::AwaitMains { partner_of, straggler },
            None,
            Some(Frame::new(mains, Ghost(start + num_pairs))),
        )
    }

    /// A step of the insertions.  With the schedule used up the level is
    /// finished.  Otherwise a search for the next element begins, if none
    /// is under way, below the main it is bound to; a search that has come
    /// down to one position puts the element there; any other search sends
    /// out the question about its middle position.
    fn advance_insert(
        &mut self,
        chain: Vec<usize>,
        pending: Vec<(usize, Option<usize>)>,
        order: Vec<usize>,
        order_idx: usize,
        search: Option<SearchState>,
    ) -> (next: (State, Option<Step>))
        requires
            order_idx < order.len() ==> {
                &&& order[order_idx as int] < pending.len()
                &&& (pending[order[order_idx as int] as int].1 matches Some(m) ==> chain@.contains(m))
                &&& (search matches Some(s) ==> s.lo <= s.hi <= chain.len())
            },
        ensures
            final(self).stack == old(self).stack,
            final(self).comparisons == old(self).comparisons,
            final(self).done == old(self).done,
            final(self).count == old(self).count,
            final(self).history == old(self).history,
            order_idx >= order.len() ==> next.0 == State::Done(chain) && next.1 is None
                && final(self).pending == old(self).pending,
            order_idx < order.len() ==> ({
                let entry = pending[order[order_idx as int] as int];
                let elem = match search {
                    Some(s) => s.elem,
                    None => entry.0,
                };
                let lo = match search {
                    Some(s) => s.lo as int,
                    None => 0,
                };
                let hi = match search {
                    Some(s) => s.hi as int,
                    None => bound_of(chain@, entry.1),
                };
                &&& next.0 matches State::Insert {
                    chain: chain2,
                    pending: pending2,
                    order: order2,
                    order_idx: idx2,
                    search: search2,
                }
                &&& pending2 == pending
                &&& order2 == order
                &&& if lo == hi {
                    &&& chain2@ == chain@.insert(lo, elem)
                    &&& idx2 == order_idx + 1
                    &&& search2 is None
                    &&& next.1 is None
                    &&& final(self).pending == old(self).pending
                } else {
                    &&& chain2 == chain
                    &&& idx2 == order_idx
                    &&& search2 == Some(
                        SearchState {
                            elem,
                            lo: lo as usize,
                            hi: hi as usize,
                            mid: Some(midpoint(lo, hi) as usize),
                        },
                    )
                    &&& next.1 == Some(
                        Step::Compare { a: elem, b: chain[midpoint(lo, hi)] },
                    )
                    &&& final(self).pending == Some(
                        Pending::Search { a: elem, b: chain[midpoint(lo, hi)] },
                    )
                }
            }),
    {
        let mut chain = chain;
        let mut order_idx = order_idx;
        let mut search = search;
        if order_idx >= order.len() {
            return (State::Done(chain), None);
        }
        if search.is_none() {
            let idx: usize = order[order_idx];
            let (elem, main) = pending[idx];
            let bound: usize = match main {
                Some(m) => position_of(&chain, m),
                None => chain.len(),
            };
            search = Some(SearchState { elem, lo: 0, hi: bound, mid: None });
        }
        let mut search_state: SearchState = match search {
            Some(search_state) => search_state,
            None => {
                return (State::Insert { chain, pending, order, order_idx, search }, None);
            },
        };
        if search_state.lo == search_state.hi {
            let pos: usize = search_state.lo;
            let elem: usize = search_state.elem;
            chain.insert(pos, elem);
            search = None;
            order_idx += 1;
            return (State::Insert { chain, pending, order, order_idx, search }, None);
        }
        let mid: usize = search_state.lo + (search_state.hi - search_state.lo) / 2;
        search_state.mid = Some(mid);
        search = Some(search_state);
        let a: usize = search_state.elem;
        let b: usize = chain[mid];
        self.pending = Some(Pending::Search { a, b });
        (State::Insert { chain, pending, order, order_idx, search }, Some(Step::Compare { a, b }))
    }

    /// Hands the result of a finished level to the level below, which
    /// seeds its chain with it and turns to the insertions; with no level
    /// below, the result is the ranking.
    fn propagate_result(&mut self, result: Vec<usize>)
        requires
            old(self).stack.len() > 0 ==> (old(self).stack@.last().state matches State::AwaitMains {
                partner_of,
                straggler,
            } && result.len() >= 1 && 2 * result.len() <= usize::MAX && forall|k: int|
                0 <= k < result.len() ==> (#[trigger] result[k]) < partner_of.len()),
        ensures
            final(self).pending == old(self).pending,
            final(self).comparisons == old(self).comparisons,
            final(self).count == old(self).count,
            final(self).history == old(self).history,
            old(self).stack.len() == 0 ==> final(self).done == Some(result) && final(self).stack
                == old(self).stack,
            old(self).stack.len() > 0 ==> final(self).done == old(self).done,
            old(self).stack.len() > 0 ==> final(self).stack.len() == old(self).stack.len(),
            old(self).stack.len() > 0 ==> final(self).stack@.drop_last() == old(self).stack@.drop_last(),
            old(self).stack.len() > 0 ==> ({
                let parent = old(self).stack@.last();
                let heir = final(self).stack@.last();
                &&& heir.elements == parent.elements
                &&& heir.start == parent.start
                &&& parent.state matches State::AwaitMains { partner_of, straggler }
                &&& heir.state matches State::Insert { chain, pending, order, order_idx, search }
                &&& chain@ == seed_chain(partner_of@, result@)
                &&& pending@ == waiting_list(partner_of@, result@, straggler)
                &&& order@ == jacobsthal_seq(pending.len() as nat)
                &&& order_idx == 0
                &&& search is None
            }),
    {
        if self.stack.len() == 0 {
            self.done = Some(result);
            return ;
        }
        let ghost rest = self.stack@.drop_last();
        let parent: Frame = self.stack.pop().unwrap();
        let Frame { elements, state, start } = parent;
        match state {
            State::AwaitMains { partner_of, straggler } => {
                let mut chain: Vec<usize> = Vec::with_capacity(elements.len());
                chain.push(partner_of[result[0]]);
                let mut k: usize = 0;
                while k < result.len()
                    invariant
                        k <= result.len(),
                        result.len() >= 1,
                        chain@ == seed_chain(partner_of@, result@).take(k + 1),
                    decreases result.len() - k,
                {
                    chain.push(result[k]);
                    k += 1;
                    assert(chain@ =~= seed_chain(partner_of@, result@).take(k + 1));
                }
                assert(chain@ =~= seed_chain(partner_of@, result@));

                let mut pending: Vec<(usize, Option<usize>)> = Vec::new();
                let mut k: usize = 1;
                while k < result.len()
                    invariant
                        1 <= k <= result.len(),
                        forall|j: int|
                            0 <= j < result.len() ==> (#[trigger] result[j]) < partner_of.len(),
                        pending@ == waiting_list(partner_of@, result@, None).take(k - 1),
                    decreases result.len() - k,
                {
                    let m: usize = result[k];
                    pending.push((partner_of[m], Some(m)));
                    k += 1;
                    assert(pending@ =~= waiting_list(partner_of@, result@, None).take(k - 1));
                }
                if let Some(s) = straggler {
                    pending.push((s, None));
                }
                assert(pending@ =~= waiting_list(partner_of@, result@, straggler));

                let order: Vec<usize> = jacobsthal_order(pending.len());
                let heir = Frame {
                    elements,
                    state: State::Insert { chain, pending, order, order_idx: 0, search: None },
                    start,
                };
                self.stack.push(heir);
                assert(self.stack@.drop_last() =~= rest);
            },
            _ => {
                proof {
                    assert(false);
                }
                unreached()
            },
        }
    }
}

} // verus!
