//! Bringing a stepper back from the answers it was given.
//!
//! A driver that keeps nothing but the number of items and the answers can
//! get the state of the ranking back at any time: [`derive_state`] feeds the
//! answers to a new stepper and tells where it stands.

use vstd::prelude::*;
use crate::estimate::spec_estimate_turns;
use crate::stepper::{Step, Stepper, StepperView};
use crate::transcript::Outcome;

verus! {

/// Where a ranking stands: the question that is out, if the ranking is
/// under way; the ranking, if it is complete; and the number of answers
/// taken.
#[derive(Debug, Clone, PartialEq, Eq)]
pub struct RankState {
    pub current: Option<(usize, usize)>,
    pub ranking: Option<Vec<usize>>,
    pub comparisons: usize,
}

/// Feeds `answers` to a new stepper for `n` items and returns where it
/// stands then.  Answers that come after the ranking is complete are
/// dropped; with too few answers, the state names the first question that
/// has none.
pub fn derive_state(n: usize, answers: &[bool]) -> (state: RankState)
    requires
        spec_estimate_turns(n as nat) <= usize::MAX,
    ensures
        ({
            let v = StepperView::fresh(n as nat).replayed(answers@);
            &&& state.comparisons == v.history.len()
            &&& match v.outcome() {
                Outcome::Asks { a, b } => state.current == Some((a, b)) && state.ranking is None,
                Outcome::Sorted { order, next } => state.current is None && (
                state.ranking matches Some(r) && r@ == order),
            }
        }),
{
    let ghost fresh = StepperView::fresh(n as nat);
    let mut stepper = Stepper::new(n);
    let mut last_step: Step = stepper.step();
    let mut i: usize = 0;
    proof {
        assert(answers@.take(0) =~= Seq::<bool>::empty());
        assert(answers@.take(answers.len() as int) =~= answers@);
    }
    while i < answers.len()
        invariant_except_break
            i <= answers.len(),
            stepper@ == fresh.replayed(answers@.take(i as int)),
            i == answers.len() ==> answers@.take(i as int) == answers@,
        invariant
            fresh == StepperView::fresh(n as nat),
            spec_estimate_turns(n as nat) <= usize::MAX,
            stepper.wf(),
            last_step == stepper@.step(),
        ensures
            stepper@ == fresh.replayed(answers@),
        decreases answers.len() - i,
    {
        if last_step == Step::Done {
            proof {
                StepperView::lemma_fresh_live(n as nat);
                StepperView::lemma_replay(n as nat, answers@.take(i as int));
                fresh.lemma_replay_over(answers@, i as int);
            }
            break ;
        }
        last_step = stepper.answer(answers[i]);
        i += 1;
        proof {
            assert(answers@.take(i as int).drop_last() =~= answers@.take(i - 1));
            assert(answers@.take(answers.len() as int) =~= answers@);
        }
    }
    proof {
        assert(answers@.take(answers.len() as int) =~= answers@);
        StepperView::lemma_replay(n as nat, answers@);
    }
    match last_step {
        Step::Compare { a, b } => RankState {
            current: Some((a, b)),
            ranking: None,
            comparisons: stepper.comparisons_made(),
        },
        Step::Done => {
            let ranking = stepper.take_order();
            RankState { current: None, ranking, comparisons: stepper.comparisons_made() }
        },
    }
}

} // verus!
