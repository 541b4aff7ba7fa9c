//! A cancellable search job and its progress protocol.
//!
//! A job runs a fixed number of steps of one search method. Every
//! `checkpoint_interval(total)` steps, before the step runs, it reports its
//! progress and looks at the cancellation request; a request seen there ends
//! the job at once. However the job ends, `finish` hands out the best result,
//! once, as the last message.
//!
//! The job owns its copy of the population and of the starting partition, so
//! that the caller's data and the job's never alias. The caller drives it:
//! it calls `advance` until `is_finished`, passes on each message, and
//! reads its cancellation flag for each call.

use vstd::prelude::*;
use crate::model::{AssignResult, Gender, Student, MAX_SCORE, population_wf};
use crate::cost::{as_nat, cost_le, cost_lt, grade_average, grade_average_score};
use crate::generate::{is_partition, is_some_striped_draft, keep_better, lemma_partition_same_members, random_partition};
use crate::refine::{draws_valid, move_outcome, refine_step};
use rand::rngs::StdRng;
use vstd::arithmetic::div_mod::lemma_fundamental_div_mod;
use vstd::arithmetic::div_mod::lemma_mod_pos_bound;
use vstd::arithmetic::div_mod::lemma_mod_multiples_basic;

verus! {

#[derive(Debug, Clone, Copy, PartialEq, Eq, Structural)]
pub enum Method {
    /// Each step draws a fresh striped draft.
    NaiveShuffle,
    /// Each step tries one swap move on the best partition (a greedy hill
    /// climber).
    Swap,
}

/// What the caller sees of a job.
pub enum AppState {
    Ready,
    /// Steps completed, steps in all, and the best cost so far.
    InProgress(usize, usize, Option<u128>),
    Done(AssignResult),
}

pub open spec fn interval_spec(total: nat) -> nat {
    if total / 100 >= 1 { total / 100 } else { 1 }
}

pub open spec fn is_checkpoint(k: nat, total: nat) -> bool {
    k % interval_spec(total) == 0
}

/// Steps between two checkpoints: a hundredth of the total, at least one.
pub fn checkpoint_interval(total: usize) -> (r: usize)
    ensures
        r == interval_spec(total as nat),
        r >= 1,
{
    if total / 100 >= 1 { total / 100 } else { 1 }
}

/// What one step of `method` makes of `before`. A naive-shuffle step draws
/// a striped draft, which replaces `before` when its cost is strictly lower.
/// A swap step makes one swap move with valid draws (see `refine_move`).
pub open spec fn step_outcome(method: Method, pop: Seq<Student>, before: AssignResult, after: AssignResult) -> bool {
    match method {
        Method::NaiveShuffle => exists|cand: AssignResult| {
            &&& #[trigger] is_some_striped_draft(pop, cand.rooms@, before.rooms@.len())
            &&& cand.cost_current(pop, grade_average(pop) as int)
            &&& cost_lt(as_nat(cand.overall_cost), as_nat(before.overall_cost)) ==> after == cand
            &&& !cost_lt(as_nat(cand.overall_cost), as_nat(before.overall_cost)) ==> after == before
        },
        Method::Swap => exists|room0: int, room1: int, g: Gender, pos0: Seq<usize>, pos1: Seq<usize>| {
            &&& #[trigger] draws_valid(before, room0, room1, g, pos0, pos1)
            &&& move_outcome(before, after, pop, grade_average(pop) as int, room0, room1, g, pos0, pos1)
        },
    }
}

pub struct Job {
    pub method: Method,
    pub students: Vec<Student>,
    pub grade_average_score: u32,
    pub best: AssignResult,
    pub completed: usize,
    pub total: usize,
    pub stopped: bool,
}

/// Whether every student's id is its position and every score is in range.
pub fn population_is_wf(students: &[Student]) -> (r: bool)
    ensures
        r == population_wf(students@),
{
    let mut i: usize = 0;
    while i < students.len()
        invariant
            i <= students@.len(),
            forall|j: int| 0 <= j < i ==> (#[trigger] students@[j]).id == j && students@[j].score <= MAX_SCORE,
        decreases students@.len() - i,
    {
        if students[i].id != i || students[i].score > MAX_SCORE {
            return false;
        }
        i = i + 1;
    }
    true
}

fn ids_below(ids: &Vec<usize>, n: usize) -> (r: bool)
    ensures
        r == forall|j: int| 0 <= j < ids@.len() ==> #[trigger] ids@[j] < n,
{
    let mut i: usize = 0;
    while i < ids.len()
        invariant
            i <= ids@.len(),
            forall|j: int| 0 <= j < i ==> #[trigger] ids@[j] < n,
        decreases ids@.len() - i,
    {
        if ids[i] >= n {
            return false;
        }
        i = i + 1;
    }
    true
}

/// Whether every id held by a room refers to a student of `students`.
pub fn refs_are_valid(result: &AssignResult, students: &[Student]) -> (r: bool)
    ensures
        r == result.refs_valid(students@),
{
    let mut i: usize = 0;
    while i < result.rooms.len()
        invariant
            i <= result.rooms@.len(),
            forall|j: int| 0 <= j < i ==> (#[trigger] result.rooms@[j]).refs_valid(students@),
        decreases result.rooms@.len() - i,
    {
        if !ids_below(&result.rooms[i].students_male, students.len())
            || !ids_below(&result.rooms[i].students_female, students.len()) {
            return false;
        }
        i = i + 1;
    }
    true
}

impl Job {
    pub open spec fn wf(&self) -> bool {
        &&& population_wf(self.students@)
        &&& self.grade_average_score == grade_average(self.students@)
        &&& self.grade_average_score <= MAX_SCORE
        &&& self.best.refs_valid(self.students@)
        &&& self.best.cost_current(self.students@, self.grade_average_score as int)
        &&& 2 <= self.best.rooms@.len() <= u32::MAX
        &&& self.completed <= self.total
    }

    pub open spec fn finished(&self) -> bool {
        self.stopped || self.completed >= self.total
    }

    pub open spec fn best_cost(&self) -> Option<nat> {
        as_nat(self.best.overall_cost)
    }

    /// One call of `advance` leads from `self` to `next`.
    pub open spec fn advances_to(&self, next: &Job) -> bool {
        &&& next.method == self.method
        &&& next.students@ == self.students@
        &&& next.grade_average_score == self.grade_average_score
        &&& next.total == self.total
        &&& cost_le(next.best_cost(), self.best_cost())
        &&& next.completed == self.completed || next.completed == self.completed + 1
    }

    /// A job over its own copy of the population, starting from `initial`
    /// with its cost recomputed. `None` when a student's id is not its
    /// position or a score is out of range, when a room holds an unknown id,
    /// or when the number of rooms is below 2 or above `u32::MAX`.
    pub fn start(method: Method, students: Vec<Student>, initial: AssignResult, total: usize) -> (r: Option<Job>)
        ensures
            r is Some <==> (population_wf(students@) && initial.refs_valid(students@) && 2 <= initial.rooms@.len()
                <= u32::MAX),
            r is Some ==> {
                let job = r.unwrap();
                &&& job.wf()
                &&& job.method == method
                &&& job.students@ == students@
                &&& job.best.same_members(&initial)
                &&& is_partition(students@, initial.rooms@) ==> is_partition(job.students@, job.best.rooms@)
                &&& job.completed == 0
                &&& job.total == total
                &&& !job.stopped
            },
    {
        if !population_is_wf(students.as_slice()) || !refs_are_valid(&initial, students.as_slice()) {
            return None;
        }
        if initial.rooms.len() < 2 || initial.rooms.len() > u32::MAX as usize {
            return None;
        }
        let mut best = initial;
        let g = grade_average_score(students.as_slice());
        let ghost before = best.rooms@;
        best.cal_overall_cost(students.as_slice(), g);
        proof {
            if is_partition(students@, before) {
                lemma_partition_same_members(students@, before, best.rooms@);
            }
        }
        Some(Job { method, students, grade_average_score: g, best, completed: 0, total, stopped: false })
    }

    pub fn is_finished(&self) -> (r: bool)
        ensures
            r == self.finished(),
    {
        self.stopped || self.completed >= self.total
    }

    /// One step. At a checkpoint the progress message comes back, and when
    /// `cancel_requested` holds there the job stops before the step runs,
    /// with its best unchanged. The best cost never rises.
    pub fn advance(&mut self, rng: &mut StdRng, cancel_requested: bool) -> (r: Option<AppState>)
        requires
            old(self).wf(),
            !old(self).finished(),
        ensures
            final(self).wf(),
            old(self).advances_to(final(self)),
            is_partition(old(self).students@, old(self).best.rooms@) ==> is_partition(final(self).students@, final(self).best.rooms@),
            is_checkpoint(old(self).completed as nat, old(self).total as nat) ==> r == Some(
                AppState::InProgress(old(self).completed, old(self).total, old(self).best.overall_cost),
            ),
            !is_checkpoint(old(self).completed as nat, old(self).total as nat) ==> r is None,
            is_checkpoint(old(self).completed as nat, old(self).total as nat) && cancel_requested ==> {
                &&& final(self).stopped
                &&& final(self).completed == old(self).completed
                &&& final(self).best == old(self).best
            },
            !(is_checkpoint(old(self).completed as nat, old(self).total as nat) && cancel_requested) ==> {
                &&& !final(self).stopped
                &&& final(self).completed == old(self).completed + 1
                &&& step_outcome(old(self).method, old(self).students@, old(self).best, final(self).best)
            },
    {
        let k = self.completed;
        let mut message: Option<AppState> = None;
        if k % checkpoint_interval(self.total) == 0 {
            message = Some(AppState::InProgress(k, self.total, self.best.overall_cost));
            if cancel_requested {
                self.stopped = true;
                return message;
            }
        }
        let mut best = AssignResult::new(0);
        std::mem::swap(&mut best, &mut self.best);
        let ghost before = best;
        let n_rooms = best.rooms.len();
        let next = match self.method {
            Method::NaiveShuffle => {
                let candidate = random_partition(n_rooms, self.students.as_slice(), rng);
                let ghost drafted = candidate;
                let kept = keep_better(best, candidate);
                assert(is_some_striped_draft(self.students@, drafted.rooms@, before.rooms@.len()));
                kept
            },
            Method::Swap => refine_step(best, self.students.as_slice(), self.grade_average_score, rng),
        };
        self.best = next;
        self.completed = k + 1;
        message
    }

    /// The last message of the job: its best result.
    pub fn finish(self) -> (r: AppState)
        ensures
            r == AppState::Done(self.best),
    {
        AppState::Done(self.best)
    }
}

/// Across a run of steps the best cost never rises.
pub proof fn lemma_best_cost_never_rises(run: Seq<Job>, i: int, j: int)
    requires
        0 <= i <= j < run.len(),
        forall|s: int| 0 <= s < run.len() - 1 ==> (#[trigger] run[s]).advances_to(&run[s + 1]),
    ensures
        cost_le(run[j].best_cost(), run[i].best_cost()),
    decreases j - i,
{
    if i < j {
        lemma_best_cost_never_rises(run, i, j - 1);
        assert(run[j - 1].advances_to(&run[j]));
    }
}

/// A cancellation requested before step `k` is seen at the first checkpoint
/// from `k` on, which comes less than one interval later.
pub proof fn lemma_cancel_seen_within_interval(k: nat, total: nat)
    ensures
        exists|j: nat| k <= j < k + interval_spec(total) && #[trigger] is_checkpoint(j, total),
{
    let i = interval_spec(total) as int;
    lemma_fundamental_div_mod(k as int, i);
    lemma_mod_pos_bound(k as int, i);
    if k as int % i == 0 {
        assert(is_checkpoint(k, total));
    } else {
        let q = k as int / i;
        let j = (q + 1) * i;
        assert(j == i * q + i) by (nonlinear_arith)
            requires j == (q + 1) * i;
        lemma_mod_multiples_basic(q + 1, i);
        assert(is_checkpoint(j as nat, total));
    }
}

/// The result that ends a run is never worse than the best cost reported at
/// any checkpoint of the run: the message of step `i` carries the best cost
/// of `run[i]`, and `finish` hands out the best of the last state.
pub proof fn lemma_result_no_worse_than_checkpoint(run: Seq<Job>, i: int, reported: Option<u128>)
    requires
        0 <= i < run.len(),
        forall|s: int| 0 <= s < run.len() - 1 ==> (#[trigger] run[s]).advances_to(&run[s + 1]),
        reported == run[i].best.overall_cost,
    ensures
        cost_le(as_nat(run.last().best.overall_cost), as_nat(reported)),
{
    lemma_best_cost_never_rises(run, i, run.len() - 1);
}

} // verus!
