//! The cost of a partition.
//!
//! A room's average is the count-weighted mean of its two gender subgroups'
//! means, which is the sum of its members' scores over its head count; its
//! variance is the mean squared deviation of its members' scores from that
//! average. Divisions round down. A room's cost is its average's squared
//! distance from the grade average plus its variance. The overall cost sums
//! the costs of the rooms that have members and adds the largest variance
//! among them times the number of rooms. Rooms without members take no part;
//! when no room has members there is no cost.

use vstd::prelude::*;
use crate::model::{AssignResult, ClassRoom, Student, StudentId, MAX_SCORE, ids_valid, population_wf};

verus! {

/// `MAX_SCORE` squared: no squared deviation of two scores exceeds it.
pub const MAX_SQ: u128 = 100_000_000;

/// Twice `MAX_SQ`: no room's cost exceeds it.
pub const MAX_ROOM_COST: u128 = 200_000_000;

pub open spec fn score_sum(pop: Seq<Student>, ids: Seq<StudentId>) -> nat
    decreases ids.len(),
{
    if ids.len() == 0 {
        0
    } else {
        score_sum(pop, ids.drop_last()) + pop[ids.last() as int].score as nat
    }
}

pub open spec fn sq_dev(x: int, m: int) -> nat {
    ((x - m) * (x - m)) as nat
}

pub open spec fn sq_dev_sum(pop: Seq<Student>, ids: Seq<StudentId>, m: int) -> nat
    decreases ids.len(),
{
    if ids.len() == 0 {
        0
    } else {
        sq_dev_sum(pop, ids.drop_last(), m) + sq_dev(pop[ids.last() as int].score as int, m)
    }
}

pub open spec fn room_average(pop: Seq<Student>, room: ClassRoom) -> Option<nat> {
    if room.head_count() == 0 {
        None
    } else {
        Some((score_sum(pop, room.students_male@) + score_sum(pop, room.students_female@)) / room.head_count())
    }
}

pub open spec fn room_variance(pop: Seq<Student>, room: ClassRoom) -> Option<nat> {
    match room_average(pop, room) {
        None => None,
        Some(m) => Some(
            (sq_dev_sum(pop, room.students_male@, m as int) + sq_dev_sum(pop, room.students_female@, m as int))
                / room.head_count(),
        ),
    }
}

pub open spec fn room_cost(pop: Seq<Student>, room: ClassRoom, grade_average: int) -> Option<nat> {
    match (room_average(pop, room), room_variance(pop, room)) {
        (Some(m), Some(v)) => Some(sq_dev(m as int, grade_average) + v),
        _ => None,
    }
}

/// Sum of the costs of the rooms that have members.
pub open spec fn cost_sum(pop: Seq<Student>, rooms: Seq<ClassRoom>, grade_average: int) -> nat
    decreases rooms.len(),
{
    if rooms.len() == 0 {
        0
    } else {
        cost_sum(pop, rooms.drop_last(), grade_average) + match room_cost(pop, rooms.last(), grade_average) {
            Some(c) => c,
            None => 0,
        }
    }
}

/// Largest variance among the rooms that have members.
pub open spec fn variance_max(pop: Seq<Student>, rooms: Seq<ClassRoom>) -> Option<nat>
    decreases rooms.len(),
{
    if rooms.len() == 0 {
        None
    } else {
        match (variance_max(pop, rooms.drop_last()), room_variance(pop, rooms.last())) {
            (None, v) => v,
            (Some(a), None) => Some(a),
            (Some(a), Some(b)) => Some(if a >= b { a } else { b }),
        }
    }
}

pub open spec fn overall_cost(pop: Seq<Student>, rooms: Seq<ClassRoom>, grade_average: int) -> Option<nat> {
    match variance_max(pop, rooms) {
        None => None,
        Some(v) => Some(cost_sum(pop, rooms, grade_average) + rooms.len() * v),
    }
}

pub open spec fn as_nat(o: Option<u128>) -> Option<nat> {
    match o {
        Some(x) => Some(x as nat),
        None => None,
    }
}

pub open spec fn population_sum(pop: Seq<Student>) -> nat
    decreases pop.len(),
{
    if pop.len() == 0 {
        0
    } else {
        population_sum(pop.drop_last()) + pop.last().score as nat
    }
}

/// Mean score of the population, rounded down; zero for no students.
pub open spec fn grade_average(pop: Seq<Student>) -> nat {
    if pop.len() == 0 {
        0
    } else {
        population_sum(pop) / pop.len()
    }
}

impl ClassRoom {
    /// The cached statistics are those of the current members.
    pub open spec fn stats_current(&self, pop: Seq<Student>, grade_average: int) -> bool {
        &&& as_nat(self.score_average) == room_average(pop, *self)
        &&& as_nat(self.score_variance) == room_variance(pop, *self)
        &&& as_nat(self.cost) == room_cost(pop, *self, grade_average)
    }
}

impl AssignResult {
    /// The overall cost is that of the current membership.
    pub open spec fn cost_current(&self, pop: Seq<Student>, grade_average: int) -> bool {
        as_nat(self.overall_cost) == overall_cost(pop, self.rooms@, grade_average)
    }
}

proof fn lemma_quotient_bound(s: nat, n: nat, k: nat)
    requires
        n > 0,
        s <= n * k,
    ensures
        s / n <= k,
{
    assert(s / n <= k) by (nonlinear_arith)
        requires n > 0, s <= n * k;
}

proof fn lemma_sq_dev_bound(x: int, m: int)
    requires
        0 <= x <= MAX_SCORE,
        0 <= m <= MAX_SCORE,
    ensures
        sq_dev(x, m) <= MAX_SQ,
{
    assert((x - m) * (x - m) <= 100_000_000) by (nonlinear_arith)
        requires 0 <= x <= 10000, 0 <= m <= 10000;
    assert((x - m) * (x - m) >= 0) by (nonlinear_arith);
}

pub open spec fn ids_of(pop: Seq<Student>, ids: Seq<StudentId>) -> bool {
    population_wf(pop) && ids_valid(pop, ids)
}

fn sum_scores(students: &[Student], ids: &Vec<StudentId>) -> (r: u128)
    requires
        ids_of(students@, ids@),
    ensures
        r == score_sum(students@, ids@),
        r <= ids@.len() * MAX_SCORE,
{
    let mut sum: u128 = 0;
    let mut i: usize = 0;
    while i < ids.len()
        invariant
            ids_of(students@, ids@),
            i <= ids@.len(),
            sum == score_sum(students@, ids@.take(i as int)),
            sum <= i * MAX_SCORE,
        decreases ids@.len() - i,
    {
        assert(ids@.take(i + 1).drop_last() =~= ids@.take(i as int));
        let id = ids[i];
        assert(ids@[i as int] < students@.len());
        let s = students[id].score;
        assert(students@[id as int].score <= MAX_SCORE);
        sum = sum + s as u128;
        i = i + 1;
    }
    assert(ids@.take(ids@.len() as int) =~= ids@);
    sum
}

fn sum_sq_devs(students: &[Student], ids: &Vec<StudentId>, m: u128) -> (r: u128)
    requires
        ids_of(students@, ids@),
        m <= MAX_SCORE,
    ensures
        r == sq_dev_sum(students@, ids@, m as int),
        r <= ids@.len() * MAX_SQ,
{
    let mut sum: u128 = 0;
    let mut i: usize = 0;
    while i < ids.len()
        invariant
            ids_of(students@, ids@),
            m <= MAX_SCORE,
            i <= ids@.len(),
            sum == sq_dev_sum(students@, ids@.take(i as int), m as int),
            sum <= i * MAX_SQ,
        decreases ids@.len() - i,
    {
        assert(ids@.take(i + 1).drop_last() =~= ids@.take(i as int));
        let id = ids[i];
        assert(ids@[i as int] < students@.len());
        let s = students[id].score as u128;
        assert(students@[id as int].score <= MAX_SCORE);
        let d: u128 = if s >= m { s - m } else { m - s };
        proof {
            lemma_sq_dev_bound(s as int, m as int);
            assert(d * d == sq_dev(s as int, m as int)) by (nonlinear_arith)
                requires d == s - m || d == m - s, d >= 0;
        }
        sum = sum + d * d;
        i = i + 1;
    }
    assert(ids@.take(ids@.len() as int) =~= ids@);
    sum
}

impl ClassRoom {
    /// The room's average score; `None` when it has no members.
    pub fn cal_score_average(&self, students: &[Student]) -> (r: Option<u128>)
        requires
            population_wf(students@),
            self.refs_valid(students@),
        ensures
            as_nat(r) == room_average(students@, *self),
            r is Some ==> r.unwrap() <= MAX_SCORE,
    {
        if self.is_empty() {
            return None;
        }
        let male_sum = sum_scores(students, &self.students_male);
        let female_sum = sum_scores(students, &self.students_female);
        let n = self.students_male.len() as u128 + self.students_female.len() as u128;
        let avg = (male_sum + female_sum) / n;
        proof {
            let nm = self.students_male@.len();
            let nf = self.students_female@.len();
            assert(nm * MAX_SCORE + nf * MAX_SCORE == (nm + nf) * MAX_SCORE) by (nonlinear_arith);
            lemma_quotient_bound((male_sum + female_sum) as nat, n as nat, MAX_SCORE as nat);
        }
        Some(avg)
    }

    /// The mean squared deviation from `average_score`; `None` when the
    /// room has no members.
    pub fn cal_score_variance(&self, students: &[Student], average_score: u128) -> (r: Option<u128>)
        requires
            population_wf(students@),
            self.refs_valid(students@),
            average_score <= MAX_SCORE,
        ensures
            self.head_count() == 0 ==> r is None,
            self.head_count() > 0 ==> as_nat(r) == Some(
                (sq_dev_sum(students@, self.students_male@, average_score as int)
                    + sq_dev_sum(students@, self.students_female@, average_score as int))
                    / self.head_count(),
            ),
            r is Some ==> r.unwrap() <= MAX_SQ,
    {
        if self.is_empty() {
            return None;
        }
        let male = sum_sq_devs(students, &self.students_male, average_score);
        let female = sum_sq_devs(students, &self.students_female, average_score);
        let n = self.students_male.len() as u128 + self.students_female.len() as u128;
        proof {
            let nm = self.students_male@.len();
            let nf = self.students_female@.len();
            let k = MAX_SQ;
            assert(nm * k + nf * k == (nm + nf) * k) by (nonlinear_arith);
            lemma_quotient_bound((male + female) as nat, n as nat, k as nat);
        }
        Some((male + female) / n)
    }

    /// Recomputes the cached average, variance and cost from the members.
    pub fn update(&mut self, students: &[Student], grade_average_score: u32)
        requires
            population_wf(students@),
            old(self).refs_valid(students@),
            grade_average_score <= MAX_SCORE,
        ensures
            final(self).same_members(old(self)),
            final(self).stats_current(students@, grade_average_score as int),
            final(self).score_variance is Some ==> final(self).score_variance.unwrap() <= MAX_SQ,
            final(self).cost is Some ==> final(self).cost.unwrap() <= MAX_ROOM_COST,
    {
        let ghost pop = students@;
        self.score_average = self.cal_score_average(students);
        match self.score_average {
            None => {
                self.score_variance = None;
                self.cost = None;
            },
            Some(mean) => {
                let var = self.cal_score_variance(students, mean);
                self.score_variance = var;
                match var {
                    None => {
                        self.cost = None;
                    },
                    Some(v) => {
                        let g = grade_average_score as u128;
                        let d: u128 = if mean >= g { mean - g } else { g - mean };
                        proof {
                            lemma_sq_dev_bound(mean as int, g as int);
                            assert(d * d == sq_dev(mean as int, g as int)) by (nonlinear_arith)
                                requires d == mean - g || d == g - mean, d >= 0;
                        }
                        self.cost = Some(d * d + v);
                    },
                }
            },
        }
    }
}

impl AssignResult {
    /// Recomputes every room's statistics and the overall cost.
    pub fn cal_overall_cost(&mut self, students: &[Student], grade_average_score: u32)
        requires
            population_wf(students@),
            old(self).refs_valid(students@),
            grade_average_score <= MAX_SCORE,
        ensures
            final(self).same_members(old(self)),
            forall|i: int| 0 <= i < final(self).rooms@.len()
                ==> (#[trigger] final(self).rooms@[i]).stats_current(students@, grade_average_score as int),
            final(self).cost_current(students@, grade_average_score as int),
    {
        let ghost pop = students@;
        let ghost g = grade_average_score as int;
        let n = self.rooms.len();
        let mut var_max: Option<u128> = None;
        let mut sum: u128 = 0;
        let mut i: usize = 0;
        while i < n
            invariant
                population_wf(pop),
                pop == students@,
                g == grade_average_score as int,
                grade_average_score <= MAX_SCORE,
                n == self.rooms@.len(),
                n == old(self).rooms@.len(),
                i <= n,
                forall|j: int| 0 <= j < n ==> (#[trigger] self.rooms@[j]).same_members(&old(self).rooms@[j]),
                forall|j: int| 0 <= j < n ==> (#[trigger] self.rooms@[j]).refs_valid(pop),
                forall|j: int| 0 <= j < i ==> (#[trigger] self.rooms@[j]).stats_current(pop, g),
                as_nat(var_max) == variance_max(pop, self.rooms@.take(i as int)),
                sum == cost_sum(pop, self.rooms@.take(i as int), g),
                var_max is Some ==> var_max.unwrap() <= MAX_SQ,
                sum <= i * (MAX_ROOM_COST),
            decreases n - i,
        {
            let ghost before = self.rooms@;
            let mut room = ClassRoom::new(0);
            self.rooms.set_and_swap(i, &mut room);
            assert(room == before[i as int]);
            room.update(students, grade_average_score);
            self.rooms.set_and_swap(i, &mut room);
            let ghost after = self.rooms@;
            assert(after.take(i + 1).drop_last() =~= after.take(i as int));
            assert(after.take(i as int) =~= before.take(i as int));
            assert(after.take(i + 1).last() == after[i as int]);
            match self.rooms[i].score_variance {
                None => {},
                Some(v) => {
                    var_max = match var_max {
                        None => Some(v),
                        Some(a) => Some(if a >= v { a } else { v }),
                    };
                },
            }
            match self.rooms[i].cost {
                None => {},
                Some(c) => {
                    sum = sum + c;
                },
            }
            proof {
                assert(room_average(pop, after[i as int]) is Some <==> room_variance(pop, after[i as int]) is Some);
            }
            i = i + 1;
        }
        assert(self.rooms@.take(n as int) =~= self.rooms@);
        proof {
            assert(sum <= n * MAX_ROOM_COST);
            if var_max is Some {
                assert(n * var_max.unwrap() <= n * MAX_SQ) by (nonlinear_arith)
                    requires var_max.unwrap() <= MAX_SQ;
            }
        }
        self.overall_cost = match var_max {
            None => None,
            Some(v) => Some(sum + (n as u128) * v),
        };
    }
}

/// The population's mean score, rounded down; zero for an empty population.
pub fn grade_average_score(students: &[Student]) -> (r: u32)
    requires
        population_wf(students@),
    ensures
        r == grade_average(students@),
        r <= MAX_SCORE,
{
    let mut sum: u128 = 0;
    let mut i: usize = 0;
    while i < students.len()
        invariant
            population_wf(students@),
            i <= students@.len(),
            sum == population_sum(students@.take(i as int)),
            sum <= i * MAX_SCORE,
        decreases students@.len() - i,
    {
        assert(students@.take(i + 1).drop_last() =~= students@.take(i as int));
        assert(students@[i as int].score <= MAX_SCORE);
        sum = sum + students[i].score as u128;
        i = i + 1;
    }
    assert(students@.take(students@.len() as int) =~= students@);
    if students.len() == 0 {
        return 0;
    }
    proof {
        lemma_quotient_bound(sum as nat, students@.len(), MAX_SCORE as nat);
    }
    (sum / students.len() as u128) as u32
}


/// `a` is a strictly lower cost than `b`; any cost beats no cost.
pub open spec fn cost_lt(a: Option<nat>, b: Option<nat>) -> bool {
    match (a, b) {
        (Some(x), Some(y)) => x < y,
        (Some(_), None) => true,
        _ => false,
    }
}

pub open spec fn cost_le(a: Option<nat>, b: Option<nat>) -> bool {
    !cost_lt(b, a)
}

/// Whether cost `a` is strictly lower than cost `b`.
pub fn is_lower_cost(a: Option<u128>, b: Option<u128>) -> (r: bool)
    ensures
        r == cost_lt(as_nat(a), as_nat(b)),
{
    match (a, b) {
        (Some(x), Some(y)) => x < y,
        (Some(_), None) => true,
        _ => false,
    }
}


proof fn lemma_cost_parts_same_members(pop: Seq<Student>, a: Seq<ClassRoom>, b: Seq<ClassRoom>, grade_average: int)
    requires
        a.len() == b.len(),
        forall|i: int| 0 <= i < a.len() ==> (#[trigger] a[i]).same_members(&b[i]),
    ensures
        cost_sum(pop, a, grade_average) == cost_sum(pop, b, grade_average),
        variance_max(pop, a) == variance_max(pop, b),
    decreases a.len(),
{
    if a.len() > 0 {
        let n = a.len() - 1;
        assert(a[n].same_members(&b[n]));
        lemma_cost_parts_same_members(pop, a.drop_last(), b.drop_last(), grade_average);
        assert(room_average(pop, a[n]) == room_average(pop, b[n]));
        assert(room_variance(pop, a[n]) == room_variance(pop, b[n]));
    }
}

/// The cost of a partition depends on its rooms' members alone: two
/// partitions with the same members, evaluated against the same population
/// and grade average, have the very same cost, whatever their cached
/// statistics.
pub proof fn lemma_cost_deterministic(pop: Seq<Student>, a: AssignResult, b: AssignResult, grade_average: int)
    requires
        a.same_members(&b),
    ensures
        overall_cost(pop, a.rooms@, grade_average) == overall_cost(pop, b.rooms@, grade_average),
{
    lemma_cost_parts_same_members(pop, a.rooms@, b.rooms@, grade_average);
}

/// Evaluating again a partition whose members did not change gives back the
/// same overall cost.
pub proof fn lemma_reevaluation_idempotent(pop: Seq<Student>, first: AssignResult, second: AssignResult, grade_average: int)
    requires
        first.cost_current(pop, grade_average),
        second.same_members(&first),
        second.cost_current(pop, grade_average),
    ensures
        second.overall_cost == first.overall_cost,
{
    lemma_cost_deterministic(pop, first, second, grade_average);
}

} // verus!
