//! Swap-based refinement: a greedy hill climber.
//!
//! A step copies the best partition, picks two distinct rooms and a gender,
//! and swaps a tenth (at least one) of the smaller of the two rooms' lists of
//! that gender between them, at random positions. The copy replaces the best
//! only when its cost is strictly lower. When either list is empty the step
//! changes nothing.

use vstd::prelude::*;
use crate::model::{AssignResult, ClassRoom, Gender, Student, StudentId, MAX_SCORE, ids_valid, population_wf};
use crate::cost::{as_nat, cost_le, cost_lt};
use crate::generate::{is_gender_partition, is_partition, keep_better, opposite};
use crate::cost::lemma_cost_deterministic;
use crate::random::sample_indices;
use rand::rngs::StdRng;

verus! {

/// The two lists after swapping `l0[pos0[s]]` with `l1[pos1[s]]` for each
/// `s < t`, in that order.
pub open spec fn swap_pairs(l0: Seq<StudentId>, l1: Seq<StudentId>, pos0: Seq<usize>, pos1: Seq<usize>, t: nat) -> (
    Seq<StudentId>,
    Seq<StudentId>,
)
    decreases t,
{
    if t == 0 {
        (l0, l1)
    } else {
        let (a, b) = swap_pairs(l0, l1, pos0, pos1, (t - 1) as nat);
        let i = pos0[t - 1] as int;
        let j = pos1[t - 1] as int;
        (a.update(i, b[j]), b.update(j, a[i]))
    }
}

/// Swapping keeps both lengths, and every id stays one of the two lists'.
proof fn lemma_swap_pairs(l0: Seq<StudentId>, l1: Seq<StudentId>, pos0: Seq<usize>, pos1: Seq<usize>, t: nat, bound: nat)
    requires
        t <= pos0.len(),
        t <= pos1.len(),
        forall|s: int| 0 <= s < t ==> #[trigger] pos0[s] < l0.len() && pos1[s] < l1.len(),
        forall|i: int| 0 <= i < l0.len() ==> #[trigger] l0[i] < bound,
        forall|i: int| 0 <= i < l1.len() ==> #[trigger] l1[i] < bound,
    ensures
        swap_pairs(l0, l1, pos0, pos1, t).0.len() == l0.len(),
        swap_pairs(l0, l1, pos0, pos1, t).1.len() == l1.len(),
        forall|i: int| 0 <= i < l0.len() ==> #[trigger] swap_pairs(l0, l1, pos0, pos1, t).0[i] < bound,
        forall|i: int| 0 <= i < l1.len() ==> #[trigger] swap_pairs(l0, l1, pos0, pos1, t).1[i] < bound,
    decreases t,
{
    if t > 0 {
        lemma_swap_pairs(l0, l1, pos0, pos1, (t - 1) as nat, bound);
        let (a, b) = swap_pairs(l0, l1, pos0, pos1, (t - 1) as nat);
        let i = pos0[t - 1] as int;
        let j = pos1[t - 1] as int;
        assert(a[i] < bound && b[j] < bound);
    }
}

/// How many pairs a step swaps: a tenth of the smaller list, at least one.
pub open spec fn swap_count_spec(len0: nat, len1: nat) -> nat {
    let m = if len0 <= len1 { len0 } else { len1 };
    if m / 10 >= 1 { m / 10 } else { 1 }
}

pub fn swap_count(len0: usize, len1: usize) -> (r: usize)
    ensures
        r == swap_count_spec(len0 as nat, len1 as nat),
{
    let m = if len0 <= len1 { len0 } else { len1 };
    if m / 10 >= 1 { m / 10 } else { 1 }
}

fn swap_lists(a: &mut Vec<StudentId>, b: &mut Vec<StudentId>, pos0: &Vec<usize>, pos1: &Vec<usize>)
    requires
        pos0@.len() == pos1@.len(),
        forall|s: int| 0 <= s < pos0@.len() ==> #[trigger] pos0@[s] < old(a)@.len() && pos1@[s] < old(b)@.len(),
    ensures
        (final(a)@, final(b)@) == swap_pairs(old(a)@, old(b)@, pos0@, pos1@, pos0@.len()),
{
    let mut t: usize = 0;
    while t < pos0.len()
        invariant
            pos0@.len() == pos1@.len(),
            forall|s: int| 0 <= s < pos0@.len() ==> #[trigger] pos0@[s] < old(a)@.len() && pos1@[s] < old(b)@.len(),
            t <= pos0@.len(),
            a@.len() == old(a)@.len(),
            b@.len() == old(b)@.len(),
            (a@, b@) == swap_pairs(old(a)@, old(b)@, pos0@, pos1@, t as nat),
        decreases pos0@.len() - t,
    {
        let i = pos0[t];
        let j = pos1[t];
        let x = a[i];
        let y = b[j];
        a.set(i, y);
        b.set(j, x);
        t = t + 1;
    }
}

/// Rooms `room0` and `room1` hold, in their lists of gender `g`, the lists
/// swapped at the given positions; everything else is as in `before`.
pub open spec fn swapped_from(
    after: Seq<ClassRoom>,
    before: Seq<ClassRoom>,
    room0: int,
    room1: int,
    g: Gender,
    pos0: Seq<usize>,
    pos1: Seq<usize>,
) -> bool {
    let (l0, l1) = swap_pairs(before[room0].members(g), before[room1].members(g), pos0, pos1, pos0.len());
    &&& after.len() == before.len()
    &&& forall|r: int| 0 <= r < after.len() && r != room0 && r != room1 ==> (#[trigger] after[r]).same_members(&before[r])
    &&& after[room0].number == before[room0].number
    &&& after[room1].number == before[room1].number
    &&& after[room0].members(g) == l0
    &&& after[room1].members(g) == l1
    &&& after[room0].members(opposite(g)) == before[room0].members(opposite(g))
    &&& after[room1].members(opposite(g)) == before[room1].members(opposite(g))
}

/// The swap is possible: two distinct rooms, as many positions on each
/// side, each within its list.
pub open spec fn swap_valid(rooms: Seq<ClassRoom>, room0: int, room1: int, g: Gender, pos0: Seq<usize>, pos1: Seq<usize>) -> bool {
    &&& 0 <= room0 < rooms.len()
    &&& 0 <= room1 < rooms.len()
    &&& room0 != room1
    &&& pos0.len() == pos1.len()
    &&& forall|s: int| 0 <= s < pos0.len() ==> #[trigger] pos0[s] < rooms[room0].members(g).len() && pos1[s]
        < rooms[room1].members(g).len()
}

impl AssignResult {
    /// Swaps ids between the lists of gender `gender` of two rooms, pair by
    /// pair. The overall cost is dropped, as it no longer holds.
    fn swap_members(&mut self, room0: usize, room1: usize, gender: Gender, pos0: &Vec<usize>, pos1: &Vec<usize>)
        requires
            swap_valid(old(self).rooms@, room0 as int, room1 as int, gender, pos0@, pos1@),
        ensures
            swapped_from(final(self).rooms@, old(self).rooms@, room0 as int, room1 as int, gender, pos0@, pos1@),
            final(self).overall_cost is None,
    {
        self.overall_cost = None;
        let ghost before = self.rooms@;
        let mut r0 = ClassRoom::new(0);
        let mut r1 = ClassRoom::new(0);
        self.rooms.set_and_swap(room0, &mut r0);
        self.rooms.set_and_swap(room1, &mut r1);
        match gender {
            Gender::Male => swap_lists(&mut r0.students_male, &mut r1.students_male, pos0, pos1),
            Gender::Female => swap_lists(&mut r0.students_female, &mut r1.students_female, pos0, pos1),
        }
        self.rooms.set_and_swap(room1, &mut r1);
        self.rooms.set_and_swap(room0, &mut r0);
        proof {
            let after = self.rooms@;
            assert forall|r: int| 0 <= r < after.len() && r != room0 && r != room1 implies (#[trigger] after[r]).same_members(
                &before[r],
            ) by {
                assert(after[r] == before[r]);
            }
        }
    }
}

/// The partition after one swap move at the given rooms, gender and
/// positions, with its statistics and overall cost recomputed.
pub fn swap_candidate(
    best: &AssignResult,
    students: &[Student],
    grade_average_score: u32,
    room0: usize,
    room1: usize,
    gender: Gender,
    pos0: &Vec<usize>,
    pos1: &Vec<usize>,
) -> (r: AssignResult)
    requires
        population_wf(students@),
        best.refs_valid(students@),
        grade_average_score <= MAX_SCORE,
        swap_valid(best.rooms@, room0 as int, room1 as int, gender, pos0@, pos1@),
    ensures
        swapped_from(r.rooms@, best.rooms@, room0 as int, room1 as int, gender, pos0@, pos1@),
        r.refs_valid(students@),
        r.cost_current(students@, grade_average_score as int),
{
    let ghost pop = students@;
    let mut candidate = best.clone();
    assert(forall|i: int| 0 <= i < best.rooms@.len() ==> (#[trigger] candidate.rooms@[i]).same_members(&best.rooms@[i]));
    assert(candidate.rooms@[room0 as int].members(gender) == best.rooms@[room0 as int].members(gender));
    assert(candidate.rooms@[room1 as int].members(gender) == best.rooms@[room1 as int].members(gender));
    candidate.swap_members(room0, room1, gender, pos0, pos1);
    let ghost swapped = candidate.rooms@;
    proof {
        let b0 = best.rooms@[room0 as int];
        let b1 = best.rooms@[room1 as int];
        lemma_swap_pairs(b0.members(gender), b1.members(gender), pos0@, pos1@, pos0@.len(), pop.len());
        assert forall|i: int| 0 <= i < swapped.len() implies (#[trigger] swapped[i]).refs_valid(pop) by {
            assert(best.rooms@[i].refs_valid(pop));
            if i != room0 && i != room1 {
                assert(swapped[i].same_members(&best.rooms@[i]));
            } else {
                let b = best.rooms@[i];
                assert(ids_valid(pop, swapped[i].members(gender)));
                assert(ids_valid(pop, swapped[i].members(opposite(gender))));
                match gender {
                    Gender::Male => {},
                    Gender::Female => {},
                }
            }
        }
    }
    candidate.cal_overall_cost(students, grade_average_score);
    proof {
        let after = candidate.rooms@;
        assert forall|r: int| 0 <= r < after.len() && r != room0 && r != room1 implies (#[trigger] after[r]).same_members(
            &best.rooms@[r],
        ) by {
            assert(after[r].same_members(&swapped[r]));
            assert(swapped[r].same_members(&best.rooms@[r]));
        }
        assert(after[room0 as int].same_members(&swapped[room0 as int]));
        assert(after[room1 as int].same_members(&swapped[room1 as int]));
        assert(after[room0 as int].members(gender) == swapped[room0 as int].members(gender));
        assert(after[room1 as int].members(gender) == swapped[room1 as int].members(gender));
        assert(after[room0 as int].members(opposite(gender)) == swapped[room0 as int].members(opposite(gender)));
        assert(after[room1 as int].members(opposite(gender)) == swapped[room1 as int].members(opposite(gender)));
        assert forall|i: int| 0 <= i < after.len() implies (#[trigger] after[i]).refs_valid(pop) by {
            assert(after[i].same_members(&swapped[i]));
            assert(swapped[i].refs_valid(pop));
        }
    }
    candidate
}


/// The lists of gender `g` of all rooms, in room order.
pub open spec fn gender_lists(rooms: Seq<ClassRoom>, g: Gender) -> Seq<Seq<StudentId>> {
    Seq::new(rooms.len(), |i: int| rooms[i].members(g))
}

/// `is_gender_partition`, stated over the lists alone.
pub open spec fn lists_partition(pop: Seq<Student>, lists: Seq<Seq<StudentId>>, g: Gender) -> bool {
    &&& forall|r: int, j: int| 0 <= r < lists.len() && 0 <= j < lists[r].len()
        ==> #[trigger] lists[r][j] < pop.len() && pop[lists[r][j] as int].gender == g
    &&& forall|r1: int, j1: int, r2: int, j2: int|
        0 <= r1 < lists.len() && 0 <= r2 < lists.len() && 0 <= j1 < lists[r1].len() && 0 <= j2 < lists[r2].len()
            && (r1 != r2 || j1 != j2) ==> #[trigger] lists[r1][j1] != #[trigger] lists[r2][j2]
    &&& forall|k: int| 0 <= k < pop.len() && (#[trigger] pop[k]).gender == g
        ==> exists|r: int| 0 <= r < lists.len() && #[trigger] lists[r].contains(k as StudentId)
}

proof fn lemma_partition_as_lists(pop: Seq<Student>, rooms: Seq<ClassRoom>, g: Gender)
    ensures
        is_gender_partition(pop, rooms, g) == lists_partition(pop, gender_lists(rooms, g), g),
{
    let lists = gender_lists(rooms, g);
    assert forall|r: int| 0 <= r < rooms.len() implies #[trigger] lists[r] == rooms[r].members(g) by {}
    if is_gender_partition(pop, rooms, g) {
        assert forall|k: int| 0 <= k < pop.len() && (#[trigger] pop[k]).gender == g
            implies exists|r: int| 0 <= r < lists.len() && #[trigger] lists[r].contains(k as StudentId) by {
            let r = choose|r: int| 0 <= r < rooms.len() && #[trigger] rooms[r].members(g).contains(k as StudentId);
            assert(lists[r] == rooms[r].members(g));
        }
        assert forall|r1: int, j1: int, r2: int, j2: int|
            0 <= r1 < lists.len() && 0 <= r2 < lists.len() && 0 <= j1 < lists[r1].len() && 0 <= j2 < lists[r2].len()
                && (r1 != r2 || j1 != j2) implies #[trigger] lists[r1][j1] != #[trigger] lists[r2][j2] by {
            assert(rooms[r1].members(g)[j1] != rooms[r2].members(g)[j2]);
        }
        assert forall|r: int, j: int| 0 <= r < lists.len() && 0 <= j < lists[r].len()
            implies #[trigger] lists[r][j] < pop.len() && pop[lists[r][j] as int].gender == g by {
            assert(rooms[r].members(g)[j] < pop.len());
        }
    }
    if lists_partition(pop, lists, g) {
        assert forall|k: int| 0 <= k < pop.len() && (#[trigger] pop[k]).gender == g
            implies exists|r: int| 0 <= r < rooms.len() && #[trigger] rooms[r].members(g).contains(k as StudentId) by {
            let r = choose|r: int| 0 <= r < lists.len() && #[trigger] lists[r].contains(k as StudentId);
            assert(lists[r] == rooms[r].members(g));
        }
        assert forall|r1: int, j1: int, r2: int, j2: int|
            0 <= r1 < rooms.len() && 0 <= r2 < rooms.len() && 0 <= j1 < rooms[r1].members(g).len()
                && 0 <= j2 < rooms[r2].members(g).len() && (r1 != r2 || j1 != j2)
            implies #[trigger] rooms[r1].members(g)[j1] != #[trigger] rooms[r2].members(g)[j2] by {
            assert(lists[r1][j1] != lists[r2][j2]);
        }
        assert forall|r: int, j: int| 0 <= r < rooms.len() && 0 <= j < rooms[r].members(g).len()
            implies #[trigger] rooms[r].members(g)[j] < pop.len() && pop[rooms[r].members(g)[j] as int].gender == g by {
            assert(lists[r][j] < pop.len());
        }
    }
}

/// Where the id at `(r, q)` after one swap of `(r0, i)` with `(r1, j)` was
/// before it.
pub open spec fn swap_source(r: int, q: int, r0: int, i: int, r1: int, j: int) -> (int, int) {
    if r == r0 && q == i {
        (r1, j)
    } else if r == r1 && q == j {
        (r0, i)
    } else {
        (r, q)
    }
}

pub open spec fn swap_once(lists: Seq<Seq<StudentId>>, r0: int, i: int, r1: int, j: int) -> Seq<Seq<StudentId>> {
    lists.update(r0, lists[r0].update(i, lists[r1][j])).update(r1, lists[r1].update(j, lists[r0][i]))
}

proof fn lemma_swap_once_partition(pop: Seq<Student>, lists: Seq<Seq<StudentId>>, g: Gender, r0: int, i: int, r1: int, j: int)
    requires
        lists_partition(pop, lists, g),
        0 <= r0 < lists.len(),
        0 <= r1 < lists.len(),
        r0 != r1,
        0 <= i < lists[r0].len(),
        0 <= j < lists[r1].len(),
    ensures
        lists_partition(pop, swap_once(lists, r0, i, r1, j), g),
{
    let nl = swap_once(lists, r0, i, r1, j);
    assert forall|r: int, q: int| 0 <= r < nl.len() && 0 <= q < nl[r].len() implies {
        let (sr, sq) = swap_source(r, q, r0, i, r1, j);
        &&& 0 <= sr < lists.len()
        &&& 0 <= sq < lists[sr].len()
        &&& #[trigger] nl[r][q] == lists[sr][sq]
    } by {}
    assert forall|r: int| 0 <= r < nl.len() implies #[trigger] nl[r].len() == lists[r].len() by {}
    assert forall|r: int, q: int| 0 <= r < nl.len() && 0 <= q < nl[r].len()
        implies #[trigger] nl[r][q] < pop.len() && pop[nl[r][q] as int].gender == g by {
        let (sr, sq) = swap_source(r, q, r0, i, r1, j);
        assert(lists[sr][sq] < pop.len());
    }
    assert forall|ra: int, ja: int, rb: int, jb: int|
        0 <= ra < nl.len() && 0 <= rb < nl.len() && 0 <= ja < nl[ra].len() && 0 <= jb < nl[rb].len()
            && (ra != rb || ja != jb) implies #[trigger] nl[ra][ja] != #[trigger] nl[rb][jb] by {
        let (sa, qa) = swap_source(ra, ja, r0, i, r1, j);
        let (sb, qb) = swap_source(rb, jb, r0, i, r1, j);
        assert(lists[sa][qa] != lists[sb][qb]);
    }
    assert forall|k: int| 0 <= k < pop.len() && (#[trigger] pop[k]).gender == g
        implies exists|r: int| 0 <= r < nl.len() && #[trigger] nl[r].contains(k as StudentId) by {
        let r = choose|r: int| 0 <= r < lists.len() && #[trigger] lists[r].contains(k as StudentId);
        let q = choose|q: int| 0 <= q < lists[r].len() && lists[r][q] == k as StudentId;
        let (tr, tq) = swap_source(r, q, r0, i, r1, j);
        assert(swap_source(tr, tq, r0, i, r1, j) == (r, q));
        assert(0 <= tr < nl.len());
        assert(nl[tr].len() == lists[tr].len());
        assert(0 <= tq < nl[tr].len());
        assert(nl[tr][tq] == lists[r][q]);
        assert(nl[tr].contains(k as StudentId));
    }
}

proof fn lemma_swap_pairs_partition(
    pop: Seq<Student>,
    lists: Seq<Seq<StudentId>>,
    g: Gender,
    r0: int,
    r1: int,
    pos0: Seq<usize>,
    pos1: Seq<usize>,
    t: nat,
)
    requires
        lists_partition(pop, lists, g),
        0 <= r0 < lists.len(),
        0 <= r1 < lists.len(),
        r0 != r1,
        t <= pos0.len(),
        t <= pos1.len(),
        forall|s: int| 0 <= s < t ==> #[trigger] pos0[s] < lists[r0].len() && pos1[s] < lists[r1].len(),
    ensures
        lists_partition(
            pop,
            lists.update(r0, swap_pairs(lists[r0], lists[r1], pos0, pos1, t).0).update(
                r1,
                swap_pairs(lists[r0], lists[r1], pos0, pos1, t).1,
            ),
            g,
        ),
    decreases t,
{
    let l0 = lists[r0];
    let l1 = lists[r1];
    if t == 0 {
        assert(lists.update(r0, l0).update(r1, l1) =~= lists);
    } else {
        lemma_swap_pairs_partition(pop, lists, g, r0, r1, pos0, pos1, (t - 1) as nat);
        lemma_swap_pairs(l0, l1, pos0, pos1, (t - 1) as nat, pop.len());
        let (a, b) = swap_pairs(l0, l1, pos0, pos1, (t - 1) as nat);
        let prev = lists.update(r0, a).update(r1, b);
        let i = pos0[t - 1] as int;
        let j = pos1[t - 1] as int;
        lemma_swap_once_partition(pop, prev, g, r0, i, r1, j);
        assert(swap_once(prev, r0, i, r1, j) =~= lists.update(r0, a.update(i, b[j])).update(r1, b.update(j, a[i])));
    }
}

/// A swap move keeps a partition a partition: ids only change places.
pub proof fn lemma_swap_keeps_partition(
    pop: Seq<Student>,
    before: Seq<ClassRoom>,
    after: Seq<ClassRoom>,
    room0: int,
    room1: int,
    g: Gender,
    pos0: Seq<usize>,
    pos1: Seq<usize>,
)
    requires
        is_partition(pop, before),
        swap_valid(before, room0, room1, g, pos0, pos1),
        swapped_from(after, before, room0, room1, g, pos0, pos1),
    ensures
        is_partition(pop, after),
{
    let lists = gender_lists(before, g);
    let (l0, l1) = swap_pairs(before[room0].members(g), before[room1].members(g), pos0, pos1, pos0.len());
    lemma_partition_as_lists(pop, before, g);
    lemma_partition_as_lists(pop, after, g);
    lemma_partition_as_lists(pop, before, opposite(g));
    lemma_partition_as_lists(pop, after, opposite(g));
    lemma_swap_pairs_partition(pop, lists, g, room0, room1, pos0, pos1, pos0.len());
    assert forall|r: int| 0 <= r < after.len() && r != room0 && r != room1 implies #[trigger] after[r].members(g)
        == before[r].members(g) && after[r].members(opposite(g)) == before[r].members(opposite(g)) by {
        assert(after[r].same_members(&before[r]));
    }
    assert(gender_lists(after, g) =~= lists.update(room0, l0).update(room1, l1));
    assert(gender_lists(after, opposite(g)) =~= gender_lists(before, opposite(g)));
    match g {
        Gender::Male => {},
        Gender::Female => {},
    }
}

/// Whether a swap move between `room0` and `room1` on gender `g` is
/// skipped: it is when either room has no member of that gender.
pub fn swap_is_skipped(best: &AssignResult, room0: usize, room1: usize, gender: Gender) -> (r: bool)
    requires
        room0 < best.rooms@.len(),
        room1 < best.rooms@.len(),
    ensures
        r == (best.rooms@[room0 as int].members(gender).len() == 0 || best.rooms@[room1 as int].members(gender).len() == 0),
{
    match gender {
        Gender::Male => best.rooms[room0].students_male.len() == 0 || best.rooms[room1].students_male.len() == 0,
        Gender::Female => best.rooms[room0].students_female.len() == 0 || best.rooms[room1].students_female.len() == 0,
    }
}

fn members_len(room: &ClassRoom, gender: Gender) -> (r: usize)
    ensures
        r == room.members(gender).len(),
{
    match gender {
        Gender::Male => room.students_male.len(),
        Gender::Female => room.students_female.len(),
    }
}

/// `c` is the candidate of a swap move on `best`: the swapped partition,
/// with its cost computed against `grade_average`.
pub open spec fn is_swap_candidate(
    c: AssignResult,
    best: AssignResult,
    pop: Seq<Student>,
    grade_average: int,
    room0: int,
    room1: int,
    g: Gender,
    pos0: Seq<usize>,
    pos1: Seq<usize>,
) -> bool {
    swapped_from(c.rooms@, best.rooms@, room0, room1, g, pos0, pos1) && c.cost_current(pop, grade_average)
}

/// A move on `g` between `room0` and `room1` is skipped when either room
/// has no member of gender `g`.
pub open spec fn move_skipped(best: AssignResult, room0: int, room1: int, g: Gender) -> bool {
    best.rooms@[room0].members(g).len() == 0 || best.rooms@[room1].members(g).len() == 0
}

/// What a move with the given draws makes of `best`: `best` itself when the
/// move is skipped; otherwise the swapped candidate when its cost is
/// strictly lower, and `best` when it is not.
pub open spec fn move_outcome(
    best: AssignResult,
    r: AssignResult,
    pop: Seq<Student>,
    grade_average: int,
    room0: int,
    room1: int,
    g: Gender,
    pos0: Seq<usize>,
    pos1: Seq<usize>,
) -> bool {
    &&& move_skipped(best, room0, room1, g) ==> r == best
    &&& !move_skipped(best, room0, room1, g) ==> {
        &&& r == best || is_swap_candidate(r, best, pop, grade_average, room0, room1, g, pos0, pos1)
        &&& forall|c: AssignResult| #[trigger] is_swap_candidate(c, best, pop, grade_average, room0, room1, g, pos0, pos1) ==> {
            &&& cost_lt(as_nat(c.overall_cost), as_nat(best.overall_cost)) ==> r.same_members(&c) && r.overall_cost
                == c.overall_cost
            &&& !cost_lt(as_nat(c.overall_cost), as_nat(best.overall_cost)) ==> r == best
        }
    }
}

/// Draws a step may make: two distinct rooms and a gender; unless the move
/// is skipped, `swap_count_spec` distinct positions in each of the two
/// lists.
pub open spec fn draws_valid(best: AssignResult, room0: int, room1: int, g: Gender, pos0: Seq<usize>, pos1: Seq<usize>) -> bool {
    &&& 0 <= room0 < best.rooms@.len()
    &&& 0 <= room1 < best.rooms@.len()
    &&& room0 != room1
    &&& !move_skipped(best, room0, room1, g) ==> {
        &&& swap_valid(best.rooms@, room0, room1, g, pos0, pos1)
        &&& pos0.len() == swap_count_spec(best.rooms@[room0].members(g).len(), best.rooms@[room1].members(g).len())
        &&& pos0.no_duplicates()
        &&& pos1.no_duplicates()
    }
}

/// Two results of the same swap move hold the same members.
proof fn lemma_swapped_from_unique(
    a: Seq<ClassRoom>,
    b: Seq<ClassRoom>,
    before: Seq<ClassRoom>,
    room0: int,
    room1: int,
    g: Gender,
    pos0: Seq<usize>,
    pos1: Seq<usize>,
)
    requires
        0 <= room0 < before.len(),
        0 <= room1 < before.len(),
        swapped_from(a, before, room0, room1, g, pos0, pos1),
        swapped_from(b, before, room0, room1, g, pos0, pos1),
    ensures
        forall|i: int| 0 <= i < a.len() ==> (#[trigger] a[i]).same_members(&b[i]),
{
    assert forall|i: int| 0 <= i < a.len() implies (#[trigger] a[i]).same_members(&b[i]) by {
        if i != room0 && i != room1 {
            assert(a[i].same_members(&before[i]) && b[i].same_members(&before[i]));
        } else {
            match g {
                Gender::Male => {},
                Gender::Female => {},
            }
        }
    }
}

/// One swap move with the given draws: skipped when either room has no
/// member of gender `gender`; otherwise the swapped candidate replaces
/// `best` when its cost is strictly lower.
pub fn refine_move(
    best: AssignResult,
    students: &[Student],
    grade_average_score: u32,
    room0: usize,
    room1: usize,
    gender: Gender,
    pos0: &Vec<usize>,
    pos1: &Vec<usize>,
) -> (r: AssignResult)
    requires
        population_wf(students@),
        best.refs_valid(students@),
        best.cost_current(students@, grade_average_score as int),
        grade_average_score <= MAX_SCORE,
        room0 < best.rooms@.len(),
        room1 < best.rooms@.len(),
        room0 != room1,
        !move_skipped(best, room0 as int, room1 as int, gender) ==> swap_valid(
            best.rooms@,
            room0 as int,
            room1 as int,
            gender,
            pos0@,
            pos1@,
        ),
    ensures
        move_outcome(best, r, students@, grade_average_score as int, room0 as int, room1 as int, gender, pos0@, pos1@),
        r.refs_valid(students@),
        r.cost_current(students@, grade_average_score as int),
        cost_le(as_nat(r.overall_cost), as_nat(best.overall_cost)),
        is_partition(students@, best.rooms@) ==> is_partition(students@, r.rooms@),
{
    if swap_is_skipped(&best, room0, room1, gender) {
        return best;
    }
    let ghost pop = students@;
    let ghost g = grade_average_score as int;
    let ghost old_best = best;
    let candidate = swap_candidate(&best, students, grade_average_score, room0, room1, gender, pos0, pos1);
    let ghost cand = candidate;
    let r = keep_better(best, candidate);
    proof {
        assert(is_swap_candidate(cand, old_best, pop, g, room0 as int, room1 as int, gender, pos0@, pos1@));
        assert forall|c: AssignResult| #[trigger] is_swap_candidate(c, old_best, pop, g, room0 as int, room1 as int, gender, pos0@, pos1@)
            implies c.same_members(&cand) && c.overall_cost == cand.overall_cost by {
            lemma_swapped_from_unique(c.rooms@, cand.rooms@, old_best.rooms@, room0 as int, room1 as int, gender, pos0@, pos1@);
            lemma_cost_deterministic(pop, c, cand, g);
        }
        assert forall|c: AssignResult| #[trigger] is_swap_candidate(c, old_best, pop, g, room0 as int, room1 as int, gender, pos0@, pos1@)
            implies cost_lt(as_nat(c.overall_cost), as_nat(old_best.overall_cost)) ==> r.same_members(&c) && r.overall_cost
                == c.overall_cost by {
            if cost_lt(as_nat(c.overall_cost), as_nat(old_best.overall_cost)) {
                assert(r == cand);
                assert forall|i: int| 0 <= i < r.rooms@.len() implies (#[trigger] r.rooms@[i]).same_members(&c.rooms@[i]) by {
                    assert(c.rooms@[i].same_members(&cand.rooms@[i]));
                }
            }
        }
        if r != old_best {
            assert(r == cand);
            if is_partition(pop, old_best.rooms@) {
                lemma_swap_keeps_partition(pop, old_best.rooms@, r.rooms@, room0 as int, room1 as int, gender, pos0@, pos1@);
            }
        }
    }
    r
}

/// One refinement step: two distinct rooms and a gender are drawn at
/// random and, unless the move is skipped, a tenth of the smaller list (at
/// least one) of distinct positions in each room's list of that gender;
/// `refine_move` then makes the move.
pub fn refine_step(best: AssignResult, students: &[Student], grade_average_score: u32, rng: &mut StdRng) -> (r: AssignResult)
    requires
        population_wf(students@),
        best.refs_valid(students@),
        best.cost_current(students@, grade_average_score as int),
        grade_average_score <= MAX_SCORE,
        best.rooms@.len() >= 2,
    ensures
        exists|room0: int, room1: int, g: Gender, pos0: Seq<usize>, pos1: Seq<usize>| {
            &&& #[trigger] draws_valid(best, room0, room1, g, pos0, pos1)
            &&& move_outcome(best, r, students@, grade_average_score as int, room0, room1, g, pos0, pos1)
        },
        r.refs_valid(students@),
        r.cost_current(students@, grade_average_score as int),
        cost_le(as_nat(r.overall_cost), as_nat(best.overall_cost)),
        is_partition(students@, best.rooms@) ==> is_partition(students@, r.rooms@),
{
    let n_rooms = best.rooms.len();
    let pick = sample_indices(rng, n_rooms, 2);
    let room0 = pick[0];
    let room1 = pick[1];
    let coin = sample_indices(rng, 2, 1);
    let gender = if coin[0] == 0 { Gender::Male } else { Gender::Female };
    let mut pos0: Vec<usize> = Vec::new();
    let mut pos1: Vec<usize> = Vec::new();
    if !swap_is_skipped(&best, room0, room1, gender) {
        let len0 = members_len(&best.rooms[room0], gender);
        let len1 = members_len(&best.rooms[room1], gender);
        let n = swap_count(len0, len1);
        pos0 = sample_indices(rng, len0, n);
        pos1 = sample_indices(rng, len1, n);
    }
    let ghost old_best = best;
    proof {
        assert(draws_valid(old_best, room0 as int, room1 as int, gender, pos0@, pos1@));
    }
    refine_move(best, students, grade_average_score, room0, room1, gender, &pos0, &pos1)
}

} // verus!
