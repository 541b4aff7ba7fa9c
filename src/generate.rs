//! The multi-start striped draft.
//!
//! Each gender is ordered by score, best first, and cut into tiers of one
//! student per room; each tier is dealt over the rooms in a fresh random
//! order, so that strong and weak students spread evenly. The driver keeps
//! the cheapest of many such drafts.

use vstd::prelude::*;
use crate::model::{AssignResult, BuilderData, ClassRoom, Gender, Student, StudentId, population_wf};
use crate::cost::{as_nat, cost_lt, grade_average, grade_average_score, is_lower_cost};
use crate::random::sample_indices;
use rand::rngs::StdRng;
use vstd::arithmetic::div_mod::lemma_fundamental_div_mod_converse;
use vstd::arithmetic::div_mod::lemma_fundamental_div_mod;

verus! {

/// `a` comes before `b` in a tier order: a higher score first, and on equal
/// scores the lower id first.
pub open spec fn ranks_before(pop: Seq<Student>, a: StudentId, b: StudentId) -> bool {
    pop[a as int].score > pop[b as int].score || (pop[a as int].score == pop[b as int].score && a < b)
}

/// `order` lists the students of gender `g`, each once, best first.
pub open spec fn is_tier_order(pop: Seq<Student>, g: Gender, order: Seq<StudentId>) -> bool {
    &&& forall|j: int| 0 <= j < order.len() ==> #[trigger] order[j] < pop.len() && pop[order[j] as int].gender == g
    &&& forall|a: int, b: int| 0 <= a < b < order.len() ==> ranks_before(pop, #[trigger] order[a], #[trigger] order[b])
    &&& forall|k: int| 0 <= k < pop.len() && (#[trigger] pop[k]).gender == g ==> order.contains(k as StudentId)
}

/// Sorted strictly in tier order.
pub open spec fn rank_sorted(pop: Seq<Student>, s: Seq<StudentId>) -> bool {
    forall|a: int, b: int| 0 <= a < b < s.len() ==> ranks_before(pop, #[trigger] s[a], #[trigger] s[b])
}

proof fn lemma_rank_sorted_unique(pop: Seq<Student>, a: Seq<StudentId>, b: Seq<StudentId>)
    requires
        rank_sorted(pop, a),
        rank_sorted(pop, b),
        forall|x: StudentId| a.contains(x) <==> b.contains(x),
    ensures
        a == b,
    decreases a.len(),
{
    if a.len() == 0 {
        if b.len() > 0 {
            assert(b.contains(b[0]));
        }
        assert(a =~= b);
    } else {
        assert(a.contains(a[0]));
        assert(b.len() > 0);
        assert(b.contains(b[0]));
        let u = choose|u: int| 0 <= u < b.len() && b[u] == a[0];
        let v = choose|v: int| 0 <= v < a.len() && a[v] == b[0];
        if u > 0 && v > 0 {
            assert(ranks_before(pop, b[0], b[u]));
            assert(ranks_before(pop, a[0], a[v]));
        } else if u > 0 {
            assert(ranks_before(pop, b[0], b[u]));
        }
        assert(a[0] == b[0]);
        let a1 = a.drop_first();
        let b1 = b.drop_first();
        assert forall|x: StudentId| a1.contains(x) <==> b1.contains(x) by {
            if a1.contains(x) {
                let t = choose|t: int| 0 <= t < a1.len() && a1[t] == x;
                assert(ranks_before(pop, a[0], a[t + 1]));
                assert(a.contains(x));
                let w = choose|w: int| 0 <= w < b.len() && b[w] == x;
                assert(w != 0);
                assert(b1[w - 1] == x);
            }
            if b1.contains(x) {
                let t = choose|t: int| 0 <= t < b1.len() && b1[t] == x;
                assert(ranks_before(pop, b[0], b[t + 1]));
                assert(b.contains(x));
                let w = choose|w: int| 0 <= w < a.len() && a[w] == x;
                assert(w != 0);
                assert(a1[w - 1] == x);
            }
        }
        assert(rank_sorted(pop, a1)) by {
            assert forall|i: int, j: int| 0 <= i < j < a1.len() implies ranks_before(pop, #[trigger] a1[i], #[trigger] a1[j]) by {
                assert(a1[i] == a[i + 1] && a1[j] == a[j + 1]);
            }
        }
        assert(rank_sorted(pop, b1)) by {
            assert forall|i: int, j: int| 0 <= i < j < b1.len() implies ranks_before(pop, #[trigger] b1[i], #[trigger] b1[j]) by {
                assert(b1[i] == b[i + 1] && b1[j] == b[j + 1]);
            }
        }
        lemma_rank_sorted_unique(pop, a1, b1);
        assert(a =~= b) by {
            assert forall|i: int| 0 <= i < a.len() implies a[i] == b[i] by {
                if i > 0 {
                    assert(a[i] == a1[i - 1] && b[i] == b1[i - 1]);
                }
            }
        }
    }
}

/// There is a single tier order for each gender: the result of
/// `tier_order`, and so of a striped draft for given seats, is determined.
pub proof fn lemma_tier_order_unique(pop: Seq<Student>, g: Gender, a: Seq<StudentId>, b: Seq<StudentId>)
    requires
        is_tier_order(pop, g, a),
        is_tier_order(pop, g, b),
    ensures
        a == b,
{
    assert forall|x: StudentId| a.contains(x) <==> b.contains(x) by {
        if a.contains(x) {
            let j = choose|j: int| 0 <= j < a.len() && a[j] == x;
            assert(a[j] < pop.len() && pop[a[j] as int].gender == g);
            assert(pop[x as int].gender == g);
        }
        if b.contains(x) {
            let j = choose|j: int| 0 <= j < b.len() && b[j] == x;
            assert(b[j] < pop.len() && pop[b[j] as int].gender == g);
            assert(pop[x as int].gender == g);
        }
    }
    lemma_rank_sorted_unique(pop, a, b);
}

pub open spec fn gender_count(pop: Seq<Student>, g: Gender) -> nat
    decreases pop.len(),
{
    if pop.len() == 0 {
        0
    } else {
        gender_count(pop.drop_last(), g) + if pop.last().gender == g { 1nat } else { 0nat }
    }
}

/// The students of gender `gender`, ordered by score, best first; students
/// with equal scores keep the population's order.
pub fn tier_order(students: &[Student], gender: Gender) -> (r: Vec<StudentId>)
    ensures
        is_tier_order(students@, gender, r@),
        r@.len() == gender_count(students@, gender),
{
    let ghost pop = students@;
    let mut r: Vec<StudentId> = Vec::new();
    let mut i: usize = 0;
    while i < students.len()
        invariant
            pop == students@,
            i <= pop.len(),
            forall|j: int| 0 <= j < r@.len() ==> #[trigger] r@[j] < i && pop[r@[j] as int].gender == gender,
            forall|a: int, b: int| 0 <= a < b < r@.len() ==> ranks_before(pop, #[trigger] r@[a], #[trigger] r@[b]),
            forall|k: int| 0 <= k < i && (#[trigger] pop[k]).gender == gender ==> r@.contains(k as StudentId),
            r@.len() == gender_count(pop.take(i as int), gender),
        decreases pop.len() - i,
    {
        assert(pop.take(i + 1).drop_last() =~= pop.take(i as int));
        if students[i].gender == gender {
            let s = students[i].score;
            let mut p: usize = 0;
            while p < r.len() && students[r[p]].score >= s
                invariant
                    pop == students@,
                    p <= r@.len(),
                    forall|j: int| 0 <= j < r@.len() ==> #[trigger] r@[j] < i,
                    i < pop.len(),
                    s == pop[i as int].score,
                    forall|q: int| 0 <= q < p ==> pop[(#[trigger] r@[q]) as int].score >= s,
                decreases r@.len() - p,
            {
                p = p + 1;
            }
            let ghost old_r = r@;
            proof {
                // past `p` every score is below `s`
                assert forall|q: int| p <= q < old_r.len() implies pop[(#[trigger] old_r[q]) as int].score < s by {
                    if q > p {
                        assert(ranks_before(pop, old_r[p as int], old_r[q]));
                    }
                }
            }
            r.insert(p, i);
            proof {
                assert forall|j: int| 0 <= j < r@.len() implies #[trigger] r@[j] < i + 1 && pop[r@[j] as int].gender == gender by {
                    if j < p {
                        assert(r@[j] == old_r[j]);
                    } else if j > p {
                        assert(r@[j] == old_r[j - 1]);
                    }
                }
                assert forall|a: int, b: int| 0 <= a < b < r@.len() implies ranks_before(pop, #[trigger] r@[a], #[trigger] r@[b]) by {
                    if b < p {
                        assert(r@[a] == old_r[a] && r@[b] == old_r[b]);
                    } else if b == p {
                        assert(r@[a] == old_r[a]);
                    } else if a < p {
                        assert(r@[a] == old_r[a] && r@[b] == old_r[b - 1]);
                    } else if a == p {
                        assert(r@[b] == old_r[b - 1]);
                    } else {
                        assert(r@[a] == old_r[a - 1] && r@[b] == old_r[b - 1]);
                    }
                }
                assert forall|k: int| 0 <= k < i + 1 && (#[trigger] pop[k]).gender == gender implies r@.contains(k as StudentId) by {
                    if k == i {
                        assert(r@[p as int] == i);
                    } else {
                        assert(old_r.contains(k as StudentId));
                        let w = choose|w: int| 0 <= w < old_r.len() && old_r[w] == k as StudentId;
                        if w < p {
                            assert(r@[w] == old_r[w]);
                        } else {
                            assert(r@[w + 1] == old_r[w]);
                        }
                    }
                }
            }
        }
        i = i + 1;
    }
    assert(pop.take(pop.len() as int) =~= pop);
    r
}


/// The ids that a deal hands to room `room`: `order[p]` goes to the room
/// `seats[p]`, and each room keeps the order of `order`.
pub open spec fn dealt(order: Seq<StudentId>, seats: Seq<usize>, room: int) -> Seq<StudentId>
    decreases order.len(),
{
    if order.len() == 0 {
        Seq::empty()
    } else {
        let prev = dealt(order.drop_last(), seats, room);
        if seats[order.len() - 1] == room {
            prev.push(order.last())
        } else {
            prev
        }
    }
}

proof fn lemma_dealt_origin(order: Seq<StudentId>, seats: Seq<usize>, room: int, t: int)
    requires
        0 <= t < dealt(order, seats, room).len(),
    ensures
        exists|p: int| 0 <= p < order.len() && order[p] == dealt(order, seats, room)[t] && seats[p] == room,
    decreases order.len(),
{
    let prev = dealt(order.drop_last(), seats, room);
    if t < prev.len() {
        lemma_dealt_origin(order.drop_last(), seats, room, t);
        let p = choose|p: int| 0 <= p < order.len() - 1 && order.drop_last()[p] == prev[t] && seats[p] == room;
        assert(order[p] == dealt(order, seats, room)[t]);
    } else {
        assert(order[order.len() - 1] == dealt(order, seats, room)[t]);
    }
}

proof fn lemma_dealt_distinct(order: Seq<StudentId>, seats: Seq<usize>, room: int)
    requires
        order.no_duplicates(),
    ensures
        dealt(order, seats, room).no_duplicates(),
    decreases order.len(),
{
    if order.len() > 0 {
        let rest = order.drop_last();
        assert(rest.no_duplicates());
        lemma_dealt_distinct(rest, seats, room);
        let prev = dealt(rest, seats, room);
        if seats[order.len() - 1] == room {
            assert forall|t: int| 0 <= t < prev.len() implies prev[t] != order.last() by {
                lemma_dealt_origin(rest, seats, room, t);
            }
            let d = dealt(order, seats, room);
            assert forall|a: int, b: int| 0 <= a < d.len() && 0 <= b < d.len() && a != b implies d[a] != d[b] by {
                if a < prev.len() && b < prev.len() {
                    assert(d[a] == prev[a] && d[b] == prev[b]);
                }
            }
        }
    }
}

proof fn lemma_dealt_complete(order: Seq<StudentId>, seats: Seq<usize>, p: int)
    requires
        0 <= p < order.len(),
    ensures
        dealt(order, seats, seats[p] as int).contains(order[p]),
    decreases order.len(),
{
    let room = seats[p] as int;
    let d = dealt(order, seats, room);
    if p == order.len() - 1 {
        assert(d[d.len() - 1] == order[p]);
    } else {
        lemma_dealt_complete(order.drop_last(), seats, p);
        let prev = dealt(order.drop_last(), seats, room);
        let w = choose|w: int| 0 <= w < prev.len() && prev[w] == order[p];
        assert(d[w] == order[p]);
    }
}

pub open spec fn opposite(g: Gender) -> Gender {
    match g {
        Gender::Male => Gender::Female,
        Gender::Female => Gender::Male,
    }
}

/// Every student of gender `g` is held exactly once, in the list of its
/// gender of one room; every id in those lists is a student of gender `g`.
pub open spec fn is_gender_partition(pop: Seq<Student>, rooms: Seq<ClassRoom>, g: Gender) -> bool {
    &&& forall|r: int, j: int| 0 <= r < rooms.len() && 0 <= j < rooms[r].members(g).len()
        ==> #[trigger] rooms[r].members(g)[j] < pop.len() && pop[rooms[r].members(g)[j] as int].gender == g
    &&& forall|r1: int, j1: int, r2: int, j2: int|
        0 <= r1 < rooms.len() && 0 <= r2 < rooms.len() && 0 <= j1 < rooms[r1].members(g).len()
            && 0 <= j2 < rooms[r2].members(g).len() && (r1 != r2 || j1 != j2)
        ==> #[trigger] rooms[r1].members(g)[j1] != #[trigger] rooms[r2].members(g)[j2]
    &&& forall|k: int| 0 <= k < pop.len() && (#[trigger] pop[k]).gender == g
        ==> exists|r: int| 0 <= r < rooms.len() && #[trigger] rooms[r].members(g).contains(k as StudentId)
}

/// Every student of the population is held exactly once over all rooms, in
/// the list of its own gender.
pub open spec fn is_partition(pop: Seq<Student>, rooms: Seq<ClassRoom>) -> bool {
    is_gender_partition(pop, rooms, Gender::Male) && is_gender_partition(pop, rooms, Gender::Female)
}

proof fn lemma_deal_partitions(pop: Seq<Student>, rooms: Seq<ClassRoom>, g: Gender, order: Seq<StudentId>, seats: Seq<usize>)
    requires
        is_tier_order(pop, g, order),
        seats.len() >= order.len(),
        forall|p: int| 0 <= p < order.len() ==> #[trigger] seats[p] < rooms.len(),
        forall|r: int| 0 <= r < rooms.len() ==> (#[trigger] rooms[r]).members(g) == dealt(order, seats, r),
    ensures
        is_gender_partition(pop, rooms, g),
{
    assert(order.no_duplicates()) by {
        assert forall|a: int, b: int| 0 <= a < order.len() && 0 <= b < order.len() && a != b implies order[a] != order[b] by {
            if a < b {
                assert(ranks_before(pop, order[a], order[b]));
            } else {
                assert(ranks_before(pop, order[b], order[a]));
            }
        }
    }
    assert forall|r: int, j: int| 0 <= r < rooms.len() && 0 <= j < rooms[r].members(g).len()
        implies #[trigger] rooms[r].members(g)[j] < pop.len() && pop[rooms[r].members(g)[j] as int].gender == g by {
        assert(rooms[r].members(g) == dealt(order, seats, r));
        lemma_dealt_origin(order, seats, r, j);
        let p = choose|p: int| 0 <= p < order.len() && order[p] == dealt(order, seats, r)[j] && seats[p] == r;
        assert(order[p] < pop.len());
    }
    assert forall|r1: int, j1: int, r2: int, j2: int|
        0 <= r1 < rooms.len() && 0 <= r2 < rooms.len() && 0 <= j1 < rooms[r1].members(g).len()
            && 0 <= j2 < rooms[r2].members(g).len() && (r1 != r2 || j1 != j2)
        implies #[trigger] rooms[r1].members(g)[j1] != #[trigger] rooms[r2].members(g)[j2] by {
        assert(rooms[r1].members(g) == dealt(order, seats, r1));
        assert(rooms[r2].members(g) == dealt(order, seats, r2));
        lemma_dealt_origin(order, seats, r1, j1);
        lemma_dealt_origin(order, seats, r2, j2);
        let p1 = choose|p: int| 0 <= p < order.len() && order[p] == dealt(order, seats, r1)[j1] && seats[p] == r1;
        let p2 = choose|p: int| 0 <= p < order.len() && order[p] == dealt(order, seats, r2)[j2] && seats[p] == r2;
        if r1 == r2 {
            lemma_dealt_distinct(order, seats, r1);
        } else if rooms[r1].members(g)[j1] == rooms[r2].members(g)[j2] {
            assert(p1 == p2);
        }
    }
    assert forall|k: int| 0 <= k < pop.len() && (#[trigger] pop[k]).gender == g
        implies exists|r: int| 0 <= r < rooms.len() && #[trigger] rooms[r].members(g).contains(k as StudentId) by {
        assert(order.contains(k as StudentId));
        let p = choose|p: int| 0 <= p < order.len() && order[p] == k as StudentId;
        lemma_dealt_complete(order, seats, p);
        let r = seats[p] as int;
        assert(rooms[r].members(g) == dealt(order, seats, r));
    }
}

impl AssignResult {
    /// Hands `order[p]` to room `seats[p]`, appending it to the room's list of
    /// gender `gender`. The overall cost is dropped, as it no longer holds.
    fn deal(&mut self, order: &Vec<StudentId>, seats: &Vec<usize>, gender: Gender)
        requires
            seats@.len() >= order@.len(),
            forall|p: int| 0 <= p < order@.len() ==> #[trigger] seats@[p] < old(self).rooms@.len(),
        ensures
            final(self).rooms@.len() == old(self).rooms@.len(),
            forall|r: int| 0 <= r < final(self).rooms@.len() ==> {
                &&& (#[trigger] final(self).rooms@[r]).number == old(self).rooms@[r].number
                &&& final(self).rooms@[r].members(gender) == old(self).rooms@[r].members(gender) + dealt(order@, seats@, r)
                &&& final(self).rooms@[r].members(opposite(gender)) == old(self).rooms@[r].members(opposite(gender))
            },
            final(self).overall_cost is None,
    {
        self.overall_cost = None;
        let n = self.rooms.len();
        let mut p: usize = 0;
        while p < order.len()
            invariant
                seats@.len() >= order@.len(),
                forall|q: int| 0 <= q < order@.len() ==> #[trigger] seats@[q] < n,
                n == self.rooms@.len(),
                n == old(self).rooms@.len(),
                p <= order@.len(),
                self.overall_cost is None,
                forall|r: int| 0 <= r < n ==> {
                    &&& (#[trigger] self.rooms@[r]).number == old(self).rooms@[r].number
                    &&& self.rooms@[r].members(gender) == old(self).rooms@[r].members(gender) + dealt(order@.take(p as int), seats@, r)
                    &&& self.rooms@[r].members(opposite(gender)) == old(self).rooms@[r].members(opposite(gender))
                },
            decreases order@.len() - p,
        {
            let s = seats[p];
            let ghost before = self.rooms@;
            let mut room = ClassRoom::new(0);
            self.rooms.set_and_swap(s, &mut room);
            match gender {
                Gender::Male => room.students_male.push(order[p]),
                Gender::Female => room.students_female.push(order[p]),
            }
            self.rooms.set_and_swap(s, &mut room);
            proof {
                let next = order@.take(p + 1);
                assert(next.drop_last() =~= order@.take(p as int));
                assert(next.last() == order@[p as int]);
                assert forall|r: int| 0 <= r < n implies {
                    &&& (#[trigger] self.rooms@[r]).number == old(self).rooms@[r].number
                    &&& self.rooms@[r].members(gender) == old(self).rooms@[r].members(gender) + dealt(next, seats@, r)
                    &&& self.rooms@[r].members(opposite(gender)) == old(self).rooms@[r].members(opposite(gender))
                } by {
                    if r == s as int {
                        assert(self.rooms@[r].members(gender) =~= before[r].members(gender).push(order@[p as int]));
                        assert(self.rooms@[r].members(gender) =~= old(self).rooms@[r].members(gender) + dealt(next, seats@, r));
                    } else {
                        assert(self.rooms@[r] == before[r]);
                    }
                }
            }
            p = p + 1;
        }
        assert(order@.take(order@.len() as int) =~= order@);
    }
}


/// Within each tier of `n` consecutive positions the seats are distinct.
pub open spec fn tiers_distinct(seats: Seq<usize>, n: nat) -> bool {
    forall|p: int, q: int| 0 <= p < q < seats.len() && p / (n as int) == q / (n as int)
        ==> #[trigger] seats[p] != #[trigger] seats[q]
}

/// `count` seats over `n_rooms` rooms: each tier of `n_rooms` positions is a
/// fresh random permutation of the rooms, the last tier a prefix of one.
pub fn draw_seats(rng: &mut StdRng, n_rooms: usize, count: usize) -> (r: Vec<usize>)
    requires
        0 < n_rooms <= u32::MAX,
    ensures
        r@.len() == count,
        forall|p: int| 0 <= p < count ==> #[trigger] r@[p] < n_rooms,
        tiers_distinct(r@, n_rooms as nat),
{
    let mut seats: Vec<usize> = Vec::new();
    let ghost mut tier: int = 0;
    while seats.len() < count
        invariant
            0 < n_rooms <= u32::MAX,
            seats@.len() <= count,
            seats@.len() < count ==> seats@.len() == tier * n_rooms,
            tier >= 0,
            forall|p: int| 0 <= p < seats@.len() ==> #[trigger] seats@[p] < n_rooms,
            tiers_distinct(seats@, n_rooms as nat),
        decreases count - seats@.len(),
    {
        let perm = sample_indices(rng, n_rooms, n_rooms);
        let base = seats.len();
        let mut j: usize = 0;
        while j < n_rooms && seats.len() < count
            invariant
                0 < n_rooms <= u32::MAX,
                base == tier * n_rooms,
                perm@.len() == n_rooms,
                forall|i: int| 0 <= i < perm@.len() ==> #[trigger] perm@[i] < n_rooms,
                forall|a: int, b: int| 0 <= a < perm@.len() && 0 <= b < perm@.len() && a != b ==> perm@[a] != perm@[b],
                j <= n_rooms,
                seats@.len() == base + j,
                seats@.len() <= count,
                forall|p: int| 0 <= p < seats@.len() ==> #[trigger] seats@[p] < n_rooms,
                forall|i: int| 0 <= i < j ==> #[trigger] seats@[base + i] == perm@[i],
                tiers_distinct(seats@, n_rooms as nat),
            decreases n_rooms - j,
        {
            let ghost before = seats@;
            seats.push(perm[j]);
            proof {
                let n = n_rooms as int;
                let q = base + j;
                lemma_fundamental_div_mod_converse(q, n, tier, j as int);
                assert forall|a: int, b: int| 0 <= a < b < seats@.len() && a / n == b / n
                    implies #[trigger] seats@[a] != #[trigger] seats@[b] by {
                    if b == q {
                        if a >= base {
                            assert(before[base + (a - base)] == perm@[a - base]);
                            assert(seats@[a] == before[a]);
                            assert(seats@[q] == perm@[j as int]);
                        } else {
                            lemma_fundamental_div_mod(a, n);
                            vstd::arithmetic::div_mod::lemma_mod_pos_bound(a, n);
                            let d = a / n;
                            assert(q / n == tier);
                            assert(d == tier);
                            assert(a == n * d + a % n);
                            assert(n * d == tier * n) by (nonlinear_arith)
                                requires d == tier;
                            assert(false);
                        }
                    } else {
                        assert(seats@[a] == before[a] && seats@[b] == before[b]);
                    }
                }
                assert forall|i: int| 0 <= i < j + 1 implies #[trigger] seats@[base + i] == perm@[i] by {
                    if i < j {
                        assert(seats@[base + i] == before[base + i]);
                    }
                }
            }
            j = j + 1;
        }
        proof {
            if seats@.len() < count {
                assert(seats@.len() == (tier + 1) * n_rooms) by (nonlinear_arith)
                    requires seats@.len() == tier * n_rooms + n_rooms;
            }
            tier = tier + 1;
        }
    }
    seats
}

proof fn lemma_striped_rooms(
    pop: Seq<Student>,
    rooms: Seq<ClassRoom>,
    male_order: Seq<StudentId>,
    female_order: Seq<StudentId>,
    male_seats: Seq<usize>,
    female_seats: Seq<usize>,
)
    requires
        is_tier_order(pop, Gender::Male, male_order),
        is_tier_order(pop, Gender::Female, female_order),
        male_seats.len() >= male_order.len(),
        female_seats.len() >= female_order.len(),
        forall|p: int| 0 <= p < male_order.len() ==> #[trigger] male_seats[p] < rooms.len(),
        forall|p: int| 0 <= p < female_order.len() ==> #[trigger] female_seats[p] < rooms.len(),
        forall|r: int| 0 <= r < rooms.len() ==> {
            &&& (#[trigger] rooms[r]).members(Gender::Male) == Seq::<StudentId>::empty() + dealt(male_order, male_seats, r)
            &&& rooms[r].members(Gender::Female) == Seq::<StudentId>::empty() + dealt(female_order, female_seats, r)
        },
    ensures
        forall|r: int| 0 <= r < rooms.len() ==> {
            &&& (#[trigger] rooms[r]).students_male@ == dealt(male_order, male_seats, r)
            &&& rooms[r].students_female@ == dealt(female_order, female_seats, r)
        },
        is_partition(pop, rooms),
        forall|r: int| 0 <= r < rooms.len() ==> (#[trigger] rooms[r]).refs_valid(pop),
{
    assert forall|r: int| 0 <= r < rooms.len() implies {
        &&& (#[trigger] rooms[r]).students_male@ == dealt(male_order, male_seats, r)
        &&& rooms[r].students_female@ == dealt(female_order, female_seats, r)
    } by {
        assert(Seq::<StudentId>::empty() + dealt(male_order, male_seats, r) =~= dealt(male_order, male_seats, r));
        assert(Seq::<StudentId>::empty() + dealt(female_order, female_seats, r) =~= dealt(female_order, female_seats, r));
    }
    lemma_deal_partitions(pop, rooms, Gender::Male, male_order, male_seats);
    lemma_deal_partitions(pop, rooms, Gender::Female, female_order, female_seats);
    assert forall|r: int| 0 <= r < rooms.len() implies (#[trigger] rooms[r]).refs_valid(pop) by {
        assert forall|j: int| 0 <= j < rooms[r].students_male@.len() implies #[trigger] rooms[r].students_male@[j] < pop.len() by {
            assert(rooms[r].members(Gender::Male)[j] < pop.len());
        }
        assert forall|j: int| 0 <= j < rooms[r].students_female@.len() implies #[trigger] rooms[r].students_female@[j] < pop.len() by {
            assert(rooms[r].members(Gender::Female)[j] < pop.len());
        }
    }
}

/// A partition depends on the rooms' members alone.
pub(crate) proof fn lemma_partition_same_members(pop: Seq<Student>, a: Seq<ClassRoom>, b: Seq<ClassRoom>)
    requires
        is_partition(pop, a),
        a.len() == b.len(),
        forall|i: int| 0 <= i < a.len() ==> (#[trigger] a[i]).refs_valid(pop),
        forall|i: int| 0 <= i < b.len() ==> (#[trigger] b[i]).same_members(&a[i]),
    ensures
        is_partition(pop, b),
        forall|i: int| 0 <= i < b.len() ==> (#[trigger] b[i]).refs_valid(pop),
{
    assert forall|i: int, g: Gender| 0 <= i < b.len() implies #[trigger] b[i].members(g) == a[i].members(g) by {
        assert(b[i].same_members(&a[i]));
    }
    assert forall|i: int| 0 <= i < b.len() implies (#[trigger] b[i]).refs_valid(pop) by {
        assert(b[i].same_members(&a[i]));
        assert(a[i].refs_valid(pop));
    }
    assert forall|g: Gender| #[trigger] is_gender_partition(pop, a, g) implies is_gender_partition(pop, b, g) by {
        assert forall|k: int| 0 <= k < pop.len() && (#[trigger] pop[k]).gender == g
            implies exists|r: int| 0 <= r < b.len() && #[trigger] b[r].members(g).contains(k as StudentId) by {
            let r = choose|r: int| 0 <= r < a.len() && #[trigger] a[r].members(g).contains(k as StudentId);
            assert(b[r].members(g) == a[r].members(g));
        }
        assert forall|r1: int, j1: int, r2: int, j2: int|
            0 <= r1 < b.len() && 0 <= r2 < b.len() && 0 <= j1 < b[r1].members(g).len()
                && 0 <= j2 < b[r2].members(g).len() && (r1 != r2 || j1 != j2)
            implies #[trigger] b[r1].members(g)[j1] != #[trigger] b[r2].members(g)[j2] by {
            assert(b[r1].members(g) == a[r1].members(g));
            assert(b[r2].members(g) == a[r2].members(g));
            assert(a[r1].members(g)[j1] != a[r2].members(g)[j2]);
        }
        assert forall|r: int, j: int| 0 <= r < b.len() && 0 <= j < b[r].members(g).len()
            implies #[trigger] b[r].members(g)[j] < pop.len() && pop[b[r].members(g)[j] as int].gender == g by {
            assert(b[r].members(g) == a[r].members(g));
            assert(a[r].members(g)[j] < pop.len());
        }
    }
    assert(is_gender_partition(pop, a, Gender::Male));
    assert(is_gender_partition(pop, a, Gender::Female));
}

/// `rooms` hold the striped draft of `pop` for the given seats: each
/// gender's tier order, dealt by its seats.
pub open spec fn is_striped_draft(pop: Seq<Student>, rooms: Seq<ClassRoom>, male_seats: Seq<usize>, female_seats: Seq<usize>) -> bool {
    exists|male_order: Seq<StudentId>, female_order: Seq<StudentId>| {
        &&& is_tier_order(pop, Gender::Male, male_order)
        &&& is_tier_order(pop, Gender::Female, female_order)
        &&& forall|i: int| 0 <= i < rooms.len() ==> {
            &&& (#[trigger] rooms[i]).students_male@ == dealt(male_order, male_seats, i)
            &&& rooms[i].students_female@ == dealt(female_order, female_seats, i)
        }
    }
}

/// Seats for `count` students over `n_rooms` rooms, distinct within each tier.
pub open spec fn seats_valid(seats: Seq<usize>, count: nat, n_rooms: nat) -> bool {
    &&& seats.len() == count
    &&& forall|p: int| 0 <= p < count ==> #[trigger] seats[p] < n_rooms
    &&& tiers_distinct(seats, n_rooms)
}

/// `rooms` hold a striped draft of `pop` over `n_rooms` rooms, for some
/// valid seats.
pub open spec fn is_some_striped_draft(pop: Seq<Student>, rooms: Seq<ClassRoom>, n_rooms: nat) -> bool {
    exists|male_seats: Seq<usize>, female_seats: Seq<usize>| {
        &&& seats_valid(male_seats, gender_count(pop, Gender::Male), n_rooms)
        &&& seats_valid(female_seats, gender_count(pop, Gender::Female), n_rooms)
        &&& is_striped_draft(pop, rooms, male_seats, female_seats)
    }
}

/// The striped draft for given seats: each gender is put in tier order, and
/// the student at position `p` of that order joins room `seats[p]` of its
/// gender's seats. The statistics and the overall cost are computed against
/// the population's grade average.
pub fn striped_partition(
    n_rooms: usize,
    students: &[Student],
    male_seats: &Vec<usize>,
    female_seats: &Vec<usize>,
) -> (r: AssignResult)
    requires
        population_wf(students@),
        male_seats@.len() == gender_count(students@, Gender::Male),
        female_seats@.len() == gender_count(students@, Gender::Female),
        forall|p: int| 0 <= p < male_seats@.len() ==> #[trigger] male_seats@[p] < n_rooms,
        forall|p: int| 0 <= p < female_seats@.len() ==> #[trigger] female_seats@[p] < n_rooms,
    ensures
        r.rooms@.len() == n_rooms,
        forall|i: int| 0 <= i < n_rooms ==> (#[trigger] r.rooms@[i]).number == i,
        is_striped_draft(students@, r.rooms@, male_seats@, female_seats@),
        is_partition(students@, r.rooms@),
        r.refs_valid(students@),
        r.cost_current(students@, grade_average(students@) as int),
        forall|i: int| 0 <= i < n_rooms ==> (#[trigger] r.rooms@[i]).stats_current(students@, grade_average(students@) as int),
{
    let ghost pop = students@;
    let mut result = AssignResult::new(n_rooms);
    let male_order = tier_order(students, Gender::Male);
    let female_order = tier_order(students, Gender::Female);
    result.deal(&male_order, male_seats, Gender::Male);
    result.deal(&female_order, female_seats, Gender::Female);
    let ghost dealt_rooms = result.rooms@;
    proof {
        lemma_striped_rooms(pop, dealt_rooms, male_order@, female_order@, male_seats@, female_seats@);
    }
    let g = grade_average_score(students);
    result.cal_overall_cost(students, g);
    proof {
        lemma_partition_same_members(pop, dealt_rooms, result.rooms@);
    }
    result
}

/// One striped draft with freshly drawn seats.
pub fn random_partition(n_rooms: usize, students: &[Student], rng: &mut StdRng) -> (r: AssignResult)
    requires
        population_wf(students@),
        0 < n_rooms <= u32::MAX,
    ensures
        r.rooms@.len() == n_rooms,
        forall|i: int| 0 <= i < n_rooms ==> (#[trigger] r.rooms@[i]).number == i,
        is_some_striped_draft(students@, r.rooms@, n_rooms as nat),
        is_partition(students@, r.rooms@),
        r.refs_valid(students@),
        r.cost_current(students@, grade_average(students@) as int),
{
    let male_count = tier_order(students, Gender::Male).len();
    let female_count = tier_order(students, Gender::Female).len();
    let male_seats = draw_seats(rng, n_rooms, male_count);
    let female_seats = draw_seats(rng, n_rooms, female_count);
    let r = striped_partition(n_rooms, students, &male_seats, &female_seats);
    assert(seats_valid(male_seats@, gender_count(students@, Gender::Male), n_rooms as nat));
    assert(seats_valid(female_seats@, gender_count(students@, Gender::Female), n_rooms as nat));
    r
}

/// `candidate` when its cost is strictly lower than that of `best`, else
/// `best`: on equal costs the earlier result stays.
pub fn keep_better(best: AssignResult, candidate: AssignResult) -> (r: AssignResult)
    ensures
        cost_lt(as_nat(candidate.overall_cost), as_nat(best.overall_cost)) ==> r == candidate,
        !cost_lt(as_nat(candidate.overall_cost), as_nat(best.overall_cost)) ==> r == best,
{
    if is_lower_cost(candidate.overall_cost, best.overall_cost) {
        candidate
    } else {
        best
    }
}

/// Trials run by the exhaustive driver.
pub const EXHAUSTIVE_TRIALS: usize = 1000;

/// `trials[i]` is the cheapest of `trials`, and the first of the cheapest:
/// no trial costs strictly less, and every earlier one costs strictly more.
pub open spec fn is_earliest_cheapest(trials: Seq<AssignResult>, i: int) -> bool {
    &&& 0 <= i < trials.len()
    &&& forall|k: int| 0 <= k < trials.len()
        ==> !cost_lt(as_nat((#[trigger] trials[k]).overall_cost), as_nat(trials[i].overall_cost))
    &&& forall|k: int| 0 <= k < i ==> cost_lt(as_nat(trials[i].overall_cost), as_nat((#[trigger] trials[k]).overall_cost))
}

/// Each trial is a striped draft of `pop` over `n_rooms` rooms with its
/// cost computed.
pub open spec fn trials_valid(pop: Seq<Student>, trials: Seq<AssignResult>, n_rooms: nat) -> bool {
    forall|k: int| 0 <= k < trials.len() ==> {
        &&& (#[trigger] trials[k]).rooms@.len() == n_rooms
        &&& is_some_striped_draft(pop, trials[k].rooms@, n_rooms)
        &&& trials[k].cost_current(pop, grade_average(pop) as int)
    }
}

/// The cheapest of `n_trials` striped drafts; the earliest wins a tie.
pub fn assign_class(n_rooms: usize, students: &[Student], n_trials: usize, rng: &mut StdRng) -> (r: AssignResult)
    requires
        population_wf(students@),
        0 < n_rooms <= u32::MAX,
        n_trials > 0,
    ensures
        exists|trials: Seq<AssignResult>, i: int| {
            &&& trials.len() == n_trials
            &&& trials_valid(students@, trials, n_rooms as nat)
            &&& #[trigger] is_earliest_cheapest(trials, i)
            &&& r == trials[i]
        },
        r.rooms@.len() == n_rooms,
        forall|i: int| 0 <= i < n_rooms ==> (#[trigger] r.rooms@[i]).number == i,
        is_some_striped_draft(students@, r.rooms@, n_rooms as nat),
        is_partition(students@, r.rooms@),
        r.refs_valid(students@),
        r.cost_current(students@, grade_average(students@) as int),
{
    let mut best = random_partition(n_rooms, students, rng);
    let ghost mut trials: Seq<AssignResult> = seq![best];
    let ghost mut bi: int = 0;
    let mut k: usize = 1;
    while k < n_trials
        invariant
            population_wf(students@),
            0 < n_rooms <= u32::MAX,
            1 <= k <= n_trials,
            trials.len() == k,
            trials_valid(students@, trials, n_rooms as nat),
            is_earliest_cheapest(trials, bi),
            best == trials[bi],
            best.rooms@.len() == n_rooms,
            forall|i: int| 0 <= i < n_rooms ==> (#[trigger] best.rooms@[i]).number == i,
            is_some_striped_draft(students@, best.rooms@, n_rooms as nat),
            is_partition(students@, best.rooms@),
            best.refs_valid(students@),
            best.cost_current(students@, grade_average(students@) as int),
        decreases n_trials - k,
    {
        let candidate = random_partition(n_rooms, students, rng);
        let ghost cand = candidate;
        let ghost prev = trials;
        proof {
            trials = trials.push(cand);
            if cost_lt(as_nat(cand.overall_cost), as_nat(best.overall_cost)) {
                bi = k as int;
            }
            assert(trials[k as int] == cand);
            assert forall|j: int| 0 <= j < k implies #[trigger] trials[j] == prev[j] by {}
        }
        best = keep_better(best, candidate);
        k = k + 1;
    }
    best
}

impl BuilderData {
    /// Replaces the current assignment with one fresh striped draft.
    pub fn init(&mut self, rng: &mut StdRng)
        requires
            population_wf(old(self).students@),
            0 < old(self).n_class <= u32::MAX,
        ensures
            final(self).students@ == old(self).students@,
            final(self).n_class == old(self).n_class,
            final(self).n_iteration == old(self).n_iteration,
            final(self).assign_result is Some,
            final(self).assign_result.unwrap().rooms@.len() == final(self).n_class,
            is_some_striped_draft(final(self).students@, final(self).assign_result.unwrap().rooms@, final(self).n_class as nat),
            is_partition(final(self).students@, final(self).assign_result.unwrap().rooms@),
            final(self).assign_result.unwrap().refs_valid(final(self).students@),
            final(self).assign_result.unwrap().cost_current(final(self).students@, grade_average(final(self).students@) as int),
    {
        let result = random_partition(self.n_class, self.students.as_slice(), rng);
        self.assign_result = Some(result);
    }
}

} // verus!
