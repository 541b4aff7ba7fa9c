//! Students, class rooms and partitions.

use vstd::prelude::*;

verus! {

/// Scores are fixed-point numbers in hundredths of a point: 87.5 is `8750`.
/// A score lies in `0..=MAX_SCORE`, that is between 0 and 100 points.
pub const MAX_SCORE: u32 = 10000;

/// A student is identified by its position in the population.
pub type StudentId = usize;

#[derive(Debug, Clone, Copy, PartialEq, Eq, Structural)]
pub enum Gender {
    Male,
    Female,
}

impl Gender {
    /// One-letter label, `M` or `F`.
    pub fn as_str(&self) -> (r: &'static str)
        ensures
            *self == Gender::Male ==> r@ == "M"@,
            *self == Gender::Female ==> r@ == "F"@,
    {
        proof {
            reveal_strlit("M");
            reveal_strlit("F");
        }
        match self {
            Gender::Male => "M",
            Gender::Female => "F",
        }
    }
}

#[derive(Debug)]
pub struct Student {
    pub id: StudentId,
    pub alias: Option<String>,
    pub gender: Gender,
    /// In hundredths of a point, at most `MAX_SCORE`.
    pub score: u32,
    pub note: Option<String>,
}

impl Student {
    pub fn new(id: StudentId, alias: Option<String>, gender: Gender, score: u32) -> (r: Student)
        requires
            score <= MAX_SCORE,
        ensures
            r.id == id,
            r.alias == alias,
            r.gender == gender,
            r.score == score,
            r.note is None,
    {
        Student { id, alias, gender, score, note: None }
    }
}

impl Clone for Student {
    fn clone(&self) -> (r: Self)
        ensures
            r.id == self.id,
            r.gender == self.gender,
            r.score == self.score,
    {
        Student {
            id: self.id,
            alias: self.alias.clone(),
            gender: self.gender,
            score: self.score,
            note: self.note.clone(),
        }
    }
}

/// A population is well formed when each student's id is its position and
/// each score is in range.
pub open spec fn population_wf(pop: Seq<Student>) -> bool {
    forall|i: int| 0 <= i < pop.len() ==> (#[trigger] pop[i]).id == i && pop[i].score <= MAX_SCORE
}

/// Every id of `ids` refers to a student of `pop`.
pub open spec fn ids_valid(pop: Seq<Student>, ids: Seq<StudentId>) -> bool {
    forall|i: int| 0 <= i < ids.len() ==> (#[trigger] ids[i]) < pop.len()
}

#[derive(Debug)]
pub struct ClassRoom {
    pub number: usize,
    pub students_male: Vec<StudentId>,
    pub students_female: Vec<StudentId>,
    pub score_average: Option<u128>,
    pub score_variance: Option<u128>,
    pub cost: Option<u128>,
}

impl ClassRoom {
    /// Same number and same members, in the same order.
    pub open spec fn same_members(&self, other: &ClassRoom) -> bool {
        &&& self.number == other.number
        &&& self.students_male@ == other.students_male@
        &&& self.students_female@ == other.students_female@
    }

    /// Same members and same cached statistics.
    pub open spec fn same_as(&self, other: &ClassRoom) -> bool {
        &&& self.same_members(other)
        &&& self.score_average == other.score_average
        &&& self.score_variance == other.score_variance
        &&& self.cost == other.cost
    }

    pub open spec fn head_count(&self) -> nat {
        self.students_male@.len() + self.students_female@.len()
    }

    /// The member list of one gender.
    pub open spec fn members(&self, g: Gender) -> Seq<StudentId> {
        match g {
            Gender::Male => self.students_male@,
            Gender::Female => self.students_female@,
        }
    }

    pub open spec fn refs_valid(&self, pop: Seq<Student>) -> bool {
        ids_valid(pop, self.students_male@) && ids_valid(pop, self.students_female@)
    }

    /// The members as laid out: males first, then females.
    pub open spec fn roster(&self) -> Seq<StudentId> {
        self.students_male@ + self.students_female@
    }

    /// The roster cut into rows of `per_row` ids, the last row possibly
    /// shorter.
    pub fn layout_rows(&self, per_row: usize) -> (rows: Vec<Vec<StudentId>>)
        requires
            per_row > 0,
        ensures
            joined(rows_view(rows@)) == self.roster(),
            rows_shaped(rows_view(rows@), per_row as nat),
    {
        let mut rows: Vec<Vec<StudentId>> = Vec::new();
        let mut row: Vec<StudentId> = Vec::new();
        place_all(&mut rows, &mut row, &self.students_male, per_row);
        place_all(&mut rows, &mut row, &self.students_female, per_row);
        assert(joined(rows_view(Seq::<Vec<StudentId>>::empty())) + Seq::<StudentId>::empty() + self.students_male@
            =~= self.students_male@);
        if row.len() > 0 {
            let ghost before = rows@;
            rows.push(row);
            proof {
                assert(rows_view(rows@).drop_last() =~= rows_view(before));
            }
        }
        proof {
            assert(self.roster() =~= self.students_male@ + self.students_female@);
        }
        rows
    }

    pub fn new(number: usize) -> (r: ClassRoom)
        ensures
            r.number == number,
            r.students_male@ == Seq::<StudentId>::empty(),
            r.students_female@ == Seq::<StudentId>::empty(),
            r.score_average is None,
            r.score_variance is None,
            r.cost is None,
    {
        ClassRoom {
            number,
            students_male: Vec::new(),
            students_female: Vec::new(),
            score_average: None,
            score_variance: None,
            cost: None,
        }
    }

    pub fn is_empty(&self) -> (r: bool)
        ensures
            r == (self.head_count() == 0),
    {
        self.students_male.len() == 0 && self.students_female.len() == 0
    }

    pub fn number_of_students(&self) -> (r: usize)
        requires
            self.head_count() <= usize::MAX,
        ensures
            r == self.head_count(),
    {
        self.students_male.len() + self.students_female.len()
    }
}

/// The rows laid end to end.
pub open spec fn joined(rows: Seq<Seq<StudentId>>) -> Seq<StudentId>
    decreases rows.len(),
{
    if rows.len() == 0 {
        Seq::empty()
    } else {
        joined(rows.drop_last()) + rows.last()
    }
}

pub open spec fn rows_view(rows: Seq<Vec<StudentId>>) -> Seq<Seq<StudentId>> {
    rows.map_values(|r: Vec<StudentId>| r@)
}

/// Rows of a layout: each full but the last, which holds one id at least.
pub open spec fn rows_shaped(rows: Seq<Seq<StudentId>>, per_row: nat) -> bool {
    &&& forall|k: int| 0 <= k < rows.len() - 1 ==> (#[trigger] rows[k]).len() == per_row
    &&& rows.len() > 0 ==> 0 < rows.last().len() <= per_row
}

/// Appends `id` to the open row, which is closed once it is full.
fn place(rows: &mut Vec<Vec<StudentId>>, row: &mut Vec<StudentId>, id: StudentId, per_row: usize)
    requires
        0 < per_row,
        old(row)@.len() < per_row,
        forall|k: int| 0 <= k < old(rows)@.len() ==> (#[trigger] old(rows)@[k])@.len() == per_row,
    ensures
        joined(rows_view(final(rows)@)) + final(row)@ == joined(rows_view(old(rows)@)) + old(row)@.push(id),
        final(row)@.len() < per_row,
        forall|k: int| 0 <= k < final(rows)@.len() ==> (#[trigger] final(rows)@[k])@.len() == per_row,
{
    row.push(id);
    if row.len() == per_row {
        let ghost before = rows@;
        let mut full: Vec<StudentId> = Vec::new();
        std::mem::swap(&mut full, row);
        rows.push(full);
        proof {
            assert(rows_view(rows@).drop_last() =~= rows_view(before));
            assert(joined(rows_view(rows@)) =~= joined(rows_view(before)) + full@);
            assert(joined(rows_view(rows@)) + row@ =~= joined(rows_view(before)) + full@);
        }
    }
}

fn place_all(rows: &mut Vec<Vec<StudentId>>, row: &mut Vec<StudentId>, ids: &Vec<StudentId>, per_row: usize)
    requires
        0 < per_row,
        old(row)@.len() < per_row,
        forall|k: int| 0 <= k < old(rows)@.len() ==> (#[trigger] old(rows)@[k])@.len() == per_row,
    ensures
        joined(rows_view(final(rows)@)) + final(row)@ == joined(rows_view(old(rows)@)) + old(row)@ + ids@,
        final(row)@.len() < per_row,
        forall|k: int| 0 <= k < final(rows)@.len() ==> (#[trigger] final(rows)@[k])@.len() == per_row,
{
    let ghost start = joined(rows_view(rows@)) + row@;
    let mut p: usize = 0;
    while p < ids.len()
        invariant
            0 < per_row,
            p <= ids@.len(),
            row@.len() < per_row,
            forall|k: int| 0 <= k < rows@.len() ==> (#[trigger] rows@[k])@.len() == per_row,
            joined(rows_view(rows@)) + row@ == start + ids@.take(p as int),
        decreases ids@.len() - p,
    {
        place(rows, row, ids[p], per_row);
        assert(start + ids@.take(p + 1) =~= (start + ids@.take(p as int)).push(ids@[p as int]));
        assert(joined(rows_view(rows@)) + row@ =~= start + ids@.take(p + 1));
        p = p + 1;
    }
    assert(ids@.take(ids@.len() as int) =~= ids@);
}

fn copy_ids(ids: &Vec<StudentId>) -> (r: Vec<StudentId>)
    ensures
        r@ == ids@,
{
    let r = ids.clone();
    assert(r@ =~= ids@);
    r
}

impl Clone for ClassRoom {
    fn clone(&self) -> (r: Self)
        ensures
            r.same_as(self),
    {
        ClassRoom {
            number: self.number,
            students_male: copy_ids(&self.students_male),
            students_female: copy_ids(&self.students_female),
            score_average: self.score_average,
            score_variance: self.score_variance,
            cost: self.cost,
        }
    }
}

#[derive(Debug)]
pub struct AssignResult {
    pub rooms: Vec<ClassRoom>,
    pub overall_cost: Option<u128>,
}

impl AssignResult {
    /// Same rooms with the same members and the same cached statistics.
    pub open spec fn same_as(&self, other: &AssignResult) -> bool {
        &&& self.rooms@.len() == other.rooms@.len()
        &&& forall|i: int| 0 <= i < self.rooms@.len() ==> (#[trigger] self.rooms@[i]).same_as(&other.rooms@[i])
        &&& self.overall_cost == other.overall_cost
    }

    /// Same number of rooms, each with the same members.
    pub open spec fn same_members(&self, other: &AssignResult) -> bool {
        &&& self.rooms@.len() == other.rooms@.len()
        &&& forall|i: int| 0 <= i < self.rooms@.len() ==> (#[trigger] self.rooms@[i]).same_members(&other.rooms@[i])
    }

    /// Every id held by a room refers to a student of `pop`.
    pub open spec fn refs_valid(&self, pop: Seq<Student>) -> bool {
        forall|i: int| 0 <= i < self.rooms@.len() ==> (#[trigger] self.rooms@[i]).refs_valid(pop)
    }

    /// `n_class` empty rooms numbered from zero, with no cost.
    pub open spec fn is_empty_setup(&self, n_class: nat) -> bool {
        &&& self.rooms@.len() == n_class
        &&& forall|i: int| 0 <= i < n_class ==> {
            &&& (#[trigger] self.rooms@[i]).number == i
            &&& self.rooms@[i].students_male@.len() == 0
            &&& self.rooms@[i].students_female@.len() == 0
            &&& self.rooms@[i].score_average is None
            &&& self.rooms@[i].score_variance is None
            &&& self.rooms@[i].cost is None
        }
        &&& self.overall_cost is None
    }

    pub fn new(n_class: usize) -> (r: AssignResult)
        ensures
            r.is_empty_setup(n_class as nat),
    {
        let mut rooms: Vec<ClassRoom> = Vec::new();
        let mut i: usize = 0;
        while i < n_class
            invariant
                i <= n_class,
                rooms@.len() == i,
                forall|j: int| 0 <= j < i ==> {
                    &&& (#[trigger] rooms@[j]).number == j
                    &&& rooms@[j].students_male@.len() == 0
                    &&& rooms@[j].students_female@.len() == 0
                    &&& rooms@[j].score_average is None
                    &&& rooms@[j].score_variance is None
                    &&& rooms@[j].cost is None
                },
            decreases n_class - i,
        {
            rooms.push(ClassRoom::new(i));
            i = i + 1;
        }
        AssignResult { rooms, overall_cost: None }
    }

    pub fn number_of_classes(&self) -> (r: usize)
        ensures
            r == self.rooms@.len(),
    {
        self.rooms.len()
    }
}

impl Clone for AssignResult {
    fn clone(&self) -> (r: Self)
        ensures
            r.same_as(self),
    {
        let mut rooms: Vec<ClassRoom> = Vec::new();
        let mut i: usize = 0;
        while i < self.rooms.len()
            invariant
                i <= self.rooms@.len(),
                rooms@.len() == i,
                forall|j: int| 0 <= j < i ==> (#[trigger] rooms@[j]).same_as(&self.rooms@[j]),
            decreases self.rooms@.len() - i,
        {
            rooms.push(self.rooms[i].clone());
            i = i + 1;
        }
        AssignResult { rooms, overall_cost: self.overall_cost }
    }
}

/// The population and the configuration of an assignment.
///
/// The like and dislike groups are kept as configuration; no search
/// consults them.
pub struct BuilderData {
    pub n_class: usize,
    pub students: Vec<Student>,
    pub dislike_group: Vec<Vec<StudentId>>,
    pub like_group: Vec<Vec<StudentId>>,
    pub n_iteration: usize,
    pub assign_result: Option<AssignResult>,
}

impl BuilderData {
    pub fn empty_class_setup(&self) -> (r: AssignResult)
        ensures
            r.is_empty_setup(self.n_class as nat),
    {
        AssignResult::new(self.n_class)
    }
}

} // verus!
