use class_assigner::cost::{grade_average_score, is_lower_cost};
use class_assigner::generate::{assign_class, draw_seats, keep_better, random_partition, striped_partition, tier_order};
use class_assigner::job::{checkpoint_interval, AppState, Job, Method};
use class_assigner::model::{AssignResult, BuilderData, ClassRoom, Gender, Student, StudentId};
use class_assigner::refine::{refine_move, refine_step, swap_candidate, swap_count, swap_is_skipped};
use rand::rngs::StdRng;
use rand::SeedableRng;

fn population(spec: &[(Gender, u32)]) -> Vec<Student> {
    spec.iter()
        .enumerate()
        .map(|(i, (g, s))| Student::new(i, None, *g, *s))
        .collect()
}

fn mixed_population(n: usize) -> Vec<Student> {
    (0..n)
        .map(|i| {
            let g = if i % 3 == 0 { Gender::Female } else { Gender::Male };
            let score = ((i * 7919) % 10001) as u32;
            Student::new(i, None, g, score)
        })
        .collect()
}

fn partition_of(n_rooms: usize, rooms: &[(&[StudentId], &[StudentId])]) -> AssignResult {
    let mut r = AssignResult::new(n_rooms);
    for (i, (m, f)) in rooms.iter().enumerate() {
        r.rooms[i].students_male = m.to_vec();
        r.rooms[i].students_female = f.to_vec();
    }
    r
}

/// Each student appears once over all rooms, in its own gender's list.
fn assert_partition(students: &[Student], result: &AssignResult) {
    let mut seen = vec![0usize; students.len()];
    for room in &result.rooms {
        for &id in &room.students_male {
            assert_eq!(students[id].gender, Gender::Male);
            seen[id] += 1;
        }
        for &id in &room.students_female {
            assert_eq!(students[id].gender, Gender::Female);
            seen[id] += 1;
        }
    }
    assert!(seen.iter().all(|&c| c == 1));
}

fn four_students() -> Vec<Student> {
    population(&[
        (Gender::Male, 9000),
        (Gender::Male, 8000),
        (Gender::Female, 2000),
        (Gender::Female, 1000),
    ])
}

#[test]
fn gender_labels() {
    assert_eq!(Gender::Male.as_str(), "M");
    assert_eq!(Gender::Female.as_str(), "F");
}

#[test]
fn grade_average_of_population() {
    assert_eq!(grade_average_score(&four_students()), 5000);
    assert_eq!(grade_average_score(&[]), 0);
    let odd = population(&[(Gender::Male, 1), (Gender::Female, 2)]);
    assert_eq!(grade_average_score(&odd), 1);
}

#[test]
fn room_statistics_exact() {
    let students = four_students();
    let mut room = ClassRoom::new(0);
    room.students_male = vec![0];
    room.students_female = vec![3];
    assert_eq!(room.cal_score_average(&students), Some(5000));
    assert_eq!(room.cal_score_variance(&students, 5000), Some(16_000_000));
    room.update(&students, 4000);
    assert_eq!(room.score_average, Some(5000));
    assert_eq!(room.score_variance, Some(16_000_000));
    assert_eq!(room.cost, Some(1_000_000 + 16_000_000));
    assert_eq!(room.number_of_students(), 2);
    assert!(!room.is_empty());
    assert!(ClassRoom::new(1).is_empty());
}

#[test]
fn pairing_costs_of_four_students() {
    let students = four_students();
    let g = grade_average_score(&students);
    let mut split = partition_of(2, &[(&[0], &[3]), (&[1], &[2])]);
    split.cal_overall_cost(&students, g);
    let mut grouped = partition_of(2, &[(&[0, 1], &[]), (&[], &[2, 3])]);
    grouped.cal_overall_cost(&students, g);
    // split: costs 16e6 and 9e6, largest variance 16e6 counted twice
    assert_eq!(split.overall_cost, Some(25_000_000 + 2 * 16_000_000));
    // grouped: averages 8500 and 1500, variances 250000 each
    assert_eq!(grouped.overall_cost, Some(2 * 12_500_000 + 2 * 250_000));
}

#[test]
fn empty_population_has_no_cost() {
    let students: Vec<Student> = Vec::new();
    let mut empty = AssignResult::new(2);
    empty.cal_overall_cost(&students, 0);
    assert_eq!(empty.overall_cost, None);
    let mut rng = StdRng::seed_from_u64(1);
    let drafted = random_partition(2, &students, &mut rng);
    assert_eq!(drafted.overall_cost, None);
    assert_eq!(drafted.rooms.len(), 2);
}

#[test]
fn empty_rooms_are_left_out_of_the_cost() {
    let students = four_students();
    let g = grade_average_score(&students);
    let mut one_room = partition_of(3, &[(&[0, 1], &[2, 3])]);
    one_room.cal_overall_cost(&students, g);
    // average 5000, variance (16e6 + 9e6 + 9e6 + 16e6) / 4 = 12.5e6
    assert_eq!(one_room.rooms[1].score_average, None);
    assert_eq!(one_room.overall_cost, Some(12_500_000 + 3 * 12_500_000));
}

#[test]
fn evaluation_is_repeatable() {
    let students = mixed_population(50);
    let g = grade_average_score(&students);
    let mut rng = StdRng::seed_from_u64(7);
    let mut result = random_partition(4, &students, &mut rng);
    let first = result.overall_cost;
    result.cal_overall_cost(&students, g);
    assert_eq!(result.overall_cost, first);
    result.cal_overall_cost(&students, g);
    assert_eq!(result.overall_cost, first);
    let mut copy = result.clone();
    copy.overall_cost = None;
    copy.cal_overall_cost(&students, g);
    assert_eq!(copy.overall_cost, first);
}

#[test]
fn tier_order_sorts_best_first_keeping_ties_in_order() {
    let students = population(&[
        (Gender::Male, 5000),
        (Gender::Female, 9000),
        (Gender::Male, 7000),
        (Gender::Male, 5000),
        (Gender::Female, 100),
        (Gender::Male, 9900),
    ]);
    assert_eq!(tier_order(&students, Gender::Male), vec![5, 2, 0, 3]);
    assert_eq!(tier_order(&students, Gender::Female), vec![1, 4]);
}

#[test]
fn striped_partition_follows_the_seats() {
    let students = population(&[
        (Gender::Male, 1000),
        (Gender::Male, 9000),
        (Gender::Male, 5000),
        (Gender::Female, 3000),
        (Gender::Male, 7000),
        (Gender::Female, 8000),
    ]);
    // male order: 1, 4, 2, 0; female order: 5, 3
    let result = striped_partition(2, &students, &vec![1, 0, 0, 1], &vec![0, 1]);
    assert_eq!(result.rooms[0].students_male, vec![4, 2]);
    assert_eq!(result.rooms[1].students_male, vec![1, 0]);
    assert_eq!(result.rooms[0].students_female, vec![5]);
    assert_eq!(result.rooms[1].students_female, vec![3]);
    assert_eq!(result.rooms[1].number, 1);
    assert!(result.overall_cost.is_some());
    assert_partition(&students, &result);
}

#[test]
fn drawn_seats_permute_each_tier() {
    let mut rng = StdRng::seed_from_u64(3);
    let seats = draw_seats(&mut rng, 4, 10);
    assert_eq!(seats.len(), 10);
    for tier in seats.chunks(4) {
        let mut t = tier.to_vec();
        t.sort();
        t.dedup();
        assert_eq!(t.len(), tier.len());
        assert!(t.iter().all(|&s| s < 4));
    }
    let mut full = draw_seats(&mut rng, 5, 5);
    full.sort();
    assert_eq!(full, vec![0, 1, 2, 3, 4]);
}

#[test]
fn baseline_partitions_hold_everyone_once() {
    let students = mixed_population(101);
    let mut rng = StdRng::seed_from_u64(11);
    for n_rooms in [2usize, 3, 7, 12, 150] {
        let result = random_partition(n_rooms, &students, &mut rng);
        assert_eq!(result.rooms.len(), n_rooms);
        assert_partition(&students, &result);
    }
    let best = assign_class(5, &students, 20, &mut rng);
    assert_partition(&students, &best);
    assert!(best.overall_cost.is_some());
}

#[test]
fn striped_draft_spreads_each_tier() {
    let students = mixed_population(60);
    let mut rng = StdRng::seed_from_u64(5);
    let result = random_partition(4, &students, &mut rng);
    // 40 males and 20 females over 4 rooms: full tiers only
    for room in &result.rooms {
        assert_eq!(room.students_male.len(), 10);
        assert_eq!(room.students_female.len(), 5);
    }
}

#[test]
fn keep_better_prefers_strictly_lower_cost() {
    let mut a = AssignResult::new(1);
    a.overall_cost = Some(10);
    let mut b = AssignResult::new(2);
    b.overall_cost = Some(10);
    assert_eq!(keep_better(a.clone(), b.clone()).rooms.len(), 1);
    b.overall_cost = Some(9);
    assert_eq!(keep_better(a.clone(), b.clone()).rooms.len(), 2);
    assert!(is_lower_cost(Some(3), None));
    assert!(!is_lower_cost(None, Some(3)));
    assert!(!is_lower_cost(None, None));
}

#[test]
fn swap_count_is_a_tenth_of_the_smaller_list() {
    assert_eq!(swap_count(25, 40), 2);
    assert_eq!(swap_count(40, 25), 2);
    assert_eq!(swap_count(5, 9), 1);
    assert_eq!(swap_count(100, 100), 10);
}

#[test]
fn swap_candidate_swaps_the_given_positions() {
    let students = population(&[
        (Gender::Male, 9000),
        (Gender::Male, 8000),
        (Gender::Male, 2000),
        (Gender::Male, 1000),
    ]);
    let g = grade_average_score(&students);
    let mut best = partition_of(2, &[(&[0, 1], &[]), (&[2, 3], &[])]);
    best.cal_overall_cost(&students, g);
    let cand = swap_candidate(&best, &students, g, 0, 1, Gender::Male, &vec![1], &vec![0]);
    assert_eq!(cand.rooms[0].students_male, vec![0, 2]);
    assert_eq!(cand.rooms[1].students_male, vec![1, 3]);
    assert_eq!(best.overall_cost, Some(2 * 12_500_000 + 2 * 250_000));
    // averages 5500 and 4500, variances 12.25e6 each
    assert_eq!(cand.overall_cost, Some(2 * 12_500_000 + 2 * 12_250_000));
    assert_eq!(best.rooms[0].students_male, vec![0, 1]);
}

#[test]
fn swap_on_an_empty_list_is_skipped() {
    let students = population(&[
        (Gender::Male, 9000),
        (Gender::Male, 8000),
        (Gender::Male, 2000),
    ]);
    let g = grade_average_score(&students);
    let mut best = partition_of(2, &[(&[], &[]), (&[0, 1, 2], &[])]);
    best.cal_overall_cost(&students, g);
    assert!(swap_is_skipped(&best, 0, 1, Gender::Male));
    assert!(swap_is_skipped(&best, 1, 0, Gender::Female));
    let cost = best.overall_cost;
    let mut rng = StdRng::seed_from_u64(9);
    for _ in 0..50 {
        best = refine_step(best, &students, g, &mut rng);
        assert_eq!(best.overall_cost, cost);
        assert_eq!(best.rooms[1].students_male, vec![0, 1, 2]);
    }
}

#[test]
fn refinement_never_raises_the_cost() {
    let students = mixed_population(80);
    let g = grade_average_score(&students);
    let mut rng = StdRng::seed_from_u64(21);
    let mut best = random_partition(4, &students, &mut rng);
    let mut cost = best.overall_cost.unwrap();
    for _ in 0..300 {
        best = refine_step(best, &students, g, &mut rng);
        let next = best.overall_cost.unwrap();
        assert!(next <= cost);
        cost = next;
    }
    assert_partition(&students, &best);
}

#[test]
fn checkpoint_interval_is_a_hundredth() {
    assert_eq!(checkpoint_interval(1000), 10);
    assert_eq!(checkpoint_interval(150), 1);
    assert_eq!(checkpoint_interval(50), 1);
    assert_eq!(checkpoint_interval(0), 1);
}

/// Drives a job as a worker would; `cancel_at` is the step from which the
/// cancellation flag reads true.
fn run(job: &mut Job, rng: &mut StdRng, cancel_at: usize) -> Vec<AppState> {
    let mut messages = Vec::new();
    let mut step = 0;
    while !job.is_finished() {
        if let Some(m) = job.advance(rng, step >= cancel_at) {
            messages.push(m);
        }
        step += 1;
    }
    messages
}

#[test]
fn job_start_checks_its_input() {
    let students = mixed_population(10);
    assert!(Job::start(Method::Swap, students.clone(), AssignResult::new(1), 10).is_none());
    let bad = partition_of(2, &[(&[99], &[])]);
    assert!(Job::start(Method::Swap, students.clone(), bad, 10).is_none());
    let mut misnumbered = students.clone();
    misnumbered[3].id = 7;
    assert!(Job::start(Method::Swap, misnumbered, AssignResult::new(2), 10).is_none());
    assert!(Job::start(Method::Swap, students, AssignResult::new(2), 10).is_some());
}

#[test]
fn cancel_before_the_first_checkpoint() {
    let students = mixed_population(40);
    let mut rng = StdRng::seed_from_u64(4);
    let initial = random_partition(3, &students, &mut rng);
    let cost = initial.overall_cost;
    let members: Vec<Vec<StudentId>> = initial.rooms.iter().map(|r| r.students_male.clone()).collect();
    let mut job = Job::start(Method::Swap, students, initial, 1000).unwrap();
    let mut messages = run(&mut job, &mut rng, 0);
    messages.push(job.finish());
    let dones: Vec<&AppState> = messages.iter().filter(|m| matches!(m, AppState::Done(_))).collect();
    assert_eq!(dones.len(), 1);
    assert!(matches!(messages[0], AppState::InProgress(0, 1000, c) if c == cost));
    match messages.last() {
        Some(AppState::Done(best)) => {
            assert_eq!(best.overall_cost, cost);
            let now: Vec<Vec<StudentId>> = best.rooms.iter().map(|r| r.students_male.clone()).collect();
            assert_eq!(now, members);
        }
        _ => panic!("the last message is not the result"),
    }
}

#[test]
fn cancellation_is_seen_at_the_next_checkpoint() {
    let students = mixed_population(60);
    let mut rng = StdRng::seed_from_u64(8);
    let initial = random_partition(4, &students, &mut rng);
    let mut job = Job::start(Method::Swap, students, initial, 1000).unwrap();
    let messages = run(&mut job, &mut rng, 235);
    // checkpoints every 10 steps; the request from step 235 is seen at 240
    assert_eq!(job.completed, 240);
    let last_reported = match messages.last() {
        Some(AppState::InProgress(k, total, c)) => {
            assert_eq!((*k, *total), (240, 1000));
            *c
        }
        _ => panic!("no progress message"),
    };
    match job.finish() {
        AppState::Done(best) => assert!(best.overall_cost.unwrap() <= last_reported.unwrap()),
        _ => panic!("no result"),
    }
}

#[test]
fn full_runs_report_falling_costs() {
    for method in [Method::Swap, Method::NaiveShuffle] {
        let students = mixed_population(45);
        let mut rng = StdRng::seed_from_u64(13);
        let initial = random_partition(3, &students, &mut rng);
        let mut job = Job::start(method, students.clone(), initial, 250).unwrap();
        let messages = run(&mut job, &mut rng, usize::MAX);
        assert_eq!(messages.len(), 125);
        let mut last = u128::MAX;
        for (i, m) in messages.iter().enumerate() {
            match m {
                AppState::InProgress(k, total, Some(c)) => {
                    assert_eq!((*k, *total), (2 * i, 250));
                    assert!(*c <= last);
                    last = *c;
                }
                _ => panic!("unexpected message"),
            }
        }
        assert_eq!(job.completed, 250);
        match job.finish() {
            AppState::Done(best) => {
                assert!(best.overall_cost.unwrap() <= last);
                assert_partition(&students, &best);
            }
            _ => panic!("no result"),
        }
    }
}

#[test]
fn builder_init_drafts_a_partition() {
    let mut data = BuilderData {
        n_class: 3,
        students: mixed_population(30),
        dislike_group: vec![vec![1, 2]],
        like_group: vec![vec![3, 4]],
        n_iteration: 100,
        assign_result: None,
    };
    let setup = data.empty_class_setup();
    assert_eq!(setup.number_of_classes(), 3);
    assert!(setup.rooms.iter().all(|r| r.is_empty()));
    let mut rng = StdRng::seed_from_u64(2);
    data.init(&mut rng);
    let result = data.assign_result.as_ref().unwrap();
    assert_eq!(result.rooms.len(), 3);
    assert_partition(&data.students, result);
}

#[test]
fn layout_rows_of_five_males_first() {
    let mut room = ClassRoom::new(0);
    room.students_male = vec![1, 2, 3, 4, 5, 6, 7];
    room.students_female = vec![8, 9, 10, 11];
    let rows = room.layout_rows(5);
    assert_eq!(rows, vec![vec![1, 2, 3, 4, 5], vec![6, 7, 8, 9, 10], vec![11]]);
    room.students_female = vec![8, 9, 10];
    assert_eq!(room.layout_rows(5), vec![vec![1, 2, 3, 4, 5], vec![6, 7, 8, 9, 10]]);
    assert!(ClassRoom::new(1).layout_rows(5).is_empty());
}

#[test]
fn refine_move_keeps_the_cheaper_of_best_and_candidate() {
    let students = population(&[
        (Gender::Male, 9000),
        (Gender::Male, 8000),
        (Gender::Male, 2000),
        (Gender::Male, 1000),
    ]);
    let g = grade_average_score(&students);
    // the grouped split is the cheaper: a swap is refused
    let mut grouped = partition_of(2, &[(&[0, 1], &[]), (&[2, 3], &[])]);
    grouped.cal_overall_cost(&students, g);
    let kept = refine_move(grouped.clone(), &students, g, 0, 1, Gender::Male, &vec![1], &vec![0]);
    assert_eq!(kept.rooms[0].students_male, vec![0, 1]);
    assert_eq!(kept.overall_cost, Some(25_500_000));
    // from the split, the swap back to the grouped split is taken
    let mut split = partition_of(2, &[(&[0, 2], &[]), (&[1, 3], &[])]);
    split.cal_overall_cost(&students, g);
    let moved = refine_move(split, &students, g, 0, 1, Gender::Male, &vec![1], &vec![0]);
    assert_eq!(moved.rooms[0].students_male, vec![0, 1]);
    assert_eq!(moved.rooms[1].students_male, vec![2, 3]);
    assert_eq!(moved.overall_cost, Some(25_500_000));
}

#[test]
fn refine_move_on_an_empty_list_changes_nothing() {
    let students = population(&[(Gender::Male, 9000), (Gender::Female, 8000), (Gender::Male, 2000)]);
    let g = grade_average_score(&students);
    let mut best = partition_of(2, &[(&[0, 2], &[]), (&[], &[1])]);
    best.cal_overall_cost(&students, g);
    let cost = best.overall_cost;
    let same = refine_move(best, &students, g, 0, 1, Gender::Male, &vec![], &vec![]);
    assert_eq!(same.overall_cost, cost);
    assert_eq!(same.rooms[0].students_male, vec![0, 2]);
    let same = refine_move(same, &students, g, 1, 0, Gender::Female, &vec![0], &vec![0]);
    assert_eq!(same.rooms[1].students_female, vec![1]);
    assert_eq!(same.overall_cost, cost);
}

#[test]
fn assign_class_is_no_worse_than_a_single_draft() {
    let students = mixed_population(70);
    // on the same seed the first trial of both runs is the same draft
    let single = assign_class(4, &students, 1, &mut StdRng::seed_from_u64(17));
    let many = assign_class(4, &students, 200, &mut StdRng::seed_from_u64(17));
    assert_partition(&students, &many);
    assert!(many.overall_cost.unwrap() <= single.overall_cost.unwrap());
    let first = random_partition(4, &students, &mut StdRng::seed_from_u64(17));
    assert_eq!(first.overall_cost, single.overall_cost);
}
