use league_scheduler::candidates::permutation_candidates;
use league_scheduler::plan::plan_schedule;
use league_scheduler::scheduler::{run_scheduler_from, run_scheduler_with};
use league_scheduler::config::{default_5team_schedule, LeagueConfig};
use league_scheduler::host_bits::structural_host_bits;
use league_scheduler::scheduler::{run_scheduler, team_permutations};

fn s(x: &str) -> String {
    x.to_string()
}

fn m(a: &str, b: &str) -> [String; 2] {
    [s(a), s(b)]
}

fn three_team_config() -> LeagueConfig {
    LeagueConfig {
        teams: vec![s("P"), s("Q"), s("R")],
        weeks: vec![1, 2, 3],
        labels: vec![s("A"), s("B"), s("C")],
        base_schedule: vec![(1, vec![m("A", "B")]), (2, vec![m("B", "C")]), (3, vec![m("A", "C")])],
        bye_preferences: vec![],
        bye_restrictions: vec![],
        score_excluded: vec![],
    }
}

fn five_team_config() -> LeagueConfig {
    LeagueConfig {
        teams: vec![s("Marlins"), s("Dolphins"), s("Sharks"), s("Orcas"), s("Seals")],
        weeks: vec![1, 2, 3, 4, 5],
        labels: vec![s("A"), s("B"), s("C"), s("D"), s("E")],
        base_schedule: default_5team_schedule(),
        bye_preferences: vec![(s("Marlins"), [3, 5]), (s("Sharks"), [1, 2])],
        bye_restrictions: vec![(s("Dolphins"), vec![1, 2])],
        score_excluded: vec![s("Seals")],
    }
}

#[test]
fn too_few_teams_is_refused() {
    let mut c = three_team_config();
    c.teams = vec![s("P")];
    c.labels = vec![s("A")];
    assert_eq!(run_scheduler(&c).err(), Some(s("Need at least 2 teams.")));
}

#[test]
fn no_weeks_is_refused() {
    let mut c = three_team_config();
    c.weeks = vec![];
    assert_eq!(run_scheduler(&c).err(), Some(s("Need at least one week.")));
}

#[test]
fn label_count_mismatch_is_refused() {
    let mut c = three_team_config();
    c.labels = vec![s("A"), s("B")];
    assert_eq!(run_scheduler(&c).err(), Some(s("Labels count (2) must match team count (3).")));
}

#[test]
fn host_patterns_of_a_three_game_round() {
    // Three labels, one game a week: every label must host exactly once.
    let games = vec![(0, 0, 1), (1, 1, 2), (2, 0, 2)];
    assert_eq!(structural_host_bits(&games, 3, 3), vec![3, 4]);
}

#[test]
fn host_patterns_reject_three_week_streaks() {
    // Label 0 plays every week; with one game a week for two labels it must
    // host 1 or 2 of 3, and never all three in a row.
    let games = vec![(0, 0, 1), (1, 0, 1), (2, 0, 1)];
    let bits = structural_host_bits(&games, 2, 3);
    assert_eq!(bits, vec![1, 2, 3, 4, 5, 6]);
}

#[test]
fn permutations_come_in_itertools_order() {
    let p = team_permutations(3);
    assert_eq!(
        p,
        vec![vec![0, 1, 2], vec![0, 2, 1], vec![1, 0, 2], vec![1, 2, 0], vec![2, 0, 1], vec![2, 1, 0]]
    );
}

#[test]
fn three_team_round_robin_keeps_five_distinct_schedules() {
    let sols = run_scheduler(&three_team_config()).unwrap();
    assert_eq!(sols.len(), 5);
    let first = &sols[0];
    assert_eq!(first.rank, 1);
    assert_eq!(first.score, 0);
    assert_eq!(first.penalty, 0);
    assert_eq!(first.bye_assignment, vec![(s("P"), 2), (s("Q"), 3), (s("R"), 1)]);
    assert_eq!(first.bye_detail, vec![(s("P"), 0), (s("Q"), 0), (s("R"), 0)]);
    assert_eq!(
        first.schedule,
        vec![
            (1, vec![(s("Q"), s("P"))]),
            (2, vec![(s("R"), s("Q"))]),
            (3, vec![(s("P"), s("R"))]),
        ]
    );
    let ranks: Vec<usize> = sols.iter().map(|x| x.rank).collect();
    assert_eq!(ranks, vec![1, 2, 3, 4, 5]);
}

#[test]
fn preferences_order_the_solutions() {
    let mut c = three_team_config();
    c.bye_preferences = vec![(s("P"), [2, 1])];
    let sols = run_scheduler(&c).unwrap();
    let scores: Vec<i32> = sols.iter().map(|x| x.score).collect();
    assert_eq!(scores, vec![2, 2, 1, 1, 0]);
    assert_eq!(sols[0].bye_assignment[0], (s("P"), 2));
    assert_eq!(sols[2].bye_assignment.iter().find(|e| e.0 == "P").unwrap().1, 1);
}

#[test]
fn excluded_team_scores_minus_one_in_the_detail() {
    let mut c = three_team_config();
    c.bye_preferences = vec![(s("P"), [2, 1])];
    c.score_excluded = vec![s("P")];
    let sols = run_scheduler(&c).unwrap();
    for sol in &sols {
        assert_eq!(sol.score, 0);
        assert_eq!(sol.bye_detail[0], (s("P"), -1));
    }
}

#[test]
fn two_teams_one_week_give_one_schedule() {
    let c = LeagueConfig {
        teams: vec![s("X"), s("Y")],
        weeks: vec![1],
        labels: vec![s("A"), s("B")],
        base_schedule: vec![(1, vec![m("A", "B")])],
        bye_preferences: vec![],
        bye_restrictions: vec![],
        score_excluded: vec![],
    };
    let sols = run_scheduler(&c).unwrap();
    assert_eq!(sols.len(), 1);
    assert_eq!(sols[0].schedule, vec![(1, vec![(s("X"), s("Y"))])]);
    assert!(sols[0].bye_assignment.is_empty());
    assert!(sols[0].bye_detail.is_empty());
}

#[test]
fn five_team_season_respects_restrictions_and_balance() {
    let c = five_team_config();
    let sols = run_scheduler(&c).unwrap();
    assert_eq!(sols.len(), 5);
    for (i, sol) in sols.iter().enumerate() {
        assert_eq!(sol.rank, i + 1);
        // Dolphins may not sit out weeks 1 or 2.
        let d = sol.bye_assignment.iter().find(|e| e.0 == "Dolphins").unwrap().1;
        assert!(d != 1 && d != 2);
        // Every team hosts exactly two of the ten games.
        for t in &c.teams {
            let hosted: usize = sol.schedule.iter().map(|(_, g)| g.iter().filter(|x| &x.0 == t).count()).sum();
            assert_eq!(hosted, 2);
        }
        // Seals are excluded from the score.
        assert_eq!(sol.bye_detail.iter().find(|e| e.0 == "Seals").unwrap().1, -1);
    }
    for w in sols.windows(2) {
        assert!(w[0].score > w[1].score || (w[0].score == w[1].score && w[0].penalty <= w[1].penalty));
    }
    // Best possible: Marlins in week 3 and Sharks in week 1 gives 4 points.
    assert_eq!(sols[0].score, 4);
}

#[test]
fn score_is_the_sum_of_the_counted_breakdown() {
    let mut c = five_team_config();
    c.bye_preferences.push((s("Seals"), [1, 2]));
    let sols = run_scheduler(&c).unwrap();
    for sol in &sols {
        let sum: i32 = sol.bye_detail.iter().map(|e| e.1).filter(|v| *v >= 0).sum();
        assert_eq!(sol.score, sum);
        assert!(sol.bye_detail.iter().all(|e| (-1..=2).contains(&e.1)));
    }
}

#[test]
fn restrictions_hold_in_a_three_week_season() {
    let mut c = three_team_config();
    c.bye_restrictions = vec![(s("P"), vec![2])];
    let sols = run_scheduler(&c).unwrap();
    assert!(!sols.is_empty());
    for sol in &sols {
        let p = sol.bye_assignment.iter().find(|e| e.0 == "P").unwrap().1;
        assert!(p != 2);
    }
    c.bye_restrictions = vec![(s("P"), vec![1, 2, 3])];
    assert!(run_scheduler(&c).unwrap().is_empty());
}

#[test]
fn every_ordering_is_tried_once() {
    let p = team_permutations(4);
    assert_eq!(p.len(), 24);
    for (i, a) in p.iter().enumerate() {
        let mut sorted = a.clone();
        sorted.sort();
        assert_eq!(sorted, vec![0, 1, 2, 3]);
        for b in &p[i + 1..] {
            assert_ne!(a, b);
        }
    }
    assert_eq!(team_permutations(0), vec![Vec::<usize>::new()]);
}

#[test]
fn candidates_found_elsewhere_give_the_same_answer() {
    let c = five_team_config();
    let perms = team_permutations(5);
    let plan = plan_schedule(&c).unwrap();
    let per_perm: Vec<_> = perms.iter().map(|p| permutation_candidates(&c, &plan, p)).collect();
    let a = run_scheduler_from(&c, &perms, &per_perm).unwrap();
    let b = run_scheduler_with(&c, &perms).unwrap();
    let d = run_scheduler(&c).unwrap();
    assert_eq!(a.len(), b.len());
    for ((x, y), z) in a.iter().zip(b.iter()).zip(d.iter()) {
        assert_eq!((x.rank, x.score, x.penalty), (y.rank, y.score, y.penalty));
        assert_eq!(x.bye_assignment, y.bye_assignment);
        assert_eq!(x.schedule, z.schedule);
        assert_eq!(x.bye_detail, z.bye_detail);
    }
}
