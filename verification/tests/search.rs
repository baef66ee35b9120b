use airplane_landing_scheduler::metaheuristics::{climb_once, hill_climb, ils, Problem, NEIGHBORS};
use airplane_landing_scheduler::parser::{Plane as PlaneData, ProblemData};
use airplane_landing_scheduler::problem::{
    Arrival, LandingProblem, Solution, CONFLICT_PENALTY, COST_SCALE,
};
use rand::rngs::StdRng;
use rand::SeedableRng;

fn plane(window: (u32, u32, u32), rates: (u32, u32), separation: Vec<u32>) -> PlaneData {
    PlaneData {
        earliest_landing: window.0,
        target_landing: window.1,
        latest_landing: window.2,
        penalty_before: rates.0,
        penalty_after: rates.1,
        separation_times: separation,
    }
}

fn instance(planes: Vec<PlaneData>) -> LandingProblem {
    let data = ProblemData { num_planes: planes.len(), planes };
    assert!(data.is_consistent());
    LandingProblem::from_parser(data)
}

fn pair(separation: u32) -> LandingProblem {
    instance(vec![
        plane((0, 10, 20), (100, 100), vec![0, separation]),
        plane((0, 10, 20), (100, 100), vec![separation, 0]),
    ])
}

/// Five planes that all want to land at about the same time.
fn crowd() -> LandingProblem {
    instance(vec![
        plane((0, 50, 200), (100, 100), vec![0, 8, 8, 10, 10]),
        plane((10, 52, 200), (200, 100), vec![8, 0, 8, 10, 10]),
        plane((20, 54, 150), (100, 300), vec![8, 8, 0, 10, 10]),
        plane((30, 56, 180), (150, 150), vec![6, 6, 6, 0, 12]),
        plane((40, 58, 120), (300, 200), vec![6, 6, 6, 12, 0]),
    ])
}

fn is_sorted(s: &Solution) -> bool {
    s.windows(2).all(|w| w[0].landing_time <= w[1].landing_time)
}

fn is_complete(problem: &LandingProblem, s: &Solution) -> bool {
    s.len() == problem.planes.len()
        && (0..problem.planes.len()).all(|p| s.iter().filter(|a| a.plane_id == p).count() == 1)
}

#[test]
fn hill_climbing_looks_at_five_neighbors() {
    assert_eq!(NEIGHBORS, 5);
}

#[test]
fn best_solution_is_the_cheapest() {
    let problem = pair(5);
    let dear: Solution = vec![Arrival::new(0, 10), Arrival::new(1, 12)];
    let cheap: Solution = vec![Arrival::new(0, 10), Arrival::new(1, 15)];
    let middling: Solution = vec![Arrival::new(0, 4), Arrival::new(1, 10)];
    assert_eq!(
        problem.best_solution(vec![dear.clone(), cheap.clone(), middling.clone()]),
        cheap
    );
    assert_eq!(problem.best_solution(vec![middling.clone(), dear.clone()]), middling);
    assert_eq!(problem.best_solution(vec![dear.clone()]), dear);
}

#[test]
fn best_solution_takes_the_first_of_the_cheapest() {
    let problem = pair(5);
    let one: Solution = vec![Arrival::new(0, 10), Arrival::new(1, 15)];
    let other: Solution = vec![Arrival::new(1, 10), Arrival::new(0, 15)];
    let dear: Solution = vec![Arrival::new(0, 10), Arrival::new(1, 10)];
    assert_eq!(problem.cost(&one), problem.cost(&other));
    assert_eq!(problem.best_solution(vec![dear.clone(), one.clone(), other.clone()]), one);
    assert_eq!(problem.best_solution(vec![other.clone(), dear.clone(), one.clone()]), other);
}

#[test]
fn shaking_with_no_intensity_changes_nothing() {
    let problem = crowd();
    let mut rng = StdRng::seed_from_u64(1);
    let s = problem.initial_solution();
    assert_eq!(problem.shake(s.clone(), 0, &mut rng), s);
}

#[test]
fn shaking_gives_a_solution() {
    let problem = crowd();
    let mut rng = StdRng::seed_from_u64(2);
    let s = problem.initial_solution();
    for intensity in 1..20 {
        let shaken = problem.shake(s.clone(), intensity, &mut rng);
        assert!(is_sorted(&shaken));
        assert!(is_complete(&problem, &shaken));
        let moved = (0..5)
            .filter(|&p| {
                s.iter().find(|a| a.plane_id == p).unwrap().landing_time
                    != shaken.iter().find(|a| a.plane_id == p).unwrap().landing_time
            })
            .count();
        assert!(moved <= intensity);
    }
}

#[test]
fn one_climb_never_costs_more() {
    let problem = crowd();
    let mut rng = StdRng::seed_from_u64(4);
    let mut s = problem.initial_solution();
    let mut cost = problem.cost(&s);
    for _ in 0..200 {
        let next = climb_once(&problem, s.clone(), &mut rng);
        let next_cost = problem.cost(&next);
        assert!(next_cost <= cost);
        if next_cost == cost {
            assert_eq!(next, s);
        }
        s = next;
        cost = next_cost;
    }
}

#[test]
fn hill_climbing_without_gas_hands_the_start_back() {
    let problem = crowd();
    let mut rng = StdRng::seed_from_u64(4);
    let s = problem.initial_solution();
    assert_eq!(hill_climb(&problem, s.clone(), 0, &mut rng), s);
}

#[test]
fn hill_climbing_never_costs_more_with_more_gas() {
    let problem = crowd();
    let s = problem.initial_solution();
    let mut last = problem.cost(&s);
    for gas in 1..40 {
        // the same seed: the longer climb goes on from where the shorter one ends
        let mut rng = StdRng::seed_from_u64(9);
        let top = hill_climb(&problem, s.clone(), gas, &mut rng);
        assert!(is_sorted(&top));
        assert!(is_complete(&problem, &top));
        let cost = problem.cost(&top);
        assert!(cost <= last);
        last = cost;
    }
}

#[test]
fn hill_climbing_lowers_the_cost_with_each_iteration_until_it_rests() {
    let problem = pair(15);
    let s = problem.initial_solution();
    let start = problem.cost(&s);
    for gas in 0..20usize {
        let mut rng = StdRng::seed_from_u64(gas as u64);
        let top = hill_climb(&problem, s.clone(), gas, &mut rng);
        let at_rest = (0..2).all(|i| problem.improve_arrival(&top, i).is_none());
        assert!(at_rest || problem.cost(&top) + gas as u128 <= start);
    }
}

#[test]
fn hill_climbing_separates_the_pair() {
    let problem = pair(15);
    for seed in 0..20 {
        let mut rng = StdRng::seed_from_u64(seed);
        let top = hill_climb(&problem, problem.initial_solution(), 30, &mut rng);
        assert!(problem.is_valid(&top));
        assert_eq!(problem.cost(&top), 15 * COST_SCALE);
    }
}

#[test]
fn each_iteration_takes_one_unit_of_time_off_the_conflict_of_the_pair() {
    let problem = pair(15);
    for seed in 0..10 {
        for k in 0..=15u128 {
            let mut rng = StdRng::seed_from_u64(seed);
            let top = hill_climb(&problem, problem.initial_solution(), k as usize, &mut rng);
            assert_eq!(problem.cost(&top), (15 - k) * CONFLICT_PENALTY + k * COST_SCALE);
            assert_eq!(problem.is_valid(&top), k == 15);
        }
    }
}

#[test]
fn fifteen_iterations_separate_the_pair() {
    let problem = pair(15);
    for seed in 0..20 {
        let mut rng = StdRng::seed_from_u64(seed);
        let top = hill_climb(&problem, problem.initial_solution(), 15, &mut rng);
        assert!(problem.is_valid(&top));
        assert_eq!(problem.cost(&top), 15 * COST_SCALE);
        let mut rng = StdRng::seed_from_u64(seed);
        let s = ils(&problem, 3, 15, &mut rng);
        assert!(problem.is_valid(&s));
        assert_eq!(problem.cost(&s), 15 * COST_SCALE);
    }
}

#[test]
fn a_climb_that_rests_early_makes_fewer_moves_than_it_has_gas() {
    let problem = pair(15);
    let mut rng = StdRng::seed_from_u64(2);
    let top = hill_climb(&problem, problem.initial_solution(), 15, &mut rng);
    let mut rng = StdRng::seed_from_u64(2);
    let longer = hill_climb(&problem, problem.initial_solution(), 200, &mut rng);
    assert_eq!(longer, top);
    for i in 0..2 {
        assert_eq!(problem.improve_arrival(&top, i), None);
    }
}

#[test]
fn ils_separates_the_pair() {
    let problem = pair(15);
    for seed in 0..10 {
        let mut rng = StdRng::seed_from_u64(seed);
        let s = ils(&problem, 5, 40, &mut rng);
        assert!(is_sorted(&s));
        assert!(is_complete(&problem, &s));
        assert!(problem.is_valid(&s));
        assert_eq!(problem.cost(&s), 15 * COST_SCALE);
        assert_eq!(problem.landing_cost(&s), 15 * COST_SCALE);
        assert_eq!(problem.conflict_cost(&s), 0);
    }
}

#[test]
fn ils_without_gas_is_one_climb_from_the_start() {
    let problem = crowd();
    let mut one = StdRng::seed_from_u64(21);
    let mut two = StdRng::seed_from_u64(21);
    let by_ils = ils(&problem, 0, 7, &mut one);
    let by_climb = hill_climb(&problem, problem.initial_solution(), 7, &mut two);
    assert_eq!(by_ils, by_climb);
}

#[test]
fn ils_never_ends_above_the_start() {
    let problem = crowd();
    let start = problem.cost(&problem.initial_solution());
    for seed in 0..5 {
        let mut rng = StdRng::seed_from_u64(seed);
        let s = ils(&problem, 4, 10, &mut rng);
        assert!(is_sorted(&s));
        assert!(is_complete(&problem, &s));
        assert!(problem.cost(&s) < start);
    }
}

#[test]
fn ils_clears_the_crowd() {
    let problem = crowd();
    let mut rng = StdRng::seed_from_u64(12);
    let s = ils(&problem, 10, 200, &mut rng);
    assert!(problem.is_valid(&s));
    assert_eq!(problem.cost(&s), problem.landing_cost(&s));
}
