use airplane_landing_scheduler::metaheuristics::Problem;
use airplane_landing_scheduler::neighborhood::retime;
use airplane_landing_scheduler::parser::{Plane as PlaneData, ProblemData};
use airplane_landing_scheduler::problem::{Arrival, LandingProblem, Solution};
use rand::rngs::StdRng;
use rand::SeedableRng;

fn plane(window: (u32, u32, u32), rates: (u32, u32), separation: Vec<u32>) -> PlaneData {
    PlaneData {
        earliest_landing: window.0,
        target_landing: window.1,
        latest_landing: window.2,
        penalty_before: rates.0,
        penalty_after: rates.1,
        separation_times: separation,
    }
}

fn instance(planes: Vec<PlaneData>) -> LandingProblem {
    let data = ProblemData { num_planes: planes.len(), planes };
    assert!(data.is_consistent());
    LandingProblem::from_parser(data)
}

fn pair(separation: u32) -> LandingProblem {
    instance(vec![
        plane((0, 10, 20), (100, 100), vec![0, separation]),
        plane((0, 10, 20), (100, 100), vec![separation, 0]),
    ])
}

fn three() -> LandingProblem {
    instance(vec![
        plane((0, 30, 60), (100, 250), vec![0, 3, 8]),
        plane((5, 20, 40), (300, 50), vec![4, 0, 2]),
        plane((10, 25, 25), (1000, 1000), vec![5, 1, 0]),
    ])
}

fn is_sorted(s: &Solution) -> bool {
    s.windows(2).all(|w| w[0].landing_time <= w[1].landing_time)
}

fn time_of(s: &Solution, plane: usize) -> u32 {
    let found: Vec<&Arrival> = s.iter().filter(|a| a.plane_id == plane).collect();
    assert_eq!(found.len(), 1);
    found[0].landing_time
}

/// The planes whose landing time differs between `from` and `to`.
fn moved_planes(problem: &LandingProblem, from: &Solution, to: &Solution) -> Vec<usize> {
    assert_eq!(to.len(), problem.planes.len());
    (0..problem.planes.len()).filter(|&p| time_of(from, p) != time_of(to, p)).collect()
}

#[test]
fn retime_moves_the_arrival_to_its_place() {
    let s: Solution = vec![Arrival::new(1, 20), Arrival::new(2, 25), Arrival::new(0, 30)];
    assert_eq!(
        retime(&s, 0, 27),
        vec![Arrival::new(2, 25), Arrival::new(1, 27), Arrival::new(0, 30)]
    );
    assert_eq!(
        retime(&s, 2, 5),
        vec![Arrival::new(0, 5), Arrival::new(1, 20), Arrival::new(2, 25)]
    );
    assert_eq!(
        retime(&s, 1, 24),
        vec![Arrival::new(1, 20), Arrival::new(2, 24), Arrival::new(0, 30)]
    );
}

#[test]
fn retime_leaves_the_given_solution_alone() {
    let s: Solution = vec![Arrival::new(1, 20), Arrival::new(2, 25), Arrival::new(0, 30)];
    let before = s.clone();
    let _ = retime(&s, 0, 50);
    assert_eq!(s, before);
}

#[test]
fn retime_to_the_same_time_changes_nothing() {
    let s: Solution = vec![Arrival::new(1, 20), Arrival::new(2, 20), Arrival::new(0, 30)];
    assert_eq!(retime(&s, 0, 20), s);
    assert_eq!(retime(&s, 1, 20), s);
    assert_eq!(retime(&s, 2, 30), s);
}

#[test]
fn retime_keeps_arrivals_of_one_time_in_their_order() {
    let s: Solution = vec![Arrival::new(0, 5), Arrival::new(1, 7), Arrival::new(2, 7)];
    // the first arrival stays first among those that land at 7
    assert_eq!(
        retime(&s, 0, 7),
        vec![Arrival::new(0, 7), Arrival::new(1, 7), Arrival::new(2, 7)]
    );
    // the last arrival comes behind the one that lands at 5 already
    assert_eq!(
        retime(&s, 2, 5),
        vec![Arrival::new(0, 5), Arrival::new(2, 5), Arrival::new(1, 7)]
    );
}

#[test]
fn a_random_neighbor_differs_in_at_most_one_landing_inside_its_window() {
    let problem = three();
    let mut rng = StdRng::seed_from_u64(7);
    let mut s = problem.initial_solution();
    for _ in 0..500 {
        let n = problem.random_neighbor(&s, &mut rng);
        assert!(is_sorted(&n));
        let moved = moved_planes(&problem, &s, &n);
        assert!(moved.len() <= 1);
        for p in moved {
            let t = time_of(&n, p);
            assert!(problem.planes[p].earliest_landing <= t);
            assert!(t <= problem.planes[p].latest_landing);
        }
        s = n;
    }
}

#[test]
fn random_neighbors_reach_every_position_and_many_times() {
    let problem = three();
    let mut rng = StdRng::seed_from_u64(11);
    let s = problem.initial_solution();
    let mut planes_moved = vec![false; 3];
    let mut times: Vec<u32> = Vec::new();
    for _ in 0..300 {
        let n = problem.random_neighbor(&s, &mut rng);
        for p in moved_planes(&problem, &s, &n) {
            planes_moved[p] = true;
            let t = time_of(&n, p);
            if !times.contains(&t) {
                times.push(t);
            }
        }
    }
    assert_eq!(planes_moved, vec![true, true, true]);
    assert!(times.len() > 20);
}

#[test]
fn the_same_seed_gives_the_same_neighbors() {
    let problem = three();
    let s = problem.initial_solution();
    let mut one = StdRng::seed_from_u64(3);
    let mut two = StdRng::seed_from_u64(3);
    for _ in 0..50 {
        assert_eq!(problem.random_neighbor(&s, &mut one), problem.random_neighbor(&s, &mut two));
    }
}

#[test]
fn improve_arrival_takes_the_first_improvement_of_the_zigzag() {
    let problem = pair(15);
    let s = problem.initial_solution();
    // one unit of time earlier is tried before one later, and it lowers the conflict
    assert_eq!(
        problem.improve_arrival(&s, 0),
        Some(vec![Arrival::new(0, 9), Arrival::new(1, 10)])
    );
    assert_eq!(
        problem.improve_arrival(&s, 1),
        Some(vec![Arrival::new(1, 9), Arrival::new(0, 10)])
    );
}

#[test]
fn improve_arrival_passes_over_times_that_do_not_improve() {
    let problem = pair(5);
    // plane 1 lands 2 behind plane 0 and 3 after its own target
    let s: Solution = vec![Arrival::new(0, 11), Arrival::new(1, 13)];
    // for plane 0, 10 is tried first: it lands on target and one unit further away
    assert_eq!(
        problem.improve_arrival(&s, 0),
        Some(vec![Arrival::new(0, 10), Arrival::new(1, 13)])
    );
    // for plane 1, 12 brings it closer to plane 0, which costs more; 14 is the first gain
    assert_eq!(
        problem.improve_arrival(&s, 1),
        Some(vec![Arrival::new(0, 11), Arrival::new(1, 14)])
    );
}

#[test]
fn improve_arrival_finds_nothing_at_rest() {
    let problem = pair(15);
    let s: Solution = vec![Arrival::new(0, 0), Arrival::new(1, 15)];
    assert_eq!(problem.improve_arrival(&s, 0), None);
    assert_eq!(problem.improve_arrival(&s, 1), None);
}

#[test]
fn the_zigzag_goes_on_to_the_farther_end_of_the_window() {
    let problem = instance(vec![plane((0, 50, 100), (100, 100), vec![0])]);
    // from 1 the times 1, 0 and 2 are tried in turn: 2 is the first gain
    let near: Solution = vec![Arrival::new(0, 1)];
    assert_eq!(problem.improve_arrival(&near, 0), Some(vec![Arrival::new(0, 2)]));
    // from an end of the window the zigzag runs on along the other side
    let edge: Solution = vec![Arrival::new(0, 0)];
    assert_eq!(problem.improve_arrival(&edge, 0), Some(vec![Arrival::new(0, 1)]));
    let far: Solution = vec![Arrival::new(0, 100)];
    assert_eq!(problem.improve_arrival(&far, 0), Some(vec![Arrival::new(0, 99)]));
}

#[test]
fn a_plane_at_the_edge_of_its_window_is_moved_inward() {
    let problem = instance(vec![plane((0, 10, 20), (100, 100), vec![0])]);
    let s: Solution = vec![Arrival::new(0, 0)];
    assert_eq!(problem.cost(&s), 1000);
    assert_eq!(problem.improve_arrival(&s, 0), Some(vec![Arrival::new(0, 1)]));
    let mut rng = StdRng::seed_from_u64(1);
    let n = problem.first_improvement_neighbor(&s, &mut rng);
    assert_eq!(n, vec![Arrival::new(0, 1)]);
    assert_eq!(problem.cost(&n), 900);
}

#[test]
fn a_gain_beyond_the_nearer_edge_is_found() {
    let problem = pair(15);
    // both planes sit at an end of their windows, five units further apart
    // than they have to be
    let s: Solution = vec![Arrival::new(0, 0), Arrival::new(1, 20)];
    assert_eq!(problem.cost(&s), 2000);
    assert_eq!(
        problem.improve_arrival(&s, 0),
        Some(vec![Arrival::new(0, 1), Arrival::new(1, 20)])
    );
    assert_eq!(
        problem.improve_arrival(&s, 1),
        Some(vec![Arrival::new(0, 0), Arrival::new(1, 19)])
    );
}

#[test]
fn a_gain_far_from_the_current_time_is_found_when_no_nearer_one_is() {
    // plane 0 cannot move and blocks plane 1 for 5 units of time; plane 1
    // lands on its target, 3 units short, and landing later is dearer than
    // the conflict
    let problem = instance(vec![
        plane((10, 10, 10), (100, 100), vec![0, 5]),
        plane((0, 12, 40), (100, 600_000), vec![0, 0]),
    ]);
    let s: Solution = vec![Arrival::new(0, 10), Arrival::new(1, 12)];
    assert_eq!(problem.conflicts(&s), vec![(s[0], s[1], 3)]);
    assert_eq!(problem.improve_arrival(&s, 0), None);
    // 11, 13, 10 and 14 all cost more; at 9 plane 1 lands in front of plane 0
    assert_eq!(
        problem.improve_arrival(&s, 1),
        Some(vec![Arrival::new(1, 9), Arrival::new(0, 10)])
    );
    let mut rng = StdRng::seed_from_u64(4);
    let n = problem.first_improvement_neighbor(&s, &mut rng);
    assert_eq!(n, vec![Arrival::new(1, 9), Arrival::new(0, 10)]);
    assert_eq!(problem.cost(&n), 300);
}

#[test]
fn an_arrival_outside_its_window_is_tried_at_the_times_of_the_window() {
    let problem = three();
    // plane 1 lands at 2, before its window 5..=40 opens: 5 is the nearest
    // time that is tried, and it is nearer to the target
    let s: Solution = vec![Arrival::new(1, 2), Arrival::new(2, 25), Arrival::new(0, 30)];
    assert_eq!(
        problem.improve_arrival(&s, 0),
        Some(vec![Arrival::new(1, 5), Arrival::new(2, 25), Arrival::new(0, 30)])
    );
    // plane 2 lands at 27, after its window 10..=25 has closed
    let late: Solution = vec![Arrival::new(1, 20), Arrival::new(2, 27), Arrival::new(0, 30)];
    assert_eq!(
        problem.improve_arrival(&late, 1),
        Some(vec![Arrival::new(1, 20), Arrival::new(2, 25), Arrival::new(0, 30)])
    );
}

#[test]
fn first_improvement_lowers_the_cost_by_one_move() {
    let problem = pair(15);
    let s = problem.initial_solution();
    let by_plane_0: Solution = vec![Arrival::new(0, 9), Arrival::new(1, 10)];
    let by_plane_1: Solution = vec![Arrival::new(1, 9), Arrival::new(0, 10)];
    let mut seen = (false, false);
    for seed in 0..40 {
        let mut rng = StdRng::seed_from_u64(seed);
        let n = problem.first_improvement_neighbor(&s, &mut rng);
        assert!(problem.cost(&n) < problem.cost(&s));
        assert_eq!(moved_planes(&problem, &s, &n).len(), 1);
        if n == by_plane_0 {
            seen.0 = true;
        } else {
            assert_eq!(n, by_plane_1);
            seen.1 = true;
        }
    }
    // the arrivals are visited in a shuffled order: either may come first
    assert_eq!(seen, (true, true));
}

#[test]
fn first_improvement_hands_back_a_solution_at_rest() {
    let problem = pair(15);
    let s: Solution = vec![Arrival::new(0, 0), Arrival::new(1, 15)];
    for seed in 0..10 {
        let mut rng = StdRng::seed_from_u64(seed);
        assert_eq!(problem.first_improvement_neighbor(&s, &mut rng), s);
    }
}

#[test]
fn first_improvement_keeps_the_solution_sorted_and_complete() {
    let problem = three();
    let mut rng = StdRng::seed_from_u64(5);
    let mut s: Solution = vec![Arrival::new(2, 12), Arrival::new(1, 13), Arrival::new(0, 14)];
    for _ in 0..60 {
        let n = problem.first_improvement_neighbor(&s, &mut rng);
        assert!(is_sorted(&n));
        assert!(moved_planes(&problem, &s, &n).len() <= 1);
        assert!(problem.cost(&n) <= problem.cost(&s));
        if n == s {
            break;
        }
        s = n;
    }
    for i in 0..3 {
        assert_eq!(problem.improve_arrival(&s, i), None);
    }
}
