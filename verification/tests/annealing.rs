use airplane_landing_scheduler::annealing::{weigh, Annealing, Calibration, Proposal};
use airplane_landing_scheduler::metaheuristics::Problem;
use airplane_landing_scheduler::parser::{Plane as PlaneData, ProblemData};
use airplane_landing_scheduler::problem::{
    Arrival, LandingProblem, Solution, CONFLICT_PENALTY, COST_SCALE,
};
use rand::rngs::StdRng;
use rand::{Rng, SeedableRng};

fn plane(window: (u32, u32, u32), rates: (u32, u32), separation: Vec<u32>) -> PlaneData {
    PlaneData {
        earliest_landing: window.0,
        target_landing: window.1,
        latest_landing: window.2,
        penalty_before: rates.0,
        penalty_after: rates.1,
        separation_times: separation,
    }
}

fn instance(planes: Vec<PlaneData>) -> LandingProblem {
    let data = ProblemData { num_planes: planes.len(), planes };
    assert!(data.is_consistent());
    LandingProblem::from_parser(data)
}

fn pair(separation: u32) -> LandingProblem {
    instance(vec![
        plane((0, 10, 20), (100, 100), vec![0, separation]),
        plane((0, 10, 20), (100, 100), vec![separation, 0]),
    ])
}

fn crowd() -> LandingProblem {
    instance(vec![
        plane((0, 50, 200), (100, 100), vec![0, 8, 8, 10, 10]),
        plane((10, 52, 200), (200, 100), vec![8, 0, 8, 10, 10]),
        plane((20, 54, 150), (100, 300), vec![8, 8, 0, 10, 10]),
        plane((30, 56, 180), (150, 150), vec![6, 6, 6, 0, 12]),
        plane((40, 58, 120), (300, 200), vec![6, 6, 6, 12, 0]),
    ])
}

/// Drives a run to its end. An uphill candidate is taken where `verdict`
/// says so; an epoch follows another until `epochs` of them are over.
fn drive(
    problem: &LandingProblem,
    run: &mut Annealing<Solution>,
    rng: &mut StdRng,
    epochs: usize,
    mut verdict: impl FnMut(u128, usize) -> bool,
) -> Vec<u128> {
    let mut costs = vec![problem.cost(run.current())];
    let mut epoch = 0;
    while epoch < epochs {
        match run.advance(problem, rng) {
            Proposal::Taken => costs.push(problem.cost(run.current())),
            Proposal::Uphill(by) => {
                assert!(run.is_awaiting());
                let accept = verdict(by, epoch);
                let before = run.current().clone();
                run.settle(problem, accept);
                assert!(!run.is_awaiting());
                if accept {
                    assert_eq!(problem.cost(run.current()), costs[costs.len() - 1] + by);
                    costs.push(problem.cost(run.current()));
                } else {
                    assert_eq!(run.current(), &before);
                }
            }
            Proposal::EpochOver => {
                epoch += 1;
                run.next_epoch();
            }
            Proposal::Exhausted => break,
        }
    }
    costs
}

#[test]
fn weigh_tells_a_gain_from_a_rise() {
    let problem = pair(5);
    let near: Solution = vec![Arrival::new(0, 10), Arrival::new(1, 12)];
    let apart: Solution = vec![Arrival::new(0, 10), Arrival::new(1, 15)];
    assert_eq!(weigh(&problem, &near, &apart), None);
    assert_eq!(weigh(&problem, &apart, &near), Some(3 * CONFLICT_PENALTY - 3 * COST_SCALE));
    assert_eq!(weigh(&problem, &near, &near), Some(0));
}

#[test]
fn a_new_run_stands_at_its_start() {
    let problem = crowd();
    let s = problem.initial_solution();
    let run = Annealing::new(&problem, &s, 10, 3);
    assert_eq!(run.current(), &s);
    assert_eq!(run.best(), &s);
    assert!(!run.is_awaiting());
    assert_eq!(run.into_best(), s);
}

#[test]
fn an_epoch_without_proposals_is_over_at_once() {
    let problem = crowd();
    let s = problem.initial_solution();
    let mut rng = StdRng::seed_from_u64(1);
    let mut run = Annealing::new(&problem, &s, 10, 0);
    assert_eq!(run.advance(&problem, &mut rng), Proposal::EpochOver);
    run.next_epoch();
    assert_eq!(run.advance(&problem, &mut rng), Proposal::EpochOver);
    assert_eq!(run.into_best(), s);
}

#[test]
fn a_run_without_proposals_is_exhausted_at_once() {
    let problem = crowd();
    let s = problem.initial_solution();
    let mut rng = StdRng::seed_from_u64(1);
    let mut run = Annealing::new(&problem, &s, 0, 4);
    assert_eq!(run.advance(&problem, &mut rng), Proposal::Exhausted);
    assert_eq!(run.advance(&problem, &mut rng), Proposal::Exhausted);
    assert_eq!(run.into_best(), s);
}

#[test]
fn proposals_are_counted_by_epoch_and_in_all() {
    let problem = crowd();
    let s = problem.initial_solution();
    let mut rng = StdRng::seed_from_u64(8);
    let mut run = Annealing::new(&problem, &s, 10, 4);
    let mut log: Vec<char> = Vec::new();
    loop {
        match run.advance(&problem, &mut rng) {
            Proposal::Taken => log.push('p'),
            Proposal::Uphill(_) => {
                run.settle(&problem, false);
                log.push('p');
            }
            Proposal::EpochOver => {
                run.next_epoch();
                log.push('e');
            }
            Proposal::Exhausted => {
                log.push('x');
                break;
            }
        }
    }
    let log: String = log.into_iter().collect();
    assert_eq!(log, "ppppeppppeppx");
}

#[test]
fn a_run_that_takes_no_rise_only_descends() {
    let problem = crowd();
    let s = problem.initial_solution();
    let mut rng = StdRng::seed_from_u64(5);
    let mut run = Annealing::new(&problem, &s, 2000, 50);
    let costs = drive(&problem, &mut run, &mut rng, 40, |_, _| false);
    assert!(costs.windows(2).all(|w| w[1] < w[0]));
    assert!(costs.len() > 1);
    assert_eq!(run.best(), run.current());
    assert_eq!(problem.cost(run.best()), *costs.last().unwrap());
}

#[test]
fn the_best_solution_costs_the_least_of_all_visited() {
    let problem = crowd();
    let s = problem.initial_solution();
    for seed in 0..5 {
        let mut rng = StdRng::seed_from_u64(seed);
        let mut run = Annealing::new(&problem, &s, 3000, 60);
        let costs = drive(&problem, &mut run, &mut rng, 50, |_, _| true);
        let least = *costs.iter().min().unwrap();
        assert!(costs.len() > 100);
        assert!(problem.cost(run.current()) >= least);
        assert_eq!(problem.cost(run.best()), least);
        assert_eq!(problem.cost(&run.into_best()), least);
    }
}

#[test]
fn the_best_solution_stays_when_the_run_wanders_off() {
    let problem = pair(15);
    let s: Solution = vec![Arrival::new(0, 0), Arrival::new(1, 15)];
    let mut rng = StdRng::seed_from_u64(3);
    let mut run = Annealing::new(&problem, &s, 500, 500);
    let costs = drive(&problem, &mut run, &mut rng, 1, |_, _| true);
    assert!(costs.iter().any(|&c| c > 15 * COST_SCALE));
    assert_eq!(run.into_best(), s);
}

#[test]
fn annealing_separates_the_pair() {
    let problem = pair(15);
    let s = problem.initial_solution();
    let mut rng = StdRng::seed_from_u64(17);
    let mut run = Annealing::new(&problem, &s, usize::MAX, 40);
    let alpha: f64 = 0.95;
    let mut temperature: f64 = 1000.0;
    while temperature > 0.1 {
        loop {
            match run.advance(&problem, &mut rng) {
                Proposal::Taken => {}
                Proposal::Uphill(by) => {
                    let delta = by as f64 / COST_SCALE as f64;
                    let x: f64 = rng.gen_range(0.0..=1.0);
                    run.settle(&problem, x < (-delta / temperature).exp());
                }
                Proposal::EpochOver => break,
                Proposal::Exhausted => unreachable!(),
            }
        }
        run.next_epoch();
        temperature *= alpha;
    }
    let best = run.into_best();
    assert!(problem.is_valid(&best));
    assert_eq!(problem.cost(&best), 15 * COST_SCALE);
}

#[test]
fn a_batch_counts_its_trials() {
    let problem = pair(5);
    let s: Solution = vec![Arrival::new(0, 10), Arrival::new(1, 12)];
    let mut rng = StdRng::seed_from_u64(2);
    let mut batch = Calibration::new(30);
    assert_eq!(batch.trials(), 0);
    assert_eq!(batch.accepted(), 0);
    assert!(!batch.is_complete());
    let mut gains = 0;
    let mut taken = 0;
    while !batch.is_complete() {
        match batch.trial(&problem, &s, &mut rng) {
            None => {
                gains += 1;
                assert!(!batch.is_awaiting());
            }
            Some(by) => {
                assert!(batch.is_awaiting());
                let accept = by < 1000;
                if accept {
                    taken += 1;
                }
                batch.count(accept);
                assert!(!batch.is_awaiting());
            }
        }
        assert_eq!(batch.accepted(), gains + taken);
    }
    assert_eq!(batch.trials(), 30);
    assert!(gains > 0);
    assert!(gains < 30);
    batch.restart();
    assert_eq!(batch.trials(), 0);
    assert_eq!(batch.accepted(), 0);
    assert!(!batch.is_complete());
}

#[test]
fn an_empty_batch_is_complete() {
    let batch = Calibration::new(0);
    assert!(batch.is_complete());
    assert_eq!(batch.accepted(), 0);
}

#[test]
fn from_a_solution_at_its_best_every_trial_is_a_rise() {
    let problem = pair(15);
    let s: Solution = vec![Arrival::new(0, 0), Arrival::new(1, 15)];
    let mut rng = StdRng::seed_from_u64(6);
    let mut batch = Calibration::new(100);
    while !batch.is_complete() {
        let risen = batch.trial(&problem, &s, &mut rng);
        assert!(risen.is_some());
        batch.count(false);
    }
    assert_eq!(batch.accepted(), 0);
}
