//! A search engine for any problem that offers a start, two kinds of
//! neighbor and an integer cost.
use rand::rngs::StdRng;
use vstd::prelude::*;

verus! {

/// How many neighbors hill climbing looks at in one iteration.
pub const NEIGHBORS: usize = 5;

/// In `costs`, `i` is the first position that holds the least cost.
pub open spec fn first_least(costs: Seq<nat>, i: int) -> bool {
    &&& 0 <= i < costs.len()
    &&& forall|j: int| 0 <= j < costs.len() ==> costs[i] <= #[trigger] costs[j]
    &&& forall|j: int| 0 <= j < i ==> costs[i] < #[trigger] costs[j]
}

/// A problem whose solutions of type `S` the engine can search.
///
/// The engine never looks into a solution. It reasons about the view of a
/// solution, through the spec functions that an implementation defines.
pub trait Problem<S: View + Clone> {
    /// The instance is sound: the executable functions may be called on it.
    spec fn well_formed(&self) -> bool;

    /// `solution` is a solution of this instance.
    spec fn admits(&self, solution: S::V) -> bool;

    /// What `solution` costs.
    spec fn objective(&self, solution: S::V) -> nat;

    /// The solution that every search starts from.
    spec fn initial(&self) -> S::V;

    /// `to` is one move away from `from`.
    spec fn neighbors(&self, from: S::V, to: S::V) -> bool;

    /// No move that `first_improvement_neighbor` tries from `solution` costs
    /// less than `solution`.
    spec fn settled(&self, solution: S::V) -> bool;

    /// `to` is a move from `from` that `first_improvement_neighbor` may
    /// make: of the moves that it tries in turn, the first that costs less
    /// than `from`.
    spec fn improvement(&self, from: S::V, to: S::V) -> bool;

    /// A clone of a solution stands for the same solution.
    proof fn clone_keeps_view(a: S, b: S)
        requires
            cloned::<S>(a, b),
        ensures
            b@ == a@,
    ;

    /// The solution that every search starts from.
    fn initial_solution(&self) -> (s: S)
        requires
            self.well_formed(),
        ensures
            s@ == self.initial(),
            self.admits(s@),
    ;

    /// A solution one random move away from `solution`.
    fn random_neighbor(&self, solution: &S, rng: &mut StdRng) -> (neighbor: S)
        requires
            self.well_formed(),
            self.admits(solution@),
        ensures
            self.admits(neighbor@),
            self.neighbors(solution@, neighbor@),
    ;

    /// A solution one move away from `solution` that costs less, or
    /// `solution` again where none of the moves that are tried costs less.
    fn first_improvement_neighbor(&self, solution: &S, rng: &mut StdRng) -> (neighbor: S)
        requires
            self.well_formed(),
            self.admits(solution@),
        ensures
            self.admits(neighbor@),
            self.settled(solution@) ==> neighbor@ == solution@,
            !self.settled(solution@) ==> self.improvement(solution@, neighbor@) && self.neighbors(
                solution@,
                neighbor@,
            ) && self.objective(neighbor@) < self.objective(solution@),
    ;

    /// What `solution` costs.
    fn cost(&self, solution: &S) -> (c: u128)
        requires
            self.well_formed(),
            self.admits(solution@),
        ensures
            c == self.objective(solution@),
    ;

    /// The cheapest of `solutions`; among several of the least cost, the one
    /// that comes first.
    fn best_solution(&self, solutions: Vec<S>) -> (best: S)
        requires
            self.well_formed(),
            solutions@.len() > 0,
            forall|i: int| 0 <= i < solutions@.len() ==> self.admits(#[trigger] solutions@[i]@),
        ensures
            exists|i: int|
                first_least(Seq::new(solutions@.len(), |j: int| self.objective(solutions@[j]@)), i)
                    && best == solutions@[i],
    {
        let mut solutions = solutions;
        let ghost given: Seq<S> = solutions@;
        let ghost costs: Seq<nat> = Seq::new(given.len(), |j: int| self.objective(given[j]@));
        let mut at: usize = 0;
        let mut least: u128 = self.cost(&solutions[0]);
        let mut k: usize = 1;
        while k < solutions.len()
            invariant
                self.well_formed(),
                solutions@ == given,
                costs == Seq::new(given.len(), |j: int| self.objective(given[j]@)),
                forall|i: int| 0 <= i < given.len() ==> self.admits(#[trigger] given[i]@),
                1 <= k <= given.len(),
                at < k,
                least == costs[at as int],
                forall|j: int| 0 <= j < k ==> costs[at as int] <= #[trigger] costs[j],
                forall|j: int| 0 <= j < at ==> costs[at as int] < #[trigger] costs[j],
            decreases solutions.len() - k,
        {
            let c: u128 = self.cost(&solutions[k]);
            if c < least {
                at = k;
                least = c;
            }
            k += 1;
        }
        assert(first_least(costs, at as int));
        solutions.swap_remove(at)
    }

    /// `solution` after `intensity` random moves, one after the other.
    fn shake(&self, solution: S, intensity: usize, rng: &mut StdRng) -> (shaken: S)
        requires
            self.well_formed(),
            self.admits(solution@),
        ensures
            self.admits(shaken@),
            exists|path: Seq<S::V>|
                {
                    &&& path.len() == intensity + 1
                    &&& path[0] == solution@
                    &&& path.last() == shaken@
                    &&& forall|k: int| 0 <= k < path.len() ==> self.admits(#[trigger] path[k])
                    &&& forall|k: int|
                        0 < k < path.len() ==> self.neighbors(path[k - 1], #[trigger] path[k])
                },
    {
        let ghost start: S::V = solution@;
        let ghost mut path: Seq<S::V> = seq![solution@];
        let mut solution = solution;
        let mut done: usize = 0;
        while done < intensity
            invariant
                self.well_formed(),
                self.admits(solution@),
                done <= intensity,
                forall|k: int| 0 <= k < path.len() ==> self.admits(#[trigger] path[k]),
                forall|k: int|
                    0 < k < path.len() ==> self.neighbors(path[k - 1], #[trigger] path[k]),
                path.len() == done + 1,
                path[0] == start,
                path.last() == solution@,
            decreases intensity - done,
        {
            solution = self.random_neighbor(&solution, rng);
            proof {
                path = path.push(solution@);
            }
            done += 1;
        }
        solution
    }
}

/// `path` is a walk: each of its solutions is admitted, and each but the
/// first is one move away from the one before it.
pub open spec fn is_walk<S: View + Clone, P: Problem<S>>(problem: &P, path: Seq<S::V>) -> bool {
    &&& path.len() > 0
    &&& forall|k: int| 0 <= k < path.len() ==> problem.admits(#[trigger] path[k])
    &&& forall|k: int| 0 < k < path.len() ==> problem.neighbors(path[k - 1], #[trigger] path[k])
}

/// `path` is a descent: a walk on which each move is an improvement and
/// lowers the cost.
pub open spec fn is_descent<S: View + Clone, P: Problem<S>>(problem: &P, path: Seq<S::V>) -> bool {
    &&& is_walk(problem, path)
    &&& forall|k: int| 0 < k < path.len() ==> problem.improvement(path[k - 1], #[trigger] path[k])
    &&& forall|k: int|
        0 < k < path.len() ==> problem.objective(#[trigger] path[k]) < problem.objective(
            path[k - 1],
        )
}

/// `top` is where a climb of `gas` iterations from `start` may end: at the
/// end of a descent from `start` that has `gas` moves, or fewer where it ends
/// in a settled solution.
pub open spec fn is_climb<S: View + Clone, P: Problem<S>>(
    problem: &P,
    start: S::V,
    top: S::V,
    gas: nat,
) -> bool {
    exists|path: Seq<S::V>|
        {
            &&& #[trigger] is_descent(problem, path)
            &&& path[0] == start
            &&& path.last() == top
            &&& path.len() <= gas + 1
            &&& problem.settled(top) || path.len() == gas + 1
        }
}

/// One iteration of hill climbing: the cheapest of `NEIGHBORS`
/// first-improvement neighbors of `s` and of `s` itself.
pub fn climb_once<S: View + Clone, P: Problem<S>>(problem: &P, s: S, rng: &mut StdRng) -> (next: S)
    requires
        problem.well_formed(),
        problem.admits(s@),
    ensures
        problem.admits(next@),
        problem.objective(next@) <= problem.objective(s@),
        problem.settled(s@) ==> next@ == s@,
        !problem.settled(s@) ==> problem.improvement(s@, next@) && problem.neighbors(s@, next@)
            && problem.objective(next@) < problem.objective(s@),
{
    let mut batch: Vec<S> = Vec::new();
    let mut made: usize = 0;
    while made < NEIGHBORS
        invariant
            problem.well_formed(),
            problem.admits(s@),
            made <= NEIGHBORS,
            batch@.len() == made,
            forall|i: int| 0 <= i < batch@.len() ==> problem.admits(#[trigger] batch@[i]@),
            problem.settled(s@) ==> forall|i: int|
                0 <= i < batch@.len() ==> (#[trigger] batch@[i])@ == s@,
            !problem.settled(s@) ==> forall|i: int|
                0 <= i < batch@.len() ==> problem.improvement(s@, (#[trigger] batch@[i])@)
                    && problem.neighbors(s@, batch@[i]@) && problem.objective(batch@[i]@)
                    < problem.objective(s@),
        decreases NEIGHBORS - made,
    {
        let neighbor = problem.first_improvement_neighbor(&s, rng);
        batch.push(neighbor);
        made += 1;
    }
    batch.push(s);
    let ghost costs: Seq<nat> = Seq::new(batch@.len(), |j: int| problem.objective(batch@[j]@));
    let next = problem.best_solution(batch);
    proof {
        let i = choose|i: int| first_least(costs, i) && next == batch@[i];
        assert(costs[i] <= costs[NEIGHBORS as int]);
        assert(costs[i] <= costs[0]);
    }
    next
}

/// `gas` iterations of hill climbing from `s`.
///
/// Each iteration makes an improvement, until the search stands at a settled
/// solution, where it stays.
pub fn hill_climb<S: View + Clone, P: Problem<S>>(
    problem: &P,
    s: S,
    gas: usize,
    rng: &mut StdRng,
) -> (top: S)
    requires
        problem.well_formed(),
        problem.admits(s@),
    ensures
        problem.admits(top@),
        is_climb(problem, s@, top@, gas as nat),
        problem.objective(top@) <= problem.objective(s@),
        problem.settled(top@) || problem.objective(top@) + gas <= problem.objective(s@),
        gas > 0 && !problem.settled(s@) ==> problem.objective(top@) < problem.objective(s@),
{
    let ghost start: S::V = s@;
    let ghost mut path: Seq<S::V> = seq![s@];
    let mut s = s;
    let mut spent: usize = 0;
    while spent < gas
        invariant
            problem.well_formed(),
            problem.admits(s@),
            spent <= gas,
            problem.objective(s@) <= problem.objective(start),
            problem.settled(s@) || problem.objective(s@) + spent <= problem.objective(start),
            spent > 0 && !problem.settled(start) ==> problem.objective(s@) < problem.objective(
                start,
            ),
            is_descent(problem, path),
            path.len() <= spent + 1,
            problem.settled(s@) || path.len() == spent + 1,
            path[0] == start,
            path.last() == s@,
        decreases gas - spent,
    {
        let ghost before: S::V = s@;
        s = climb_once(problem, s, rng);
        proof {
            if !problem.settled(before) {
                path = path.push(s@);
            }
        }
        spent += 1;
    }
    assert(is_descent(problem, path) && path[0] == start && path.last() == s@);
    s
}

/// Two walks of which the second starts where the first ends make one walk,
/// from the start of the first to the end of the second.
pub proof fn lemma_walks_join<S: View + Clone, P: Problem<S>>(
    problem: &P,
    first: Seq<S::V>,
    second: Seq<S::V>,
)
    requires
        is_walk(problem, first),
        is_walk(problem, second),
        first.last() == second[0],
    ensures
        is_walk(problem, first + second.skip(1)),
        (first + second.skip(1))[0] == first[0],
        (first + second.skip(1)).last() == second.last(),
{
    let joined = first + second.skip(1);
    assert forall|k: int| 0 <= k < joined.len() implies problem.admits(#[trigger] joined[k]) by {
        if k < first.len() {
            assert(joined[k] == first[k]);
        } else {
            assert(joined[k] == second[k - first.len() + 1]);
        }
    }
    assert forall|k: int| 0 < k < joined.len() implies problem.neighbors(
        joined[k - 1],
        #[trigger] joined[k],
    ) by {
        if k < first.len() {
            assert(joined[k - 1] == first[k - 1] && joined[k] == first[k]);
        } else if k == first.len() {
            assert(joined[k - 1] == second[0] && joined[k] == second[1]);
        } else {
            let at = k - first.len() + 1;
            assert(joined[k - 1] == second[at - 1] && joined[k] == second[at]);
        }
    }
}

/// Iterated local search: hill climbing from the initial solution, then, over
/// and over, a shake of the incumbent and hill climbing from there. A climb
/// that ends cheaper than the incumbent replaces it and resets the shake to
/// one move; any other makes the next shake one move longer. The search ends
/// when `ils_gas` climbs in a row have not replaced the incumbent.
///
/// The incumbent is the top of a climb of `climb_gas` iterations. It costs
/// no more than the top of the first climb, which starts from the initial
/// solution, and it is that top where `ils_gas` is zero.
pub fn ils<S: View + Clone, P: Problem<S>>(
    problem: &P,
    ils_gas: usize,
    climb_gas: usize,
    rng: &mut StdRng,
) -> (incumbent: S)
    requires
        problem.well_formed(),
    ensures
        problem.admits(incumbent@),
        exists|first: S::V|
            {
                &&& #[trigger] is_climb(problem, problem.initial(), first, climb_gas as nat)
                &&& problem.objective(incumbent@) <= problem.objective(first)
                &&& ils_gas == 0 ==> incumbent@ == first
            },
        exists|from: S::V|
            problem.admits(from) && #[trigger] is_climb(problem, from, incumbent@, climb_gas as nat),
        exists|route: Seq<S::V>|
            #[trigger] is_walk(problem, route) && route[0] == problem.initial() && route.last()
                == incumbent@,
        problem.objective(incumbent@) <= problem.objective(problem.initial()),
        climb_gas > 0 && !problem.settled(problem.initial()) ==> problem.objective(incumbent@)
            < problem.objective(problem.initial()),
{
    let s = problem.initial_solution();
    let mut s = hill_climb(problem, s, climb_gas, rng);
    let ghost first: S::V = s@;
    let ghost mut from: S::V = problem.initial();
    let ghost mut route: Seq<S::V> = climb_path(problem, problem.initial(), s@, climb_gas as nat);
    let mut stale: usize = 0;
    while stale < ils_gas
        invariant
            problem.well_formed(),
            problem.admits(s@),
            stale <= ils_gas,
            is_climb(problem, problem.initial(), first, climb_gas as nat),
            problem.objective(s@) <= problem.objective(first),
            ils_gas == 0 ==> s@ == first,
            problem.admits(from),
            is_climb(problem, from, s@, climb_gas as nat),
            problem.objective(s@) <= problem.objective(problem.initial()),
            climb_gas > 0 && !problem.settled(problem.initial()) ==> problem.objective(s@)
                < problem.objective(problem.initial()),
            is_walk(problem, route),
            route[0] == problem.initial(),
            route.last() == s@,
        decreases problem.objective(s@), ils_gas - stale,
    {
        let intensity: usize = stale + 1;
        let copy = s.clone();
        proof {
            P::clone_keeps_view(s, copy);
        }
        let shaken = problem.shake(copy, intensity, rng);
        let ghost shake: Seq<S::V> = choose|path: Seq<S::V>|
            {
                &&& path.len() == intensity + 1
                &&& path[0] == copy@
                &&& path.last() == shaken@
                &&& forall|k: int| 0 <= k < path.len() ==> problem.admits(#[trigger] path[k])
                &&& forall|k: int|
                    0 < k < path.len() ==> problem.neighbors(path[k - 1], #[trigger] path[k])
            };
        let ghost before: S::V = shaken@;
        let climbed = hill_climb(problem, shaken, climb_gas, rng);
        if problem.cost(&climbed) < problem.cost(&s) {
            proof {
                let climb = climb_path(problem, before, climbed@, climb_gas as nat);
                lemma_walks_join(problem, route, shake);
                lemma_walks_join(problem, route + shake.skip(1), climb);
                route = route + shake.skip(1) + climb.skip(1);
                from = before;
            }
            stale = 0;
            s = climbed;
        } else {
            stale += 1;
        }
    }
    s
}

/// A descent along which a climb of `gas` iterations from `start` ends in
/// `top`, where there is one.
pub open spec fn climb_path<S: View + Clone, P: Problem<S>>(
    problem: &P,
    start: S::V,
    top: S::V,
    gas: nat,
) -> Seq<S::V> {
    choose|path: Seq<S::V>|
        {
            &&& #[trigger] is_descent(problem, path)
            &&& path[0] == start
            &&& path.last() == top
            &&& path.len() <= gas + 1
            &&& problem.settled(top) || path.len() == gas + 1
        }
}

} // verus!
