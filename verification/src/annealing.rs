//! The discrete part of simulated annealing and of the calibration of its
//! starting temperature.
//!
//! Both are written as state machines. The machine draws the candidates,
//! compares costs and keeps the books. Whoever drives it keeps the
//! temperature: it answers each uphill candidate with a verdict, cools
//! between epochs and decides when the run is over.
use crate::metaheuristics::{is_walk, Problem};
use rand::rngs::StdRng;
use vstd::prelude::*;

verus! {

/// By how much `to` costs more than `from` (zero where both cost the same),
/// or `None` where `to` costs less.
pub open spec fn rise<S: View + Clone, P: Problem<S>>(problem: &P, from: S::V, to: S::V) -> Option<
    nat,
> {
    if problem.objective(to) < problem.objective(from) {
        None
    } else {
        Some((problem.objective(to) - problem.objective(from)) as nat)
    }
}

/// Compares the cost of `to` with that of `from`.
pub fn weigh<S: View + Clone, P: Problem<S>>(problem: &P, from: &S, to: &S) -> (risen: Option<u128>)
    requires
        problem.well_formed(),
        problem.admits(from@),
        problem.admits(to@),
    ensures
        match risen {
            Some(by) => rise(problem, from@, to@) == Some(by as nat),
            None => rise(problem, from@, to@).is_none(),
        },
{
    let before: u128 = problem.cost(from);
    let after: u128 = problem.cost(to);
    if after < before {
        None
    } else {
        Some(after - before)
    }
}

/// The least of what the solutions of `path` cost; zero for an empty path.
pub open spec fn least_cost<S: View + Clone, P: Problem<S>>(problem: &P, path: Seq<S::V>) -> nat
    decreases path.len(),
{
    if path.len() == 0 {
        0
    } else if path.len() == 1 {
        problem.objective(path[0])
    } else {
        let before = least_cost(problem, path.drop_last());
        if problem.objective(path.last()) < before {
            problem.objective(path.last())
        } else {
            before
        }
    }
}

/// A cost that some solution of `path` has and that none of them is below
/// is the least cost of `path`.
pub proof fn lemma_least_cost<S: View + Clone, P: Problem<S>>(problem: &P, path: Seq<S::V>, cost: nat)
    requires
        forall|k: int| 0 <= k < path.len() ==> cost <= problem.objective(#[trigger] path[k]),
        exists|k: int| 0 <= k < path.len() && problem.objective(#[trigger] path[k]) == cost,
    ensures
        least_cost(problem, path) == cost,
    decreases path.len(),
{
    if path.len() > 1 {
        let front = path.drop_last();
        let at = choose|k: int| 0 <= k < path.len() && problem.objective(#[trigger] path[k]) == cost;
        assert forall|k: int| 0 <= k < front.len() implies cost <= problem.objective(
            #[trigger] front[k],
        ) by {
            assert(front[k] == path[k]);
        }
        if at < front.len() {
            assert(front[at] == path[at]);
            lemma_least_cost(problem, front, cost);
        } else {
            lemma_least_above(problem, front, cost);
        }
    }
}

/// The least cost of `path` is not below a cost that none of its solutions
/// is below.
proof fn lemma_least_above<S: View + Clone, P: Problem<S>>(problem: &P, path: Seq<S::V>, cost: nat)
    requires
        path.len() > 0,
        forall|k: int| 0 <= k < path.len() ==> cost <= problem.objective(#[trigger] path[k]),
    ensures
        cost <= least_cost(problem, path),
    decreases path.len(),
{
    if path.len() > 1 {
        let front = path.drop_last();
        assert forall|k: int| 0 <= k < front.len() implies cost <= problem.objective(
            #[trigger] front[k],
        ) by {
            assert(front[k] == path[k]);
        }
        lemma_least_above(problem, front, cost);
    }
}

/// `best` is one of the solutions of `path`, and none of them costs less.
pub open spec fn best_among<S: View + Clone, P: Problem<S>>(
    problem: &P,
    best: S::V,
    path: Seq<S::V>,
) -> bool {
    &&& exists|k: int| 0 <= k < path.len() && #[trigger] path[k] == best
    &&& forall|k: int|
        0 <= k < path.len() ==> problem.objective(best) <= problem.objective(#[trigger] path[k])
}

/// A path that is a step longer has the same best solution where the new
/// solution costs no less than it, and the new solution for its best where
/// that costs less.
proof fn lemma_best_after_step<S: View + Clone, P: Problem<S>>(
    problem: &P,
    best: S::V,
    path: Seq<S::V>,
    next: S::V,
)
    requires
        best_among(problem, best, path),
    ensures
        problem.objective(best) <= problem.objective(next) ==> best_among(
            problem,
            best,
            path.push(next),
        ),
        problem.objective(next) <= problem.objective(best) ==> best_among(
            problem,
            next,
            path.push(next),
        ),
{
    let longer = path.push(next);
    let k = choose|k: int| 0 <= k < path.len() && #[trigger] path[k] == best;
    assert(longer[k] == best);
    assert(longer[path.len() as int] == next);
    assert forall|j: int| 0 <= j < longer.len() implies longer[j] == if j < path.len() {
        path[j]
    } else {
        next
    } by {}
}

/// A walk that goes on by one move is a walk.
proof fn lemma_walk_after_step<S: View + Clone, P: Problem<S>>(
    problem: &P,
    path: Seq<S::V>,
    next: S::V,
)
    requires
        is_walk(problem, path),
        problem.admits(next),
        problem.neighbors(path.last(), next),
    ensures
        is_walk(problem, path.push(next)),
{
    let longer = path.push(next);
    assert forall|k: int| 0 <= k < longer.len() implies problem.admits(#[trigger] longer[k]) by {
        if k < path.len() {
            assert(longer[k] == path[k]);
        }
    }
    assert forall|k: int| 0 < k < longer.len() implies problem.neighbors(
        longer[k - 1],
        #[trigger] longer[k],
    ) by {
        assert(longer[k - 1] == path[k - 1]);
        if k < path.len() {
            assert(longer[k] == path[k]);
        }
    }
}

/// What a step of the annealing came to.
#[derive(Debug, Clone, Copy, PartialEq, Eq, Structural)]
pub enum Proposal {
    /// The candidate cost less than the current solution and has taken its
    /// place.
    Taken,
    /// The candidate costs this much more than the current solution (zero
    /// where both cost the same). It waits for a verdict.
    Uphill(u128),
    /// The epoch has had all its proposals: no candidate was drawn.
    EpochOver,
    /// The run has had all its proposals: no candidate was drawn.
    Exhausted,
}

/// A run of simulated annealing: the current solution, the best one seen,
/// and how many proposals the epoch and the run have had.
pub struct Annealing<S: View + Clone> {
    current: S,
    best: S,
    pending: Option<S>,
    proposals: usize,
    max_iterations: usize,
    in_epoch: usize,
    sa_max: usize,
    visited: Ghost<Seq<S::V>>,
}

impl<S: View + Clone> Annealing<S> {
    /// The solution that the run stands at.
    pub closed spec fn current_view(&self) -> S::V {
        self.current@
    }

    /// The best solution that the run has stood at.
    pub closed spec fn best_view(&self) -> S::V {
        self.best@
    }

    /// The candidate that waits for a verdict, if there is one.
    pub closed spec fn pending_view(&self) -> Option<S::V> {
        match self.pending {
            Some(candidate) => Some(candidate@),
            None => None,
        }
    }

    /// Every solution that the run has stood at, in turn; the last of them
    /// is the current one.
    pub closed spec fn visited(&self) -> Seq<S::V> {
        self.visited@
    }

    /// How many proposals the run has had.
    pub closed spec fn proposals_made(&self) -> nat {
        self.proposals as nat
    }

    /// How many proposals the run may have.
    pub closed spec fn proposals_allowed(&self) -> nat {
        self.max_iterations as nat
    }

    /// How many proposals the epoch has had.
    pub closed spec fn epoch_made(&self) -> nat {
        self.in_epoch as nat
    }

    /// How many proposals an epoch may have.
    pub closed spec fn epoch_allowed(&self) -> nat {
        self.sa_max as nat
    }

    /// What holds of a run at all times: its solutions are solutions of
    /// `problem`, the visited ones form a walk that ends in the current one,
    /// the best one is a visited one of the least cost, a pending candidate
    /// is a neighbor of the current solution that costs no less, and no
    /// count is above its cap.
    pub open spec fn inv<P: Problem<S>>(&self, problem: &P) -> bool {
        &&& problem.well_formed()
        &&& is_walk(problem, self.visited())
        &&& self.visited().last() == self.current_view()
        &&& best_among(problem, self.best_view(), self.visited())
        &&& match self.pending_view() {
            Some(candidate) => {
                &&& problem.admits(candidate)
                &&& problem.neighbors(self.current_view(), candidate)
                &&& problem.objective(candidate) >= problem.objective(self.current_view())
            },
            None => true,
        }
        &&& self.proposals_made() <= self.proposals_allowed()
        &&& self.epoch_made() <= self.epoch_allowed()
    }

    /// The best solution of a run costs what the cheapest of the solutions
    /// that the run has stood at costs.
    pub proof fn lemma_best_is_least_visited<P: Problem<S>>(&self, problem: &P)
        requires
            self.inv(problem),
        ensures
            problem.objective(self.best_view()) == least_cost(problem, self.visited()),
            problem.objective(self.best_view()) <= problem.objective(self.current_view()),
    {
        let k = choose|k: int|
            0 <= k < self.visited().len() && #[trigger] self.visited()[k] == self.best_view();
        assert(problem.objective(self.visited()[k]) == problem.objective(self.best_view()));
        lemma_least_cost(problem, self.visited(), problem.objective(self.best_view()));
        assert(self.visited()[self.visited().len() - 1] == self.current_view());
    }

    /// A run that stands at `s`, with room for `max_iterations` proposals
    /// in all and `sa_max` in each epoch.
    pub fn new<P: Problem<S>>(problem: &P, s: &S, max_iterations: usize, sa_max: usize) -> (run:
        Self)
        requires
            problem.well_formed(),
            problem.admits(s@),
        ensures
            run.inv(problem),
            run.visited() == seq![s@],
            run.current_view() == s@,
            run.best_view() == s@,
            run.pending_view().is_none(),
            run.proposals_made() == 0,
            run.proposals_allowed() == max_iterations,
            run.epoch_made() == 0,
            run.epoch_allowed() == sa_max,
    {
        let current = s.clone();
        let best = s.clone();
        proof {
            P::clone_keeps_view(*s, current);
            P::clone_keeps_view(*s, best);
        }
        let ghost start: Seq<S::V> = seq![s@];
        let visited: Ghost<Seq<S::V>> = Ghost(start);
        let run = Annealing {
            current,
            best,
            pending: None,
            proposals: 0,
            max_iterations,
            in_epoch: 0,
            sa_max,
            visited,
        };
        assert(run.visited()[0] == run.best_view());
        assert(best_among(problem, run.best_view(), run.visited()));
        run
    }

    /// Tells whether a candidate waits for a verdict.
    pub fn is_awaiting(&self) -> (awaiting: bool)
        ensures
            awaiting == self.pending_view().is_some(),
    {
        self.pending.is_some()
    }

    /// The solution that the run stands at.
    pub fn current(&self) -> (s: &S)
        ensures
            s@ == self.current_view(),
    {
        &self.current
    }

    /// The best solution that the run has stood at.
    pub fn best(&self) -> (s: &S)
        ensures
            s@ == self.best_view(),
    {
        &self.best
    }

    /// Ends the run and hands out the best solution that it has stood at.
    pub fn into_best(self) -> (s: S)
        ensures
            s@ == self.best_view(),
    {
        self.best
    }

    /// One step of the run. Where the epoch or the run has had all its
    /// proposals, nothing happens. Otherwise a random neighbor of the
    /// current solution is drawn and counted. One that costs less takes the
    /// place of the current solution, and that of the best one where it
    /// costs less than that too. Any other waits for a verdict.
    pub fn advance<P: Problem<S>>(&mut self, problem: &P, rng: &mut StdRng) -> (proposal: Proposal)
        requires
            old(self).inv(problem),
            old(self).pending_view().is_none(),
        ensures
            final(self).inv(problem),
            final(self).proposals_allowed() == old(self).proposals_allowed(),
            final(self).epoch_allowed() == old(self).epoch_allowed(),
            match proposal {
                Proposal::EpochOver => {
                    &&& old(self).epoch_made() == old(self).epoch_allowed()
                    &&& final(self).steady(*old(self))
                    &&& final(self).pending_view().is_none()
                    &&& final(self).proposals_made() == old(self).proposals_made()
                    &&& final(self).epoch_made() == old(self).epoch_made()
                },
                Proposal::Exhausted => {
                    &&& old(self).epoch_made() < old(self).epoch_allowed()
                    &&& old(self).proposals_made() == old(self).proposals_allowed()
                    &&& final(self).steady(*old(self))
                    &&& final(self).pending_view().is_none()
                    &&& final(self).proposals_made() == old(self).proposals_made()
                    &&& final(self).epoch_made() == old(self).epoch_made()
                },
                Proposal::Taken => {
                    &&& final(self).counted(*old(self))
                    &&& final(self).pending_view().is_none()
                    &&& final(self).moved(*old(self))
                    &&& problem.neighbors(old(self).current_view(), final(self).current_view())
                    &&& problem.objective(final(self).current_view()) < problem.objective(
                        old(self).current_view(),
                    )
                    &&& final(self).best_view() == if problem.objective(
                        final(self).current_view(),
                    ) < problem.objective(old(self).best_view()) {
                        final(self).current_view()
                    } else {
                        old(self).best_view()
                    }
                },
                Proposal::Uphill(by) => {
                    &&& final(self).counted(*old(self))
                    &&& final(self).steady(*old(self))
                    &&& final(self).pending_view() matches Some(candidate)
                    &&& rise(problem, old(self).current_view(), candidate) == Some(by as nat)
                },
            },
    {
        if self.in_epoch == self.sa_max {
            return Proposal::EpochOver;
        }
        if self.proposals == self.max_iterations {
            return Proposal::Exhausted;
        }
        self.proposals = self.proposals + 1;
        self.in_epoch = self.in_epoch + 1;
        let candidate = problem.random_neighbor(&self.current, rng);
        match weigh(problem, &self.current, &candidate) {
            None => {
                let ghost past = self.visited();
                let ghost best_before = self.best_view();
                let improves: bool = problem.cost(&candidate) < problem.cost(&self.best);
                if improves {
                    let copy = candidate.clone();
                    proof {
                        P::clone_keeps_view(candidate, copy);
                    }
                    self.best = copy;
                }
                self.current = candidate;
                self.visited = Ghost(past.push(self.current@));
                proof {
                    lemma_walk_after_step(problem, past, self.current_view());
                    lemma_best_after_step(problem, best_before, past, self.current_view());
                    assert(self.visited().last() == self.current_view());
                    assert(self.pending_view().is_none());
                }
                Proposal::Taken
            },
            Some(by) => {
                self.pending = Some(candidate);
                assert(self.inv(problem));
                Proposal::Uphill(by)
            },
        }
    }

    /// The verdict on the candidate that waits: taken, it becomes the
    /// current solution; turned down, it is dropped. The best solution stays
    /// either way.
    pub fn settle<P: Problem<S>>(&mut self, problem: &P, accept: bool)
        requires
            old(self).inv(problem),
            old(self).pending_view().is_some(),
        ensures
            final(self).inv(problem),
            final(self).pending_view().is_none(),
            final(self).same_counts(*old(self)),
            final(self).best_view() == old(self).best_view(),
            accept ==> final(self).moved(*old(self)) && Some(final(self).current_view()) == old(
                self,
            ).pending_view(),
            !accept ==> final(self).steady(*old(self)),
    {
        let ghost past = self.visited();
        let ghost best = self.best_view();
        let candidate = self.pending.take();
        if accept {
            match candidate {
                Some(next) => {
                    self.current = next;
                    self.visited = Ghost(past.push(self.current@));
                    proof {
                        assert(problem.objective(best) <= problem.objective(past.last()));
                        lemma_walk_after_step(problem, past, self.current_view());
                        lemma_best_after_step(problem, best, past, self.current_view());
                        assert(self.visited().last() == self.current_view());
                    }
                },
                None => {},
            }
        }
        assert(self.pending_view().is_none());
        assert(self.best_view() == best);
    }

    /// Opens a new epoch: the count of the epoch starts again at zero.
    pub fn next_epoch(&mut self)
        ensures
            final(self).epoch_made() == 0,
            final(self).epoch_allowed() == old(self).epoch_allowed(),
            final(self).proposals_made() == old(self).proposals_made(),
            final(self).proposals_allowed() == old(self).proposals_allowed(),
            final(self).steady(*old(self)),
            final(self).pending_view() == old(self).pending_view(),
    {
        self.in_epoch = 0;
    }

    /// The run stands where `before` stood: same current and best solution,
    /// same visited solutions.
    pub open spec fn steady(&self, before: Self) -> bool {
        &&& self.current_view() == before.current_view()
        &&& self.best_view() == before.best_view()
        &&& self.visited() == before.visited()
    }

    /// The run has moved on from `before` by one solution.
    pub open spec fn moved(&self, before: Self) -> bool {
        self.visited() == before.visited().push(self.current_view())
    }

    /// The run has had one proposal more than `before`, in the epoch and in
    /// all.
    pub open spec fn counted(&self, before: Self) -> bool {
        &&& self.proposals_made() == before.proposals_made() + 1
        &&& self.epoch_made() == before.epoch_made() + 1
    }

    /// The run has had as many proposals as `before`, under the same caps.
    pub open spec fn same_counts(&self, before: Self) -> bool {
        &&& self.proposals_made() == before.proposals_made()
        &&& self.proposals_allowed() == before.proposals_allowed()
        &&& self.epoch_made() == before.epoch_made()
        &&& self.epoch_allowed() == before.epoch_allowed()
    }
}

/// One batch of trials for the calibration of the starting temperature:
/// how many neighbors of a fixed solution were drawn, and how many of them
/// were accepted.
pub struct Calibration {
    accepted: usize,
    trials: usize,
    batch: usize,
    awaiting: bool,
}

impl Calibration {
    #[verifier::type_invariant]
    spec fn counts_in_range(self) -> bool {
        &&& self.accepted <= self.trials <= self.batch
        &&& self.awaiting ==> self.accepted < self.trials
    }

    /// How many trials of the batch were accepted.
    pub closed spec fn accepted_view(&self) -> nat {
        self.accepted as nat
    }

    /// How many trials the batch has had.
    pub closed spec fn trials_view(&self) -> nat {
        self.trials as nat
    }

    /// How many trials make the batch.
    pub closed spec fn batch_view(&self) -> nat {
        self.batch as nat
    }

    /// The last trial waits for a verdict.
    pub closed spec fn awaiting_view(&self) -> bool {
        self.awaiting
    }

    /// An empty batch that is to have `sa_gas` trials.
    pub fn new(sa_gas: usize) -> (batch: Self)
        ensures
            batch.accepted_view() == 0,
            batch.trials_view() == 0,
            batch.batch_view() == sa_gas,
            !batch.awaiting_view(),
    {
        Calibration { accepted: 0, trials: 0, batch: sa_gas, awaiting: false }
    }

    /// How many trials of the batch were accepted.
    pub fn accepted(&self) -> (n: usize)
        ensures
            n == self.accepted_view(),
            n <= self.trials_view(),
    {
        proof {
            use_type_invariant(self);
        }
        self.accepted
    }

    /// How many trials the batch has had.
    pub fn trials(&self) -> (n: usize)
        ensures
            n == self.trials_view(),
            n <= self.batch_view(),
    {
        proof {
            use_type_invariant(self);
        }
        self.trials
    }

    /// Tells whether the batch has had all its trials.
    pub fn is_complete(&self) -> (complete: bool)
        ensures
            complete == (self.trials_view() == self.batch_view()),
    {
        self.trials == self.batch
    }

    /// Tells whether the last trial waits for a verdict.
    pub fn is_awaiting(&self) -> (awaiting: bool)
        ensures
            awaiting == self.awaiting_view(),
    {
        self.awaiting
    }

    /// One trial: a random neighbor of `s` is drawn and counted. One that
    /// costs less than `s` is accepted at once. For any other, the result
    /// says by how much it costs more, and the trial waits for a verdict.
    pub fn trial<S: View + Clone, P: Problem<S>>(
        &mut self,
        problem: &P,
        s: &S,
        rng: &mut StdRng,
    ) -> (risen: Option<u128>)
        requires
            problem.well_formed(),
            problem.admits(s@),
            !old(self).awaiting_view(),
            old(self).trials_view() < old(self).batch_view(),
        ensures
            final(self).trials_view() == old(self).trials_view() + 1,
            final(self).batch_view() == old(self).batch_view(),
            final(self).awaiting_view() == risen.is_some(),
            final(self).accepted_view() == old(self).accepted_view() + if risen.is_none() {
                1nat
            } else {
                0nat
            },
            exists|neighbor: S::V|
                {
                    &&& problem.admits(neighbor)
                    &&& problem.neighbors(s@, neighbor)
                    &&& match risen {
                        Some(by) => #[trigger] rise(problem, s@, neighbor) == Some(by as nat),
                        None => rise(problem, s@, neighbor).is_none(),
                    }
                },
    {
        proof {
            use_type_invariant(&*self);
        }
        let neighbor = problem.random_neighbor(s, rng);
        let risen = weigh(problem, s, &neighbor);
        let accepted: usize = if risen.is_none() {
            self.accepted + 1
        } else {
            self.accepted
        };
        *self = Calibration {
            accepted,
            trials: self.trials + 1,
            batch: self.batch,
            awaiting: risen.is_some(),
        };
        assert(rise(problem, s@, neighbor@) == rise(problem, s@, neighbor@));
        risen
    }

    /// The verdict on the trial that waits: it counts as accepted or it does
    /// not.
    pub fn count(&mut self, accept: bool)
        requires
            old(self).awaiting_view(),
        ensures
            !final(self).awaiting_view(),
            final(self).trials_view() == old(self).trials_view(),
            final(self).batch_view() == old(self).batch_view(),
            final(self).accepted_view() == old(self).accepted_view() + if accept {
                1nat
            } else {
                0nat
            },
    {
        proof {
            use_type_invariant(&*self);
        }
        let accepted: usize = if accept {
            self.accepted + 1
        } else {
            self.accepted
        };
        *self = Calibration { accepted, trials: self.trials, batch: self.batch, awaiting: false };
    }

    /// Empties the batch for another round of as many trials.
    pub fn restart(&mut self)
        ensures
            final(self).accepted_view() == 0,
            final(self).trials_view() == 0,
            final(self).batch_view() == old(self).batch_view(),
            !final(self).awaiting_view(),
    {
        *self = Calibration { accepted: 0, trials: 0, batch: self.batch, awaiting: false };
    }
}

} // verus!
