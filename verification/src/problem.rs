//! The landing problem: planes with landing windows, penalties and
//! separation times, and what a landing order costs.
use crate::metaheuristics::Problem;
use crate::neighborhood::{lemma_zigzag_grows, retime, retimed, span, zigzag_within};
use crate::order::{
    distinct_planes, in_landing_order, lemma_sorted_in_order, lemma_sorted_keeps_planes,
    planes_below, sort_by_landing_time,
};
use crate::parser::ProblemData;
use crate::random::{draw_between, shuffle};
use rand::rngs::StdRng;
use vstd::prelude::*;

verus! {

/// Index of a plane in the instance; also its row and column in the
/// separation matrix.
pub type ID = usize;

/// How many hundredths make one cost unit. Every cost and every penalty rate
/// of this crate is a count of hundredths.
pub const COST_SCALE: u128 = 100;

/// Cost of a conflict between two landings per unit of time by which they
/// are too close: 5000 cost units.
pub const CONFLICT_PENALTY: u128 = 500_000;

/// The most that one landing can cost: the largest rate times the longest
/// distance from the target.
pub const LANDING_LIMIT: u128 = 0xFFFF_FFFE_0000_0001;

/// The most that one conflict can cost.
pub const CONFLICT_LIMIT: u128 = 2_147_483_647_500_000;

/// One plane of the instance.
#[derive(Debug)]
pub struct Plane {
    pub id: ID,
    pub earliest_landing: u32,
    pub target_landing: u32,
    pub latest_landing: u32,
    /// The penalty per unit of time for landing before the target time, in
    /// hundredths of a cost unit.
    pub penalty_before: u32,
    /// The penalty per unit of time for landing after the target time, in
    /// hundredths of a cost unit.
    pub penalty_after: u32,
    /// For each plane of the instance, the time that has to pass after this
    /// plane has landed before that plane may land.
    pub separation_times: Vec<u32>,
}

impl Plane {
    /// The penalty for landing at `landing_time`: the distance from the
    /// target time, at the rate of the side on which the landing falls.
    pub open spec fn penalty(&self, landing_time: u32) -> nat {
        if landing_time < self.target_landing {
            (self.penalty_before * (self.target_landing - landing_time)) as nat
        } else {
            (self.penalty_after * (landing_time - self.target_landing)) as nat
        }
    }

    /// `landing_time` lies in the landing window.
    pub open spec fn allows(&self, landing_time: u32) -> bool {
        self.earliest_landing <= landing_time <= self.latest_landing
    }

    /// What it costs to land this plane at `landing_time`.
    pub fn cost_for_landing(&self, landing_time: u32) -> (cost: u128)
        ensures
            cost == self.penalty(landing_time),
            cost <= LANDING_LIMIT,
    {
        if landing_time < self.target_landing {
            let early: u32 = self.target_landing - landing_time;
            assert(self.penalty_before * early <= 0xFFFF_FFFE_0000_0001) by (nonlinear_arith)
                requires
                    self.penalty_before <= 0xFFFF_FFFF,
                    early <= 0xFFFF_FFFF,
            ;
            self.penalty_before as u128 * early as u128
        } else {
            let late: u32 = landing_time - self.target_landing;
            assert(self.penalty_after * late <= 0xFFFF_FFFE_0000_0001) by (nonlinear_arith)
                requires
                    self.penalty_after <= 0xFFFF_FFFF,
                    late <= 0xFFFF_FFFF,
            ;
            self.penalty_after as u128 * late as u128
        }
    }
}

/// One plane landing at one time.
#[derive(Debug, Clone, Copy, PartialEq, Eq, Hash, Structural)]
pub struct Arrival {
    pub plane_id: ID,
    pub landing_time: u32,
}

impl Arrival {
    /// The arrival of plane `plane_id` at `landing_time`.
    pub fn new(plane_id: ID, landing_time: u32) -> (arrival: Self)
        ensures
            arrival.plane_id == plane_id,
            arrival.landing_time == landing_time,
    {
        Arrival { plane_id, landing_time }
    }
}

/// Arrivals in the order in which the planes land.
pub type Solution = Vec<Arrival>;

/// Two landings next to each other that are too close, and by how much.
pub type Conflict = (Arrival, Arrival, u32);

/// What `conflicts` cost together: `CONFLICT_PENALTY` for each unit of time
/// of each of them.
pub open spec fn penalty_of(conflicts: Seq<Conflict>) -> nat
    decreases conflicts.len(),
{
    if conflicts.len() == 0 {
        0
    } else {
        penalty_of(conflicts.drop_last()) + (CONFLICT_PENALTY * conflicts.last().2) as nat
    }
}

/// An instance of the landing problem: its planes, each at the index that is
/// its id.
#[derive(Debug)]
pub struct LandingProblem {
    pub planes: Vec<Plane>,
}

impl LandingProblem {
    /// The instance is sound: it has a plane, and no more planes than a
    /// vector can hold; each plane stands at its own index, its window holds
    /// its target, and it has a separation time for every plane.
    pub open spec fn sound(&self) -> bool {
        &&& 0 < self.planes@.len() <= isize::MAX
        &&& forall|i: int|
            0 <= i < self.planes@.len() ==> {
                let plane = #[trigger] self.planes@[i];
                &&& plane.id == i
                &&& plane.earliest_landing <= plane.target_landing <= plane.latest_landing
                &&& plane.separation_times@.len() == self.planes@.len()
            }
    }

    /// Every arrival of `s` is of a plane of this instance.
    pub open spec fn known(&self, s: Seq<Arrival>) -> bool {
        planes_below(s, self.planes@.len())
    }

    /// `s` is a solution: one arrival for each plane, in landing order.
    pub open spec fn schedules(&self, s: Seq<Arrival>) -> bool {
        &&& s.len() == self.planes@.len()
        &&& self.known(s)
        &&& distinct_planes(s)
        &&& in_landing_order(s)
    }

    /// The time that has to pass after plane `a` has landed before plane `b`
    /// may land.
    pub open spec fn separation(&self, a: ID, b: ID) -> u32 {
        self.planes@[a as int].separation_times@[b as int]
    }

    /// By how much `b` lands too early behind `a`; zero or less when the two
    /// are far enough apart.
    pub open spec fn overlap(&self, a: Arrival, b: Arrival) -> int {
        a.landing_time + self.separation(a.plane_id, b.plane_id) - b.landing_time
    }

    /// The sum of the penalties of the arrivals of `s`.
    pub open spec fn landing_cost_spec(&self, s: Seq<Arrival>) -> nat
        decreases s.len(),
    {
        if s.len() == 0 {
            0
        } else {
            self.landing_cost_spec(s.drop_last()) + self.planes@[s.last().plane_id as int].penalty(
                s.last().landing_time,
            )
        }
    }

    /// The conflicts of `s`, front to back: each pair of arrivals next to
    /// each other of which the second lands too early behind the first.
    pub open spec fn conflicts_spec(&self, s: Seq<Arrival>) -> Seq<Conflict>
        decreases s.len(),
    {
        if s.len() < 2 {
            Seq::empty()
        } else {
            let before = self.conflicts_spec(s.drop_last());
            let a = s[s.len() - 2];
            let b = s[s.len() - 1];
            if self.overlap(a, b) > 0 {
                before.push((a, b, self.overlap(a, b) as u32))
            } else {
                before
            }
        }
    }

    /// What the conflicts of `s` cost.
    pub open spec fn conflict_cost_spec(&self, s: Seq<Arrival>) -> nat {
        penalty_of(self.conflicts_spec(s))
    }

    /// What `s` costs: its landings and its conflicts.
    pub open spec fn cost_spec(&self, s: Seq<Arrival>) -> nat {
        self.landing_cost_spec(s) + self.conflict_cost_spec(s)
    }

    /// Builds the instance from `data`: the planes in the order given, each
    /// with its index as its id.
    pub fn from_parser(data: ProblemData) -> (problem: Self)
        requires
            data.consistent(),
        ensures
            problem.sound(),
            problem.planes@.len() == data.planes@.len(),
            forall|i: int|
                0 <= i < data.planes@.len() ==> {
                    let plane = #[trigger] problem.planes@[i];
                    let given = data.planes@[i];
                    &&& plane.id == i
                    &&& plane.earliest_landing == given.earliest_landing
                    &&& plane.target_landing == given.target_landing
                    &&& plane.latest_landing == given.latest_landing
                    &&& plane.penalty_before == given.penalty_before
                    &&& plane.penalty_after == given.penalty_after
                    &&& plane.separation_times == given.separation_times
                },
    {
        let ghost given: Seq<crate::parser::Plane> = data.planes@;
        let mut planes: Vec<Plane> = Vec::new();
        let mut id: usize = 0;
        for p in it: data.planes
            invariant
                id == it.index(),
                it.seq() == given,
                given.len() <= usize::MAX,
                planes@.len() == id,
                forall|i: int|
                    0 <= i < id ==> {
                        let plane = #[trigger] planes@[i];
                        &&& plane.id == i
                        &&& plane.earliest_landing == given[i].earliest_landing
                        &&& plane.target_landing == given[i].target_landing
                        &&& plane.latest_landing == given[i].latest_landing
                        &&& plane.penalty_before == given[i].penalty_before
                        &&& plane.penalty_after == given[i].penalty_after
                        &&& plane.separation_times == given[i].separation_times
                    },
        {
            planes.push(
                Plane {
                    id,
                    earliest_landing: p.earliest_landing,
                    target_landing: p.target_landing,
                    latest_landing: p.latest_landing,
                    penalty_before: p.penalty_before,
                    penalty_after: p.penalty_after,
                    separation_times: p.separation_times,
                },
            );
            id += 1;
        }
        let problem = LandingProblem { planes };
        assert forall|i: int| 0 <= i < problem.planes@.len() implies {
            let plane = #[trigger] problem.planes@[i];
            &&& plane.id == i
            &&& plane.earliest_landing <= plane.target_landing <= plane.latest_landing
            &&& plane.separation_times@.len() == problem.planes@.len()
        } by {
            assert(given[i].fits(data.num_planes));
        }
        problem
    }

    /// The conflicts of `solution`, front to back.
    pub fn conflicts(&self, solution: &Solution) -> (found: Vec<Conflict>)
        requires
            self.sound(),
            self.known(solution@),
            in_landing_order(solution@),
        ensures
            found@ == self.conflicts_spec(solution@),
    {
        let mut found: Vec<Conflict> = Vec::new();
        if solution.len() < 2 {
            return found;
        }
        let mut k: usize = 1;
        while k < solution.len()
            invariant
                self.sound(),
                self.known(solution@),
                in_landing_order(solution@),
                1 <= k <= solution@.len(),
                found@ == self.conflicts_spec(solution@.take(k as int)),
            decreases solution.len() - k,
        {
            let a: Arrival = solution[k - 1];
            let b: Arrival = solution[k];
            let due: u64 = a.landing_time as u64 + self.separation_time_between(
                a.plane_id,
                b.plane_id,
            ) as u64;
            proof {
                assert(solution@.take(k + 1).drop_last() =~= solution@.take(k as int));
                assert(solution@[k - 1].landing_time <= solution@[k as int].landing_time);
            }
            if due > b.landing_time as u64 {
                let by: u32 = (due - b.landing_time as u64) as u32;
                found.push((a, b, by));
            }
            k += 1;
        }
        assert(solution@.take(k as int) =~= solution@);
        found
    }

    /// Tells whether `solution` is free of conflicts.
    pub fn is_valid(&self, solution: &Solution) -> (valid: bool)
        requires
            self.sound(),
            self.known(solution@),
            in_landing_order(solution@),
        ensures
            valid == (self.conflicts_spec(solution@).len() == 0),
    {
        self.conflicts(solution).len() == 0
    }

    /// The time that has to pass after plane `a` has landed before plane `b`
    /// may land.
    pub fn separation_time_between(&self, a: ID, b: ID) -> (time: u32)
        requires
            self.sound(),
            a < self.planes@.len(),
            b < self.planes@.len(),
        ensures
            time == self.separation(a, b),
    {
        self.planes[a].separation_times[b]
    }

    /// What the landings of `solution` cost.
    pub fn landing_cost(&self, solution: &Solution) -> (cost: u128)
        requires
            self.sound(),
            self.known(solution@),
        ensures
            cost == self.landing_cost_spec(solution@),
    {
        let mut total: u128 = 0;
        let mut k: usize = 0;
        while k < solution.len()
            invariant
                self.sound(),
                self.known(solution@),
                k <= solution@.len(),
                total == self.landing_cost_spec(solution@.take(k as int)),
                total <= k * LANDING_LIMIT,
            decreases solution.len() - k,
        {
            let a: Arrival = solution[k];
            let one: u128 = self.planes[a.plane_id].cost_for_landing(a.landing_time);
            proof {
                assert(solution@.take(k + 1).drop_last() =~= solution@.take(k as int));
                assert((k + 1) * LANDING_LIMIT <= u128::MAX) by (nonlinear_arith)
                    requires
                        k < 0x1_0000_0000_0000_0000,
                        LANDING_LIMIT == 0xFFFF_FFFE_0000_0001,
                ;
                assert((k + 1) * LANDING_LIMIT == k * LANDING_LIMIT + LANDING_LIMIT)
                    by (nonlinear_arith);
            }
            total = total + one;
            k += 1;
        }
        assert(solution@.take(k as int) =~= solution@);
        total
    }

    /// What the conflicts of `solution` cost.
    pub fn conflict_cost(&self, solution: &Solution) -> (cost: u128)
        requires
            self.sound(),
            self.known(solution@),
            in_landing_order(solution@),
        ensures
            cost == self.conflict_cost_spec(solution@),
    {
        let found = self.conflicts(solution);
        proof {
            self.lemma_conflicts_bound(solution@);
        }
        let mut total: u128 = 0;
        let mut k: usize = 0;
        while k < found.len()
            invariant
                k <= found@.len(),
                total == penalty_of(found@.take(k as int)),
                total <= k * CONFLICT_LIMIT,
            decreases found.len() - k,
        {
            let by: u32 = found[k].2;
            proof {
                assert(found@.take(k + 1).drop_last() =~= found@.take(k as int));
                assert(CONFLICT_PENALTY * by <= CONFLICT_LIMIT) by (nonlinear_arith)
                    requires
                        by <= 0xFFFF_FFFF,
                        CONFLICT_PENALTY == 500_000,
                        CONFLICT_LIMIT == 2_147_483_647_500_000,
                ;
                assert((k + 1) * CONFLICT_LIMIT <= u128::MAX) by (nonlinear_arith)
                    requires
                        k < 0x1_0000_0000_0000_0000,
                        CONFLICT_LIMIT == 2_147_483_647_500_000,
                ;
                assert((k + 1) * CONFLICT_LIMIT == k * CONFLICT_LIMIT + CONFLICT_LIMIT)
                    by (nonlinear_arith);
            }
            total = total + CONFLICT_PENALTY * by as u128;
            k += 1;
        }
        assert(found@.take(k as int) =~= found@);
        total
    }

    /// Where every plane lands at its target time, the landings cost nothing;
    /// where there is no conflict either, the solution costs nothing.
    pub proof fn lemma_on_target_costs_nothing(&self, s: Seq<Arrival>)
        requires
            forall|k: int|
                0 <= k < s.len() ==> (#[trigger] s[k]).landing_time
                    == self.planes@[s[k].plane_id as int].target_landing,
        ensures
            self.landing_cost_spec(s) == 0,
            self.conflicts_spec(s).len() == 0 ==> self.cost_spec(s) == 0,
        decreases s.len(),
    {
        if s.len() > 0 {
            let front = s.drop_last();
            assert forall|k: int| 0 <= k < front.len() implies (#[trigger] front[k]).landing_time
                == self.planes@[front[k].plane_id as int].target_landing by {
                assert(front[k] == s[k]);
            }
            self.lemma_on_target_costs_nothing(front);
            assert(s.last() == s[s.len() - 1]);
        }
    }

    /// A solution is free of conflicts where no arrival lands too early
    /// behind the one in front of it, and only there.
    pub proof fn lemma_no_conflict_means_apart(&self, s: Seq<Arrival>)
        ensures
            self.conflicts_spec(s).len() == 0 <==> forall|k: int|
                0 < k < s.len() ==> self.overlap(s[k - 1], #[trigger] s[k]) <= 0,
        decreases s.len(),
    {
        if s.len() >= 2 {
            let front = s.drop_last();
            self.lemma_no_conflict_means_apart(front);
            if self.conflicts_spec(s).len() == 0 {
                assert forall|k: int| 0 < k < s.len() implies self.overlap(
                    s[k - 1],
                    #[trigger] s[k],
                ) <= 0 by {
                    if k < front.len() {
                        assert(front[k - 1] == s[k - 1] && front[k] == s[k]);
                    }
                }
            }
            if forall|k: int| 0 < k < s.len() ==> self.overlap(s[k - 1], #[trigger] s[k]) <= 0 {
                assert forall|k: int| 0 < k < front.len() implies self.overlap(
                    front[k - 1],
                    #[trigger] front[k],
                ) <= 0 by {
                    assert(front[k - 1] == s[k - 1] && front[k] == s[k]);
                }
                assert(self.overlap(s[s.len() - 2], s[s.len() - 1]) <= 0);
            }
        }
    }

    /// There are fewer conflicts than arrivals.
    proof fn lemma_conflicts_bound(&self, s: Seq<Arrival>)
        ensures
            self.conflicts_spec(s).len() <= s.len(),
        decreases s.len(),
    {
        if s.len() >= 2 {
            self.lemma_conflicts_bound(s.drop_last());
        }
    }

    /// No landing costs more than `LANDING_LIMIT`.
    proof fn lemma_landing_cost_bound(&self, s: Seq<Arrival>)
        ensures
            self.landing_cost_spec(s) <= s.len() * LANDING_LIMIT,
        decreases s.len(),
    {
        if s.len() > 0 {
            self.lemma_landing_cost_bound(s.drop_last());
            let plane = self.planes@[s.last().plane_id as int];
            let time = s.last().landing_time;
            assert(plane.penalty(time) <= LANDING_LIMIT) by {
                if time < plane.target_landing {
                    assert(plane.penalty_before * (plane.target_landing - time)
                        <= 0xFFFF_FFFE_0000_0001) by (nonlinear_arith)
                        requires
                            0 <= plane.penalty_before <= 0xFFFF_FFFF,
                            0 <= plane.target_landing - time <= 0xFFFF_FFFF,
                    ;
                } else {
                    assert(plane.penalty_after * (time - plane.target_landing)
                        <= 0xFFFF_FFFE_0000_0001) by (nonlinear_arith)
                        requires
                            0 <= plane.penalty_after <= 0xFFFF_FFFF,
                            0 <= time - plane.target_landing <= 0xFFFF_FFFF,
                    ;
                }
            }
            assert(s.len() * LANDING_LIMIT == (s.len() - 1) * LANDING_LIMIT + LANDING_LIMIT)
                by (nonlinear_arith);
        }
    }

    /// No conflict costs more than `CONFLICT_LIMIT`.
    proof fn lemma_conflict_cost_bound(&self, s: Seq<Arrival>)
        ensures
            self.conflict_cost_spec(s) <= s.len() * CONFLICT_LIMIT,
    {
        self.lemma_conflicts_bound(s);
        let found = self.conflicts_spec(s);
        lemma_penalty_bound(found);
        assert(found.len() * CONFLICT_LIMIT <= s.len() * CONFLICT_LIMIT) by (nonlinear_arith)
            requires
                found.len() <= s.len(),
                CONFLICT_LIMIT >= 0,
        ;
    }
}

/// No conflict costs more than `CONFLICT_LIMIT`.
proof fn lemma_penalty_bound(conflicts: Seq<Conflict>)
    ensures
        penalty_of(conflicts) <= conflicts.len() * CONFLICT_LIMIT,
    decreases conflicts.len(),
{
    if conflicts.len() > 0 {
        lemma_penalty_bound(conflicts.drop_last());
        let by = conflicts.last().2;
        assert(CONFLICT_PENALTY * by <= CONFLICT_LIMIT) by (nonlinear_arith)
            requires
                by <= 0xFFFF_FFFF,
                CONFLICT_PENALTY == 500_000,
                CONFLICT_LIMIT == 2_147_483_647_500_000,
        ;
        assert(conflicts.len() * CONFLICT_LIMIT == (conflicts.len() - 1) * CONFLICT_LIMIT
            + CONFLICT_LIMIT) by (nonlinear_arith);
    }
}

impl Problem<Solution> for LandingProblem {
    open spec fn well_formed(&self) -> bool {
        self.sound()
    }

    open spec fn admits(&self, solution: Seq<Arrival>) -> bool {
        self.schedules(solution)
    }

    open spec fn objective(&self, solution: Seq<Arrival>) -> nat {
        self.cost_spec(solution)
    }

    open spec fn initial(&self) -> Seq<Arrival> {
        self.initial_spec()
    }

    open spec fn neighbors(&self, from: Seq<Arrival>, to: Seq<Arrival>) -> bool {
        self.one_move_apart(from, to)
    }

    open spec fn settled(&self, solution: Seq<Arrival>) -> bool {
        self.at_rest(solution)
    }

    open spec fn improvement(&self, from: Seq<Arrival>, to: Seq<Arrival>) -> bool {
        self.one_improvement_apart(from, to)
    }

    proof fn clone_keeps_view(a: Solution, b: Solution) {
    }

    /// Every plane at its target time, in landing order.
    fn initial_solution(&self) -> (s: Solution)
        ensures
            self.within_windows(s@),
    {
        proof {
            self.lemma_initial_within_windows();
        }
        let mut arrivals: Vec<Arrival> = Vec::new();
        let mut i: usize = 0;
        while i < self.planes.len()
            invariant
                self.sound(),
                i <= self.planes@.len(),
                arrivals@.len() == i,
                forall|k: int|
                    0 <= k < i ==> #[trigger] arrivals@[k] == (Arrival {
                        plane_id: k as ID,
                        landing_time: self.planes@[k].target_landing,
                    }),
            decreases self.planes.len() - i,
        {
            let plane = &self.planes[i];
            arrivals.push(Arrival::new(plane.id, plane.target_landing));
            i += 1;
        }
        proof {
            assert(arrivals@ =~= Seq::new(
                self.planes@.len(),
                |i: int| Arrival { plane_id: i as ID, landing_time: self.planes@[i].target_landing },
            ));
            assert(distinct_planes(arrivals@));
            assert(planes_below(arrivals@, self.planes@.len()));
            lemma_sorted_keeps_planes(arrivals@, self.planes@.len());
            lemma_sorted_in_order(arrivals@);
        }
        sort_by_landing_time(&arrivals)
    }

    /// One arrival, drawn evenly among the positions of `solution`, moved to
    /// a time drawn evenly from the window of its plane.
    fn random_neighbor(&self, solution: &Solution, rng: &mut StdRng) -> (neighbor: Solution)
        ensures
            self.within_windows(solution@) ==> self.within_windows(neighbor@),
    {
        let last: usize = solution.len() - 1;
        let i: usize = draw_between(rng, 0, last as u64) as usize;
        let arrival: Arrival = solution[i];
        let plane = &self.planes[arrival.plane_id];
        let t: u32 = draw_between(rng, plane.earliest_landing as u64, plane.latest_landing as u64)
            as u32;
        let neighbor = retime(solution, i, t);
        proof {
            self.lemma_retimed_schedules(solution@, i as int, t);
            assert(neighbor@ == retimed(solution@, i as int, t));
            if self.within_windows(solution@) {
                self.lemma_neighbor_within_windows(solution@, neighbor@);
            }
        }
        neighbor
    }

    /// The arrivals are gone through in a shuffled order, and for each the
    /// landing times of its zigzag are tried in turn. The first move that
    /// lowers the cost is made; where there is none, `solution` comes back
    /// unchanged.
    fn first_improvement_neighbor(&self, solution: &Solution, rng: &mut StdRng) -> (neighbor:
        Solution)
        ensures
            self.within_windows(solution@) ==> self.within_windows(neighbor@),
    {
        let mut order: Vec<usize> = Vec::new();
        let mut i: usize = 0;
        while i < solution.len()
            invariant
                i <= solution@.len(),
                order@.len() == i,
                forall|k: int| 0 <= k < i ==> #[trigger] order@[k] == k,
            decreases solution.len() - i,
        {
            order.push(i);
            i += 1;
        }
        let ghost straight: Seq<usize> = order@;
        shuffle(rng, &mut order);
        proof {
            broadcast use vstd::seq_lib::to_multiset_contains;

            assert forall|v: int| 0 <= v < order@.len() implies (#[trigger] order@[v])
                < solution@.len() by {
                assert(order@.contains(order@[v]));
                assert(order@.to_multiset().count(order@[v]) > 0);
                assert(straight.contains(order@[v]));
            }
            assert forall|p: usize| p < solution@.len() implies #[trigger] order@.contains(p) by {
                assert(straight[p as int] == p);
                assert(straight.contains(p));
                assert(straight.to_multiset().count(p) > 0);
            }
        }
        let mut v: usize = 0;
        while v < order.len()
            invariant
                self.sound(),
                self.schedules(solution@),
                v <= order@.len(),
                forall|w: int| 0 <= w < order@.len() ==> (#[trigger] order@[w]) < solution@.len(),
                forall|p: usize| p < solution@.len() ==> #[trigger] order@.contains(p),
                forall|w: int, j: int|
                    0 <= w < v && 0 <= j < self.candidates(solution@, order@[w] as int).len()
                        ==> !#[trigger] self.improves(
                        solution@,
                        order@[w] as int,
                        self.candidates(solution@, order@[w] as int)[j],
                    ),
            decreases order.len() - v,
        {
            let found = self.improve_arrival(solution, order[v]);
            match found {
                Some(neighbor) => {
                    proof {
                        let i = order@[v as int] as int;
                        let j = choose|j: int|
                            self.first_improvement(solution@, i, j) && neighbor@ == retimed(
                                solution@,
                                i,
                                self.candidates(solution@, i)[j],
                            );
                        self.lemma_retimed_schedules(
                            solution@,
                            i,
                            self.candidates(solution@, i)[j],
                        );
                        self.lemma_candidates_in_window(solution@, i, j);
                        assert(self.improves(solution@, i, self.candidates(solution@, i)[j]));
                        assert(!self.at_rest(solution@));
                        assert(self.one_improvement_apart(solution@, neighbor@));
                        assert(self.one_move_apart(solution@, neighbor@));
                        if self.within_windows(solution@) {
                            self.lemma_neighbor_within_windows(solution@, neighbor@);
                        }
                    }
                    return neighbor;
                },
                None => {},
            }
            v += 1;
        }
        proof {
            assert forall|i: int, j: int|
                0 <= i < solution@.len() && 0 <= j < self.candidates(
                    solution@,
                    i,
                ).len() implies !#[trigger] self.improves(
                solution@,
                i,
                self.candidates(solution@, i)[j],
            ) by {
                assert(order@.contains(i as usize));
                let w = choose|w: int| 0 <= w < order@.len() && order@[w] == i as usize;
                assert(order@[w] as int == i);
            }
        }
        solution.clone()
    }

    /// What `solution` costs: what its landings cost and what its conflicts
    /// cost, added up.
    fn cost(&self, solution: &Solution) -> (c: u128)
        ensures
            c == self.landing_cost_spec(solution@) + self.conflict_cost_spec(solution@),
    {
        proof {
            self.lemma_landing_cost_bound(solution@);
            self.lemma_conflict_cost_bound(solution@);
            let n = solution@.len();
            assert(n * LANDING_LIMIT + n * CONFLICT_LIMIT <= u128::MAX) by (nonlinear_arith)
                requires
                    n <= 0x7FFF_FFFF_FFFF_FFFF,
                    LANDING_LIMIT == 0xFFFF_FFFE_0000_0001,
                    CONFLICT_LIMIT == 2_147_483_647_500_000,
            ;
        }
        self.landing_cost(solution) + self.conflict_cost(solution)
    }
}

impl LandingProblem {
    /// Tries the landing times of the zigzag of the arrival at position `i`
    /// in turn and makes the first move that lowers the cost, if there is
    /// one.
    pub fn improve_arrival(&self, solution: &Solution, i: usize) -> (found: Option<Solution>)
        requires
            self.sound(),
            self.schedules(solution@),
            i < solution@.len(),
        ensures
            match found {
                Some(neighbor) => exists|j: int|
                    #[trigger] self.first_improvement(solution@, i as int, j) && neighbor@
                        == retimed(solution@, i as int, self.candidates(solution@, i as int)[j]),
                None => forall|j: int|
                    0 <= j < self.candidates(solution@, i as int).len() ==> !#[trigger] self.improves(
                        solution@,
                        i as int,
                        self.candidates(solution@, i as int)[j],
                    ),
            },
    {
        let base: u128 = self.cost(solution);
        let arrival: Arrival = solution[i];
        let plane = &self.planes[arrival.plane_id];
        let current: u32 = arrival.landing_time;
        let down: u32 = if current >= plane.earliest_landing {
            current - plane.earliest_landing
        } else {
            0
        };
        let up: u32 = if plane.latest_landing >= current {
            plane.latest_landing - current
        } else {
            0
        };
        let far: u32 = if down >= up {
            down
        } else {
            up
        };
        let ghost tried: Seq<u32> = self.candidates(solution@, i as int);
        let ghost mut seen: Seq<u32> = zigzag_within(*plane, current, 0);
        proof {
            // The time at which the arrival lands already changes nothing.
            self.lemma_retimed_in_place(solution@, i as int);
            if plane.allows(current) {
                assert(seen[0] == current);
            }
        }
        let mut distance: u32 = 0;
        while distance < far
            invariant
                self.sound(),
                self.schedules(solution@),
                i < solution@.len(),
                base == self.cost_spec(solution@),
                *plane == self.planes@[solution@[i as int].plane_id as int],
                current == solution@[i as int].landing_time,
                far == span(*plane, current),
                tried == zigzag_within(*plane, current, far as nat),
                tried == self.candidates(solution@, i as int),
                distance <= far,
                seen == zigzag_within(*plane, current, distance as nat),
                forall|j: int| 0 <= j < seen.len() ==> !#[trigger] self.improves(solution@, i as int, seen[j]),
            decreases far - distance,
        {
            distance += 1;
            proof {
                lemma_zigzag_grows(*plane, current, distance as nat, far as nat);
            }
            let ghost now: Seq<u32> = zigzag_within(*plane, current, distance as nat);
            if distance <= current && plane.earliest_landing <= current - distance && current
                - distance <= plane.latest_landing {
                let earlier: u32 = current - distance;
                let sooner = retime(solution, i, earlier);
                proof {
                    self.lemma_retimed_schedules(solution@, i as int, earlier);
                    assert(now[seen.len() as int] == earlier);
                    assert(tried[seen.len() as int] == earlier);
                }
                if self.cost(&sooner) < base {
                    proof {
                        assert forall|k: int| 0 <= k < seen.len() implies !#[trigger] self.improves(
                            solution@,
                            i as int,
                            tried[k],
                        ) by {
                            assert(now[k] == seen[k]);
                            assert(tried[k] == now[k]);
                        }
                        assert(self.first_improvement(solution@, i as int, seen.len() as int));
                    }
                    return Some(sooner);
                }
                proof {
                    seen = seen.push(earlier);
                }
            }
            if distance <= u32::MAX - current && plane.earliest_landing <= current + distance
                && current + distance <= plane.latest_landing {
                let later: u32 = current + distance;
                let after = retime(solution, i, later);
                proof {
                    self.lemma_retimed_schedules(solution@, i as int, later);
                    assert(now[seen.len() as int] == later);
                    assert(tried[seen.len() as int] == later);
                }
                if self.cost(&after) < base {
                    proof {
                        assert forall|k: int| 0 <= k < seen.len() implies !#[trigger] self.improves(
                            solution@,
                            i as int,
                            tried[k],
                        ) by {
                            assert(now[k] == seen[k]);
                            assert(tried[k] == now[k]);
                        }
                        assert(self.first_improvement(solution@, i as int, seen.len() as int));
                    }
                    return Some(after);
                }
                proof {
                    seen = seen.push(later);
                }
            }
            assert(seen =~= now);
        }
        None
    }
}

} // verus!
