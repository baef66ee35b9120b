//! Moves: giving one arrival a new landing time. Both neighborhoods of the
//! landing problem are made of such moves.
use crate::order::{
    by_landing_time, distinct_planes, lemma_sorted_fixed, lemma_sorted_in_order,
    lemma_sorted_keeps_planes, lemma_sorted_members, planes_below, sort_by_landing_time,
};
use crate::problem::{Arrival, LandingProblem, Plane, Solution, ID};
use vstd::prelude::*;

verus! {

/// `s` with the landing time of its arrival at position `i` set to `t`, and
/// then sorted again.
pub open spec fn retimed(s: Seq<Arrival>, i: int, t: u32) -> Seq<Arrival> {
    by_landing_time(s.update(i, Arrival { plane_id: s[i].plane_id, landing_time: t }))
}

/// A copy of `solution` in which the arrival at position `i` lands at `t`,
/// sorted again. `solution` itself is left as it is.
pub fn retime(solution: &Solution, i: usize, t: u32) -> (moved: Solution)
    requires
        i < solution@.len(),
    ensures
        moved@ == retimed(solution@, i as int, t),
{
    let mut moved: Solution = solution.clone();
    let plane_id: ID = moved[i].plane_id;
    moved[i] = Arrival::new(plane_id, t);
    sort_by_landing_time(&moved)
}

/// How far a zigzag from `current` goes: to the farther end of the window.
pub open spec fn span(plane: Plane, current: u32) -> nat {
    if current - plane.earliest_landing >= plane.latest_landing - current {
        if current >= plane.earliest_landing {
            (current - plane.earliest_landing) as nat
        } else {
            0
        }
    } else {
        (plane.latest_landing - current) as nat
    }
}

/// The landing times of the window of `plane` that lie no further than
/// `distance` from `current`, nearest first: `current` itself, then one unit
/// of time earlier and one later, then two, and so on. At each distance the
/// earlier time comes first, and a time outside the window is left out.
pub open spec fn zigzag_within(plane: Plane, current: u32, distance: nat) -> Seq<u32>
    decreases distance,
{
    if distance == 0 {
        if plane.allows(current) {
            seq![current]
        } else {
            Seq::empty()
        }
    } else {
        let nearer = zigzag_within(plane, current, (distance - 1) as nat);
        let with_earlier = if plane.earliest_landing <= current - distance
            <= plane.latest_landing {
            nearer.push((current - distance) as u32)
        } else {
            nearer
        };
        if plane.earliest_landing <= current + distance <= plane.latest_landing {
            with_earlier.push((current + distance) as u32)
        } else {
            with_earlier
        }
    }
}

/// The landing times that are tried for a plane that lands at `current`, in
/// the order in which they are tried: every time of its window, those
/// nearest to `current` first, and of two that are equally near the earlier
/// first.
pub open spec fn zigzag(plane: Plane, current: u32) -> Seq<u32> {
    zigzag_within(plane, current, span(plane, current))
}

/// A zigzag that goes further starts with the one that goes less far.
pub proof fn lemma_zigzag_grows(plane: Plane, current: u32, near: nat, far: nat)
    requires
        near <= far,
    ensures
        zigzag_within(plane, current, near).len() <= zigzag_within(plane, current, far).len(),
        forall|k: int|
            0 <= k < zigzag_within(plane, current, near).len() ==> zigzag_within(
                plane,
                current,
                far,
            )[k] == #[trigger] zigzag_within(plane, current, near)[k],
    decreases far,
{
    if near < far {
        lemma_zigzag_grows(plane, current, near, (far - 1) as nat);
    }
}

/// A zigzag holds every time of the window that it goes as far as, and only
/// times of the window.
pub proof fn lemma_zigzag_within_window(plane: Plane, current: u32, distance: nat)
    ensures
        forall|k: int|
            0 <= k < zigzag_within(plane, current, distance).len() ==> plane.allows(
                #[trigger] zigzag_within(plane, current, distance)[k],
            ),
        forall|t: u32|
            plane.allows(t) && current - distance <= t <= current + distance ==> zigzag_within(
                plane,
                current,
                distance,
            ).contains(t),
    decreases distance,
{
    let here = zigzag_within(plane, current, distance);
    if distance == 0 {
        if plane.allows(current) {
            assert(here[0] == current);
        }
    } else {
        let nearer = zigzag_within(plane, current, (distance - 1) as nat);
        lemma_zigzag_within_window(plane, current, (distance - 1) as nat);
        lemma_zigzag_grows(plane, current, (distance - 1) as nat, distance);
        assert forall|t: u32|
            plane.allows(t) && current - distance <= t <= current + distance implies here.contains(
            t,
        ) by {
            if current - distance < t < current + distance {
                assert(nearer.contains(t));
                let k = choose|k: int| 0 <= k < nearer.len() && nearer[k] == t;
                assert(here[k] == nearer[k]);
            } else if t == current - distance {
                assert(here[nearer.len() as int] == t);
            } else {
                assert(here[here.len() - 1] == t);
            }
        }
    }
}

/// How far the time `t` lies from the time `current`.
pub open spec fn distance(current: u32, t: u32) -> int {
    if t >= current {
        t - current
    } else {
        current - t
    }
}

/// `t` is tried before `u` on a zigzag from `current`: it lies nearer to
/// `current`, or as near and earlier.
pub open spec fn tried_before(current: u32, t: u32, u: u32) -> bool {
    distance(current, t) < distance(current, u) || (distance(current, t) == distance(current, u)
        && t < u)
}

/// A zigzag goes from the nearest time to the farthest, the earlier of two
/// equally near times first, and holds no time twice.
pub proof fn lemma_zigzag_nearest_first(plane: Plane, current: u32, far: nat)
    ensures
        forall|k: int|
            0 <= k < zigzag_within(plane, current, far).len() ==> distance(
                current,
                #[trigger] zigzag_within(plane, current, far)[k],
            ) <= far,
        forall|j: int, k: int|
            0 <= j < k < zigzag_within(plane, current, far).len() ==> tried_before(
                current,
                #[trigger] zigzag_within(plane, current, far)[j],
                #[trigger] zigzag_within(plane, current, far)[k],
            ),
    decreases far,
{
    let here = zigzag_within(plane, current, far);
    if far > 0 {
        let nearer = zigzag_within(plane, current, (far - 1) as nat);
        lemma_zigzag_nearest_first(plane, current, (far - 1) as nat);
        lemma_zigzag_grows(plane, current, (far - 1) as nat, far);
        assert forall|k: int| 0 <= k < here.len() implies distance(current, #[trigger] here[k])
            <= far && (k >= nearer.len() ==> distance(current, here[k]) == far) by {
            if k < nearer.len() {
                assert(here[k] == nearer[k]);
            }
        }
        assert forall|j: int, k: int| 0 <= j < k < here.len() implies tried_before(
            current,
            #[trigger] here[j],
            #[trigger] here[k],
        ) by {
            if k < nearer.len() {
                assert(here[j] == nearer[j] && here[k] == nearer[k]);
            } else if j < nearer.len() {
                assert(here[j] == nearer[j]);
                assert(distance(current, nearer[j]) <= far - 1);
            }
        }
    }
}

/// Every time of the window of a plane is tried, and no other time,
/// wherever the plane lands.
pub proof fn lemma_zigzag_covers_window(plane: Plane, current: u32, t: u32)
    ensures
        zigzag(plane, current).contains(t) <==> plane.allows(t),
{
    lemma_zigzag_within_window(plane, current, span(plane, current));
    if zigzag(plane, current).contains(t) {
        let k = choose|k: int| 0 <= k < zigzag(plane, current).len() && zigzag(plane, current)[k] == t;
        assert(plane.allows(zigzag(plane, current)[k]));
    }
}

/// The position in `s` of the arrival of `plane`.
pub open spec fn position_of(s: Seq<Arrival>, plane: ID) -> int {
    choose|k: int| 0 <= k < s.len() && s[k].plane_id == plane
}

/// When `plane` lands according to `s`.
pub open spec fn landing_time_of(s: Seq<Arrival>, plane: ID) -> u32 {
    s[position_of(s, plane)].landing_time
}

impl LandingProblem {
    /// The solution in which every plane lands at its target time. Planes
    /// with the same target time land in the order of their ids.
    pub open spec fn initial_spec(&self) -> Seq<Arrival> {
        by_landing_time(
            Seq::new(
                self.planes@.len(),
                |i: int| Arrival { plane_id: i as ID, landing_time: self.planes@[i].target_landing },
            ),
        )
    }

    /// The landing times that are tried for the arrival at position `i` of
    /// `s`.
    pub open spec fn candidates(&self, s: Seq<Arrival>, i: int) -> Seq<u32> {
        zigzag(self.planes@[s[i].plane_id as int], s[i].landing_time)
    }

    /// `to` is `from` with one arrival moved to a time in its plane's window.
    pub open spec fn one_move_apart(&self, from: Seq<Arrival>, to: Seq<Arrival>) -> bool {
        exists|i: int, t: u32|
            0 <= i < from.len() && self.planes@[from[i].plane_id as int].allows(t) && to
                == #[trigger] retimed(from, i, t)
    }

    /// Moving the arrival at position `i` of `s` to `t` lowers the cost.
    pub open spec fn improves(&self, s: Seq<Arrival>, i: int, t: u32) -> bool {
        self.cost_spec(retimed(s, i, t)) < self.cost_spec(s)
    }

    /// `s` is at rest: no landing time that is tried for any of its arrivals
    /// lowers the cost.
    pub open spec fn at_rest(&self, s: Seq<Arrival>) -> bool {
        forall|i: int, j: int|
            0 <= i < s.len() && 0 <= j < self.candidates(s, i).len() ==> !#[trigger] self.improves(
                s,
                i,
                self.candidates(s, i)[j],
            )
    }

    /// A solution is at rest where no move of any arrival to any time of its
    /// window lowers the cost, and only there.
    pub proof fn lemma_at_rest_is_local_optimum(&self, s: Seq<Arrival>)
        ensures
            self.at_rest(s) <==> forall|i: int, t: u32|
                0 <= i < s.len() && self.planes@[s[i].plane_id as int].allows(t)
                    ==> !#[trigger] self.improves(s, i, t),
    {
        if self.at_rest(s) {
            assert forall|i: int, t: u32|
                0 <= i < s.len() && self.planes@[s[i].plane_id as int].allows(
                    t,
                ) implies !#[trigger] self.improves(s, i, t) by {
                lemma_zigzag_covers_window(self.planes@[s[i].plane_id as int], s[i].landing_time, t);
                let j = choose|j: int|
                    0 <= j < self.candidates(s, i).len() && self.candidates(s, i)[j] == t;
                assert(!self.improves(s, i, self.candidates(s, i)[j]));
            }
        }
        if forall|i: int, t: u32|
            0 <= i < s.len() && self.planes@[s[i].plane_id as int].allows(t)
                ==> !#[trigger] self.improves(s, i, t) {
            assert forall|i: int, j: int|
                0 <= i < s.len() && 0 <= j < self.candidates(s, i).len() implies !#[trigger] self.improves(
                s,
                i,
                self.candidates(s, i)[j],
            ) by {
                self.lemma_candidates_in_window(s, i, j);
            }
        }
    }

    /// The first improvement along the zigzag of an arrival moves it to the
    /// nearest time of its window that lowers the cost, and to the earlier of
    /// two such times that are equally near.
    pub proof fn lemma_first_improvement_is_nearest(&self, s: Seq<Arrival>, i: int, j: int)
        requires
            self.first_improvement(s, i, j),
        ensures
            self.planes@[s[i].plane_id as int].allows(self.candidates(s, i)[j]),
            self.improves(s, i, self.candidates(s, i)[j]),
            forall|u: u32|
                self.planes@[s[i].plane_id as int].allows(u) && tried_before(
                    s[i].landing_time,
                    u,
                    self.candidates(s, i)[j],
                ) ==> !#[trigger] self.improves(s, i, u),
    {
        let plane = self.planes@[s[i].plane_id as int];
        let current = s[i].landing_time;
        let tried = self.candidates(s, i);
        self.lemma_candidates_in_window(s, i, j);
        lemma_zigzag_nearest_first(plane, current, span(plane, current));
        assert forall|u: u32| plane.allows(u) && tried_before(current, u, tried[j]) implies !#[trigger] self.improves(
            s,
            i,
            u,
        ) by {
            lemma_zigzag_covers_window(plane, current, u);
            let k = choose|k: int| 0 <= k < tried.len() && tried[k] == u;
            if k > j {
                assert(tried_before(current, tried[j], tried[k]));
            }
            assert(!self.improves(s, i, tried[k]));
        }
    }

    /// `to` is `from` after the first improvement along the zigzag of one of
    /// its arrivals.
    pub open spec fn one_improvement_apart(&self, from: Seq<Arrival>, to: Seq<Arrival>) -> bool {
        exists|i: int, j: int|
            #[trigger] self.first_improvement(from, i, j) && to == retimed(
                from,
                i,
                self.candidates(from, i)[j],
            )
    }

    /// The arrival at position `i` of `s`, retimed to `candidates(s, i)[j]`,
    /// is the first improvement along the zigzag of that arrival.
    pub open spec fn first_improvement(&self, s: Seq<Arrival>, i: int, j: int) -> bool {
        &&& 0 <= i < s.len()
        &&& 0 <= j < self.candidates(s, i).len()
        &&& self.improves(s, i, self.candidates(s, i)[j])
        &&& forall|earlier: int|
            0 <= earlier < j ==> !#[trigger] self.improves(s, i, self.candidates(s, i)[earlier])
    }

    /// A move gives a solution again, whatever the new landing time.
    pub proof fn lemma_retimed_schedules(&self, s: Seq<Arrival>, i: int, t: u32)
        requires
            self.schedules(s),
            0 <= i < s.len(),
        ensures
            self.schedules(retimed(s, i, t)),
    {
        let moved = s.update(i, Arrival { plane_id: s[i].plane_id, landing_time: t });
        assert(distinct_planes(moved));
        assert(planes_below(moved, self.planes@.len()));
        lemma_sorted_keeps_planes(moved, self.planes@.len());
        lemma_sorted_in_order(moved);
    }

    /// In a solution every plane of the instance lands.
    pub proof fn lemma_every_plane_lands(&self, s: Seq<Arrival>, plane: ID)
        requires
            self.schedules(s),
            plane < self.planes@.len(),
        ensures
            0 <= position_of(s, plane) < s.len(),
            s[position_of(s, plane)].plane_id == plane,
    {
        let count = self.planes@.len() as int;
        let ids = Seq::new(s.len(), |k: int| s[k].plane_id as int);
        assert(ids.no_duplicates());
        ids.unique_seq_to_set();
        vstd::set_lib::lemma_int_range(0, count);
        let all = vstd::set_lib::set_int_range(0, count);
        assert(ids.to_set().subset_of(all)) by {
            assert forall|id: int| ids.to_set().contains(id) implies all.contains(id) by {
                let k = choose|k: int| 0 <= k < ids.len() && ids[k] == id;
                assert(s[k].plane_id < count);
            }
        }
        vstd::set_lib::lemma_len_subset(ids.to_set(), all);
        vstd::set_lib::lemma_subset_equality(ids.to_set(), all);
        assert(all.contains(plane as int));
        assert(ids.contains(plane as int));
        let k = choose|k: int| 0 <= k < ids.len() && ids[k] == plane as int;
        assert(0 <= k < s.len() && s[k].plane_id == plane);
    }

    /// A move changes when one plane lands, and nothing else: in
    /// `retimed(s, i, t)` the plane of `s[i]` lands at `t`, and every other
    /// plane lands when it lands in `s`.
    pub proof fn lemma_move_changes_one_landing(&self, s: Seq<Arrival>, i: int, t: u32)
        requires
            self.schedules(s),
            0 <= i < s.len(),
        ensures
            self.schedules(retimed(s, i, t)),
            landing_time_of(retimed(s, i, t), s[i].plane_id) == t,
            forall|other: ID|
                other < self.planes@.len() && other != s[i].plane_id ==> #[trigger] landing_time_of(
                    retimed(s, i, t),
                    other,
                ) == landing_time_of(s, other),
    {
        let set = Arrival { plane_id: s[i].plane_id, landing_time: t };
        let changed = s.update(i, set);
        let after = retimed(s, i, t);
        self.lemma_retimed_schedules(s, i, t);
        lemma_sorted_members(changed);
        assert forall|plane: ID| plane < self.planes@.len() implies #[trigger] landing_time_of(
            after,
            plane,
        ) == (if plane == s[i].plane_id {
            t
        } else {
            landing_time_of(s, plane)
        }) by {
            self.lemma_every_plane_lands(s, plane);
            self.lemma_every_plane_lands(after, plane);
            let from = position_of(s, plane);
            let to = position_of(after, plane);
            assert(changed.contains(changed[from]));
            assert(after.contains(changed[from]));
            let at = choose|at: int| 0 <= at < after.len() && after[at] == changed[from];
            assert(changed[from].plane_id == plane);
            if at != to {
                assert(after[at].plane_id == after[to].plane_id);
            }
            if plane == s[i].plane_id {
                if from != i {
                    assert(s[from].plane_id == s[i].plane_id);
                }
            }
        }
    }

    /// Of two solutions that are one move apart, the second differs from the
    /// first in the landing time of at most one plane, and that plane lands
    /// in its window.
    pub proof fn lemma_neighbor_differs_in_one_landing(
        &self,
        from: Seq<Arrival>,
        to: Seq<Arrival>,
    )
        requires
            self.schedules(from),
            self.one_move_apart(from, to),
        ensures
            self.schedules(to),
            exists|plane: ID|
                {
                    &&& plane < self.planes@.len()
                    &&& self.planes@[plane as int].allows(#[trigger] landing_time_of(to, plane))
                    &&& forall|other: ID|
                        other < self.planes@.len() && other != plane ==> #[trigger] landing_time_of(
                            to,
                            other,
                        ) == landing_time_of(from, other)
                },
    {
        let (i, t) = choose|i: int, t: u32|
            0 <= i < from.len() && self.planes@[from[i].plane_id as int].allows(t) && to
                == #[trigger] retimed(from, i, t);
        self.lemma_move_changes_one_landing(from, i, t);
        let plane = from[i].plane_id;
        assert(self.planes@[plane as int].allows(landing_time_of(to, plane)));
    }

    /// Every plane lands in its window.
    pub open spec fn within_windows(&self, s: Seq<Arrival>) -> bool {
        forall|k: int|
            0 <= k < s.len() ==> self.planes@[(#[trigger] s[k]).plane_id as int].allows(
                s[k].landing_time,
            )
    }

    /// A move from a solution in which every plane lands in its window leads
    /// to such a solution.
    pub proof fn lemma_neighbor_within_windows(&self, from: Seq<Arrival>, to: Seq<Arrival>)
        requires
            self.schedules(from),
            self.within_windows(from),
            self.one_move_apart(from, to),
        ensures
            self.within_windows(to),
    {
        let (i, t) = choose|i: int, t: u32|
            0 <= i < from.len() && self.planes@[from[i].plane_id as int].allows(t) && to
                == #[trigger] retimed(from, i, t);
        let changed = from.update(i, Arrival { plane_id: from[i].plane_id, landing_time: t });
        lemma_sorted_members(changed);
        assert forall|k: int| 0 <= k < to.len() implies self.planes@[(#[trigger] to[k]).plane_id as int].allows(
            to[k].landing_time,
        ) by {
            assert(to.contains(to[k]));
            assert(changed.contains(to[k]));
            let j = choose|j: int| 0 <= j < changed.len() && changed[j] == to[k];
            if j != i {
                assert(changed[j] == from[j]);
            }
        }
    }

    /// In the initial solution every plane lands in its window.
    pub proof fn lemma_initial_within_windows(&self)
        requires
            self.sound(),
        ensures
            self.within_windows(self.initial_spec()),
    {
        let targets = Seq::new(
            self.planes@.len(),
            |i: int| Arrival { plane_id: i as ID, landing_time: self.planes@[i].target_landing },
        );
        let s = self.initial_spec();
        lemma_sorted_members(targets);
        assert forall|k: int| 0 <= k < s.len() implies self.planes@[(#[trigger] s[k]).plane_id as int].allows(
            s[k].landing_time,
        ) by {
            assert(s.contains(s[k]));
            assert(targets.contains(s[k]));
            let j = choose|j: int| 0 <= j < targets.len() && targets[j] == s[k];
            assert(self.planes@[j].earliest_landing <= self.planes@[j].target_landing);
        }
    }

    /// Every candidate time lies in the window of its plane.
    pub proof fn lemma_candidates_in_window(&self, s: Seq<Arrival>, i: int, j: int)
        requires
            0 <= j < self.candidates(s, i).len(),
        ensures
            self.planes@[s[i].plane_id as int].allows(self.candidates(s, i)[j]),
    {
        let plane = self.planes@[s[i].plane_id as int];
        lemma_zigzag_within_window(plane, s[i].landing_time, span(plane, s[i].landing_time));
    }

    /// Moving an arrival to the time at which it lands already changes
    /// nothing.
    pub proof fn lemma_retimed_in_place(&self, s: Seq<Arrival>, i: int)
        requires
            self.schedules(s),
            0 <= i < s.len(),
        ensures
            retimed(s, i, s[i].landing_time) == s,
    {
        assert(s.update(i, Arrival { plane_id: s[i].plane_id, landing_time: s[i].landing_time })
            =~= s);
        lemma_sorted_fixed(s);
    }
}

} // verus!
