//! Landing order: what it means for arrivals to be sorted by landing time,
//! the stable sort that brings them into that order, and the facts about it
//! that the rest of the crate builds on.
use crate::problem::Arrival;
use vstd::prelude::*;

verus! {

/// No arrival lands before one that stands in front of it.
pub open spec fn in_landing_order(s: Seq<Arrival>) -> bool {
    forall|i: int, j: int| 0 <= i <= j < s.len() ==> s[i].landing_time <= s[j].landing_time
}

/// `s` with `a` put in behind the last arrival that lands no later than `a`.
pub open spec fn placed(s: Seq<Arrival>, a: Arrival) -> Seq<Arrival>
    decreases s.len(),
{
    if s.len() == 0 || s.last().landing_time <= a.landing_time {
        s.push(a)
    } else {
        placed(s.drop_last(), a).push(s.last())
    }
}

/// The arrivals of `s` sorted by landing time; arrivals that land at the same
/// time keep the order they have in `s`.
pub open spec fn by_landing_time(s: Seq<Arrival>) -> Seq<Arrival>
    decreases s.len(),
{
    if s.len() == 0 {
        s
    } else {
        placed(by_landing_time(s.drop_last()), s.last())
    }
}

/// Placing an arrival is inserting it at the first position from the back
/// whose predecessor lands no later.
proof fn lemma_placed_is_insert(s: Seq<Arrival>, a: Arrival, p: int)
    requires
        0 <= p <= s.len(),
        forall|j: int| p <= j < s.len() ==> s[j].landing_time > a.landing_time,
        p > 0 ==> s[p - 1].landing_time <= a.landing_time,
    ensures
        placed(s, a) == s.insert(p, a),
    decreases s.len() - p,
{
    if p == s.len() {
        assert(s.push(a) =~= s.insert(p, a));
    } else {
        lemma_placed_is_insert(s.drop_last(), a, p);
        assert(s.drop_last().insert(p, a).push(s.last()) =~= s.insert(p, a));
    }
}

/// A sorted sequence without its last arrival is sorted.
proof fn lemma_front_in_order(s: Seq<Arrival>)
    requires
        in_landing_order(s),
        s.len() > 0,
    ensures
        in_landing_order(s.drop_last()),
{
    let front = s.drop_last();
    assert forall|i: int, j: int| 0 <= i <= j < front.len() implies front[i].landing_time
        <= front[j].landing_time by {
        assert(front[i] == s[i] && front[j] == s[j]);
    }
}

/// Where `placed` puts `a`: some position `p`, behind everything that lands
/// no later and in front of everything that lands later.
pub proof fn lemma_placed_position(s: Seq<Arrival>, a: Arrival) -> (p: int)
    requires
        in_landing_order(s),
    ensures
        0 <= p <= s.len(),
        placed(s, a) == s.insert(p, a),
        forall|j: int| 0 <= j < p ==> s[j].landing_time <= a.landing_time,
        forall|j: int| p <= j < s.len() ==> s[j].landing_time > a.landing_time,
    decreases s.len(),
{
    if s.len() == 0 || s.last().landing_time <= a.landing_time {
        assert(s.push(a) =~= s.insert(s.len() as int, a));
        s.len() as int
    } else {
        let front = s.drop_last();
        lemma_front_in_order(s);
        let p = lemma_placed_position(front, a);
        assert(front.insert(p, a).push(s.last()) =~= s.insert(p, a));
        assert forall|j: int| 0 <= j < p implies s[j].landing_time <= a.landing_time by {
            assert(s[j] == front[j]);
        }
        assert forall|j: int| p <= j < s.len() implies s[j].landing_time > a.landing_time by {
            if j < front.len() {
                assert(s[j] == front[j]);
            }
        }
        p
    }
}

/// Placing an arrival into a sorted sequence leaves it sorted.
pub proof fn lemma_placed_in_order(s: Seq<Arrival>, a: Arrival)
    requires
        in_landing_order(s),
    ensures
        in_landing_order(placed(s, a)),
        placed(s, a).len() == s.len() + 1,
{
    let p = lemma_placed_position(s, a);
    let r = s.insert(p, a);
    assert forall|i: int, j: int| 0 <= i <= j < r.len() implies r[i].landing_time
        <= r[j].landing_time by {
        if i < p && j > p {
            assert(r[i] == s[i] && r[j] == s[j - 1]);
        } else if i < p && j < p {
            assert(r[i] == s[i] && r[j] == s[j]);
        } else if i > p {
            assert(r[i] == s[i - 1] && r[j] == s[j - 1]);
        }
    }
}

/// Sorting gives a sequence in landing order, of the same length.
pub proof fn lemma_sorted_in_order(s: Seq<Arrival>)
    ensures
        in_landing_order(by_landing_time(s)),
        by_landing_time(s).len() == s.len(),
    decreases s.len(),
{
    if s.len() > 0 {
        lemma_sorted_in_order(s.drop_last());
        lemma_placed_in_order(by_landing_time(s.drop_last()), s.last());
    }
}

/// Placing adds exactly the one arrival.
pub proof fn lemma_placed_multiset(s: Seq<Arrival>, a: Arrival)
    ensures
        placed(s, a).to_multiset() == s.to_multiset().insert(a),
    decreases s.len(),
{
    broadcast use vstd::seq_lib::group_to_multiset_ensures;

    if s.len() == 0 || s.last().landing_time <= a.landing_time {
    } else {
        lemma_placed_multiset(s.drop_last(), a);
        assert(s.drop_last().push(s.last()) =~= s);
        assert(placed(s, a).to_multiset() =~= s.to_multiset().insert(a));
    }
}

/// Sorting keeps every arrival, as often as it occurs.
pub proof fn lemma_sorted_multiset(s: Seq<Arrival>)
    ensures
        by_landing_time(s).to_multiset() == s.to_multiset(),
    decreases s.len(),
{
    broadcast use vstd::seq_lib::group_to_multiset_ensures;

    if s.len() > 0 {
        lemma_sorted_multiset(s.drop_last());
        lemma_placed_multiset(by_landing_time(s.drop_last()), s.last());
        assert(s.drop_last().push(s.last()) =~= s);
    }
}

/// A sequence that is in landing order already is what sorting it gives.
pub proof fn lemma_sorted_fixed(s: Seq<Arrival>)
    requires
        in_landing_order(s),
    ensures
        by_landing_time(s) == s,
    decreases s.len(),
{
    if s.len() > 0 {
        let front = s.drop_last();
        lemma_front_in_order(s);
        lemma_sorted_fixed(front);
        if front.len() > 0 {
            assert(front.last() == s[s.len() - 2]);
        }
        assert(front.push(s.last()) =~= s);
    }
}

/// Tells an arrival that lands at `t`.
pub open spec fn lands_at(t: u32) -> spec_fn(Arrival) -> bool {
    |a: Arrival| a.landing_time == t
}

/// The arrivals of `s` that land at `t`, in the order they have in `s`.
pub open spec fn landing_at(s: Seq<Arrival>, t: u32) -> Seq<Arrival> {
    s.filter(lands_at(t))
}

/// Placing puts an arrival behind those that land at the same time.
proof fn lemma_placed_behind_ties(s: Seq<Arrival>, a: Arrival, t: u32)
    ensures
        landing_at(placed(s, a), t) == if a.landing_time == t {
            landing_at(s, t).push(a)
        } else {
            landing_at(s, t)
        },
    decreases s.len(),
{
    if s.len() == 0 || s.last().landing_time <= a.landing_time {
        s.lemma_filter_push(a, lands_at(t));
    } else {
        let front = s.drop_last();
        lemma_placed_behind_ties(front, a, t);
        placed(front, a).lemma_filter_push(s.last(), lands_at(t));
        front.lemma_filter_push(s.last(), lands_at(t));
        assert(front.push(s.last()) =~= s);
    }
}

/// Sorting is stable: the arrivals that land at one time come out in the
/// order in which they went in.
pub proof fn lemma_sorted_keeps_ties(s: Seq<Arrival>, t: u32)
    ensures
        landing_at(by_landing_time(s), t) == landing_at(s, t),
    decreases s.len(),
{
    if s.len() > 0 {
        let front = s.drop_last();
        lemma_sorted_keeps_ties(front, t);
        lemma_placed_behind_ties(by_landing_time(front), s.last(), t);
        front.lemma_filter_push(s.last(), lands_at(t));
        assert(front.push(s.last()) =~= s);
    }
}

/// No two arrivals of `s` are of the same plane.
pub open spec fn distinct_planes(s: Seq<Arrival>) -> bool {
    forall|i: int, j: int| 0 <= i < j < s.len() ==> s[i].plane_id != s[j].plane_id
}

/// Every arrival of `s` is of one of the first `planes` planes.
pub open spec fn planes_below(s: Seq<Arrival>, planes: nat) -> bool {
    forall|i: int| 0 <= i < s.len() ==> (#[trigger] s[i]).plane_id < planes
}

/// Each arrival of the sorted sequence is one of the given sequence, and the
/// other way round.
pub proof fn lemma_sorted_members(s: Seq<Arrival>)
    ensures
        forall|a: Arrival| by_landing_time(s).contains(a) <==> s.contains(a),
{
    broadcast use vstd::seq_lib::to_multiset_contains;

    lemma_sorted_multiset(s);
    assert forall|a: Arrival| by_landing_time(s).contains(a) <==> s.contains(a) by {
        assert(by_landing_time(s).to_multiset().count(a) == s.to_multiset().count(a));
    }
}

/// Sorting keeps the planes apart and in range: where no two arrivals are of
/// the same plane before, none are after.
pub proof fn lemma_sorted_keeps_planes(s: Seq<Arrival>, planes: nat)
    requires
        distinct_planes(s),
        planes_below(s, planes),
    ensures
        distinct_planes(by_landing_time(s)),
        planes_below(by_landing_time(s), planes),
{
    let sorted = by_landing_time(s);
    lemma_sorted_members(s);
    lemma_sorted_multiset(s);
    assert forall|k: int| 0 <= k < sorted.len() implies (#[trigger] sorted[k]).plane_id
        < planes by {
        assert(sorted.contains(sorted[k]));
        assert(s.contains(sorted[k]));
        let j = choose|j: int| 0 <= j < s.len() && s[j] == sorted[k];
        assert(s[j].plane_id < planes);
    }
    assert(s.no_duplicates());
    s.lemma_multiset_has_no_duplicates();
    sorted.lemma_multiset_has_no_duplicates_conv();
    assert forall|k: int, l: int| 0 <= k < l < sorted.len() implies sorted[k].plane_id
        != sorted[l].plane_id by {
        assert(sorted.contains(sorted[k]));
        assert(sorted.contains(sorted[l]));
        assert(s.contains(sorted[k]));
        assert(s.contains(sorted[l]));
        let i = choose|i: int| 0 <= i < s.len() && s[i] == sorted[k];
        let j = choose|j: int| 0 <= j < s.len() && s[j] == sorted[l];
        if i == j {
            assert(sorted[k] == sorted[l]);
        }
    }
}

/// Sorts by landing time; arrivals with equal landing times keep their order.
pub fn sort_by_landing_time(arrivals: &Vec<Arrival>) -> (sorted: Vec<Arrival>)
    ensures
        sorted@ == by_landing_time(arrivals@),
{
    let mut sorted: Vec<Arrival> = Vec::new();
    let mut k: usize = 0;
    while k < arrivals.len()
        invariant
            k <= arrivals.len(),
            sorted@ == by_landing_time(arrivals@.take(k as int)),
        decreases arrivals.len() - k,
    {
        let a: Arrival = arrivals[k];
        let mut p: usize = sorted.len();
        while p > 0 && sorted[p - 1].landing_time > a.landing_time
            invariant
                p <= sorted.len(),
                forall|j: int| p <= j < sorted.len() ==> sorted[j].landing_time > a.landing_time,
            decreases p,
        {
            p -= 1;
        }
        proof {
            lemma_placed_is_insert(sorted@, a, p as int);
            assert(arrivals@.take(k + 1).drop_last() =~= arrivals@.take(k as int));
        }
        sorted.insert(p, a);
        k += 1;
    }
    assert(arrivals@.take(k as int) =~= arrivals@);
    sorted
}

} // verus!
