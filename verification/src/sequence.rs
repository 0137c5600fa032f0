use vstd::prelude::*;
use crate::bar::Bar;
use crate::dumbbell::Load;
use crate::gym::{state_links, state_nodes};
use crate::gym_state::GymState;
use crate::links::{
    all_pairs, connected, distance, graph_links, graph_nodes, lemma_distance_to_self,
    lemma_triangle_inequality, records_distances, table_entries, table_get, DistanceTable,
    StateGraph,
};
use crate::requirement::{meets, Requirement};
use crate::state_space::snapshots;

verus! {

/// Whether some bar of the state carries a configuration that meets the
/// requirement.
pub open spec fn qualifies(bars: Seq<Bar>, state: Map<Bar, Load>, requirement: Requirement) -> bool {
    exists|j: int|
        0 <= j < bars.len() && state.contains_key(#[trigger] bars[j]) && meets(
            requirement,
            state[bars[j]],
        )
}

/// Whether state `b` can be reached from state `a` by plate changes.
pub open spec fn reachable(states: Seq<Map<Bar, Load>>, a: usize, b: usize) -> bool {
    connected(state_nodes(states.len()), state_links(states), a, b)
}

/// The least number of plate changes that lead from state `a` to state `b`.
pub open spec fn hops(states: Seq<Map<Bar, Load>>, a: usize, b: usize) -> nat {
    distance(state_nodes(states.len()), state_links(states), a, b)
}

/// The triangle inequality for states: where `b` can be reached from `a`
/// and `c` from `b`, `c` can be reached from `a`, in no more plate changes
/// than it takes to go by way of `b`.
pub proof fn lemma_hops_triangle(states: Seq<Map<Bar, Load>>, a: usize, b: usize, c: usize)
    requires
        reachable(states, a, b),
        reachable(states, b, c),
    ensures
        reachable(states, a, c),
        hops(states, a, c) <= hops(states, a, b) + hops(states, b, c),
{
    lemma_triangle_inequality(state_nodes(states.len()), state_links(states), a, b, c);
}

/// Every state is reached from itself without a plate change.
pub proof fn lemma_hops_to_self(states: Seq<Map<Bar, Load>>, a: usize)
    requires
        a < states.len(),
    ensures
        reachable(states, a, a),
        hops(states, a, a) == 0,
{
    lemma_distance_to_self(state_nodes(states.len()), state_links(states), a);
}

/// Whether the state at position `i + 1` of the path can be reached from
/// the one at position `i`.
pub open spec fn step_reachable(states: Seq<Map<Bar, Load>>, path: Seq<usize>, i: int) -> bool {
    reachable(states, path[i], path[i + 1])
}

/// Whether `path` serves the first requirements, one state for each, in
/// order: every state qualifies for its requirement and can be reached from
/// the state before it.
pub open spec fn is_route(
    bars: Seq<Bar>,
    states: Seq<Map<Bar, Load>>,
    requirements: Seq<Requirement>,
    path: Seq<usize>,
) -> bool {
    &&& path.len() <= requirements.len()
    &&& forall|i: int|
        0 <= i < path.len() ==> (#[trigger] path[i]) < states.len() && qualifies(
            bars,
            states[path[i] as int],
            requirements[i],
        )
    &&& forall|i: int| 0 <= i < path.len() - 1 ==> #[trigger] step_reachable(states, path, i)
}

/// The cost of a path: the sum of the distances between each state and the
/// next.
pub open spec fn route_cost(states: Seq<Map<Bar, Load>>, path: Seq<usize>) -> nat
    decreases path.len(),
{
    if path.len() <= 1 {
        0
    } else {
        route_cost(states, path.drop_last()) + hops(states, path[path.len() - 2], path.last())
    }
}

/// Whether some route over the first `len` requirements ends in state `s`
/// at cost `cost`.
pub open spec fn ends_at(
    bars: Seq<Bar>,
    states: Seq<Map<Bar, Load>>,
    requirements: Seq<Requirement>,
    len: nat,
    s: usize,
    cost: nat,
) -> bool {
    exists|path: Seq<usize>|
        #[trigger] is_route(bars, states, requirements, path) && path.len() == len && len >= 1
            && path.last() == s && route_cost(states, path) == cost
}

/// Whether `cost` is the least cost at which a route over the first `len`
/// requirements ends in state `s`.
pub open spec fn is_cheapest(
    bars: Seq<Bar>,
    states: Seq<Map<Bar, Load>>,
    requirements: Seq<Requirement>,
    len: nat,
    s: usize,
    cost: nat,
) -> bool {
    &&& ends_at(bars, states, requirements, len, s, cost)
    &&& forall|less: nat| less < cost ==> !ends_at(bars, states, requirements, len, s, less)
}

/// Whether no route over the first `len` requirements ends in state `s`.
pub open spec fn never_ends_at(
    bars: Seq<Bar>,
    states: Seq<Map<Bar, Load>>,
    requirements: Seq<Requirement>,
    len: nat,
    s: usize,
) -> bool {
    forall|cost: nat| !ends_at(bars, states, requirements, len, s, cost)
}

/// Whether no route serves the first `len` requirements.
pub open spec fn blocked(
    bars: Seq<Bar>,
    states: Seq<Map<Bar, Load>>,
    requirements: Seq<Requirement>,
    len: nat,
) -> bool {
    forall|path: Seq<usize>|
        !(#[trigger] is_route(bars, states, requirements, path) && path.len() == len)
}

/// Whether `cand` lists, in ascending order, exactly the numbers of the
/// states that qualify for the requirement.
pub open spec fn is_candidates(
    bars: Seq<Bar>,
    states: Seq<Map<Bar, Load>>,
    requirement: Requirement,
    cand: Seq<usize>,
) -> bool {
    &&& forall|a: int, b: int| 0 <= a < b < cand.len() ==> #[trigger] cand[a] < #[trigger] cand[b]
    &&& forall|j: int|
        0 <= j < cand.len() ==> (#[trigger] cand[j]) < states.len() && qualifies(
            bars,
            states[cand[j] as int],
            requirement,
        )
    &&& forall|s: usize|
        s < states.len() && qualifies(bars, states[s as int], requirement) ==> cand.contains(s)
}

/// Whether the costs recorded for the candidates of stage `stage` are the
/// least costs of the routes that end in them; no cost is recorded where no
/// route ends.
pub open spec fn solved(
    bars: Seq<Bar>,
    states: Seq<Map<Bar, Load>>,
    requirements: Seq<Requirement>,
    stage: int,
    cand: Seq<usize>,
    cost: Seq<Option<u128>>,
) -> bool {
    &&& 0 <= stage < requirements.len()
    &&& is_candidates(bars, states, requirements[stage], cand)
    &&& cost.len() == cand.len()
    &&& forall|j: int|
        0 <= j < cand.len() ==> match #[trigger] cost[j] {
            Some(c) => is_cheapest(
                bars,
                states,
                requirements,
                (stage + 1) as nat,
                cand[j],
                c as nat,
            ) && c <= stage * 0xFFFF_FFFF,
            None => never_ends_at(bars, states, requirements, (stage + 1) as nat, cand[j]),
        }
}

/// Whether the candidate at place `from` of the stage before can be the
/// last stop before state `s`, and what the route through it costs.
pub open spec fn through(
    states: Seq<Map<Bar, Load>>,
    prev_cand: Seq<usize>,
    prev_cost: Seq<Option<u128>>,
    from: int,
    s: usize,
) -> Option<nat> {
    if 0 <= from < prev_cand.len() && from < prev_cost.len() && prev_cost[from] is Some
        && reachable(states, prev_cand[from], s) {
        Some((prev_cost[from]->0 + hops(states, prev_cand[from], s)) as nat)
    } else {
        None
    }
}

/// Whether each recorded cost of a stage comes from the predecessor
/// recorded with it, and that predecessor is the first in the stage before
/// that gives the least cost.
pub open spec fn chained(
    states: Seq<Map<Bar, Load>>,
    prev_cand: Seq<usize>,
    prev_cost: Seq<Option<u128>>,
    cand: Seq<usize>,
    cost: Seq<Option<u128>>,
    pred: Seq<usize>,
) -> bool {
    &&& pred.len() == cand.len()
    &&& cost.len() == cand.len()
    &&& forall|j: int|
        0 <= j < cand.len() && (#[trigger] cost[j]) is Some ==> {
            &&& through(states, prev_cand, prev_cost, pred[j] as int, cand[j]) == Some(
                cost[j]->0 as nat,
            )
            &&& forall|e: int|
                0 <= e < pred[j] ==> match #[trigger] through(states, prev_cand, prev_cost, e, cand[j]) {
                    Some(c) => c > cost[j]->0,
                    None => true,
                }
        }
}

/// A route can be continued by a state that qualifies for the next
/// requirement and can be reached from its last state.
pub proof fn lemma_route_extends(
    bars: Seq<Bar>,
    states: Seq<Map<Bar, Load>>,
    requirements: Seq<Requirement>,
    path: Seq<usize>,
    s: usize,
)
    requires
        is_route(bars, states, requirements, path),
        1 <= path.len() < requirements.len(),
        s < states.len(),
        qualifies(bars, states[s as int], requirements[path.len() as int]),
        reachable(states, path.last(), s),
    ensures
        is_route(bars, states, requirements, path.push(s)),
        route_cost(states, path.push(s)) == route_cost(states, path) + hops(states, path.last(), s),
{
    let longer = path.push(s);
    assert(longer.drop_last() =~= path);
    assert forall|i: int| 0 <= i < longer.len() - 1 implies #[trigger] step_reachable(
        states,
        longer,
        i,
    ) by {
        if i < path.len() - 1 {
            assert(step_reachable(states, path, i));
        }
    }
    assert forall|i: int| 0 <= i < longer.len() implies (#[trigger] longer[i]) < states.len()
        && qualifies(bars, states[longer[i] as int], requirements[i]) by {
        if i < path.len() {
            assert(path[i] == longer[i]);
        }
    }
}

/// A route of two states or more is a shorter route and one step more.
pub proof fn lemma_route_shrinks(
    bars: Seq<Bar>,
    states: Seq<Map<Bar, Load>>,
    requirements: Seq<Requirement>,
    path: Seq<usize>,
)
    requires
        is_route(bars, states, requirements, path),
        path.len() >= 2,
    ensures
        is_route(bars, states, requirements, path.drop_last()),
        reachable(states, path[path.len() - 2], path.last()),
        route_cost(states, path) == route_cost(states, path.drop_last()) + hops(
            states,
            path[path.len() - 2],
            path.last(),
        ),
{
    let shorter = path.drop_last();
    assert(step_reachable(states, path, path.len() - 2));
    assert forall|i: int| 0 <= i < shorter.len() - 1 implies #[trigger] step_reachable(
        states,
        shorter,
        i,
    ) by {
        assert(step_reachable(states, path, i));
    }
    assert forall|i: int| 0 <= i < shorter.len() implies (#[trigger] shorter[i]) < states.len()
        && qualifies(bars, states[shorter[i] as int], requirements[i]) by {
        assert(path[i] == shorter[i]);
    }
}

/// At the first stage every qualifying state is reached at no cost, and no
/// other state is reached at all.
pub proof fn lemma_first_stage(
    bars: Seq<Bar>,
    states: Seq<Map<Bar, Load>>,
    requirements: Seq<Requirement>,
    s: usize,
)
    requires
        requirements.len() >= 1,
    ensures
        s < states.len() && qualifies(bars, states[s as int], requirements[0]) ==> is_cheapest(
            bars,
            states,
            requirements,
            1,
            s,
            0,
        ),
        !(s < states.len() && qualifies(bars, states[s as int], requirements[0]))
            ==> never_ends_at(bars, states, requirements, 1, s),
{
    if s < states.len() && qualifies(bars, states[s as int], requirements[0]) {
        let path = seq![s];
        assert(is_route(bars, states, requirements, path));
        assert(path.last() == s);
    } else {
        assert forall|cost: nat| !ends_at(bars, states, requirements, 1, s, cost) by {
            if ends_at(bars, states, requirements, 1, s, cost) {
                let path = choose|path: Seq<usize>|
                    #[trigger] is_route(bars, states, requirements, path) && path.len() == 1
                        && path.last() == s && route_cost(states, path) == cost;
                assert(path[0] == s);
            }
        }
    }
}

/// A state that ends a route qualifies for the requirement of its stage.
pub proof fn lemma_end_qualifies(
    bars: Seq<Bar>,
    states: Seq<Map<Bar, Load>>,
    requirements: Seq<Requirement>,
    len: nat,
    s: usize,
    cost: nat,
)
    requires
        ends_at(bars, states, requirements, len, s, cost),
    ensures
        1 <= len <= requirements.len(),
        s < states.len(),
        qualifies(bars, states[s as int], requirements[len - 1]),
{
    let path = choose|path: Seq<usize>|
        #[trigger] is_route(bars, states, requirements, path) && path.len() == len && len >= 1
            && path.last() == s && route_cost(states, path) == cost;
    assert(path[len - 1] == s);
}

/// The place of a state in a list of candidates.
pub proof fn lemma_candidate_place(
    bars: Seq<Bar>,
    states: Seq<Map<Bar, Load>>,
    requirement: Requirement,
    cand: Seq<usize>,
    s: usize,
) -> (place: int)
    requires
        is_candidates(bars, states, requirement, cand),
        s < states.len(),
        qualifies(bars, states[s as int], requirement),
    ensures
        0 <= place < cand.len(),
        cand[place] == s,
{
    assert(cand.contains(s));
    choose|place: int| 0 <= place < cand.len() && cand[place] == s
}

/// One step of the staged search, where a predecessor was found: the least
/// cost over all predecessors is the least cost of a route that ends in
/// `s`.
pub proof fn lemma_stage_step(
    bars: Seq<Bar>,
    states: Seq<Map<Bar, Load>>,
    requirements: Seq<Requirement>,
    stage: int,
    prev_cand: Seq<usize>,
    prev_cost: Seq<Option<u128>>,
    s: usize,
    from: int,
    total: nat,
)
    requires
        1 <= stage < requirements.len(),
        solved(bars, states, requirements, stage - 1, prev_cand, prev_cost),
        0 <= s < states.len(),
        qualifies(bars, states[s as int], requirements[stage]),
        through(states, prev_cand, prev_cost, from, s) == Some(total),
        forall|e: int|
            0 <= e < prev_cand.len() ==> match #[trigger] through(states, prev_cand, prev_cost, e, s) {
                Some(c) => c >= total,
                None => true,
            },
    ensures
        is_cheapest(bars, states, requirements, (stage + 1) as nat, s, total),
{
    let p = prev_cand[from];
    let x = prev_cost[from]->0 as nat;
    assert(is_cheapest(bars, states, requirements, stage as nat, p, x));
    let path = choose|path: Seq<usize>|
        #[trigger] is_route(bars, states, requirements, path) && path.len() == stage as nat
            && path.last() == p && route_cost(states, path) == x;
    lemma_route_extends(bars, states, requirements, path, s);
    assert(path.push(s).last() == s);
    assert(ends_at(bars, states, requirements, (stage + 1) as nat, s, total));
    let len = (stage + 1) as nat;
    assert forall|less: nat| less < total implies !ends_at(
        bars,
        states,
        requirements,
        len,
        s,
        less,
    ) by {
        if ends_at(bars, states, requirements, len, s, less) {
            lemma_no_cheaper(bars, states, requirements, stage, prev_cand, prev_cost, s, less);
            let e = choose|e: int|
                0 <= e < prev_cand.len() && (#[trigger] through(states, prev_cand, prev_cost, e, s))
                    is Some && through(states, prev_cand, prev_cost, e, s)->0 <= less;
            assert(through(states, prev_cand, prev_cost, e, s)->0 >= total);
        }
    }
}

/// Every route that ends in `s` passes through a candidate of the stage
/// before, and costs no less than the best route through that candidate.
pub proof fn lemma_no_cheaper(
    bars: Seq<Bar>,
    states: Seq<Map<Bar, Load>>,
    requirements: Seq<Requirement>,
    stage: int,
    prev_cand: Seq<usize>,
    prev_cost: Seq<Option<u128>>,
    s: usize,
    cost: nat,
)
    requires
        1 <= stage < requirements.len(),
        solved(bars, states, requirements, stage - 1, prev_cand, prev_cost),
        ends_at(bars, states, requirements, (stage + 1) as nat, s, cost),
    ensures
        exists|e: int|
            0 <= e < prev_cand.len() && (#[trigger] through(states, prev_cand, prev_cost, e, s)) is Some
                && through(states, prev_cand, prev_cost, e, s)->0 <= cost,
{
    let path = choose|path: Seq<usize>|
        #[trigger] is_route(bars, states, requirements, path) && path.len() == (stage + 1) as nat
            && path.last() == s && route_cost(states, path) == cost;
    lemma_route_shrinks(bars, states, requirements, path);
    let shorter = path.drop_last();
    let p = path[stage - 1];
    assert(shorter.last() == p);
    let before = route_cost(states, shorter);
    assert(ends_at(bars, states, requirements, stage as nat, p, before));
    assert(shorter[stage - 1] == p);
    let e = lemma_candidate_place(bars, states, requirements[stage - 1], prev_cand, p);
    match prev_cost[e] {
        Some(c) => {
            assert(is_cheapest(bars, states, requirements, stage as nat, p, c as nat));
            if before < c {
                assert(!ends_at(bars, states, requirements, stage as nat, p, before));
            }
            assert(through(states, prev_cand, prev_cost, e, s) == Some(
                (c + hops(states, p, s)) as nat,
            ));
        },
        None => {
            assert(never_ends_at(bars, states, requirements, stage as nat, p));
        },
    }
}

/// One step of the staged search, where no predecessor was found: no route
/// ends in `s`.
pub proof fn lemma_stage_dead_end(
    bars: Seq<Bar>,
    states: Seq<Map<Bar, Load>>,
    requirements: Seq<Requirement>,
    stage: int,
    prev_cand: Seq<usize>,
    prev_cost: Seq<Option<u128>>,
    s: usize,
)
    requires
        1 <= stage < requirements.len(),
        solved(bars, states, requirements, stage - 1, prev_cand, prev_cost),
        forall|e: int|
            0 <= e < prev_cand.len() ==> (#[trigger] through(states, prev_cand, prev_cost, e, s)) is None,
    ensures
        never_ends_at(bars, states, requirements, (stage + 1) as nat, s),
{
    let len = (stage + 1) as nat;
    assert forall|cost: nat| !ends_at(bars, states, requirements, len, s, cost) by {
        if ends_at(bars, states, requirements, len, s, cost) {
            lemma_no_cheaper(bars, states, requirements, stage, prev_cand, prev_cost, s, cost);
        }
    }
}

/// Where no candidate of a stage ends a route, no route serves the
/// requirements up to that stage.
pub proof fn lemma_stage_blocked(
    bars: Seq<Bar>,
    states: Seq<Map<Bar, Load>>,
    requirements: Seq<Requirement>,
    stage: int,
    cand: Seq<usize>,
    cost: Seq<Option<u128>>,
)
    requires
        solved(bars, states, requirements, stage, cand, cost),
        forall|j: int| 0 <= j < cand.len() ==> (#[trigger] cost[j]) is None,
    ensures
        blocked(bars, states, requirements, (stage + 1) as nat),
{
    let len = (stage + 1) as nat;
    assert forall|path: Seq<usize>|
        !(#[trigger] is_route(bars, states, requirements, path) && path.len() == len) by {
        if is_route(bars, states, requirements, path) && path.len() == len {
            let s = path.last();
            assert(path[stage] == s);
            assert(ends_at(bars, states, requirements, (stage + 1) as nat, s, route_cost(states, path)));
            let j = lemma_candidate_place(bars, states, requirements[stage], cand, s);
            assert(cost[j] is None);
        }
    }
}

/// No route is cheaper than the least recorded cost of its last stage.
pub proof fn lemma_least_is_optimal(
    bars: Seq<Bar>,
    states: Seq<Map<Bar, Load>>,
    requirements: Seq<Requirement>,
    cand: Seq<usize>,
    cost: Seq<Option<u128>>,
    least: nat,
    other: Seq<usize>,
)
    requires
        requirements.len() >= 1,
        solved(bars, states, requirements, requirements.len() - 1, cand, cost),
        forall|j: int| 0 <= j < cand.len() && (#[trigger] cost[j]) is Some ==> cost[j]->0 >= least,
        is_route(bars, states, requirements, other),
        other.len() == requirements.len(),
    ensures
        least <= route_cost(states, other),
{
    let n = requirements.len();
    let s = other.last();
    assert(other[n - 1] == s);
    assert(ends_at(bars, states, requirements, n, s, route_cost(states, other)));
    let j = lemma_candidate_place(bars, states, requirements[n - 1], cand, s);
    match cost[j] {
        Some(c) => {
            assert(is_cheapest(bars, states, requirements, n, s, c as nat));
            if route_cost(states, other) < c {
                assert(!ends_at(bars, states, requirements, n, s, route_cost(states, other)));
            }
        },
        None => {
            assert(never_ends_at(bars, states, requirements, n, s));
        },
    }
}

/// Whether a cheapest route over the first `len` requirements that ends
/// in state `s`, continued by the step to state `next`, costs `total`.
pub open spec fn leads(
    bars: Seq<Bar>,
    states: Seq<Map<Bar, Load>>,
    requirements: Seq<Requirement>,
    len: nat,
    s: usize,
    next: usize,
    total: nat,
) -> bool {
    exists|cost: nat|
        #[trigger] is_cheapest(bars, states, requirements, len, s, cost) && reachable(
            states,
            s,
            next,
        ) && cost + hops(states, s, next) == total
}

/// Whether the state at position `i` of the path is the predecessor that
/// the search records for the state behind it: the path up to it is a
/// cheapest one, and no state with a lower number leads on to the next
/// state at the same cost.
pub open spec fn settled_at(
    bars: Seq<Bar>,
    states: Seq<Map<Bar, Load>>,
    requirements: Seq<Requirement>,
    path: Seq<usize>,
    i: int,
) -> bool {
    let len = (i + 1) as nat;
    let next = path[i + 1];
    let total = route_cost(states, path.take(i + 2));
    &&& is_cheapest(bars, states, requirements, len, path[i], route_cost(states, path.take(i + 1)))
    &&& forall|s: usize|
        s < path[i] ==> !#[trigger] leads(bars, states, requirements, len, s, next, total)
}

/// Whether ties were broken towards the lowest state number: no state
/// with a lower number than the last one ends a route of the same cost, and
/// every state before the last is the recorded predecessor of the state
/// behind it.
pub open spec fn settled(
    bars: Seq<Bar>,
    states: Seq<Map<Bar, Load>>,
    requirements: Seq<Requirement>,
    path: Seq<usize>,
    cost: nat,
) -> bool {
    &&& path.len() >= 1 ==> forall|s: usize|
        s < path.last() ==> !#[trigger] ends_at(bars, states, requirements, path.len(), s, cost)
    &&& forall|i: int|
        0 <= i < path.len() - 1 ==> #[trigger] settled_at(bars, states, requirements, path, i)
}

/// Whether `path` is the route that the staged search settles on: it serves
/// all requirements, `cost` is what it costs, no route that serves all
/// requirements costs less, and among the routes of that cost it is the
/// one that the lowest state numbers pick, last state first.
pub open spec fn is_best_route(
    bars: Seq<Bar>,
    states: Seq<Map<Bar, Load>>,
    requirements: Seq<Requirement>,
    path: Seq<usize>,
    cost: nat,
) -> bool {
    &&& path.len() == requirements.len()
    &&& is_route(bars, states, requirements, path)
    &&& route_cost(states, path) == cost
    &&& forall|other: Seq<usize>|
        #[trigger] is_route(bars, states, requirements, other) && other.len()
            == requirements.len() ==> cost <= route_cost(states, other)
    &&& settled(bars, states, requirements, path, cost)
}

/// Whether the place chosen at stage `i` is the predecessor recorded for
/// the place chosen at the stage behind it.
pub open spec fn follows(preds: Seq<Vec<usize>>, ats: Seq<int>, i: int) -> bool {
    ats[i - 1] == preds[i]@[ats[i]]
}

/// Whether `ats` gives, stage by stage, the places of the states of `path`
/// among the candidates, each with a cost recorded, and each the recorded
/// predecessor of the next.
pub open spec fn traced(
    cands: Seq<Vec<usize>>,
    costs: Seq<Vec<Option<u128>>>,
    preds: Seq<Vec<usize>>,
    path: Seq<usize>,
    ats: Seq<int>,
) -> bool {
    &&& ats.len() == path.len()
    &&& forall|i: int|
        0 <= i < path.len() ==> 0 <= #[trigger] ats[i] < cands[i]@.len() && ats[i] < costs[i]@.len()
            && path[i] == cands[i]@[ats[i]] && costs[i]@[ats[i]] is Some
    &&& forall|i: int| 1 <= i < path.len() ==> #[trigger] follows(preds, ats, i)
}

/// The cost recorded for a chosen place is the cost of the path up to it.
pub proof fn lemma_prefix_cost(
    bars: Seq<Bar>,
    states: Seq<Map<Bar, Load>>,
    requirements: Seq<Requirement>,
    cands: Seq<Vec<usize>>,
    costs: Seq<Vec<Option<u128>>>,
    preds: Seq<Vec<usize>>,
    path: Seq<usize>,
    ats: Seq<int>,
    i: int,
)
    requires
        requirements.len() >= 1,
        path.len() == requirements.len(),
        stages_filled(bars, states, requirements, cands, costs, preds, requirements.len() as int),
        traced(cands, costs, preds, path, ats),
        0 <= i < path.len(),
    ensures
        route_cost(states, path.take(i + 1)) == costs[i]@[ats[i]]->0,
        i >= 1 ==> reachable(states, path[i - 1], path[i]) && costs[i]@[ats[i]]->0 == costs[i
            - 1]@[ats[i - 1]]->0 + hops(states, path[i - 1], path[i]),
    decreases i,
{
    let here = path.take(i + 1);
    if i == 0 {
        assert(costs[0]@[ats[0]] == Some(0u128));
    } else {
        lemma_prefix_cost(bars, states, requirements, cands, costs, preds, path, ats, i - 1);
        assert(here.drop_last() =~= path.take(i));
        assert(chained_at(states, cands, costs, preds, i));
        assert(follows(preds, ats, i));
        assert(costs[i]@[ats[i]] is Some);
        assert(through(states, cands[i - 1]@, costs[i - 1]@, preds[i]@[ats[i]] as int, cands[i]@[ats[i]])
            == Some(costs[i]@[ats[i]]->0 as nat));
        assert(here[i - 1] == path[i - 1]);
        assert(here.last() == path[i]);
    }
}

/// A state has one least cost at most.
pub proof fn lemma_cheapest_unique(
    bars: Seq<Bar>,
    states: Seq<Map<Bar, Load>>,
    requirements: Seq<Requirement>,
    len: nat,
    s: usize,
    a: nat,
    b: nat,
)
    requires
        is_cheapest(bars, states, requirements, len, s, a),
        is_cheapest(bars, states, requirements, len, s, b),
    ensures
        a == b,
{
    if a < b {
        assert(!ends_at(bars, states, requirements, len, s, a));
    }
    if b < a {
        assert(!ends_at(bars, states, requirements, len, s, b));
    }
}

/// The path that the recorded predecessors trace is the route that the
/// staged search settles on.
pub proof fn lemma_traced_is_best(
    bars: Seq<Bar>,
    states: Seq<Map<Bar, Load>>,
    requirements: Seq<Requirement>,
    cands: Seq<Vec<usize>>,
    costs: Seq<Vec<Option<u128>>>,
    preds: Seq<Vec<usize>>,
    path: Seq<usize>,
    ats: Seq<int>,
    least: nat,
)
    requires
        requirements.len() >= 1,
        path.len() == requirements.len(),
        stages_filled(bars, states, requirements, cands, costs, preds, requirements.len() as int),
        traced(cands, costs, preds, path, ats),
        costs[requirements.len() - 1]@[ats[requirements.len() - 1]] == Some(least as u128),
        least <= u128::MAX,
        forall|j: int|
            0 <= j < costs[requirements.len() - 1]@.len() && (#[trigger] costs[requirements.len()
                - 1]@[j]) is Some ==> costs[requirements.len() - 1]@[j]->0 >= least && (j
                < ats[requirements.len() - 1] ==> costs[requirements.len() - 1]@[j]->0 > least),
    ensures
        is_best_route(bars, states, requirements, path, least),
{
    let n = requirements.len() as int;
    assert forall|i: int| 0 <= i < path.len() implies (#[trigger] path[i]) < states.len()
        && qualifies(bars, states[path[i] as int], requirements[i]) by {
        assert(solved(bars, states, requirements, i, cands[i]@, costs[i]@));
        assert(0 <= ats[i] < cands[i]@.len());
    }
    assert forall|i: int| 0 <= i < path.len() - 1 implies #[trigger] step_reachable(
        states,
        path,
        i,
    ) by {
        lemma_prefix_cost(bars, states, requirements, cands, costs, preds, path, ats, i + 1);
    }
    assert(is_route(bars, states, requirements, path));
    lemma_prefix_cost(bars, states, requirements, cands, costs, preds, path, ats, n - 1);
    assert(path.take(n) =~= path);
    assert(solved(bars, states, requirements, n - 1, cands[n - 1]@, costs[n - 1]@));
    assert forall|other: Seq<usize>|
        #[trigger] is_route(bars, states, requirements, other) && other.len()
            == requirements.len() implies least <= route_cost(states, other) by {
        lemma_least_is_optimal(
            bars,
            states,
            requirements,
            cands[n - 1]@,
            costs[n - 1]@,
            least,
            other,
        );
    }
    let len = path.len();
    assert forall|s: usize| s < path.last() implies !#[trigger] ends_at(
        bars,
        states,
        requirements,
        len,
        s,
        least,
    ) by {
        if ends_at(bars, states, requirements, len, s, least) {
            lemma_end_qualifies(bars, states, requirements, len, s, least);
            let j = lemma_candidate_place(bars, states, requirements[n - 1], cands[n - 1]@, s);
            assert(path[n - 1] == cands[n - 1]@[ats[n - 1]]);
            if j >= ats[n - 1] {
                if j > ats[n - 1] {
                    assert(cands[n - 1]@[ats[n - 1]] < cands[n - 1]@[j]);
                }
            }
            match costs[n - 1]@[j] {
                Some(c) => {
                    assert(is_cheapest(bars, states, requirements, len, s, c as nat));
                    if least < c {
                        assert(!ends_at(bars, states, requirements, len, s, least));
                    }
                },
                None => {
                    assert(never_ends_at(bars, states, requirements, len, s));
                },
            }
        }
    }
    assert forall|i: int| 0 <= i < path.len() - 1 implies #[trigger] settled_at(
        bars,
        states,
        requirements,
        path,
        i,
    ) by {
        lemma_prefix_cost(bars, states, requirements, cands, costs, preds, path, ats, i);
        lemma_prefix_cost(bars, states, requirements, cands, costs, preds, path, ats, i + 1);
        let stage_len = (i + 1) as nat;
        let next = path[i + 1];
        let total = route_cost(states, path.take(i + 2));
        assert(solved(bars, states, requirements, i, cands[i]@, costs[i]@));
        assert(0 <= ats[i] < cands[i]@.len());
        assert(0 <= ats[i + 1] < cands[i + 1]@.len());
        assert(chained_at(states, cands, costs, preds, i + 1));
        assert(follows(preds, ats, i + 1));
        assert forall|s: usize| s < path[i] implies !#[trigger] leads(
            bars,
            states,
            requirements,
            stage_len,
            s,
            next,
            total,
        ) by {
            if leads(bars, states, requirements, stage_len, s, next, total) {
                let c = choose|c: nat|
                    #[trigger] is_cheapest(bars, states, requirements, stage_len, s, c)
                        && reachable(states, s, next) && c + hops(states, s, next) == total;
                lemma_end_qualifies(bars, states, requirements, stage_len, s, c);
                let e = lemma_candidate_place(bars, states, requirements[i], cands[i]@, s);
                if e >= ats[i] {
                    if e > ats[i] {
                        assert(cands[i]@[ats[i]] < cands[i]@[e]);
                    }
                }
                match costs[i]@[e] {
                    Some(x) => {
                        lemma_cheapest_unique(
                            bars,
                            states,
                            requirements,
                            stage_len,
                            s,
                            c,
                            x as nat,
                        );
                        assert(through(states, cands[i]@, costs[i]@, e, next) == Some(total));
                    },
                    None => {
                        assert(never_ends_at(bars, states, requirements, stage_len, s));
                    },
                }
            }
        }
    }
}

/// There is one route only that the staged search can settle on.
pub proof fn lemma_best_route_unique(
    bars: Seq<Bar>,
    states: Seq<Map<Bar, Load>>,
    requirements: Seq<Requirement>,
    p: Seq<usize>,
    c: nat,
    q: Seq<usize>,
    d: nat,
)
    requires
        is_best_route(bars, states, requirements, p, c),
        is_best_route(bars, states, requirements, q, d),
    ensures
        p == q,
        c == d,
{
    let n = requirements.len() as int;
    if n > 0 {
        assert(p[n - 1] == p.last());
        assert(q[n - 1] == q.last());
        assert(ends_at(bars, states, requirements, n as nat, p.last(), c));
        assert(ends_at(bars, states, requirements, n as nat, q.last(), d));
        assert(p.take(n) =~= p);
        assert(q.take(n) =~= q);
        lemma_same_from(bars, states, requirements, p, c, q, d, 0);
        assert(p =~= q);
    } else {
        assert(p =~= q);
    }
}

/// Two routes that the search can settle on agree from position `from`
/// on, and what they cost up to any such position agrees as well.
proof fn lemma_same_from(
    bars: Seq<Bar>,
    states: Seq<Map<Bar, Load>>,
    requirements: Seq<Requirement>,
    p: Seq<usize>,
    c: nat,
    q: Seq<usize>,
    d: nat,
    from: int,
)
    requires
        requirements.len() >= 1,
        c == d,
        is_best_route(bars, states, requirements, p, c),
        is_best_route(bars, states, requirements, q, d),
        0 <= from < requirements.len(),
    ensures
        forall|i: int| from <= i < requirements.len() ==> p[i] == q[i],
        route_cost(states, p.take(from + 1)) == route_cost(states, q.take(from + 1)),
    decreases requirements.len() - from,
{
    let n = requirements.len() as int;
    if from == n - 1 {
        assert(p.take(n) =~= p);
        assert(q.take(n) =~= q);
        assert(ends_at(bars, states, requirements, n as nat, p.last(), c));
        assert(ends_at(bars, states, requirements, n as nat, q.last(), d));
        assert(p[n - 1] == p.last());
        assert(q[n - 1] == q.last());
    } else {
        lemma_same_from(bars, states, requirements, p, c, q, d, from + 1);
        let len = (from + 1) as nat;
        let next = p[from + 1];
        assert(q[from + 1] == next);
        let total = route_cost(states, p.take(from + 2));
        assert(settled_at(bars, states, requirements, p, from));
        assert(settled_at(bars, states, requirements, q, from));
        assert(step_reachable(states, p, from));
        assert(step_reachable(states, q, from));
        assert(p.take(from + 2).drop_last() =~= p.take(from + 1));
        assert(q.take(from + 2).drop_last() =~= q.take(from + 1));
        assert(p.take(from + 2)[from] == p[from]);
        assert(q.take(from + 2)[from] == q[from]);
        assert(p.take(from + 2).last() == next);
        assert(q.take(from + 2).last() == next);
        let pc = route_cost(states, p.take(from + 1));
        let qc = route_cost(states, q.take(from + 1));
        assert(is_cheapest(bars, states, requirements, len, p[from], pc));
        assert(is_cheapest(bars, states, requirements, len, q[from], qc));
        assert(leads(bars, states, requirements, len, p[from], next, total));
        assert(leads(bars, states, requirements, len, q[from], next, total));
        if p[from] == q[from] {
            lemma_cheapest_unique(bars, states, requirements, len, p[from], pc, qc);
        }
    }
}

/// Whether `stage` is the first stage that no route gets to.
pub open spec fn first_blocked(
    bars: Seq<Bar>,
    states: Seq<Map<Bar, Load>>,
    requirements: Seq<Requirement>,
    stage: int,
) -> bool {
    &&& 0 <= stage < requirements.len()
    &&& blocked(bars, states, requirements, (stage + 1) as nat)
    &&& stage >= 1 ==> !blocked(bars, states, requirements, stage as nat)
}

/// Whether some candidate of a stage has a cost recorded.
pub open spec fn alive(cost: Seq<Option<u128>>) -> bool {
    exists|j: int| 0 <= j < cost.len() && (#[trigger] cost[j]) is Some
}

/// Whether the costs of stage `t` come from the stage before it.
pub open spec fn chained_at(
    states: Seq<Map<Bar, Load>>,
    cands: Seq<Vec<usize>>,
    costs: Seq<Vec<Option<u128>>>,
    preds: Seq<Vec<usize>>,
    t: int,
) -> bool {
    chained(states, cands[t - 1]@, costs[t - 1]@, cands[t]@, costs[t]@, preds[t]@)
}

/// Whether the first `upto` stages of the search are filled in as they
/// should be.
pub open spec fn stages_filled(
    bars: Seq<Bar>,
    states: Seq<Map<Bar, Load>>,
    requirements: Seq<Requirement>,
    cands: Seq<Vec<usize>>,
    costs: Seq<Vec<Option<u128>>>,
    preds: Seq<Vec<usize>>,
    upto: int,
) -> bool {
    &&& cands.len() == upto
    &&& costs.len() == upto
    &&& preds.len() == upto
    &&& forall|t: int|
        0 <= t < upto ==> #[trigger] solved(bars, states, requirements, t, cands[t]@, costs[t]@)
    &&& forall|t: int| 0 <= t < upto ==> alive(#[trigger] costs[t]@)
    &&& forall|t: int| 1 <= t < upto ==> #[trigger] chained_at(states, cands, costs, preds, t)
    &&& upto >= 1 ==> forall|j: int|
        0 <= j < costs[0]@.len() ==> #[trigger] costs[0]@[j] == Some(0u128)
}

/// The numbers of the states that qualify for the requirement, in
/// ascending order.
pub fn candidates(bars: &Vec<Bar>, states: &Vec<GymState>, requirement: &Requirement) -> (cand: Vec<
    usize,
>)
    ensures
        is_candidates(bars@, snapshots(states@), *requirement, cand@),
{
    let ghost views = snapshots(states@);
    let mut cand: Vec<usize> = Vec::new();
    let mut i: usize = 0;
    while i < states.len()
        invariant
            i <= states.len(),
            views == snapshots(states@),
            forall|a: int, b: int| 0 <= a < b < cand@.len() ==> #[trigger] cand@[a] < #[trigger] cand@[b],
            forall|j: int|
                0 <= j < cand@.len() ==> (#[trigger] cand@[j]) < i && qualifies(
                    bars@,
                    views[cand@[j] as int],
                    *requirement,
                ),
            forall|s: usize|
                s < i && qualifies(bars@, views[s as int], *requirement) ==> cand@.contains(s),
        decreases states.len() - i,
    {
        let state = &states[i];
        let mut found = false;
        let mut j: usize = 0;
        while j < bars.len() && !found
            invariant
                j <= bars.len(),
                i < states.len(),
                *state == states@[i as int],
                views == snapshots(states@),
                found ==> qualifies(bars@, views[i as int], *requirement),
                !found ==> forall|k: int|
                    0 <= k < j ==> !(state@.contains_key(#[trigger] bars@[k]) && meets(
                        *requirement,
                        state@[bars@[k]],
                    )),
            decreases bars.len() - j + if found { 0int } else { 1int },
        {
            match state.get(&bars[j]) {
                Some(dumbbell) => {
                    if requirement.matches(dumbbell) {
                        found = true;
                        proof {
                            assert(state@.contains_key(bars@[j as int]));
                        }
                    } else {
                        j += 1;
                    }
                },
                None => {
                    j += 1;
                },
            }
        }
        let ghost before = cand@;
        if found {
            cand.push(i);
            proof {
                assert forall|s: usize|
                    s < i + 1 && qualifies(bars@, views[s as int], *requirement) implies cand@.contains(
                    s,
                ) by {
                    if s < i {
                        assert(before.contains(s));
                        let k = choose|k: int| 0 <= k < before.len() && before[k] == s;
                        assert(cand@[k] == s);
                    } else {
                        assert(cand@[before.len() as int] == s);
                    }
                }
            }
        }
        i += 1;
    }
    cand
}

/// Looks for the cheapest way into state `s` from the candidates of the
/// stage before: the least cost, and the first place in that stage that
/// gives it.
fn best_predecessor(
    states: &Vec<GymState>,
    table: &DistanceTable,
    prev_cand: &Vec<usize>,
    prev_cost: &Vec<Option<u128>>,
    s: usize,
    bound: u128,
) -> (best: (Option<u128>, usize))
    requires
        prev_cost@.len() == prev_cand@.len(),
        records_distances(
            table_entries(*table),
            state_nodes(states@.len()),
            state_links(snapshots(states@)),
        ),
        bound <= u128::MAX - 0xFFFF_FFFF,
        forall|e: int|
            0 <= e < prev_cost@.len() && (#[trigger] prev_cost@[e]) is Some ==> prev_cost@[e]->0
                <= bound,
    ensures
        match best.0 {
            Some(total) => {
                &&& through(snapshots(states@), prev_cand@, prev_cost@, best.1 as int, s) == Some(
                    total as nat,
                )
                &&& total <= bound + 0xFFFF_FFFF
                &&& forall|e: int|
                    0 <= e < prev_cand@.len() ==> match #[trigger] through(
                        snapshots(states@),
                        prev_cand@,
                        prev_cost@,
                        e,
                        s,
                    ) {
                        Some(c) => c >= total && (e < best.1 ==> c > total),
                        None => true,
                    }
            },
            None => forall|e: int|
                0 <= e < prev_cand@.len() ==> (#[trigger] through(
                    snapshots(states@),
                    prev_cand@,
                    prev_cost@,
                    e,
                    s,
                )) is None,
        },
{
    let ghost views = snapshots(states@);
    let mut best: Option<u128> = None;
    let mut best_at: usize = 0;
    let mut e: usize = 0;
    while e < prev_cand.len()
        invariant
            e <= prev_cand.len(),
            prev_cost@.len() == prev_cand@.len(),
            views == snapshots(states@),
            records_distances(
                table_entries(*table),
                state_nodes(states@.len()),
                state_links(snapshots(states@)),
            ),
            bound <= u128::MAX - 0xFFFF_FFFF,
            forall|e: int|
                0 <= e < prev_cost@.len() && (#[trigger] prev_cost@[e]) is Some ==> prev_cost@[e]->0
                    <= bound,
            match best {
                Some(total) => {
                    &&& best_at < e
                    &&& through(views, prev_cand@, prev_cost@, best_at as int, s) == Some(
                        total as nat,
                    )
                    &&& total <= bound + 0xFFFF_FFFF
                    &&& forall|k: int|
                        0 <= k < e ==> match #[trigger] through(views, prev_cand@, prev_cost@, k, s) {
                            Some(c) => c >= total && (k < best_at ==> c > total),
                            None => true,
                        }
                },
                None => forall|k: int|
                    0 <= k < e ==> (#[trigger] through(views, prev_cand@, prev_cost@, k, s)) is None,
            },
        decreases prev_cand.len() - e,
    {
        let from: usize = prev_cand[e];
        proof {
            assert(views.len() == states@.len());
            assert(table_entries(*table).contains_key((from, s)) == connected(
                state_nodes(states@.len()),
                state_links(views),
                from,
                s,
            ));
        }
        match prev_cost[e] {
            Some(before) => {
                match table_get(table, from, s) {
                    Some(d) => {
                        let total: u128 = before + d as u128;
                        let better = match best {
                            Some(least) => total < least,
                            None => true,
                        };
                        if better {
                            best = Some(total);
                            best_at = e;
                        }
                    },
                    None => {},
                }
            },
            None => {},
        }
        e += 1;
    }
    (best, best_at)
}

/// Fills in one stage of the search from the stage before it.
fn next_stage(
    bars: &Vec<Bar>,
    states: &Vec<GymState>,
    table: &DistanceTable,
    requirements: &Vec<Requirement>,
    stage: usize,
    prev_cand: &Vec<usize>,
    prev_cost: &Vec<Option<u128>>,
    cand: &Vec<usize>,
) -> (row: (Vec<Option<u128>>, Vec<usize>))
    requires
        1 <= stage < requirements@.len(),
        solved(bars@, snapshots(states@), requirements@, stage - 1, prev_cand@, prev_cost@),
        is_candidates(bars@, snapshots(states@), requirements@[stage as int], cand@),
        records_distances(
            table_entries(*table),
            state_nodes(states@.len()),
            state_links(snapshots(states@)),
        ),
    ensures
        solved(bars@, snapshots(states@), requirements@, stage as int, cand@, row.0@),
        chained(snapshots(states@), prev_cand@, prev_cost@, cand@, row.0@, row.1@),
{
    let ghost views = snapshots(states@);
    let bound: u128 = (stage as u128 - 1) * 0xFFFF_FFFF;
    let mut cost: Vec<Option<u128>> = Vec::new();
    let mut pred: Vec<usize> = Vec::new();
    let mut j: usize = 0;
    while j < cand.len()
        invariant
            j <= cand.len(),
            1 <= stage < requirements@.len(),
            views == snapshots(states@),
            bound == (stage - 1) * 0xFFFF_FFFF,
            solved(bars@, views, requirements@, stage - 1, prev_cand@, prev_cost@),
            is_candidates(bars@, views, requirements@[stage as int], cand@),
            records_distances(table_entries(*table), state_nodes(states@.len()), state_links(views)),
            cost@.len() == j,
            pred@.len() == j,
            forall|k: int|
                0 <= k < j ==> match #[trigger] cost@[k] {
                    Some(c) => is_cheapest(
                        bars@,
                        views,
                        requirements@,
                        (stage + 1) as nat,
                        cand@[k],
                        c as nat,
                    ) && c <= stage * 0xFFFF_FFFF,
                    None => never_ends_at(bars@, views, requirements@, (stage + 1) as nat, cand@[k]),
                },
            forall|k: int|
                0 <= k < j && (#[trigger] cost@[k]) is Some ==> {
                    &&& through(views, prev_cand@, prev_cost@, pred@[k] as int, cand@[k]) == Some(
                        cost@[k]->0 as nat,
                    )
                    &&& forall|e: int|
                        0 <= e < pred@[k] ==> match #[trigger] through(
                            views,
                            prev_cand@,
                            prev_cost@,
                            e,
                            cand@[k],
                        ) {
                            Some(c) => c > cost@[k]->0,
                            None => true,
                        }
                },
        decreases cand.len() - j,
    {
        let s: usize = cand[j];
        proof {
            assert forall|e: int|
                0 <= e < prev_cost@.len() && (#[trigger] prev_cost@[e]) is Some implies prev_cost@[e]->0
                <= bound by {}
        }
        let best = best_predecessor(states, table, prev_cand, prev_cost, s, bound);
        proof {
            match best.0 {
                Some(total) => {
                    lemma_stage_step(
                        bars@,
                        views,
                        requirements@,
                        stage as int,
                        prev_cand@,
                        prev_cost@,
                        s,
                        best.1 as int,
                        total as nat,
                    );
                },
                None => {
                    lemma_stage_dead_end(
                        bars@,
                        views,
                        requirements@,
                        stage as int,
                        prev_cand@,
                        prev_cost@,
                        s,
                    );
                },
            }
        }
        cost.push(best.0);
        pred.push(best.1);
        j += 1;
    }
    (cost, pred)
}

/// Whether some candidate of the stage has a cost recorded.
fn is_alive(cost: &Vec<Option<u128>>) -> (r: bool)
    ensures
        r == alive(cost@),
{
    let mut j: usize = 0;
    while j < cost.len()
        invariant
            j <= cost.len(),
            forall|k: int| 0 <= k < j ==> (#[trigger] cost@[k]) is None,
        decreases cost.len() - j,
    {
        if cost[j].is_some() {
            return true;
        }
        j += 1;
    }
    false
}

/// Follows the recorded predecessors back from the candidate at place
/// `last_at` of the last stage, and gives the states passed, first stage
/// first, with the place of each among the candidates of its stage.
fn trace_back(
    bars: &Vec<Bar>,
    states: &Vec<GymState>,
    requirements: &Vec<Requirement>,
    cands: &Vec<Vec<usize>>,
    costs: &Vec<Vec<Option<u128>>>,
    preds: &Vec<Vec<usize>>,
    last_at: usize,
) -> (found: (Vec<usize>, Ghost<Seq<int>>))
    requires
        requirements@.len() >= 1,
        stages_filled(
            bars@,
            snapshots(states@),
            requirements@,
            cands@,
            costs@,
            preds@,
            requirements@.len() as int,
        ),
        last_at < costs@[requirements@.len() - 1]@.len(),
        costs@[requirements@.len() - 1]@[last_at as int] is Some,
    ensures
        found.0@.len() == requirements@.len(),
        traced(cands@, costs@, preds@, found.0@, found.1@),
        found.1@[requirements@.len() - 1] == last_at,
{
    let ghost views = snapshots(states@);
    let n: usize = requirements.len();
    let mut path: Vec<usize> = Vec::new();
    let mut k: usize = 0;
    while k < n
        invariant
            k <= n,
            path@.len() == k,
        decreases n - k,
    {
        path.push(0);
        k += 1;
    }
    let ghost mut ats: Seq<int> = Seq::new(n as nat, |i: int| 0int);
    let mut at: usize = last_at;
    let mut stage: usize = n - 1;
    proof {
        assert(solved(bars@, views, requirements@, n - 1, cands@[n - 1]@, costs@[n - 1]@));
    }
    loop
        invariant_except_break
            stage < n,
            n == requirements@.len(),
            views == snapshots(states@),
            path@.len() == n,
            ats.len() == n,
            stages_filled(bars@, views, requirements@, cands@, costs@, preds@, n as int),
            at < cands@[stage as int]@.len(),
            at < costs@[stage as int]@.len(),
            costs@[stage as int]@[at as int] is Some,
            stage == n - 1 ==> at == last_at,
            stage < n - 1 ==> ats[n - 1] == last_at && at == preds@[stage + 1]@[ats[stage + 1]],
            forall|t: int|
                stage < t < n ==> 0 <= #[trigger] ats[t] < cands@[t]@.len() && ats[t]
                    < costs@[t]@.len() && path@[t] == cands@[t]@[ats[t]] && costs@[t]@[ats[t]] is Some,
            forall|t: int| stage + 1 < t < n ==> #[trigger] follows(preds@, ats, t),
        ensures
            path@.len() == n,
            ats.len() == n,
            ats[n - 1] == last_at,
            forall|t: int|
                0 <= t < n ==> 0 <= #[trigger] ats[t] < cands@[t]@.len() && ats[t] < costs@[t]@.len()
                    && path@[t] == cands@[t]@[ats[t]] && costs@[t]@[ats[t]] is Some,
            forall|t: int| 1 <= t < n ==> #[trigger] follows(preds@, ats, t),
        decreases stage,
    {
        let s: usize = cands[stage][at];
        let ghost old_path = path@;
        let ghost old_ats = ats;
        proof {
            ats = ats.update(stage as int, at as int);
        }
        path.set(stage, s);
        proof {
            if stage < n - 1 {
                assert(follows(preds@, ats, stage + 1));
            }
            assert forall|t: int| stage + 1 < t < n implies #[trigger] follows(preds@, ats, t) by {
                assert(follows(preds@, old_ats, t));
            }
            assert forall|t: int| stage <= t < n implies 0 <= #[trigger] ats[t] < cands@[t]@.len()
                && ats[t] < costs@[t]@.len() && path@[t] == cands@[t]@[ats[t]]
                && costs@[t]@[ats[t]] is Some by {
                if t > stage {
                    assert(old_ats[t] == ats[t]);
                    assert(old_path[t] == path@[t]);
                }
            }
        }
        if stage == 0 {
            break ;
        }
        proof {
            assert(chained_at(views, cands@, costs@, preds@, stage as int));
            assert(through(
                views,
                cands@[stage - 1]@,
                costs@[stage - 1]@,
                preds@[stage as int]@[at as int] as int,
                s,
            ) is Some);
        }
        at = preds[stage][at];
        stage -= 1;
    }
    (path, Ghost(ats))
}

/// The cheapest sequence of states that serves the requirements in order,
/// with its cost; or the first stage that cannot be served.
pub(crate) fn cheapest_sequence(
    bars: &Vec<Bar>,
    states: &Vec<GymState>,
    graph: &StateGraph,
    requirements: &Vec<Requirement>,
) -> (r: Result<(Vec<usize>, u128), usize>)
    requires
        states@.len() <= 0x8000,
        graph_nodes(*graph) == state_nodes(states@.len()),
        graph_links(*graph).dom() == state_links(snapshots(states@)),
        forall|k: (usize, usize)| #[trigger]
            graph_links(*graph).contains_key(k) ==> graph_links(*graph)[k] == 1,
    ensures
        match r {
            Ok(found) => is_best_route(
                bars@,
                snapshots(states@),
                requirements@,
                found.0@,
                found.1 as nat,
            ),
            Err(stage) => first_blocked(bars@, snapshots(states@), requirements@, stage as int),
        },
{
    let ghost views = snapshots(states@);
    let n: usize = requirements.len();
    if n == 0 {
        let path: Vec<usize> = Vec::new();
        return Ok((path, 0));
    }
    let first = candidates(bars, states, &requirements[0]);
    let mut first_cost: Vec<Option<u128>> = Vec::new();
    let mut first_pred: Vec<usize> = Vec::new();
    let mut j: usize = 0;
    while j < first.len()
        invariant
            j <= first.len(),
            first_cost@.len() == j,
            first_pred@.len() == j,
            forall|k: int| 0 <= k < j ==> #[trigger] first_cost@[k] == Some(0u128),
        decreases first.len() - j,
    {
        first_cost.push(Some(0));
        first_pred.push(0);
        j += 1;
    }
    proof {
        assert forall|k: int| 0 <= k < first@.len() implies match #[trigger] first_cost@[k] {
            Some(c) => is_cheapest(bars@, views, requirements@, 1, first@[k], c as nat) && c <= 0,
            None => never_ends_at(bars@, views, requirements@, 1, first@[k]),
        } by {
            lemma_first_stage(bars@, views, requirements@, first@[k]);
        }
        assert(solved(bars@, views, requirements@, 0, first@, first_cost@));
    }
    if first.len() == 0 {
        proof {
            lemma_stage_blocked(bars@, views, requirements@, 0, first@, first_cost@);
        }
        return Err(0);
    }
    proof {
        assert(first_cost@[0] is Some);
    }
    let mut cands: Vec<Vec<usize>> = Vec::new();
    let mut costs: Vec<Vec<Option<u128>>> = Vec::new();
    let mut preds: Vec<Vec<usize>> = Vec::new();
    cands.push(first);
    costs.push(first_cost);
    preds.push(first_pred);
    proof {
        assert(alive(costs@[0]@));
        assert(stages_filled(bars@, views, requirements@, cands@, costs@, preds@, 1));
    }
    if n > 1 {
        match all_pairs(graph) {
            Ok(table) => {
                let mut stage: usize = 1;
                while stage < n
                    invariant
                        1 <= stage <= n,
                        n == requirements@.len(),
                        views == snapshots(states@),
                        records_distances(
                            table_entries(table),
                            state_nodes(states@.len()),
                            state_links(views),
                        ),
                        stages_filled(
                            bars@,
                            views,
                            requirements@,
                            cands@,
                            costs@,
                            preds@,
                            stage as int,
                        ),
                    decreases n - stage,
                {
                    let cand = candidates(bars, states, &requirements[stage]);
                    proof {
                        assert(solved(
                            bars@,
                            views,
                            requirements@,
                            stage - 1,
                            cands@[stage - 1]@,
                            costs@[stage - 1]@,
                        ));
                    }
                    let row = next_stage(
                        bars,
                        states,
                        &table,
                        requirements,
                        stage,
                        &cands[stage - 1],
                        &costs[stage - 1],
                        &cand,
                    );
                    if !is_alive(&row.0) {
                        proof {
                            lemma_stage_blocked(
                                bars@,
                                views,
                                requirements@,
                                stage as int,
                                cand@,
                                row.0@,
                            );
                            lemma_stage_alive(
                                bars@,
                                views,
                                requirements@,
                                stage - 1,
                                cands@[stage - 1]@,
                                costs@[stage - 1]@,
                            );
                        }
                        return Err(stage);
                    }
                    let ghost old_cands = cands@;
                    let ghost old_costs = costs@;
                    let ghost old_preds = preds@;
                    cands.push(cand);
                    costs.push(row.0);
                    preds.push(row.1);
                    proof {
                        assert forall|t: int| 0 <= t < stage + 1 implies #[trigger] solved(
                            bars@,
                            views,
                            requirements@,
                            t,
                            cands@[t]@,
                            costs@[t]@,
                        ) by {
                            if t < stage {
                                assert(solved(
                                    bars@,
                                    views,
                                    requirements@,
                                    t,
                                    old_cands[t]@,
                                    old_costs[t]@,
                                ));
                            }
                        }
                        assert forall|t: int| 0 <= t < stage + 1 implies alive(
                            #[trigger] costs@[t]@,
                        ) by {
                            if t < stage {
                                assert(alive(old_costs[t]@));
                            }
                        }
                        assert forall|t: int| 1 <= t < stage + 1 implies #[trigger] chained_at(
                            views,
                            cands@,
                            costs@,
                            preds@,
                            t,
                        ) by {
                            if t < stage {
                                assert(chained_at(views, old_cands, old_costs, old_preds, t));
                            }
                        }
                        assert(costs@[0] == old_costs[0]);
                    }
                    stage += 1;
                }
            },
            Err(_) => {
                return Err(0);
            },
        }
    }
    proof {
        assert(stages_filled(bars@, views, requirements@, cands@, costs@, preds@, n as int));
        assert(solved(bars@, views, requirements@, n - 1, cands@[n - 1]@, costs@[n - 1]@));
        assert(alive(costs@[n - 1]@));
    }
    let last_cost = &costs[n - 1];
    let mut least: u128 = 0;
    let mut least_at: usize = 0;
    let mut seen = false;
    let mut j: usize = 0;
    while j < last_cost.len()
        invariant
            j <= last_cost.len(),
            seen ==> least_at < j && last_cost@[least_at as int] == Some(least),
            seen ==> forall|k: int|
                0 <= k < j && (#[trigger] last_cost@[k]) is Some ==> last_cost@[k]->0 >= least && (k
                    < least_at ==> last_cost@[k]->0 > least),
            !seen ==> forall|k: int| 0 <= k < j ==> (#[trigger] last_cost@[k]) is None,
        decreases last_cost.len() - j,
    {
        match last_cost[j] {
            Some(c) => {
                if !seen || c < least {
                    least = c;
                    least_at = j;
                    seen = true;
                }
            },
            None => {},
        }
        j += 1;
    }
    proof {
        let some = choose|j: int| 0 <= j < last_cost@.len() && (#[trigger] last_cost@[j]) is Some;
        assert(seen);
    }
    let found = trace_back(bars, states, requirements, &cands, &costs, &preds, least_at);
    let path = found.0;
    proof {
        lemma_traced_is_best(
            bars@,
            views,
            requirements@,
            cands@,
            costs@,
            preds@,
            path@,
            found.1@,
            least as nat,
        );
    }
    Ok((path, least))
}

/// Where some candidate of a stage has a cost recorded, a route gets to
/// that stage.
pub proof fn lemma_stage_alive(
    bars: Seq<Bar>,
    states: Seq<Map<Bar, Load>>,
    requirements: Seq<Requirement>,
    stage: int,
    cand: Seq<usize>,
    cost: Seq<Option<u128>>,
)
    requires
        solved(bars, states, requirements, stage, cand, cost),
        alive(cost),
    ensures
        !blocked(bars, states, requirements, (stage + 1) as nat),
{
    let j = choose|j: int| 0 <= j < cost.len() && (#[trigger] cost[j]) is Some;
    let len = (stage + 1) as nat;
    assert(is_cheapest(bars, states, requirements, len, cand[j], cost[j]->0 as nat));
    let path = choose|path: Seq<usize>|
        #[trigger] is_route(bars, states, requirements, path) && path.len() == len && len >= 1
            && path.last() == cand[j] && route_cost(states, path) == cost[j]->0 as nat;
    assert(is_route(bars, states, requirements, path) && path.len() == len);
}

} // verus!
