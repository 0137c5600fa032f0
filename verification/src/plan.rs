use vstd::prelude::*;
use crate::bar::Bar;
use crate::bar_kind::BarKind;
use crate::dumbbell::{load_weight, Load};
use crate::requirement::{meets, Requirement};
use crate::sequence::{blocked, first_blocked, is_route, qualifies, step_reachable};
use crate::workout::listed_for;

verus! {

/// The configurations that the chosen states assign to `bar`: for each
/// requirement in turn, the configuration that the bar carries in the state
/// chosen for it, where that configuration has the weight asked for.
pub open spec fn assigned(
    states: Seq<Map<Bar, Load>>,
    requirements: Seq<Requirement>,
    path: Seq<usize>,
    bar: Bar,
) -> Seq<Load>
    decreases path.len(),
{
    if path.len() == 0 {
        Seq::empty()
    } else {
        let before = assigned(states, requirements, path.drop_last(), bar);
        let state = states[path.last() as int];
        if state.contains_key(bar) && load_weight(state[bar]) == requirements[path.len() - 1].weight {
            before.push(state[bar])
        } else {
            before
        }
    }
}

/// The plan that the chosen states make: for each bar that is assigned a
/// configuration at all, in the order of the bars, the configurations
/// assigned to it.
pub open spec fn plan_of(
    bars: Seq<Bar>,
    states: Seq<Map<Bar, Load>>,
    requirements: Seq<Requirement>,
    path: Seq<usize>,
) -> Seq<(Bar, Seq<Load>)>
    decreases bars.len(),
{
    if bars.len() == 0 {
        Seq::empty()
    } else {
        let before = plan_of(bars.drop_last(), states, requirements, path);
        let list = assigned(states, requirements, path, bars.last());
        if list.len() > 0 {
            before.push((bars.last(), list))
        } else {
            before
        }
    }
}

/// The places in `requirements` of the requirements for bars of `kind`, in
/// ascending order.
pub open spec fn kind_positions(requirements: Seq<Requirement>, kind: BarKind) -> Seq<int>
    decreases requirements.len(),
{
    if requirements.len() == 0 {
        Seq::empty()
    } else {
        let before = kind_positions(requirements.drop_last(), kind);
        if requirements.last().bar_kind == kind {
            before.push(requirements.len() - 1)
        } else {
            before
        }
    }
}

/// The requirements for bars of `kind`, in their order.
pub open spec fn kind_requirements(requirements: Seq<Requirement>, kind: BarKind) -> Seq<Requirement>
    decreases requirements.len(),
{
    if requirements.len() == 0 {
        Seq::empty()
    } else {
        let before = kind_requirements(requirements.drop_last(), kind);
        if requirements.last().bar_kind == kind {
            before.push(requirements.last())
        } else {
            before
        }
    }
}

/// The requirements of a kind are the requirements at the places of that
/// kind.
pub proof fn lemma_kind_positions(requirements: Seq<Requirement>, kind: BarKind)
    ensures
        kind_positions(requirements, kind).len() == kind_requirements(requirements, kind).len(),
        forall|k: int|
            0 <= k < kind_positions(requirements, kind).len() ==> 0 <= (#[trigger] kind_positions(
                requirements,
                kind,
            )[k]) < requirements.len() && requirements[kind_positions(requirements, kind)[k]]
                == kind_requirements(requirements, kind)[k] && kind_requirements(
                requirements,
                kind,
            )[k].bar_kind == kind,
        forall|a: int, b: int|
            0 <= a < b < kind_positions(requirements, kind).len() ==> #[trigger] kind_positions(
                requirements,
                kind,
            )[a] < #[trigger] kind_positions(requirements, kind)[b],
    decreases requirements.len(),
{
    if requirements.len() > 0 {
        lemma_kind_positions(requirements.drop_last(), kind);
        let before = kind_positions(requirements.drop_last(), kind);
        let out = kind_positions(requirements, kind);
        assert forall|k: int| 0 <= k < out.len() implies 0 <= (#[trigger] out[k])
            < requirements.len() && requirements[out[k]] == kind_requirements(requirements, kind)[k]
            && kind_requirements(requirements, kind)[k].bar_kind == kind by {
            if k < before.len() {
                assert(out[k] == before[k]);
                assert(requirements.drop_last()[before[k]] == requirements[before[k]]);
            }
        }
        assert forall|a: int, b: int| 0 <= a < b < out.len() implies #[trigger] out[a]
            < #[trigger] out[b] by {
            if b < before.len() {
                assert(before[a] < before[b]);
            } else {
                assert(out[a] == before[a]);
            }
        }
    }
}

/// Every configuration assigned to a bar is the one that the bar carries
/// in the state chosen for some requirement, and weighs what that
/// requirement asks for.
pub proof fn lemma_assigned_meets(
    states: Seq<Map<Bar, Load>>,
    requirements: Seq<Requirement>,
    path: Seq<usize>,
    bar: Bar,
    j: int,
) -> (i: int)
    requires
        0 <= j < assigned(states, requirements, path, bar).len(),
    ensures
        0 <= i < path.len(),
        states[path[i] as int].contains_key(bar),
        assigned(states, requirements, path, bar)[j] == states[path[i] as int][bar],
        load_weight(assigned(states, requirements, path, bar)[j]) == requirements[i].weight,
    decreases path.len(),
{
    let before = assigned(states, requirements, path.drop_last(), bar);
    if j < before.len() {
        let i = lemma_assigned_meets(states, requirements, path.drop_last(), bar, j);
        assert(path.drop_last()[i] == path[i]);
        i
    } else {
        path.len() - 1
    }
}

/// Every requirement is served: in the state chosen for it, some bar of
/// its kind carries a configuration of exactly the weight asked for, and
/// that configuration is among those assigned to the bar.
pub proof fn lemma_requirement_served(
    bars: Seq<Bar>,
    states: Seq<Map<Bar, Load>>,
    requirements: Seq<Requirement>,
    path: Seq<usize>,
    i: int,
) -> (bar: Bar)
    requires
        is_route(bars, states, requirements, path),
        0 <= i < path.len(),
    ensures
        bars.contains(bar),
        states[path[i] as int].contains_key(bar),
        meets(requirements[i], states[path[i] as int][bar]),
        assigned(states, requirements, path, bar).contains(states[path[i] as int][bar]),
{
    assert(qualifies(bars, states[path[i] as int], requirements[i]));
    let j = choose|j: int|
        0 <= j < bars.len() && states[path[i] as int].contains_key(#[trigger] bars[j]) && meets(
            requirements[i],
            states[path[i] as int][bars[j]],
        );
    let bar = bars[j];
    lemma_assigned_holds(states, requirements, path, bar, i);
    bar
}

/// A configuration of the right weight in a chosen state is assigned.
pub proof fn lemma_assigned_holds(
    states: Seq<Map<Bar, Load>>,
    requirements: Seq<Requirement>,
    path: Seq<usize>,
    bar: Bar,
    i: int,
)
    requires
        0 <= i < path.len(),
        states[path[i] as int].contains_key(bar),
        load_weight(states[path[i] as int][bar]) == requirements[i].weight,
    ensures
        assigned(states, requirements, path, bar).contains(states[path[i] as int][bar]),
    decreases path.len(),
{
    let before = assigned(states, requirements, path.drop_last(), bar);
    let out = assigned(states, requirements, path, bar);
    if i < path.len() - 1 {
        lemma_assigned_holds(states, requirements, path.drop_last(), bar, i);
        assert(path.drop_last()[i] == path[i]);
        let k = choose|k: int| 0 <= k < before.len() && before[k] == states[path[i] as int][bar];
        assert(out[k] == states[path[i] as int][bar]);
    } else {
        assert(out[out.len() - 1] == states[path[i] as int][bar]);
    }
}

/// What the plan lists for a bar is what the chosen states assign to it.
pub proof fn lemma_plan_lists(
    bars: Seq<Bar>,
    states: Seq<Map<Bar, Load>>,
    requirements: Seq<Requirement>,
    path: Seq<usize>,
    bar: Bar,
)
    requires
        bars.no_duplicates(),
    ensures
        bars.contains(bar) ==> listed_for(plan_of(bars, states, requirements, path), bar)
            == assigned(states, requirements, path, bar),
        !bars.contains(bar) ==> listed_for(plan_of(bars, states, requirements, path), bar)
            == Seq::<Load>::empty(),
    decreases bars.len(),
{
    if bars.len() > 0 {
        let rest = bars.drop_last();
        let before = plan_of(rest, states, requirements, path);
        let list = assigned(states, requirements, path, bars.last());
        assert(rest.no_duplicates());
        lemma_plan_lists(rest, states, requirements, path, bar);
        if bars.last() == bar {
            assert(!rest.contains(bar)) by {
                if rest.contains(bar) {
                    let k = choose|k: int| 0 <= k < rest.len() && rest[k] == bar;
                    assert(bars[k] == bars[bars.len() - 1]);
                }
            }
            assert(bars[bars.len() - 1] == bar);
            if list.len() > 0 {
                assert(before.push((bar, list)).drop_last() =~= before);
                assert(Seq::<Load>::empty() + list =~= list);
            } else {
                assert(list =~= Seq::<Load>::empty());
            }
        } else {
            if bars.contains(bar) {
                let k = choose|k: int| 0 <= k < bars.len() && bars[k] == bar;
                assert(rest[k] == bar);
            }
            if rest.contains(bar) {
                let k = choose|k: int| 0 <= k < rest.len() && rest[k] == bar;
                assert(bars[k] == bar);
            }
            if list.len() > 0 {
                assert(before.push((bars.last(), list)).drop_last() =~= before);
            }
        }
    }
}

/// The plan of a route lists, for every requirement, a configuration that
/// has exactly the weight asked for and sits on a bar of the kind asked
/// for.
pub proof fn lemma_plan_meets_requirements(
    bars: Seq<Bar>,
    states: Seq<Map<Bar, Load>>,
    requirements: Seq<Requirement>,
    path: Seq<usize>,
    i: int,
) -> (found: (Bar, int))
    requires
        bars.no_duplicates(),
        is_route(bars, states, requirements, path),
        0 <= i < path.len(),
    ensures
        bars.contains(found.0),
        0 <= found.1 < listed_for(plan_of(bars, states, requirements, path), found.0).len(),
        meets(
            requirements[i],
            listed_for(plan_of(bars, states, requirements, path), found.0)[found.1],
        ),
        listed_for(plan_of(bars, states, requirements, path), found.0)[found.1]
            == states[path[i] as int][found.0],
{
    let bar = lemma_requirement_served(bars, states, requirements, path, i);
    lemma_plan_lists(bars, states, requirements, path, bar);
    let list = assigned(states, requirements, path, bar);
    let j = choose|j: int| 0 <= j < list.len() && list[j] == states[path[i] as int][bar];
    (bar, j)
}

/// Every configuration that the plan lists for a bar is the one that the
/// bar carries in the state chosen for some requirement, and it weighs
/// what that requirement asks for.
pub proof fn lemma_plan_lists_only_what_is_asked(
    bars: Seq<Bar>,
    states: Seq<Map<Bar, Load>>,
    requirements: Seq<Requirement>,
    path: Seq<usize>,
    bar: Bar,
    j: int,
) -> (i: int)
    requires
        bars.no_duplicates(),
        0 <= j < listed_for(plan_of(bars, states, requirements, path), bar).len(),
    ensures
        bars.contains(bar),
        0 <= i < path.len(),
        states[path[i] as int].contains_key(bar),
        listed_for(plan_of(bars, states, requirements, path), bar)[j] == states[path[i] as int][bar],
        load_weight(listed_for(plan_of(bars, states, requirements, path), bar)[j])
            == requirements[i].weight,
{
    lemma_plan_lists(bars, states, requirements, path, bar);
    lemma_assigned_meets(states, requirements, path, bar, j)
}

/// The first states of a route are a route.
pub proof fn lemma_route_prefix(
    bars: Seq<Bar>,
    states: Seq<Map<Bar, Load>>,
    requirements: Seq<Requirement>,
    path: Seq<usize>,
    len: int,
)
    requires
        is_route(bars, states, requirements, path),
        0 <= len <= path.len(),
    ensures
        is_route(bars, states, requirements, path.take(len)),
{
    let shorter = path.take(len);
    assert forall|i: int| 0 <= i < shorter.len() - 1 implies #[trigger] step_reachable(
        states,
        shorter,
        i,
    ) by {
        assert(step_reachable(states, path, i));
    }
    assert forall|i: int| 0 <= i < shorter.len() implies (#[trigger] shorter[i]) < states.len()
        && qualifies(bars, states[shorter[i] as int], requirements[i]) by {
        assert(path[i] == shorter[i]);
    }
}

/// Where no route serves the first requirements, none serves more of them.
pub proof fn lemma_blocked_stays(
    bars: Seq<Bar>,
    states: Seq<Map<Bar, Load>>,
    requirements: Seq<Requirement>,
    len: nat,
    longer: nat,
)
    requires
        blocked(bars, states, requirements, len),
        len <= longer,
    ensures
        blocked(bars, states, requirements, longer),
{
    assert forall|path: Seq<usize>|
        !(#[trigger] is_route(bars, states, requirements, path) && path.len() == longer) by {
        if is_route(bars, states, requirements, path) && path.len() == longer {
            lemma_route_prefix(bars, states, requirements, path, len as int);
            assert(is_route(bars, states, requirements, path.take(len as int)) && path.take(
                len as int,
            ).len() == len);
        }
    }
}

/// Where a route serves all requirements, no stage is blocked.
pub proof fn lemma_served_is_not_blocked(
    bars: Seq<Bar>,
    states: Seq<Map<Bar, Load>>,
    requirements: Seq<Requirement>,
    path: Seq<usize>,
    stage: int,
)
    requires
        is_route(bars, states, requirements, path),
        path.len() == requirements.len(),
    ensures
        !first_blocked(bars, states, requirements, stage),
{
    if 0 <= stage < requirements.len() {
        lemma_route_prefix(bars, states, requirements, path, stage + 1);
        assert(is_route(bars, states, requirements, path.take(stage + 1)) && path.take(
            stage + 1,
        ).len() == (stage + 1) as nat);
    }
}

/// There is one first blocked stage at most.
pub proof fn lemma_first_blocked_unique(
    bars: Seq<Bar>,
    states: Seq<Map<Bar, Load>>,
    requirements: Seq<Requirement>,
    a: int,
    b: int,
)
    requires
        first_blocked(bars, states, requirements, a),
        first_blocked(bars, states, requirements, b),
    ensures
        a == b,
{
    if a < b {
        let len = b as nat;
        let path = choose|path: Seq<usize>|
            #[trigger] is_route(bars, states, requirements, path) && path.len() == len;
        lemma_route_prefix(bars, states, requirements, path, a + 1);
        assert(is_route(bars, states, requirements, path.take(a + 1)) && path.take(a + 1).len() == (a
            + 1) as nat);
    }
    if b < a {
        let len = a as nat;
        let path = choose|path: Seq<usize>|
            #[trigger] is_route(bars, states, requirements, path) && path.len() == len;
        lemma_route_prefix(bars, states, requirements, path, b + 1);
        assert(is_route(bars, states, requirements, path.take(b + 1)) && path.take(b + 1).len() == (b
            + 1) as nat);
    }
}

} // verus!
