use vstd::prelude::*;
use crate::bar::Bar;
use crate::combinations::selection;
use crate::configurations::is_configuration;
use crate::dumbbell::{load_weight, plate_adjacent, Load};
use crate::gym::{is_state_space, lemma_unloaded_is_a_state, state_links, state_nodes, unloaded};
use crate::gym_state::{lemma_state_adjacent_symmetric, plates_over, state_adjacent, well_keyed};
use crate::inventory::unit_list;
use crate::links::{is_walk, lemma_distance_of_link, linked_at, walk_between};
use crate::plate::Plate;
use crate::requirement::{meets, Requirement};
use crate::sequence::{
    blocked, first_blocked, is_route, lemma_hops_to_self, lemma_hops_triangle,
    lemma_route_extends, qualifies, reachable, step_reachable,
};
use crate::state_space::is_joint_state;

verus! {

/// A selection without its last plate is a selection.
pub proof fn lemma_selection_drops_last(items: Seq<Plate>, mask: Seq<bool>) -> (fewer: Seq<bool>)
    requires
        mask.len() == items.len(),
        selection(items, mask).len() > 0,
    ensures
        fewer.len() == items.len(),
        selection(items, fewer) == selection(items, mask).drop_last(),
    decreases items.len(),
{
    if mask.last() {
        let fewer = mask.update(mask.len() - 1, false);
        let rest = selection(items.drop_last(), mask.drop_last());
        assert(fewer.drop_last() =~= mask.drop_last());
        assert(rest.push(items.last()).drop_last() =~= rest);
        fewer
    } else {
        let inner = lemma_selection_drops_last(items.drop_last(), mask.drop_last());
        let fewer = inner.push(false);
        assert(fewer.drop_last() =~= inner);
        fewer
    }
}

/// The state with the outermost plate taken off `bar`.
pub open spec fn lighter(state: Map<Bar, Load>, bar: Bar) -> Map<Bar, Load> {
    state.insert(bar, Load { plates: state[bar].plates.drop_last(), bar })
}

/// Taking the outermost plate off a loaded bar leads to a state that is
/// state-adjacent.
pub proof fn lemma_lighter(inventory: Seq<Plate>, bars: Seq<Bar>, state: Map<Bar, Load>, bar: Bar)
    requires
        is_joint_state(inventory, bars, state),
        well_keyed(state),
        state.contains_key(bar),
        state[bar].plates.len() > 0,
    ensures
        is_joint_state(inventory, bars, lighter(state, bar)),
        well_keyed(lighter(state, bar)),
        state_adjacent(state, lighter(state, bar)),
{
    let next = lighter(state, bar);
    let units = unit_list(inventory, bar);
    assert(is_configuration(units, bar, state[bar]));
    let mask = choose|mask: Seq<bool>|
        mask.len() == units.len() && state[bar].plates == #[trigger] selection(units, mask);
    let fewer = lemma_selection_drops_last(units, mask);
    assert(next[bar].plates == selection(units, fewer));
    assert forall|b: Bar| #[trigger] next.contains_key(b) implies is_configuration(
        unit_list(inventory, b),
        b,
        next[b],
    ) by {
        if b != bar {
            assert(state.contains_key(b));
        }
    }
    assert forall|b: Bar| next.contains_key(b) <==> bars.contains(b) by {
        assert(state.contains_key(b) <==> bars.contains(b));
    }
    assert(plate_adjacent(state[bar], next[bar]));
    assert(next.contains_key(bar));
}

/// Taking a plate off one of the bars lowers the number of plates by one.
pub proof fn lemma_lighter_counts(state: Map<Bar, Load>, bars: Seq<Bar>, bar: Bar)
    requires
        bars.no_duplicates(),
        state[bar].plates.len() > 0,
    ensures
        bars.contains(bar) ==> plates_over(lighter(state, bar), bars) == plates_over(state, bars)
            - 1,
        !bars.contains(bar) ==> plates_over(lighter(state, bar), bars) == plates_over(state, bars),
    decreases bars.len(),
{
    if bars.len() > 0 {
        let rest = bars.drop_last();
        lemma_lighter_counts(state, rest, bar);
        if bars.last() == bar {
            assert(bars[bars.len() - 1] == bar);
            if rest.contains(bar) {
                let k = choose|k: int| 0 <= k < rest.len() && rest[k] == bar;
                assert(bars[k] == bars[bars.len() - 1]);
            }
        } else {
            if bars.contains(bar) {
                let k = choose|k: int| 0 <= k < bars.len() && bars[k] == bar;
                assert(rest[k] == bar);
            }
            if rest.contains(bar) {
                let k = choose|k: int| 0 <= k < rest.len() && rest[k] == bar;
                assert(bars[k] == bar);
            }
        }
    }
}

/// Where the bars carry plates, one of them does.
pub proof fn lemma_loaded_bar(state: Map<Bar, Load>, bars: Seq<Bar>) -> (bar: Bar)
    requires
        plates_over(state, bars) > 0,
    ensures
        bars.contains(bar),
        state[bar].plates.len() > 0,
    decreases bars.len(),
{
    if state[bars.last()].plates.len() > 0 {
        assert(bars[bars.len() - 1] == bars.last());
        bars.last()
    } else {
        let bar = lemma_loaded_bar(state, bars.drop_last());
        let k = choose|k: int| 0 <= k < bars.drop_last().len() && bars.drop_last()[k] == bar;
        assert(bars[k] == bar);
        bar
    }
}

/// Where the bars carry no plates, none of them does.
pub proof fn lemma_nothing_loaded(state: Map<Bar, Load>, bars: Seq<Bar>, bar: Bar)
    requires
        plates_over(state, bars) == 0,
        bars.contains(bar),
    ensures
        state[bar].plates.len() == 0,
    decreases bars.len(),
{
    if bars.last() != bar {
        let k = choose|k: int| 0 <= k < bars.len() && bars[k] == bar;
        assert(bars.drop_last()[k] == bar);
        lemma_nothing_loaded(state, bars.drop_last(), bar);
    }
}

/// The state in which every bar is unloaded can be reached from every
/// state, by taking the plates off one at a time.
pub proof fn lemma_reaches_unloaded(
    inventory: Seq<Plate>,
    bars: Seq<Bar>,
    states: Seq<Map<Bar, Load>>,
    from: usize,
) -> (to: usize)
    requires
        bars.no_duplicates(),
        is_state_space(inventory, bars, states),
        from < states.len(),
    ensures
        to < states.len(),
        states[to as int] == unloaded(bars),
        reachable(states, from, to),
    decreases plates_over(states[from as int], bars),
{
    let state = states[from as int];
    assert(is_joint_state(inventory, bars, state) && well_keyed(state));
    if plates_over(state, bars) == 0 {
        assert(state =~= unloaded(bars)) by {
            assert forall|b: Bar| state.contains_key(b) implies #[trigger] state[b] == unloaded(
                bars,
            )[b] by {
                assert(bars.contains(b));
                lemma_nothing_loaded(state, bars, b);
                assert(state[b].plates =~= Seq::<Plate>::empty());
            }
        }
        lemma_hops_to_self(states, from);
        from
    } else {
        let bar = lemma_loaded_bar(state, bars);
        assert(state.contains_key(bar));
        lemma_lighter(inventory, bars, state, bar);
        lemma_lighter_counts(state, bars, bar);
        let next = lighter(state, bar);
        assert(states.contains(next));
        let j = choose|j: int| 0 <= j < states.len() && states[j] == next;
        let by: usize = j as usize;
        assert(state_links(states).contains((from, by)));
        lemma_distance_of_link(state_nodes(states.len()), state_links(states), from, by);
        let to = lemma_reaches_unloaded(inventory, bars, states, by);
        lemma_hops_triangle(states, from, by, to);
        to
    }
}

/// Whatever can be reached can be reached from: plate changes can be
/// undone.
pub proof fn lemma_reachable_symmetric(states: Seq<Map<Bar, Load>>, a: usize, b: usize)
    requires
        reachable(states, a, b),
    ensures
        reachable(states, b, a),
{
    let nodes = state_nodes(states.len());
    let links = state_links(states);
    let hops = choose|hops: nat| walk_between(nodes, links, a, b, hops);
    let walk = choose|walk: Seq<usize>|
        #[trigger] is_walk(nodes, links, walk) && walk[0] == a && walk.last() == b && walk.len()
            == hops + 1;
    let back = walk.reverse();
    assert forall|i: int| 0 <= i < back.len() - 1 implies #[trigger] linked_at(links, back, i) by {
        let k = walk.len() - 2 - i;
        assert(linked_at(links, walk, k));
        assert(back[i] == walk[k + 1]);
        assert(back[i + 1] == walk[k]);
        lemma_state_adjacent_symmetric(states[walk[k] as int], states[walk[k + 1] as int]);
    }
    assert forall|i: int| 0 <= i < back.len() implies nodes.contains(#[trigger] back[i]) by {
        assert(nodes.contains(walk[walk.len() - 1 - i]));
    }
    assert(is_walk(nodes, links, back));
    assert(back[0] == b);
    assert(back.last() == a);
    assert(walk_between(nodes, links, b, a, hops));
}

/// Every state can be reached from every other.
pub proof fn lemma_all_reachable(
    inventory: Seq<Plate>,
    bars: Seq<Bar>,
    states: Seq<Map<Bar, Load>>,
    a: usize,
    b: usize,
)
    requires
        bars.no_duplicates(),
        is_state_space(inventory, bars, states),
        a < states.len(),
        b < states.len(),
    ensures
        reachable(states, a, b),
{
    let from_a = lemma_reaches_unloaded(inventory, bars, states, a);
    let from_b = lemma_reaches_unloaded(inventory, bars, states, b);
    assert(from_a == from_b) by {
        if from_a < from_b {
            assert(states[from_a as int] != states[from_b as int]);
        }
        if from_b < from_a {
            assert(states[from_b as int] != states[from_a as int]);
        }
    }
    lemma_reachable_symmetric(states, b, from_b);
    lemma_hops_triangle(states, a, from_a, b);
}

/// Whether no state qualifies for the requirement.
pub open spec fn unqualified(
    bars: Seq<Bar>,
    states: Seq<Map<Bar, Load>>,
    requirement: Requirement,
) -> bool {
    forall|s: int| 0 <= s < states.len() ==> !qualifies(bars, #[trigger] states[s], requirement)
}

/// A state qualifies for a requirement exactly where the inventory allows
/// some bar a configuration that meets it.
pub proof fn lemma_qualified_means_configurable(
    inventory: Seq<Plate>,
    bars: Seq<Bar>,
    states: Seq<Map<Bar, Load>>,
    requirement: Requirement,
)
    requires
        bars.no_duplicates(),
        is_state_space(inventory, bars, states),
    ensures
        !unqualified(bars, states, requirement) <==> exists|bar: Bar, load: Load|
            bars.contains(bar) && #[trigger] is_configuration(
                unit_list(inventory, bar),
                bar,
                load,
            ) && meets(requirement, load),
{
    if !unqualified(bars, states, requirement) {
        let s = choose|s: int|
            0 <= s < states.len() && qualifies(bars, #[trigger] states[s], requirement);
        let j = choose|j: int|
            0 <= j < bars.len() && states[s].contains_key(#[trigger] bars[j]) && meets(
                requirement,
                states[s][bars[j]],
            );
        assert(is_joint_state(inventory, bars, states[s]));
        assert(bars.contains(bars[j]));
        assert(is_configuration(unit_list(inventory, bars[j]), bars[j], states[s][bars[j]]));
    }
    if exists|bar: Bar, load: Load|
        bars.contains(bar) && #[trigger] is_configuration(unit_list(inventory, bar), bar, load)
            && meets(requirement, load) {
        let (bar, load) = choose|bar: Bar, load: Load|
            bars.contains(bar) && #[trigger] is_configuration(unit_list(inventory, bar), bar, load)
                && meets(requirement, load);
        lemma_unloaded_is_a_state(inventory, bars, states);
        let base = unloaded(bars);
        let k = choose|k: int| 0 <= k < states.len() && states[k] == base;
        assert(is_joint_state(inventory, bars, states[k]));
        let state = base.insert(bar, load);
        assert forall|b: Bar| #[trigger] state.contains_key(b) implies is_configuration(
            unit_list(inventory, b),
            b,
            state[b],
        ) by {
            if b != bar {
                assert(base.contains_key(b));
            }
        }
        assert forall|b: Bar| state.contains_key(b) <==> bars.contains(b) by {
            assert(base.contains_key(b) <==> bars.contains(b));
        }
        assert(is_joint_state(inventory, bars, state));
        assert(well_keyed(state));
        assert(states.contains(state));
        let s = choose|s: int| 0 <= s < states.len() && states[s] == state;
        let j = choose|j: int| 0 <= j < bars.len() && bars[j] == bar;
        assert(state.contains_key(bars[j]) && meets(requirement, state[bars[j]]));
        assert(qualifies(bars, states[s], requirement));
    }
}

/// A route through the first `len` requirements, where each of them has a
/// state that qualifies.
proof fn lemma_route_exists(
    inventory: Seq<Plate>,
    bars: Seq<Bar>,
    states: Seq<Map<Bar, Load>>,
    requirements: Seq<Requirement>,
    len: nat,
) -> (path: Seq<usize>)
    requires
        bars.no_duplicates(),
        is_state_space(inventory, bars, states),
        1 <= len <= requirements.len(),
        forall|k: int| 0 <= k < len ==> !unqualified(bars, states, #[trigger] requirements[k]),
    ensures
        is_route(bars, states, requirements, path),
        path.len() == len,
    decreases len,
{
    let last = len - 1;
    assert(!unqualified(bars, states, requirements[last]));
    let s = choose|s: int|
        0 <= s < states.len() && qualifies(bars, #[trigger] states[s], requirements[last]);
    let end: usize = s as usize;
    if len == 1 {
        let path = seq![end];
        assert(is_route(bars, states, requirements, path));
        path
    } else {
        let shorter = lemma_route_exists(inventory, bars, states, requirements, (len - 1) as nat);
        assert(shorter[len - 2] < states.len());
        lemma_all_reachable(inventory, bars, states, shorter.last(), end);
        lemma_route_extends(bars, states, requirements, shorter, end);
        shorter.push(end)
    }
}

/// A stage is the first that no route gets to exactly where its
/// requirement is the first for which no state qualifies.
pub proof fn lemma_blocked_means_unqualified(
    inventory: Seq<Plate>,
    bars: Seq<Bar>,
    states: Seq<Map<Bar, Load>>,
    requirements: Seq<Requirement>,
    stage: int,
)
    requires
        bars.no_duplicates(),
        is_state_space(inventory, bars, states),
    ensures
        first_blocked(bars, states, requirements, stage) <==> {
            &&& 0 <= stage < requirements.len()
            &&& unqualified(bars, states, requirements[stage])
            &&& forall|k: int| 0 <= k < stage ==> !unqualified(bars, states, #[trigger] requirements[k])
        },
{
    if 0 <= stage < requirements.len() {
        let len = (stage + 1) as nat;
        let before = stage as nat;
        if first_blocked(bars, states, requirements, stage) {
            if stage >= 1 {
                let path = choose|path: Seq<usize>|
                    #[trigger] is_route(bars, states, requirements, path) && path.len() == before;
                assert forall|k: int| 0 <= k < stage implies !unqualified(
                    bars,
                    states,
                    #[trigger] requirements[k],
                ) by {
                    assert(qualifies(bars, states[path[k] as int], requirements[k]));
                }
                if !unqualified(bars, states, requirements[stage]) {
                    let s = choose|s: int|
                        0 <= s < states.len() && qualifies(
                            bars,
                            #[trigger] states[s],
                            requirements[stage],
                        );
                    let end: usize = s as usize;
                    assert(path[stage - 1] < states.len());
                    lemma_all_reachable(inventory, bars, states, path.last(), end);
                    lemma_route_extends(bars, states, requirements, path, end);
                    assert(is_route(bars, states, requirements, path.push(end)) && path.push(
                        end,
                    ).len() == len);
                }
            } else {
                if !unqualified(bars, states, requirements[stage]) {
                    let s = choose|s: int|
                        0 <= s < states.len() && qualifies(
                            bars,
                            #[trigger] states[s],
                            requirements[stage],
                        );
                    let path = seq![s as usize];
                    assert(is_route(bars, states, requirements, path) && path.len() == len);
                }
            }
        }
        if unqualified(bars, states, requirements[stage]) && forall|k: int|
            0 <= k < stage ==> !unqualified(bars, states, #[trigger] requirements[k]) {
            assert forall|path: Seq<usize>|
                !(#[trigger] is_route(bars, states, requirements, path) && path.len() == len) by {
                if is_route(bars, states, requirements, path) && path.len() == len {
                    assert(qualifies(bars, states[path[stage] as int], requirements[stage]));
                }
            }
            if stage >= 1 {
                let path = lemma_route_exists(inventory, bars, states, requirements, before);
                assert(is_route(bars, states, requirements, path) && path.len() == before);
            }
        }
    }
}

} // verus!
