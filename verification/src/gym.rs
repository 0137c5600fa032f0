use vstd::prelude::*;
use crate::bar::Bar;
use crate::bar_kind::BarKind;
use crate::configurations::{ascending, configurations, dumbbells, is_configuration};
use crate::dumbbell::{
    lemma_canonical_fixed_point, lemma_plates_weight_nonnegative, load_weight, views, Dumbbell,
    Load,
};
use crate::gym_error::GymError;
use crate::gym_state::{
    lemma_state_adjacent_irreflexive, lemma_state_adjacent_symmetric, state_adjacent, well_keyed,
    GymState, GymStateId,
};
use crate::inventory::{lemma_selection_none, lemma_units_fit, unit_list, usable_units};
use crate::links::{
    all_pairs, graph_add_edge, graph_add_node, graph_links, graph_new, graph_nodes, table_get,
    StateGraph,
};
use crate::plan::{
    assigned, kind_positions, kind_requirements, lemma_blocked_stays, lemma_first_blocked_unique,
    lemma_kind_positions, lemma_served_is_not_blocked, plan_of,
};
use crate::plate::Plate;
use crate::requirement::Requirement;
use crate::sequence::{
    blocked, candidates, cheapest_sequence, first_blocked, hops, is_best_route, is_candidates,
    is_route, lemma_best_route_unique, reachable,
};
use crate::state_space::{
    bars_of_kind, full_load, is_joint_state, joint_states, lemma_bars_of_kind, snapshots,
    state_space, total_units, MAX_UNITS,
};
use crate::workout::{entry_views, Workout};

verus! {

/// The nodes of the graph over `count` states: their numbers.
pub open spec fn state_nodes(count: nat) -> Set<usize> {
    Set::new(|i: usize| i < count)
}

/// The links of the graph over the states: the pairs of numbers of states
/// that are state-adjacent.
pub open spec fn state_links(states: Seq<Map<Bar, Load>>) -> Set<(usize, usize)> {
    Set::new(
        |p: (usize, usize)|
            p.0 < states.len() && p.1 < states.len() && state_adjacent(
                states[p.0 as int],
                states[p.1 as int],
            ),
    )
}

/// The links among the pairs of states that the construction has compared
/// when it is about to compare state `i` with state `j`.
spec fn links_so_far(states: Seq<Map<Bar, Load>>, i: int, j: int) -> Set<(usize, usize)> {
    Set::new(
        |p: (usize, usize)|
            state_links(states).contains(p) && {
                let low = if p.0 <= p.1 {
                    p.0
                } else {
                    p.1
                };
                let high = if p.0 <= p.1 {
                    p.1
                } else {
                    p.0
                };
                low < i || (low == i && high < j)
            },
    )
}

/// Builds the graph over the states: a node for every state, and an edge of
/// cost one between every two states that are state-adjacent.
pub(crate) fn graph(states: &Vec<GymState>) -> (g: StateGraph)
    requires
        states@.len() <= 0x8000,
    ensures
        graph_nodes(g) == state_nodes(states@.len()),
        graph_links(g).dom() == state_links(snapshots(states@)),
        forall|k: (usize, usize)| #[trigger] graph_links(g).contains_key(k) ==> graph_links(g)[k] == 1,
{
    let n: usize = states.len();
    let ghost views = snapshots(states@);
    let mut g = graph_new();
    let mut k: usize = 0;
    while k < n
        invariant
            k <= n,
            graph_nodes(g) == state_nodes(k as nat),
            graph_links(g).dom() == Set::<(usize, usize)>::empty(),
        decreases n - k,
    {
        graph_add_node(&mut g, k);
        proof {
            assert(graph_nodes(g) =~= state_nodes((k + 1) as nat));
        }
        k += 1;
    }
    proof {
        assert(graph_links(g).dom() =~= links_so_far(views, 0, 0));
    }
    let mut i: usize = 0;
    while i < n
        invariant
            i <= n,
            n == states@.len(),
            views == snapshots(states@),
            graph_nodes(g) == state_nodes(n as nat),
            graph_links(g).dom() == links_so_far(views, i as int, 0),
            forall|k: (usize, usize)| #[trigger]
                graph_links(g).contains_key(k) ==> graph_links(g)[k] == 1,
        decreases n - i,
    {
        let mut j: usize = i + 1;
        proof {
            assert(links_so_far(views, i as int, 0) =~= links_so_far(views, i as int, i as int + 1))
                by {
                assert forall|p: (usize, usize)|
                    links_so_far(views, i as int, i as int + 1).contains(p) implies links_so_far(
                    views,
                    i as int,
                    0,
                ).contains(p) by {
                    if p.0 == p.1 {
                        lemma_state_adjacent_irreflexive(views[p.0 as int]);
                    }
                }
            }
        }
        while j < n
            invariant
                i < j <= n,
                n == states@.len(),
                views == snapshots(states@),
                graph_nodes(g) == state_nodes(n as nat),
                graph_links(g).dom() == links_so_far(views, i as int, j as int),
                forall|k: (usize, usize)| #[trigger]
                    graph_links(g).contains_key(k) ==> graph_links(g)[k] == 1,
            decreases n - j,
        {
            let ghost before = graph_links(g).dom();
            proof {
                lemma_state_adjacent_symmetric(views[i as int], views[j as int]);
            }
            if states[i].adjacent(&states[j]) {
                graph_add_edge(&mut g, i, j, 1);
                proof {
                    assert(graph_nodes(g) =~= state_nodes(n as nat));
                    assert(graph_links(g).dom() =~= before.insert((i, j)).insert((j, i)));
                }
            }
            proof {
                assert(graph_links(g).dom() =~= links_so_far(views, i as int, j as int + 1));
            }
            j += 1;
        }
        proof {
            assert(links_so_far(views, i as int, n as int) =~= links_so_far(
                views,
                i as int + 1,
                0,
            ));
        }
        i += 1;
    }
    proof {
        assert(links_so_far(views, n as int, 0) =~= state_links(views));
    }
    g
}


/// Whether the gym can be built from the inventory and the bars: every bar
/// with all its usable units on can be weighed in 32 bits, and the bars of
/// either kind have no more than `ceiling` usable units between them.
pub open spec fn admissible(inventory: Seq<Plate>, bars: Seq<Bar>, ceiling: nat) -> bool {
    &&& forall|j: int|
        0 <= j < bars.len() ==> load_weight(full_load(inventory, #[trigger] bars[j])) <= u32::MAX
    &&& total_units(inventory, bars_of_kind(bars, BarKind::Dumbbell)) <= ceiling
    &&& total_units(inventory, bars_of_kind(bars, BarKind::Barbell)) <= ceiling
}

/// The weights of the configurations, each once: a weight is left out where
/// it equals the one before it.
pub open spec fn distinct_weights(loads: Seq<Load>) -> Seq<u32>
    decreases loads.len(),
{
    if loads.len() == 0 {
        Seq::empty()
    } else {
        let before = distinct_weights(loads.drop_last());
        let weight = load_weight(loads.last()) as u32;
        if before.len() > 0 && before.last() == weight {
            before
        } else {
            before.push(weight)
        }
    }
}

/// For each of the bars, the weights that it can be loaded to.
pub open spec fn available(inventory: Seq<Plate>, bars: Seq<Bar>) -> Seq<(Bar, Seq<u32>)> {
    Seq::new(
        bars.len(),
        |j: int| (bars[j], distinct_weights(configurations(inventory, bars[j]))),
    )
}

/// Whether `weights` lists, in ascending order and each once, the weights
/// of the configurations that the inventory allows for `bar`.
pub open spec fn lists_weights(inventory: Seq<Plate>, bar: Bar, weights: Seq<u32>) -> bool {
    &&& forall|a: int, b: int|
        0 <= a < b < weights.len() ==> #[trigger] weights[a] < #[trigger] weights[b]
    &&& forall|w: u32|
        weights.contains(w) <==> exists|load: Load|
            #[trigger] is_configuration(unit_list(inventory, bar), bar, load) && load_weight(load)
                == w
}

/// The weights of the configurations of a bar, each once, list its
/// weights.
proof fn lemma_lists_weights(inventory: Seq<Plate>, bar: Bar, loads: Seq<Load>)
    requires
        ascending(loads),
        forall|i: int| 0 <= i < loads.len() ==> load_weight(#[trigger] loads[i]) <= u32::MAX,
        forall|load: Load|
            loads.contains(load) <==> is_configuration(unit_list(inventory, bar), bar, load),
    ensures
        lists_weights(inventory, bar, distinct_weights(loads)),
{
    assert forall|i: int| 0 <= i < loads.len() implies 0 <= load_weight(#[trigger] loads[i]) by {
        lemma_plates_weight_nonnegative(loads[i].plates);
    }
    lemma_distinct_weights(loads);
    let weights = distinct_weights(loads);
    assert forall|w: u32|
        weights.contains(w) <==> exists|load: Load|
            #[trigger] is_configuration(unit_list(inventory, bar), bar, load) && load_weight(load)
                == w by {
        if weights.contains(w) {
            let i = choose|i: int| 0 <= i < loads.len() && load_weight(#[trigger] loads[i]) == w;
            assert(loads.contains(loads[i]));
            assert(is_configuration(unit_list(inventory, bar), bar, loads[i]));
        }
        if exists|load: Load|
            #[trigger] is_configuration(unit_list(inventory, bar), bar, load) && load_weight(load)
                == w {
            let load = choose|load: Load|
                #[trigger] is_configuration(unit_list(inventory, bar), bar, load) && load_weight(
                    load,
                ) == w;
            assert(loads.contains(load));
            let i = choose|i: int| 0 <= i < loads.len() && loads[i] == load;
            assert(load_weight(loads[i]) == w);
        }
    }
}

/// The state in which every one of the bars is unloaded.
pub open spec fn unloaded(bars: Seq<Bar>) -> Map<Bar, Load> {
    Map::new(|b: Bar| bars.contains(b), |b: Bar| Load { plates: Seq::empty(), bar: b })
}

/// The state in which every bar is unloaded is one of the states.
pub proof fn lemma_unloaded_is_a_state(
    inventory: Seq<Plate>,
    bars: Seq<Bar>,
    states: Seq<Map<Bar, Load>>,
)
    requires
        is_state_space(inventory, bars, states),
    ensures
        states.contains(unloaded(bars)),
{
    let state = unloaded(bars);
    assert forall|b: Bar| #[trigger] state.contains_key(b) implies is_configuration(
        unit_list(inventory, b),
        b,
        state[b],
    ) by {
        lemma_selection_none(unit_list(inventory, b));
        let nothing = Seq::new(unit_list(inventory, b).len(), |i: int| false);
        assert(state[b].plates == crate::combinations::selection(unit_list(inventory, b), nothing));
    }
    assert(is_joint_state(inventory, bars, state));
    assert(well_keyed(state));
}

/// The weights listed for each bar.
pub open spec fn weight_views(entries: Seq<(Bar, Vec<u32>)>) -> Seq<(Bar, Seq<u32>)> {
    entries.map_values(|e: (Bar, Vec<u32>)| (e.0, e.1@))
}

/// The weights of configurations in ascending order, each once, are in
/// strictly ascending order, and they are the weights of the
/// configurations.
pub proof fn lemma_distinct_weights(loads: Seq<Load>)
    requires
        ascending(loads),
        forall|i: int| 0 <= i < loads.len() ==> 0 <= load_weight(#[trigger] loads[i]) <= u32::MAX,
    ensures
        forall|a: int, b: int|
            0 <= a < b < distinct_weights(loads).len() ==> #[trigger] distinct_weights(loads)[a]
                < #[trigger] distinct_weights(loads)[b],
        forall|w: u32|
            distinct_weights(loads).contains(w) <==> exists|i: int|
                0 <= i < loads.len() && load_weight(#[trigger] loads[i]) == w,
        loads.len() > 0 ==> distinct_weights(loads).len() > 0 && distinct_weights(loads).last()
            == load_weight(loads.last()),
    decreases loads.len(),
{
    if loads.len() > 0 {
        let rest = loads.drop_last();
        let before = distinct_weights(rest);
        let out = distinct_weights(loads);
        let weight = load_weight(loads.last()) as u32;
        assert forall|i: int, j: int| 0 <= i < j < rest.len() implies load_weight(
            #[trigger] rest[i],
        ) <= load_weight(#[trigger] rest[j]) by {
            assert(load_weight(loads[i]) <= load_weight(loads[j]));
        }
        lemma_distinct_weights(rest);
        if rest.len() > 0 {
            assert(load_weight(loads[rest.len() - 1]) <= load_weight(loads[loads.len() - 1]));
            assert(rest.last() == loads[rest.len() - 1]);
        }
        assert forall|a: int, b: int| 0 <= a < b < out.len() implies #[trigger] out[a]
            < #[trigger] out[b] by {
            if b < before.len() {
            } else {
                assert(before[a] <= before[before.len() - 1]) by {
                    if a < before.len() - 1 {
                        assert(before[a] < before[before.len() - 1]);
                    }
                }
            }
        }
        assert forall|w: u32| out.contains(w) <==> exists|i: int|
            0 <= i < loads.len() && load_weight(#[trigger] loads[i]) == w by {
            if out.contains(w) {
                let k = choose|k: int| 0 <= k < out.len() && out[k] == w;
                if k < before.len() {
                    assert(before.contains(w));
                    let i = choose|i: int| 0 <= i < rest.len() && load_weight(#[trigger] rest[i]) == w;
                    assert(load_weight(loads[i]) == w);
                } else {
                    assert(load_weight(loads[loads.len() - 1]) == w);
                }
            }
            if exists|i: int| 0 <= i < loads.len() && load_weight(#[trigger] loads[i]) == w {
                let i = choose|i: int| 0 <= i < loads.len() && load_weight(#[trigger] loads[i]) == w;
                if i < rest.len() {
                    assert(load_weight(rest[i]) == w);
                    assert(before.contains(w));
                    let k = choose|k: int| 0 <= k < before.len() && before[k] == w;
                    assert(out[k] == w);
                } else {
                    assert(out[out.len() - 1] == w);
                }
            }
        }
    }
}

/// The states of the bars of one kind, with the graph over them.
struct Partition {
    bars: Vec<Bar>,
    states: Vec<GymState>,
    graph: StateGraph,
}

impl Partition {
    spec fn wf(&self, kind: BarKind) -> bool {
        &&& self.bars@.no_duplicates()
        &&& forall|j: int| 0 <= j < self.bars@.len() ==> (#[trigger] self.bars@[j]).kind == kind
        &&& 1 <= self.states@.len() <= 0x8000
        &&& forall|i: int, b: Bar|
            0 <= i < self.states@.len() ==> ((#[trigger] self.states@[i])@.contains_key(b)
                <==> #[trigger] self.bars@.contains(b))
        &&& forall|i: int, b: Bar|
            0 <= i < self.states@.len() && (#[trigger] self.states@[i])@.contains_key(b)
                ==> load_weight(#[trigger] self.states@[i]@[b]) <= u32::MAX && self.states@[i]@[b].bar
                == b
        &&& graph_nodes(self.graph) == state_nodes(self.states@.len())
        &&& graph_links(self.graph).dom() == state_links(snapshots(self.states@))
        &&& forall|k: (usize, usize)| #[trigger]
            graph_links(self.graph).contains_key(k) ==> graph_links(self.graph)[k] == 1
    }

    /// Whether the states are the joint states that the inventory allows
    /// the bars to be in.
    spec fn built_from(&self, inventory: Seq<Plate>, bars: Seq<Bar>) -> bool {
        &&& self.bars@ == bars
        &&& is_state_space(inventory, bars, snapshots(self.states@))
    }

    fn build(inventory: &Vec<Plate>, bars: Vec<Bar>, kind: BarKind) -> (part: Self)
        requires
            bars@.no_duplicates(),
            forall|j: int| 0 <= j < bars@.len() ==> (#[trigger] bars@[j]).kind == kind,
            total_units(inventory@, bars@) <= MAX_UNITS,
            forall|j: int|
                0 <= j < bars@.len() ==> load_weight(full_load(inventory@, #[trigger] bars@[j]))
                    <= u32::MAX,
        ensures
            part.wf(kind),
            part.built_from(inventory@, bars@),
    {
        let states = joint_states(inventory, &bars);
        let graph = graph(&states);
        proof {
            assert forall|i: int, b: Bar| 0 <= i < states@.len() implies ((
            #[trigger] states@[i])@.contains_key(b) <==> #[trigger] bars@.contains(b)) by {
                assert(is_joint_state(inventory@, bars@, states@[i]@));
            }
            assert forall|i: int| 0 <= i < states@.len() implies is_joint_state(
                inventory@,
                bars@,
                #[trigger] snapshots(states@)[i],
            ) && well_keyed(snapshots(states@)[i]) by {
                assert(is_joint_state(inventory@, bars@, states@[i]@));
                assert forall|b: Bar| #[trigger] states@[i]@.contains_key(b) implies states@[i]@[b].bar
                    == b by {
                    assert(load_weight(states@[i]@[b]) <= u32::MAX && states@[i]@[b].bar == b);
                }
            }
            assert forall|i: int, j: int| 0 <= i < j < states@.len() implies #[trigger] snapshots(
                states@,
            )[i] != #[trigger] snapshots(states@)[j] by {
                assert(states@[i]@ != states@[j]@);
            }
        }
        Partition { bars, states, graph }
    }
}

/// Whether `states` are the joint states that the inventory allows the bars
/// to be in: the numbered states of the state space, each of which gives
/// every bar one of its configurations; every such assignment is among
/// them, and none occurs twice.
pub open spec fn is_state_space(
    inventory: Seq<Plate>,
    bars: Seq<Bar>,
    states: Seq<Map<Bar, Load>>,
) -> bool {
    &&& states == state_space(inventory, bars)
    &&& 1 <= states.len() <= 0x8000
    &&& forall|i: int|
        0 <= i < states.len() ==> is_joint_state(inventory, bars, #[trigger] states[i])
            && well_keyed(states[i])
    &&& forall|state: Map<Bar, Load>|
        is_joint_state(inventory, bars, state) && well_keyed(state) ==> states.contains(state)
    &&& forall|i: int, j: int| 0 <= i < j < states.len() ==> #[trigger] states[i] != #[trigger] states[j]
}

/// The distinct bars of `kind` among `bars`, in the order in which they
/// first occur.
fn bars_of(bars: &Vec<Bar>, kind: BarKind) -> (out: Vec<Bar>)
    ensures
        out@ == bars_of_kind(bars@, kind),
{
    let mut out: Vec<Bar> = Vec::new();
    let mut i: usize = 0;
    while i < bars.len()
        invariant
            i <= bars.len(),
            out@ == bars_of_kind(bars@.take(i as int), kind),
        decreases bars.len() - i,
    {
        proof {
            assert(bars@.take(i as int + 1).drop_last() =~= bars@.take(i as int));
        }
        let bar = bars[i];
        if bar.kind == kind {
            let mut known = false;
            let mut k: usize = 0;
            while k < out.len() && !known
                invariant
                    k <= out.len(),
                    known ==> out@.contains(bar),
                    !known ==> forall|m: int| 0 <= m < k ==> out@[m] != bar,
                decreases out.len() - k + if known { 0int } else { 1int },
            {
                if out[k] == bar {
                    known = true;
                } else {
                    k += 1;
                }
            }
            if !known {
                out.push(bar);
            }
        }
        i += 1;
    }
    proof {
        assert(bars@.take(bars@.len() as int) =~= bars@);
    }
    out
}

/// Whether the bars have no more than `ceiling` usable units between them.
fn units_within(inventory: &Vec<Plate>, bars: &Vec<Bar>, ceiling: usize) -> (r: bool)
    ensures
        r == (total_units(inventory@, bars@) <= ceiling),
{
    let mut total: usize = 0;
    let mut j: usize = 0;
    while j < bars.len()
        invariant
            j <= bars.len(),
            total == total_units(inventory@, bars@.take(j as int)),
            total <= ceiling,
        decreases bars.len() - j,
    {
        proof {
            assert(bars@.take(j as int + 1).drop_last() =~= bars@.take(j as int));
        }
        let units = usable_units(inventory, &bars[j]);
        if units.len() > ceiling - total {
            proof {
                lemma_total_units_grows(inventory@, bars@, j as int + 1);
            }
            return false;
        }
        total = total + units.len();
        j += 1;
    }
    proof {
        assert(bars@.take(bars@.len() as int) =~= bars@);
    }
    true
}

/// The units of some of the bars, from the front, are no more than the
/// units of all of them.
proof fn lemma_total_units_grows(inventory: Seq<Plate>, bars: Seq<Bar>, upto: int)
    requires
        0 <= upto <= bars.len(),
    ensures
        total_units(inventory, bars.take(upto)) <= total_units(inventory, bars),
    decreases bars.len() - upto,
{
    if upto == bars.len() {
        assert(bars.take(upto) =~= bars);
    } else {
        lemma_total_units_grows(inventory, bars, upto + 1);
        assert(bars.take(upto + 1).drop_last() =~= bars.take(upto));
    }
}

/// Whether every bar with all its usable units on can be weighed in 32
/// bits.
fn weights_fit(inventory: &Vec<Plate>, bars: &Vec<Bar>) -> (r: bool)
    ensures
        r == (forall|j: int|
            0 <= j < bars@.len() ==> load_weight(full_load(inventory@, #[trigger] bars@[j]))
                <= u32::MAX),
{
    let mut j: usize = 0;
    while j < bars.len()
        invariant
            j <= bars.len(),
            forall|k: int|
                0 <= k < j ==> load_weight(full_load(inventory@, #[trigger] bars@[k])) <= u32::MAX,
        decreases bars.len() - j,
    {
        let units = usable_units(inventory, &bars[j]);
        proof {
            lemma_units_fit(units@, inventory@, bars@[j as int]);
            lemma_canonical_fixed_point(units@, bars@[j as int]);
        }
        let full = Dumbbell::new(units, bars[j]);
        if full.checked_weight().is_none() {
            return false;
        }
        j += 1;
    }
    true
}

/// The weights of the configurations, each once.
fn weights_of(configs: &Vec<Dumbbell>) -> (weights: Vec<u32>)
    requires
        forall|i: int| 0 <= i < configs@.len() ==> load_weight((#[trigger] configs@[i])@) <= u32::MAX,
    ensures
        weights@ == distinct_weights(views(configs@)),
{
    let mut weights: Vec<u32> = Vec::new();
    let mut i: usize = 0;
    while i < configs.len()
        invariant
            i <= configs.len(),
            forall|i: int|
                0 <= i < configs@.len() ==> load_weight((#[trigger] configs@[i])@) <= u32::MAX,
            weights@ == distinct_weights(views(configs@).take(i as int)),
        decreases configs.len() - i,
    {
        proof {
            assert(views(configs@).take(i as int + 1).drop_last() =~= views(configs@).take(i as int));
            assert(views(configs@).take(i as int + 1).last() == configs@[i as int]@);
        }
        let weight: u32 = configs[i].weight();
        let repeated = weights.len() > 0 && weights[weights.len() - 1] == weight;
        if !repeated {
            weights.push(weight);
        }
        i += 1;
    }
    proof {
        assert(views(configs@).take(configs@.len() as int) =~= views(configs@));
    }
    weights
}

/// The planner: the states that the bars can be in, kind by kind, and the
/// graph of single plate changes between them.
pub struct Gym {
    dumbbells: Partition,
    barbells: Partition,
    weights: Vec<(Bar, Vec<u32>)>,
}

impl Gym {
    #[verifier::type_invariant]
    spec fn well_formed(self) -> bool {
        self.dumbbells.wf(BarKind::Dumbbell) && self.barbells.wf(BarKind::Barbell)
    }

    /// The bars of `kind` that the gym has, each once, in the order in which
    /// they were given.
    pub closed spec fn spec_bars(&self, kind: BarKind) -> Seq<Bar> {
        match kind {
            BarKind::Dumbbell => self.dumbbells.bars@,
            BarKind::Barbell => self.barbells.bars@,
        }
    }

    /// The joint states of the bars of `kind`; a state's number is its
    /// place in this sequence.
    pub closed spec fn spec_states(&self, kind: BarKind) -> Seq<Map<Bar, Load>> {
        match kind {
            BarKind::Dumbbell => snapshots(self.dumbbells.states@),
            BarKind::Barbell => snapshots(self.barbells.states@),
        }
    }

    /// For each bar, the weights that it can be loaded to.
    pub closed spec fn spec_weights(&self) -> Seq<(Bar, Seq<u32>)> {
        weight_views(self.weights@)
    }

    /// Whether this is the gym that the inventory and the bars give.
    pub open spec fn built_from(&self, inventory: Seq<Plate>, bars: Seq<Bar>) -> bool {
        &&& self.spec_bars(BarKind::Dumbbell) == bars_of_kind(bars, BarKind::Dumbbell)
        &&& self.spec_bars(BarKind::Barbell) == bars_of_kind(bars, BarKind::Barbell)
        &&& is_state_space(
            inventory,
            bars_of_kind(bars, BarKind::Dumbbell),
            self.spec_states(BarKind::Dumbbell),
        )
        &&& is_state_space(
            inventory,
            bars_of_kind(bars, BarKind::Barbell),
            self.spec_states(BarKind::Barbell),
        )
        &&& self.spec_weights() == available(
            inventory,
            bars_of_kind(bars, BarKind::Dumbbell) + bars_of_kind(bars, BarKind::Barbell),
        )
        &&& forall|k: int|
            0 <= k < self.spec_weights().len() ==> lists_weights(
                inventory,
                (#[trigger] self.spec_weights()[k]).0,
                self.spec_weights()[k].1,
            )
    }

    /// Whether the gym can be built: see [`admissible`].
    pub fn admits(plates: &Vec<Plate>, bars: &Vec<Bar>, ceiling: usize) -> (r: bool)
        ensures
            r == admissible(plates@, bars@, ceiling as nat),
    {
        if !weights_fit(plates, bars) {
            return false;
        }
        let lifted = bars_of(bars, BarKind::Dumbbell);
        if !units_within(plates, &lifted, ceiling) {
            return false;
        }
        let racked = bars_of(bars, BarKind::Barbell);
        units_within(plates, &racked, ceiling)
    }

    /// Builds the gym: the configurations that the inventory allows for
    /// each bar, the joint states of the bars of each kind, and the graph
    /// of single plate changes between the states.
    #[must_use]
    pub fn new(plates: Vec<Plate>, bars: Vec<Bar>) -> (gym: Self)
        requires
            admissible(plates@, bars@, MAX_UNITS as nat),
        ensures
            gym.built_from(plates@, bars@),
    {
        let lifted = bars_of(&bars, BarKind::Dumbbell);
        let racked = bars_of(&bars, BarKind::Barbell);
        proof {
            lemma_bars_of_kind(bars@, BarKind::Dumbbell);
            lemma_bars_of_kind(bars@, BarKind::Barbell);
            assert forall|j: int| 0 <= j < lifted@.len() implies (#[trigger] lifted@[j]).kind
                == BarKind::Dumbbell && load_weight(full_load(plates@, lifted@[j])) <= u32::MAX by {
                assert(lifted@.contains(lifted@[j]));
                assert(bars@.contains(lifted@[j]));
                let i = choose|i: int| 0 <= i < bars@.len() && bars@[i] == lifted@[j];
                assert(load_weight(full_load(plates@, bars@[i])) <= u32::MAX);
            }
            assert forall|j: int| 0 <= j < racked@.len() implies (#[trigger] racked@[j]).kind
                == BarKind::Barbell && load_weight(full_load(plates@, racked@[j])) <= u32::MAX by {
                assert(racked@.contains(racked@[j]));
                assert(bars@.contains(racked@[j]));
                let i = choose|i: int| 0 <= i < bars@.len() && bars@[i] == racked@[j];
                assert(load_weight(full_load(plates@, bars@[i])) <= u32::MAX);
            }
        }
        let ghost all = lifted@ + racked@;
        let mut weights: Vec<(Bar, Vec<u32>)> = Vec::new();
        let mut j: usize = 0;
        while j < lifted.len()
            invariant
                j <= lifted.len(),
                all == lifted@ + racked@,
                total_units(plates@, lifted@) <= MAX_UNITS,
                forall|j: int|
                    0 <= j < lifted@.len() ==> load_weight(full_load(plates@, #[trigger] lifted@[j]))
                        <= u32::MAX,
                weights@.len() == j,
                forall|k: int|
                    0 <= k < j ==> weight_views(weights@)[k] == #[trigger] available(plates@, all)[k],
                forall|k: int|
                    0 <= k < j ==> lists_weights(
                        plates@,
                        (#[trigger] weight_views(weights@)[k]).0,
                        weight_views(weights@)[k].1,
                    ),
            decreases lifted.len() - j,
        {
            proof {
                crate::state_space::lemma_units_of_each(plates@, lifted@, j as int);
            }
            let configs = dumbbells(&plates, &lifted[j]);
            let list = weights_of(&configs);
            let ghost before = weights@;
            weights.push((lifted[j], list));
            proof {
                assert(all[j as int] == lifted@[j as int]);
                assert forall|k: int| 0 <= k < j + 1 implies weight_views(weights@)[k]
                    == #[trigger] available(plates@, all)[k] by {
                    if k < j {
                        assert(weight_views(before)[k] == available(plates@, all)[k]);
                    }
                }
                assert forall|i: int| 0 <= i < views(configs@).len() implies load_weight(
                    #[trigger] views(configs@)[i],
                ) <= u32::MAX by {
                    assert(load_weight(configs@[i]@) <= u32::MAX);
                }
                lemma_lists_weights(plates@, lifted@[j as int], views(configs@));
                assert forall|k: int| 0 <= k < j + 1 implies lists_weights(
                    plates@,
                    (#[trigger] weight_views(weights@)[k]).0,
                    weight_views(weights@)[k].1,
                ) by {
                    if k < j {
                        assert(weight_views(before)[k] == weight_views(weights@)[k]);
                    }
                }
            }
            j += 1;
        }
        let mut m: usize = 0;
        while m < racked.len()
            invariant
                m <= racked.len(),
                all == lifted@ + racked@,
                total_units(plates@, racked@) <= MAX_UNITS,
                forall|j: int|
                    0 <= j < racked@.len() ==> load_weight(full_load(plates@, #[trigger] racked@[j]))
                        <= u32::MAX,
                weights@.len() == lifted@.len() + m,
                forall|k: int|
                    0 <= k < lifted@.len() + m ==> weight_views(weights@)[k] == #[trigger] available(
                        plates@,
                        all,
                    )[k],
                forall|k: int|
                    0 <= k < lifted@.len() + m ==> lists_weights(
                        plates@,
                        (#[trigger] weight_views(weights@)[k]).0,
                        weight_views(weights@)[k].1,
                    ),
            decreases racked.len() - m,
        {
            proof {
                crate::state_space::lemma_units_of_each(plates@, racked@, m as int);
            }
            let configs = dumbbells(&plates, &racked[m]);
            let list = weights_of(&configs);
            let ghost before = weights@;
            weights.push((racked[m], list));
            proof {
                assert(all[lifted@.len() + m] == racked@[m as int]);
                assert forall|k: int| 0 <= k < lifted@.len() + m + 1 implies weight_views(
                    weights@,
                )[k] == #[trigger] available(plates@, all)[k] by {
                    if k < lifted@.len() + m {
                        assert(weight_views(before)[k] == available(plates@, all)[k]);
                    }
                }
                assert forall|i: int| 0 <= i < views(configs@).len() implies load_weight(
                    #[trigger] views(configs@)[i],
                ) <= u32::MAX by {
                    assert(load_weight(configs@[i]@) <= u32::MAX);
                }
                lemma_lists_weights(plates@, racked@[m as int], views(configs@));
                assert forall|k: int| 0 <= k < lifted@.len() + m + 1 implies lists_weights(
                    plates@,
                    (#[trigger] weight_views(weights@)[k]).0,
                    weight_views(weights@)[k].1,
                ) by {
                    if k < lifted@.len() + m {
                        assert(weight_views(before)[k] == weight_views(weights@)[k]);
                    }
                }
            }
            m += 1;
        }
        proof {
            assert(weight_views(weights@) =~= available(plates@, all));
        }
        let dumbbells = Partition::build(&plates, lifted, BarKind::Dumbbell);
        let barbells = Partition::build(&plates, racked, BarKind::Barbell);
        Gym { dumbbells, barbells, weights }
    }

    /// Builds the gym where the inventory and the bars allow it with no
    /// more than `ceiling` usable units for the bars of either kind, and
    /// with no more than [`MAX_UNITS`] in any case.
    pub fn with_ceiling(plates: Vec<Plate>, bars: Vec<Bar>, ceiling: usize) -> (gym: Option<Self>)
        ensures
            gym is Some <==> admissible(plates@, bars@, ceiling as nat) && admissible(
                plates@,
                bars@,
                MAX_UNITS as nat,
            ),
            gym matches Some(g) ==> g.built_from(plates@, bars@),
    {
        if Gym::admits(&plates, &bars, ceiling) && Gym::admits(&plates, &bars, MAX_UNITS) {
            Some(Gym::new(plates, bars))
        } else {
            None
        }
    }

    /// For each bar, the weights that it can be loaded to, in ascending
    /// order, each once.
    #[must_use]
    pub fn weights(&self) -> (weights: &Vec<(Bar, Vec<u32>)>)
        ensures
            weight_views(weights@) == self.spec_weights(),
    {
        &self.weights
    }

    fn partition(&self, kind: BarKind) -> (part: &Partition)
        ensures
            part.wf(kind),
            part.bars@ == self.spec_bars(kind),
            snapshots(part.states@) == self.spec_states(kind),
    {
        proof {
            use_type_invariant(self);
        }
        match kind {
            BarKind::Dumbbell => &self.dumbbells,
            BarKind::Barbell => &self.barbells,
        }
    }

    /// The bars of `kind`, each once, in the order in which they were
    /// given.
    pub fn bars(&self, kind: BarKind) -> (bars: &Vec<Bar>)
        ensures
            bars@ == self.spec_bars(kind),
    {
        &self.partition(kind).bars
    }

    /// The joint states of the bars of `kind`, each at the place of its
    /// number.
    pub fn states(&self, kind: BarKind) -> (states: &Vec<GymState>)
        ensures
            snapshots(states@) == self.spec_states(kind),
    {
        &self.partition(kind).states
    }

    /// The least number of plate changes that lead from one state of the
    /// bars of `kind` to another, or `None` where the second cannot be
    /// reached from the first.
    pub fn distance(&self, kind: BarKind, from: GymStateId, to: GymStateId) -> (d: Option<u32>)
        ensures
            match d {
                Some(d) => reachable(self.spec_states(kind), from.0, to.0) && d == hops(
                    self.spec_states(kind),
                    from.0,
                    to.0,
                ),
                None => !reachable(self.spec_states(kind), from.0, to.0),
            },
    {
        let part = self.partition(kind);
        proof {
            assert(snapshots(part.states@).len() == part.states@.len());
        }
        match all_pairs(&part.graph) {
            Ok(table) => {
                proof {
                    assert(crate::links::table_entries(table).contains_key((from.0, to.0))
                        == crate::links::connected(
                        state_nodes(part.states@.len()),
                        state_links(snapshots(part.states@)),
                        from.0,
                        to.0,
                    ));
                }
                table_get(&table, from.0, to.0)
            },
            Err(_) => None,
        }
    }

    /// The states that qualify for the requirement: those in which some
    /// bar of the requirement's kind weighs exactly what is asked for. They
    /// come in ascending order of their numbers.
    pub fn find_states_for_requirement(&self, requirement: Requirement) -> (found: Vec<GymStateId>)
        ensures
            is_candidates(
                self.spec_bars(requirement.bar_kind),
                self.spec_states(requirement.bar_kind),
                requirement,
                numbers(found@),
            ),
    {
        let part = self.partition(requirement.bar_kind);
        let cand = candidates(&part.bars, &part.states, &requirement);
        let found = to_ids(&cand);
        found
    }

    /// The cheapest sequence of states of the bars of `bar_kind` that
    /// serves the requirements in order, one state for each, and what it
    /// costs in plate changes. Where a requirement cannot be served, the
    /// first such requirement comes back as the error.
    pub fn find_optimal_sequence(&self, bar_kind: BarKind, requirements: &Vec<Requirement>) -> (r:
        Result<(Vec<GymStateId>, u128), GymError>)
        ensures
            match r {
                Ok(found) => is_best_route(
                    self.spec_bars(bar_kind),
                    self.spec_states(bar_kind),
                    requirements@,
                    numbers(found.0@),
                    found.1 as nat,
                ),
                Err(e) => exists|stage: int|
                    #[trigger] first_blocked(
                        self.spec_bars(bar_kind),
                        self.spec_states(bar_kind),
                        requirements@,
                        stage,
                    ) && e == GymError::InvalidRequirement(requirements@[stage]),
            },
            r is Ok <==> !blocked(
                self.spec_bars(bar_kind),
                self.spec_states(bar_kind),
                requirements@,
                requirements@.len(),
            ),
    {
        let part = self.partition(bar_kind);
        match cheapest_sequence(&part.bars, &part.states, &part.graph, requirements) {
            Ok(found) => {
                let ids = to_ids(&found.0);
                proof {
                    assert(is_route(
                        self.spec_bars(bar_kind),
                        self.spec_states(bar_kind),
                        requirements@,
                        found.0@,
                    ) && found.0@.len() == requirements@.len());
                }
                Ok((ids, found.1))
            },
            Err(stage) => {
                proof {
                    assert(first_blocked(
                        self.spec_bars(bar_kind),
                        self.spec_states(bar_kind),
                        requirements@,
                        stage as int,
                    ));
                    lemma_blocked_stays(
                        self.spec_bars(bar_kind),
                        self.spec_states(bar_kind),
                        requirements@,
                        (stage + 1) as nat,
                        requirements@.len(),
                    );
                }
                Err(GymError::InvalidRequirement(requirements[stage]))
            },
        }
    }

    /// Whether `path` with its cost is a cheapest sequence of states for
    /// the requirements that ask for bars of `kind`.
    pub open spec fn serves(
        &self,
        requirements: Seq<Requirement>,
        kind: BarKind,
        path: Seq<usize>,
        cost: nat,
    ) -> bool {
        is_best_route(
            self.spec_bars(kind),
            self.spec_states(kind),
            kind_requirements(requirements, kind),
            path,
            cost,
        )
    }

    /// The plan for the bars of `kind` that the chosen states make.
    pub open spec fn plan(
        &self,
        requirements: Seq<Requirement>,
        kind: BarKind,
        path: Seq<usize>,
    ) -> Seq<(Bar, Seq<Load>)> {
        plan_of(
            self.spec_bars(kind),
            self.spec_states(kind),
            kind_requirements(requirements, kind),
            path,
        )
    }

    /// Whether the requirement at place `i` is the first one among those of
    /// its kind that cannot be served.
    pub open spec fn unserved_at(
        &self,
        requirements: Seq<Requirement>,
        kind: BarKind,
        i: int,
    ) -> bool {
        exists|stage: int|
            #[trigger] first_blocked(
                self.spec_bars(kind),
                self.spec_states(kind),
                kind_requirements(requirements, kind),
                stage,
            ) && kind_positions(requirements, kind)[stage] == i
    }

    /// Whether `outcome` is what planning the requirements comes to. A
    /// plan lists, for the dumbbell bars and then for the barbell bars, what
    /// the cheapest sequence of states for the requirements of that kind
    /// assigns to each bar. An error names the first requirement that is
    /// the first unserved one of its kind.
    pub open spec fn plans(
        &self,
        requirements: Seq<Requirement>,
        outcome: Result<Seq<(Bar, Seq<Load>)>, GymError>,
    ) -> bool {
        &&& outcome is Ok <==> forall|kind: BarKind, i: int|
            !#[trigger] self.unserved_at(requirements, kind, i)
        &&& match outcome {
            Ok(w) => exists|lifted: Seq<usize>, racked: Seq<usize>, first: nat, second: nat|
                #[trigger] self.serves(requirements, BarKind::Dumbbell, lifted, first)
                    && #[trigger] self.serves(requirements, BarKind::Barbell, racked, second) && w
                    == self.plan(requirements, BarKind::Dumbbell, lifted) + self.plan(
                    requirements,
                    BarKind::Barbell,
                    racked,
                ),
            Err(e) => exists|kind: BarKind, i: int|
                {
                    &&& #[trigger] self.unserved_at(requirements, kind, i)
                    &&& 0 <= i < requirements.len()
                    &&& e == GymError::InvalidRequirement(requirements[i])
                    &&& forall|other: BarKind, k: int| #[trigger]
                        self.unserved_at(requirements, other, k) ==> i <= k
                },
        }
    }

    /// Reads the plan off a sequence of states: for each bar of `bar_kind`,
    /// the configurations that it carries in the states chosen for the
    /// requirements, where they have the weight asked for. Bars that get
    /// no configuration are left out.
    pub fn arrange(
        &self,
        bar_kind: BarKind,
        requirements: &Vec<Requirement>,
        path: &Vec<GymStateId>,
    ) -> (plan: Vec<(Bar, Vec<Dumbbell>)>)
        requires
            path@.len() <= requirements@.len(),
            forall|i: int|
                0 <= i < path@.len() ==> (#[trigger] path@[i]).0 < self.spec_states(bar_kind).len(),
        ensures
            entry_views(plan@) == plan_of(
                self.spec_bars(bar_kind),
                self.spec_states(bar_kind),
                requirements@,
                numbers(path@),
            ),
    {
        let part = self.partition(bar_kind);
        let ghost states = snapshots(part.states@);
        let ghost route = numbers(path@);
        let mut plan: Vec<(Bar, Vec<Dumbbell>)> = Vec::new();
        let mut j: usize = 0;
        while j < part.bars.len()
            invariant
                j <= part.bars.len(),
                states == snapshots(part.states@),
                states == self.spec_states(bar_kind),
                route == numbers(path@),
                path@.len() <= requirements@.len(),
                forall|i: int| 0 <= i < path@.len() ==> (#[trigger] path@[i]).0 < states.len(),
                entry_views(plan@) == plan_of(
                    part.bars@.take(j as int),
                    states,
                    requirements@,
                    route,
                ),
            decreases part.bars.len() - j,
        {
            let bar = part.bars[j];
            let mut list: Vec<Dumbbell> = Vec::new();
            let mut i: usize = 0;
            while i < path.len()
                invariant
                    i <= path.len(),
                    states == snapshots(part.states@),
                    route == numbers(path@),
                    path@.len() <= requirements@.len(),
                    forall|i: int| 0 <= i < path@.len() ==> (#[trigger] path@[i]).0 < states.len(),
                    views(list@) == assigned(states, requirements@, route.take(i as int), bar),
                decreases path.len() - i,
            {
                proof {
                    assert(route.take(i as int + 1).drop_last() =~= route.take(i as int));
                    assert(route.take(i as int + 1).last() == path@[i as int].0);
                    assert(states[path@[i as int].0 as int] == part.states@[path@[i as int].0 as int]@);
                }
                let state = &part.states[path[i].0];
                match state.get(&bar) {
                    Some(dumbbell) => {
                        match dumbbell.checked_weight() {
                            Some(weight) => {
                                if weight == requirements[i].weight {
                                    let ghost before = list@;
                                    list.push(dumbbell.duplicate());
                                    proof {
                                        assert(views(list@) =~= views(before).push(dumbbell@));
                                    }
                                }
                            },
                            None => {},
                        }
                    },
                    None => {},
                }
                i += 1;
            }
            proof {
                assert(route.take(path@.len() as int) =~= route);
                assert(part.bars@.take(j as int + 1).drop_last() =~= part.bars@.take(j as int));
                assert(part.bars@.take(j as int + 1).last() == bar);
            }
            if list.len() > 0 {
                let ghost before = plan@;
                let ghost listed = views(list@);
                plan.push((bar, list));
                proof {
                    assert(entry_views(plan@) =~= entry_views(before).push((bar, listed)));
                }
            }
            j += 1;
        }
        proof {
            assert(part.bars@.take(part.bars@.len() as int) =~= part.bars@);
        }
        plan
    }

    /// The plan for the bars of `bar_kind`, with the states it goes
    /// through and its cost; or the first stage that cannot be served.
    fn plan_for(&self, bar_kind: BarKind, requirements: &Vec<Requirement>) -> (r: Result<
        (Vec<(Bar, Vec<Dumbbell>)>, Vec<GymStateId>, u128),
        usize,
    >)
        ensures
            match r {
                Ok(found) => is_best_route(
                    self.spec_bars(bar_kind),
                    self.spec_states(bar_kind),
                    requirements@,
                    numbers(found.1@),
                    found.2 as nat,
                ) && entry_views(found.0@) == plan_of(
                    self.spec_bars(bar_kind),
                    self.spec_states(bar_kind),
                    requirements@,
                    numbers(found.1@),
                ),
                Err(stage) => first_blocked(
                    self.spec_bars(bar_kind),
                    self.spec_states(bar_kind),
                    requirements@,
                    stage as int,
                ),
            },
    {
        let part = self.partition(bar_kind);
        match cheapest_sequence(&part.bars, &part.states, &part.graph, requirements) {
            Ok(found) => {
                let ids = to_ids(&found.0);
                proof {
                    assert forall|i: int| 0 <= i < ids@.len() implies (#[trigger] ids@[i]).0
                        < self.spec_states(bar_kind).len() by {
                        assert(numbers(ids@)[i] == ids@[i].0);
                    }
                }
                let plan = self.arrange(bar_kind, requirements, &ids);
                Ok((plan, ids, found.1))
            },
            Err(stage) => Err(stage),
        }
    }

    /// Plans the requirements, all of which are meant for bars of
    /// `bar_kind`: the cheapest sequence of states that serves them in
    /// order, read off as the configurations to load on each bar.
    pub fn order_by_kind(&self, bar_kind: BarKind, requirements: &Vec<Requirement>) -> (r: Result<
        Vec<(Bar, Vec<Dumbbell>)>,
        GymError,
    >)
        ensures
            match r {
                Ok(plan) => exists|path: Seq<usize>, cost: nat|
                    #[trigger] is_best_route(
                        self.spec_bars(bar_kind),
                        self.spec_states(bar_kind),
                        requirements@,
                        path,
                        cost,
                    ) && entry_views(plan@) == plan_of(
                        self.spec_bars(bar_kind),
                        self.spec_states(bar_kind),
                        requirements@,
                        path,
                    ),
                Err(e) => exists|stage: int|
                    #[trigger] first_blocked(
                        self.spec_bars(bar_kind),
                        self.spec_states(bar_kind),
                        requirements@,
                        stage,
                    ) && e == GymError::InvalidRequirement(requirements@[stage]),
            },
    {
        match self.plan_for(bar_kind, requirements) {
            Ok(found) => {
                proof {
                    assert(is_best_route(
                        self.spec_bars(bar_kind),
                        self.spec_states(bar_kind),
                        requirements@,
                        numbers(found.1@),
                        found.2 as nat,
                    ));
                }
                Ok(found.0)
            },
            Err(stage) => {
                proof {
                    assert(first_blocked(
                        self.spec_bars(bar_kind),
                        self.spec_states(bar_kind),
                        requirements@,
                        stage as int,
                    ));
                }
                Err(GymError::InvalidRequirement(requirements[stage]))
            },
        }
    }

    /// Plans the requirements. Those for dumbbells and those for barbells
    /// are planned apart, each kind in the order given: for each kind the
    /// cheapest sequence of states is found and read off as the
    /// configurations to load on each bar. Where a requirement cannot be
    /// served, the first such requirement comes back as the error.
    pub fn workout(&self, requirements: Vec<Requirement>) -> (r: Result<Workout, GymError>)
        ensures
            self.plans(requirements@, outcome(r)),
    {
        let lifted = of_kind(&requirements, BarKind::Dumbbell);
        let racked = of_kind(&requirements, BarKind::Barbell);
        proof {
            lemma_kind_positions(requirements@, BarKind::Dumbbell);
            lemma_kind_positions(requirements@, BarKind::Barbell);
        }
        let first = self.plan_for(BarKind::Dumbbell, &lifted.0);
        let second = self.plan_for(BarKind::Barbell, &racked.0);
        match first {
            Ok(found) => {
                match second {
                    Ok(also) => {
                        let mut entries = found.0;
                        let mut more = also.0;
                        let ghost head = entries@;
                        let ghost tail = more@;
                        entries.append(&mut more);
                        proof {
                            assert(entry_views(entries@) =~= entry_views(head) + entry_views(tail));
                            assert(self.serves(
                                requirements@,
                                BarKind::Dumbbell,
                                numbers(found.1@),
                                found.2 as nat,
                            ));
                            assert(self.serves(
                                requirements@,
                                BarKind::Barbell,
                                numbers(also.1@),
                                also.2 as nat,
                            ));
                            self.lemma_all_served(
                                requirements@,
                                BarKind::Dumbbell,
                                numbers(found.1@),
                                found.2 as nat,
                            );
                            self.lemma_all_served(
                                requirements@,
                                BarKind::Barbell,
                                numbers(also.1@),
                                also.2 as nat,
                            );
                            assert forall|kind: BarKind, i: int|
                                !#[trigger] self.unserved_at(requirements@, kind, i) by {
                                match kind {
                                    BarKind::Dumbbell => {},
                                    BarKind::Barbell => {},
                                }
                            }
                        }
                        Ok(Workout::new(entries))
                    },
                    Err(stage) => {
                        let at: usize = racked.1[stage];
                        proof {
                            self.lemma_only_unserved(
                                requirements@,
                                BarKind::Barbell,
                                stage as int,
                            );
                            self.lemma_all_served(
                                requirements@,
                                BarKind::Dumbbell,
                                numbers(found.1@),
                                found.2 as nat,
                            );
                            assert(self.unserved_at(requirements@, BarKind::Barbell, at as int));
                        }
                        Err(GymError::InvalidRequirement(requirements[at]))
                    },
                }
            },
            Err(stage) => {
                let at: usize = lifted.1[stage];
                proof {
                    self.lemma_only_unserved(requirements@, BarKind::Dumbbell, stage as int);
                    assert(self.unserved_at(requirements@, BarKind::Dumbbell, at as int));
                }
                match second {
                    Ok(also) => {
                        proof {
                            self.lemma_all_served(
                                requirements@,
                                BarKind::Barbell,
                                numbers(also.1@),
                                also.2 as nat,
                            );
                        }
                        Err(GymError::InvalidRequirement(requirements[at]))
                    },
                    Err(other_stage) => {
                        let other_at: usize = racked.1[other_stage];
                        proof {
                            self.lemma_only_unserved(
                                requirements@,
                                BarKind::Barbell,
                                other_stage as int,
                            );
                            assert(self.unserved_at(
                                requirements@,
                                BarKind::Barbell,
                                other_at as int,
                            ));
                        }
                        if at <= other_at {
                            Err(GymError::InvalidRequirement(requirements[at]))
                        } else {
                            Err(GymError::InvalidRequirement(requirements[other_at]))
                        }
                    },
                }
            },
        }
    }

    /// Where the requirements of a kind are blocked at a stage, the
    /// requirement of that stage is the only one of its kind that counts as
    /// the first unserved.
    proof fn lemma_only_unserved(&self, requirements: Seq<Requirement>, kind: BarKind, stage: int)
        requires
            first_blocked(
                self.spec_bars(kind),
                self.spec_states(kind),
                kind_requirements(requirements, kind),
                stage,
            ),
        ensures
            self.unserved_at(requirements, kind, kind_positions(requirements, kind)[stage]),
            forall|k: int| #[trigger]
                self.unserved_at(requirements, kind, k) ==> k == kind_positions(
                    requirements,
                    kind,
                )[stage],
    {
        assert forall|k: int| #[trigger] self.unserved_at(requirements, kind, k) implies k
            == kind_positions(requirements, kind)[stage] by {
            let other = choose|other: int|
                #[trigger] first_blocked(
                    self.spec_bars(kind),
                    self.spec_states(kind),
                    kind_requirements(requirements, kind),
                    other,
                ) && kind_positions(requirements, kind)[other] == k;
            lemma_first_blocked_unique(
                self.spec_bars(kind),
                self.spec_states(kind),
                kind_requirements(requirements, kind),
                stage,
                other,
            );
        }
    }

    /// Where the requirements of a kind are served, none of them counts as
    /// unserved.
    proof fn lemma_all_served(
        &self,
        requirements: Seq<Requirement>,
        kind: BarKind,
        path: Seq<usize>,
        cost: nat,
    )
        requires
            self.serves(requirements, kind, path, cost),
        ensures
            forall|k: int| !#[trigger] self.unserved_at(requirements, kind, k),
    {
        assert forall|k: int| !#[trigger] self.unserved_at(requirements, kind, k) by {
            if self.unserved_at(requirements, kind, k) {
                let stage = choose|stage: int|
                    #[trigger] first_blocked(
                        self.spec_bars(kind),
                        self.spec_states(kind),
                        kind_requirements(requirements, kind),
                        stage,
                    ) && kind_positions(requirements, kind)[stage] == k;
                lemma_served_is_not_blocked(
                    self.spec_bars(kind),
                    self.spec_states(kind),
                    kind_requirements(requirements, kind),
                    path,
                    stage,
                );
            }
        }
    }
}

/// What came of planning, with the plan as the configurations it lists.
pub open spec fn outcome(r: Result<Workout, GymError>) -> Result<Seq<(Bar, Seq<Load>)>, GymError> {
    match r {
        Ok(w) => Ok(w@),
        Err(e) => Err(e),
    }
}

/// Planning is determined by what it is given: gyms built from the same
/// inventory and the same bars have the same bars, states and weights, and
/// they plan the same requirements to the same outcome.
pub proof fn lemma_planning_is_determined(
    one: Gym,
    other: Gym,
    inventory: Seq<Plate>,
    bars: Seq<Bar>,
    requirements: Seq<Requirement>,
    a: Result<Seq<(Bar, Seq<Load>)>, GymError>,
    b: Result<Seq<(Bar, Seq<Load>)>, GymError>,
)
    requires
        one.built_from(inventory, bars),
        other.built_from(inventory, bars),
        one.plans(requirements, a),
        other.plans(requirements, b),
    ensures
        forall|kind: BarKind| one.spec_bars(kind) == other.spec_bars(kind),
        forall|kind: BarKind| one.spec_states(kind) == other.spec_states(kind),
        one.spec_weights() == other.spec_weights(),
        a == b,
{
    assert forall|kind: BarKind| one.spec_bars(kind) == other.spec_bars(kind) && one.spec_states(
        kind,
    ) == other.spec_states(kind) by {
        match kind {
            BarKind::Dumbbell => {},
            BarKind::Barbell => {},
        }
    }
    assert forall|kind: BarKind, k: int|
        one.unserved_at(requirements, kind, k) == other.unserved_at(requirements, kind, k) by {
        assert(one.spec_bars(kind) == other.spec_bars(kind));
        assert(one.spec_states(kind) == other.spec_states(kind));
    }
    match a {
        Ok(w) => {
            let (l1, r1, f1, s1) = choose|
                lifted: Seq<usize>,
                racked: Seq<usize>,
                first: nat,
                second: nat,
            |
                #[trigger] one.serves(requirements, BarKind::Dumbbell, lifted, first)
                    && #[trigger] one.serves(requirements, BarKind::Barbell, racked, second) && w
                    == one.plan(requirements, BarKind::Dumbbell, lifted) + one.plan(
                    requirements,
                    BarKind::Barbell,
                    racked,
                );
            one.lemma_all_served(requirements, BarKind::Dumbbell, l1, f1);
            one.lemma_all_served(requirements, BarKind::Barbell, r1, s1);
            match b {
                Ok(v) => {
                    let (l2, r2, f2, s2) = choose|
                        lifted: Seq<usize>,
                        racked: Seq<usize>,
                        first: nat,
                        second: nat,
                    |
                        #[trigger] other.serves(requirements, BarKind::Dumbbell, lifted, first)
                            && #[trigger] other.serves(requirements, BarKind::Barbell, racked, second)
                            && v == other.plan(requirements, BarKind::Dumbbell, lifted) + other.plan(
                            requirements,
                            BarKind::Barbell,
                            racked,
                        );
                    assert(one.spec_bars(BarKind::Dumbbell) == other.spec_bars(BarKind::Dumbbell));
                    assert(one.spec_bars(BarKind::Barbell) == other.spec_bars(BarKind::Barbell));
                    assert(one.spec_states(BarKind::Dumbbell) == other.spec_states(
                        BarKind::Dumbbell,
                    ));
                    assert(one.spec_states(BarKind::Barbell) == other.spec_states(BarKind::Barbell));
                    lemma_best_route_unique(
                        one.spec_bars(BarKind::Dumbbell),
                        one.spec_states(BarKind::Dumbbell),
                        kind_requirements(requirements, BarKind::Dumbbell),
                        l1,
                        f1,
                        l2,
                        f2,
                    );
                    lemma_best_route_unique(
                        one.spec_bars(BarKind::Barbell),
                        one.spec_states(BarKind::Barbell),
                        kind_requirements(requirements, BarKind::Barbell),
                        r1,
                        s1,
                        r2,
                        s2,
                    );
                },
                Err(e) => {
                    let (kind, i) = choose|kind: BarKind, i: int|
                        {
                            &&& #[trigger] other.unserved_at(requirements, kind, i)
                            &&& 0 <= i < requirements.len()
                            &&& e == GymError::InvalidRequirement(requirements[i])
                            &&& forall|k2: BarKind, k: int| #[trigger]
                                other.unserved_at(requirements, k2, k) ==> i <= k
                        };
                    assert(one.unserved_at(requirements, kind, i) == other.unserved_at(
                        requirements,
                        kind,
                        i,
                    ));
                    match kind {
                        BarKind::Dumbbell => {},
                        BarKind::Barbell => {},
                    }
                },
            }
        },
        Err(e) => {
            let (kind, i) = choose|kind: BarKind, i: int|
                {
                    &&& #[trigger] one.unserved_at(requirements, kind, i)
                    &&& 0 <= i < requirements.len()
                    &&& e == GymError::InvalidRequirement(requirements[i])
                    &&& forall|k2: BarKind, k: int| #[trigger]
                        one.unserved_at(requirements, k2, k) ==> i <= k
                };
            assert(one.unserved_at(requirements, kind, i) == other.unserved_at(
                requirements,
                kind,
                i,
            ));
            match b {
                Ok(v) => {
                    let (l2, r2, f2, s2) = choose|
                        lifted: Seq<usize>,
                        racked: Seq<usize>,
                        first: nat,
                        second: nat,
                    |
                        #[trigger] other.serves(requirements, BarKind::Dumbbell, lifted, first)
                            && #[trigger] other.serves(requirements, BarKind::Barbell, racked, second)
                            && v == other.plan(requirements, BarKind::Dumbbell, lifted) + other.plan(
                            requirements,
                            BarKind::Barbell,
                            racked,
                        );
                    other.lemma_all_served(requirements, BarKind::Dumbbell, l2, f2);
                    other.lemma_all_served(requirements, BarKind::Barbell, r2, s2);
                    match kind {
                        BarKind::Dumbbell => {},
                        BarKind::Barbell => {},
                    }
                },
                Err(f) => {
                    let (kind2, i2) = choose|kind: BarKind, i: int|
                        {
                            &&& #[trigger] other.unserved_at(requirements, kind, i)
                            &&& 0 <= i < requirements.len()
                            &&& f == GymError::InvalidRequirement(requirements[i])
                            &&& forall|k2: BarKind, k: int| #[trigger]
                                other.unserved_at(requirements, k2, k) ==> i <= k
                        };
                    assert(one.unserved_at(requirements, kind2, i2) == other.unserved_at(
                        requirements,
                        kind2,
                        i2,
                    ));
                    assert(i <= i2);
                    assert(i2 <= i);
                },
            }
        },
    }
}

/// The numbers behind a sequence of state ids.
pub open spec fn numbers(ids: Seq<GymStateId>) -> Seq<usize> {
    ids.map_values(|id: GymStateId| id.0)
}

/// The places behind a sequence of indices.
pub open spec fn places(at: Seq<usize>) -> Seq<int> {
    at.map_values(|p: usize| p as int)
}

/// The requirements for bars of `kind`, in their order, each with its
/// place among all requirements.
fn of_kind(requirements: &Vec<Requirement>, kind: BarKind) -> (found: (Vec<Requirement>, Vec<usize>))
    ensures
        found.0@ == kind_requirements(requirements@, kind),
        places(found.1@) == kind_positions(requirements@, kind),
{
    let mut list: Vec<Requirement> = Vec::new();
    let mut at: Vec<usize> = Vec::new();
    let mut i: usize = 0;
    while i < requirements.len()
        invariant
            i <= requirements.len(),
            list@ == kind_requirements(requirements@.take(i as int), kind),
            places(at@) == kind_positions(requirements@.take(i as int), kind),
        decreases requirements.len() - i,
    {
        proof {
            assert(requirements@.take(i as int + 1).drop_last() =~= requirements@.take(i as int));
        }
        if requirements[i].bar_kind == kind {
            let ghost before = at@;
            list.push(requirements[i]);
            at.push(i);
            proof {
                assert(places(at@) =~= places(before).push(i as int));
            }
        }
        i += 1;
    }
    proof {
        assert(requirements@.take(requirements@.len() as int) =~= requirements@);
    }
    (list, at)
}

/// Wraps each number as a state id.
fn to_ids(list: &Vec<usize>) -> (ids: Vec<GymStateId>)
    ensures
        numbers(ids@) == list@,
{
    let mut ids: Vec<GymStateId> = Vec::new();
    let mut i: usize = 0;
    while i < list.len()
        invariant
            i <= list.len(),
            numbers(ids@) == list@.take(i as int),
        decreases list.len() - i,
    {
        let ghost before = ids@;
        ids.push(GymStateId(list[i]));
        proof {
            assert(numbers(ids@) =~= numbers(before).push(list@[i as int]));
            assert(list@.take(i as int + 1) =~= list@.take(i as int).push(list@[i as int]));
        }
        i += 1;
    }
    proof {
        assert(list@.take(list@.len() as int) =~= list@);
    }
    ids
}

} // verus!
