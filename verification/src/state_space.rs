use vstd::prelude::*;
use vstd::arithmetic::power2::{lemma_pow2_adds, pow2};
use crate::bar::Bar;
use crate::bar_kind::BarKind;
use crate::combinations::{choices, index_product, is_product, product, product_of, within};
use crate::configurations::{configurations, dumbbells, is_configuration};
use crate::dumbbell::{load_weight, views, Dumbbell, Load};
use crate::gym_state::{by_bar, well_keyed, GymState};
use crate::inventory::unit_list;
use crate::plate::Plate;

verus! {

/// The most usable units that the bars of one kind may have between them.
/// It bounds the number of states of a kind by two to this power.
pub const MAX_UNITS: usize = 15;

/// The bars of `kind` among `bars`, each once, in the order in which they
/// first occur.
pub open spec fn bars_of_kind(bars: Seq<Bar>, kind: BarKind) -> Seq<Bar>
    decreases bars.len(),
{
    if bars.len() == 0 {
        bars
    } else {
        let before = bars_of_kind(bars.drop_last(), kind);
        if bars.last().kind == kind && !before.contains(bars.last()) {
            before.push(bars.last())
        } else {
            before
        }
    }
}

/// The number of usable units that the inventory gives the bars, all bars
/// taken together.
pub open spec fn total_units(inventory: Seq<Plate>, bars: Seq<Bar>) -> nat
    decreases bars.len(),
{
    if bars.len() == 0 {
        0
    } else {
        total_units(inventory, bars.drop_last()) + unit_list(inventory, bars.last()).len()
    }
}

/// The heaviest that `bar` can get: the bar with all its usable units on.
pub open spec fn full_load(inventory: Seq<Plate>, bar: Bar) -> Load {
    Load { plates: unit_list(inventory, bar), bar }
}

/// The configuration that `choice` picks for each of the bars.
pub open spec fn picked(inventory: Seq<Plate>, bars: Seq<Bar>, choice: Seq<usize>) -> Seq<Load> {
    Seq::new(bars.len(), |j: int| configurations(inventory, bars[j])[choice[j] as int])
}

/// For each bar, the number of its configurations.
pub open spec fn sizes_of(inventory: Seq<Plate>, bars: Seq<Bar>) -> Seq<usize> {
    Seq::new(bars.len(), |j: int| configurations(inventory, bars[j]).len() as usize)
}

/// The joint states of the bars: every way to pick one configuration for
/// each bar, in the order in which the states are numbered.
pub open spec fn state_space(inventory: Seq<Plate>, bars: Seq<Bar>) -> Seq<Map<Bar, Load>> {
    product_of(sizes_of(inventory, bars)).map_values(
        |choice: Seq<usize>| by_bar(picked(inventory, bars, choice)),
    )
}

/// The states behind a sequence of values.
pub open spec fn snapshots(states: Seq<GymState>) -> Seq<Map<Bar, Load>> {
    states.map_values(|s: GymState| s@)
}

/// Whether `state` gives every one of the bars a configuration of that bar
/// which the inventory allows, and tracks no other bar.
pub open spec fn is_joint_state(inventory: Seq<Plate>, bars: Seq<Bar>, state: Map<Bar, Load>) -> bool {
    &&& forall|b: Bar| state.contains_key(b) <==> bars.contains(b)
    &&& forall|b: Bar| #[trigger]
        state.contains_key(b) ==> is_configuration(unit_list(inventory, b), b, state[b])
}

/// Whether the configurations listed for `bar` are what its usable units
/// allow, each once, one at least, and none too heavy to weigh in 32 bits.
pub open spec fn well_listed(inventory: Seq<Plate>, bar: Bar) -> bool {
    &&& configurations(inventory, bar).no_duplicates()
    &&& 1 <= configurations(inventory, bar).len() <= pow2(unit_list(inventory, bar).len())
    &&& configurations(inventory, bar).len() <= usize::MAX
    &&& forall|load: Load|
        configurations(inventory, bar).contains(load) <==> is_configuration(
            unit_list(inventory, bar),
            bar,
            load,
        )
    &&& forall|load: Load|
        configurations(inventory, bar).contains(load) ==> load_weight(load) <= u32::MAX
}

/// Whether the configurations of every one of the bars are well listed.
pub open spec fn enumerated(inventory: Seq<Plate>, bars: Seq<Bar>) -> bool {
    forall|j: int| 0 <= j < bars.len() ==> well_listed(inventory, #[trigger] bars[j])
}

/// Loads of pairwise different bars end up each under its own bar.
pub proof fn lemma_by_bar_distinct(loads: Seq<Load>)
    requires
        forall|i: int, j: int|
            0 <= i < j < loads.len() ==> (#[trigger] loads[i]).bar != (#[trigger] loads[j]).bar,
    ensures
        forall|j: int|
            0 <= j < loads.len() ==> by_bar(loads).contains_key((#[trigger] loads[j]).bar)
                && by_bar(loads)[loads[j].bar] == loads[j],
        forall|b: Bar| #[trigger]
            by_bar(loads).contains_key(b) ==> exists|j: int|
                0 <= j < loads.len() && (#[trigger] loads[j]).bar == b,
        well_keyed(by_bar(loads)),
    decreases loads.len(),
{
    if loads.len() > 0 {
        let rest = loads.drop_last();
        lemma_by_bar_distinct(rest);
        assert forall|j: int| 0 <= j < loads.len() implies by_bar(loads).contains_key(
            (#[trigger] loads[j]).bar,
        ) && by_bar(loads)[loads[j].bar] == loads[j] by {
            if j < loads.len() - 1 {
                assert(rest[j] == loads[j]);
                assert(loads[j].bar != loads[loads.len() - 1].bar);
            }
        }
        assert forall|b: Bar| #[trigger] by_bar(loads).contains_key(b) implies exists|j: int|
            0 <= j < loads.len() && (#[trigger] loads[j]).bar == b by {
            if b == loads.last().bar {
                assert(loads[loads.len() - 1].bar == b);
            } else {
                assert(by_bar(rest).contains_key(b));
                let j = choose|j: int| 0 <= j < rest.len() && (#[trigger] rest[j]).bar == b;
                assert(loads[j].bar == b);
            }
        }
    }
}

/// The bars of a kind are of the kind asked for, and none occurs twice.
pub proof fn lemma_bars_of_kind(bars: Seq<Bar>, kind: BarKind)
    ensures
        bars_of_kind(bars, kind).no_duplicates(),
        forall|b: Bar| bars_of_kind(bars, kind).contains(b) <==> bars.contains(b) && b.kind == kind,
        bars_of_kind(bars, kind).len() <= bars.len(),
    decreases bars.len(),
{
    if bars.len() > 0 {
        let before = bars_of_kind(bars.drop_last(), kind);
        let out = bars_of_kind(bars, kind);
        lemma_bars_of_kind(bars.drop_last(), kind);
        assert forall|b: Bar| out.contains(b) <==> bars.contains(b) && b.kind == kind by {
            if out.contains(b) {
                let k = choose|k: int| 0 <= k < out.len() && out[k] == b;
                if k < before.len() {
                    assert(before.contains(b));
                    assert(bars.drop_last().contains(b));
                    let i = choose|i: int| 0 <= i < bars.drop_last().len() && bars.drop_last()[i] == b;
                    assert(bars[i] == b);
                } else {
                    assert(bars[bars.len() - 1] == b);
                }
            }
            if bars.contains(b) && b.kind == kind {
                let i = choose|i: int| 0 <= i < bars.len() && bars[i] == b;
                if i < bars.len() - 1 {
                    assert(bars.drop_last()[i] == b);
                    assert(bars.drop_last().contains(b));
                    assert(before.contains(b));
                }
                if before.contains(b) {
                    let k = choose|k: int| 0 <= k < before.len() && before[k] == b;
                    assert(out[k] == b);
                } else {
                    assert(out[before.len() as int] == b);
                }
            }
        }
    }
}

/// The number of combinations is at most two to the power of the number of
/// units, where each size is at most two to the power of its own units.
proof fn lemma_product_bound(inventory: Seq<Plate>, bars: Seq<Bar>, sizes: Seq<usize>)
    requires
        sizes.len() == bars.len(),
        forall|j: int|
            0 <= j < bars.len() ==> (#[trigger] sizes[j]) <= pow2(unit_list(inventory, bars[j]).len()),
    ensures
        product(sizes) <= pow2(total_units(inventory, bars)),
    decreases bars.len(),
{
    if bars.len() == 0 {
        vstd::arithmetic::power2::lemma2_to64();
    } else {
        lemma_product_bound(inventory, bars.drop_last(), sizes.drop_last());
        let a = product(sizes.drop_last());
        let big_a = pow2(total_units(inventory, bars.drop_last()));
        let b = sizes.last() as nat;
        let big_b = pow2(unit_list(inventory, bars.last()).len());
        assert(sizes[sizes.len() - 1] <= pow2(unit_list(inventory, bars[bars.len() - 1]).len()));
        lemma_pow2_adds(
            total_units(inventory, bars.drop_last()),
            unit_list(inventory, bars.last()).len(),
        );
        assert(a * b <= big_a * big_b) by (nonlinear_arith)
            requires
                a <= big_a,
                b <= big_b,
        ;
    }
}

/// Where every bar has a configuration, there is a combination.
proof fn lemma_sizes_positive(inventory: Seq<Plate>, bars: Seq<Bar>)
    requires
        enumerated(inventory, bars),
    ensures
        product(sizes_of(inventory, bars)) >= 1,
    decreases bars.len(),
{
    let sizes = sizes_of(inventory, bars);
    if bars.len() > 0 {
        let rest = bars.drop_last();
        assert forall|j: int| 0 <= j < rest.len() implies well_listed(
            inventory,
            #[trigger] rest[j],
        ) by {
            assert(rest[j] == bars[j]);
        }
        lemma_sizes_positive(inventory, rest);
        assert(sizes.drop_last() =~= sizes_of(inventory, rest));
        let a = product(sizes.drop_last());
        let b = sizes.last() as nat;
        assert(well_listed(inventory, bars[bars.len() - 1]));
        assert(b >= 1);
        assert(a * b >= 1) by (nonlinear_arith)
            requires
                a >= 1,
                b >= 1,
        ;
    }
}

/// No bar has more usable units than all the bars together.
pub proof fn lemma_units_of_each(inventory: Seq<Plate>, bars: Seq<Bar>, j: int)
    requires
        0 <= j < bars.len(),
    ensures
        unit_list(inventory, bars[j]).len() <= total_units(inventory, bars),
{
    lemma_total_units_bounds_each(inventory, bars, j);
}

proof fn lemma_total_units_bounds_each(inventory: Seq<Plate>, bars: Seq<Bar>, j: int)
    requires
        0 <= j < bars.len(),
    ensures
        unit_list(inventory, bars[j]).len() <= total_units(inventory, bars),
    decreases bars.len(),
{
    if j < bars.len() - 1 {
        lemma_total_units_bounds_each(inventory, bars.drop_last(), j);
    }
}

/// The configurations of each of the bars, bar by bar.
fn all_configurations(inventory: &Vec<Plate>, bars: &Vec<Bar>) -> (all: Vec<Vec<Dumbbell>>)
    requires
        total_units(inventory@, bars@) <= MAX_UNITS,
        forall|j: int|
            0 <= j < bars@.len() ==> load_weight(full_load(inventory@, #[trigger] bars@[j]))
                <= u32::MAX,
    ensures
        all@.len() == bars@.len(),
        forall|j: int|
            0 <= j < bars@.len() ==> views((#[trigger] all@[j])@) == configurations(
                inventory@,
                bars@[j],
            ),
        enumerated(inventory@, bars@),
{
    let mut all: Vec<Vec<Dumbbell>> = Vec::new();
    let mut j: usize = 0;
    while j < bars.len()
        invariant
            j <= bars.len(),
            all@.len() == j,
            total_units(inventory@, bars@) <= MAX_UNITS,
            forall|j: int|
                0 <= j < bars@.len() ==> load_weight(full_load(inventory@, #[trigger] bars@[j]))
                    <= u32::MAX,
            forall|k: int|
                0 <= k < j ==> views((#[trigger] all@[k])@) == configurations(inventory@, bars@[k]),
            enumerated(inventory@, bars@.take(j as int)),
        decreases bars.len() - j,
    {
        proof {
            lemma_total_units_bounds_each(inventory@, bars@, j as int);
            assert(load_weight(full_load(inventory@, bars@[j as int])) <= u32::MAX);
        }
        let configs = dumbbells(inventory, &bars[j]);
        proof {
            assert(configs@.len() == configs.len());
            let listed = configurations(inventory@, bars@[j as int]);
            assert(views(configs@).len() == configs@.len());
            assert forall|load: Load| listed.contains(load) implies load_weight(load)
                <= u32::MAX by {
                let i = choose|i: int| 0 <= i < listed.len() && listed[i] == load;
                assert(configs@[i]@ == load);
            }
            assert(well_listed(inventory@, bars@[j as int]));
            let upto = bars@.take(j as int + 1);
            assert forall|k: int| 0 <= k < upto.len() implies well_listed(
                inventory@,
                #[trigger] upto[k],
            ) by {
                if k < j {
                    assert(bars@.take(j as int)[k] == bars@[k]);
                }
            }
        }
        all.push(configs);
        j += 1;
    }
    proof {
        assert(bars@.take(bars@.len() as int) =~= bars@);
    }
    all
}

/// The joint states of the bars, numbered by their place in the result.
pub fn joint_states(inventory: &Vec<Plate>, bars: &Vec<Bar>) -> (states: Vec<GymState>)
    requires
        bars@.no_duplicates(),
        total_units(inventory@, bars@) <= MAX_UNITS,
        forall|j: int|
            0 <= j < bars@.len() ==> load_weight(full_load(inventory@, #[trigger] bars@[j]))
                <= u32::MAX,
    ensures
        snapshots(states@) == state_space(inventory@, bars@),
        1 <= states@.len() <= 0x8000,
        forall|i: int|
            0 <= i < states@.len() ==> is_joint_state(inventory@, bars@, (#[trigger] states@[i])@),
        forall|state: Map<Bar, Load>|
            is_joint_state(inventory@, bars@, state) && well_keyed(state) ==> snapshots(
                states@,
            ).contains(state),
        forall|i: int, j: int|
            0 <= i < j < states@.len() ==> (#[trigger] states@[i])@ != (#[trigger] states@[j])@,
        forall|i: int, b: Bar|
            0 <= i < states@.len() && (#[trigger] states@[i])@.contains_key(b) ==> load_weight(
                #[trigger] states@[i]@[b],
            ) <= u32::MAX && states@[i]@[b].bar == b,
{
    let all = all_configurations(inventory, bars);
    proof {
        lemma_sizes_positive(inventory@, bars@);
    }
    let mut sizes: Vec<usize> = Vec::new();
    let mut j: usize = 0;
    while j < bars.len()
        invariant
            j <= bars.len(),
            all@.len() == bars@.len(),
            sizes@.len() == j,
            forall|k: int| 0 <= k < j ==> #[trigger] sizes@[k] == all@[k]@.len(),
        decreases bars.len() - j,
    {
        sizes.push(all[j].len());
        j += 1;
    }
    proof {
        assert forall|k: int| 0 <= k < bars@.len() implies (#[trigger] sizes@[k]) <= pow2(
            unit_list(inventory@, bars@[k]).len(),
        ) by {
            assert(views(all@[k]@) == configurations(inventory@, bars@[k]));
            assert(views(all@[k]@).len() == all@[k]@.len());
            assert(configurations(inventory@, bars@[k]).len() <= pow2(
                unit_list(inventory@, bars@[k]).len(),
            ));
        }
        lemma_product_bound(inventory@, bars@, sizes@);
        vstd::arithmetic::power2::lemma2_to64();
        let total = total_units(inventory@, bars@);
        if total < 15 {
            vstd::arithmetic::power2::lemma_pow2_strictly_increases(total, 15);
        }
        assert(sizes@ =~= sizes_of(inventory@, bars@)) by {
            assert forall|k: int| 0 <= k < bars@.len() implies sizes@[k] == sizes_of(
                inventory@,
                bars@,
            )[k] by {
                assert(views(all@[k]@) == configurations(inventory@, bars@[k]));
                assert(views(all@[k]@).len() == all@[k]@.len());
            }
        }
    }
    let tuples = index_product(&sizes);
    let ghost space = state_space(inventory@, bars@);
    proof {
        assert(choices(tuples@).len() == tuples@.len());
    }
    let mut states: Vec<GymState> = Vec::new();
    let mut i: usize = 0;
    while i < tuples.len()
        invariant
            i <= tuples.len(),
            all@.len() == bars@.len(),
            sizes@ == sizes_of(inventory@, bars@),
            space == state_space(inventory@, bars@),
            choices(tuples@) == product_of(sizes@),
            is_product(sizes@, choices(tuples@)),
            forall|k: int|
                0 <= k < bars@.len() ==> views((#[trigger] all@[k])@) == configurations(
                    inventory@,
                    bars@[k],
                ),
            states@.len() == i,
            forall|k: int| 0 <= k < i ==> (#[trigger] states@[k])@ == space[k],
            1 <= tuples@.len() <= 0x8000,
            bars@.no_duplicates(),
            enumerated(inventory@, bars@),
        decreases tuples.len() - i,
    {
        let tuple = &tuples[i];
        proof {
            assert(choices(tuples@)[i as int] == tuple@);
            assert(within(sizes@, choices(tuples@)[i as int]));
        }
        let mut chosen: Vec<Dumbbell> = Vec::new();
        let mut j: usize = 0;
        while j < bars.len()
            invariant
                j <= bars.len(),
                all@.len() == bars@.len(),
                within(sizes@, tuple@),
                sizes@ == sizes_of(inventory@, bars@),
                forall|k: int|
                    0 <= k < bars@.len() ==> views((#[trigger] all@[k])@) == configurations(
                        inventory@,
                        bars@[k],
                    ),
                chosen@.len() == j,
                forall|k: int|
                    0 <= k < j ==> (#[trigger] chosen@[k])@ == picked(inventory@, bars@, tuple@)[k],
            decreases bars.len() - j,
        {
            proof {
                assert(tuple@[j as int] < sizes@[j as int]);
                assert(views(all@[j as int]@) == configurations(inventory@, bars@[j as int]));
                assert(views(all@[j as int]@).len() == all@[j as int]@.len());
                assert(views(all@[j as int]@)[tuple@[j as int] as int] == all@[j as int]@[tuple@[j as int] as int]@);
            }
            let copy = all[j][tuple[j]].duplicate();
            chosen.push(copy);
            j += 1;
        }
        proof {
            assert(views(chosen@) =~= picked(inventory@, bars@, tuple@));
        }
        let state = GymState::new(chosen);
        states.push(state);
        i += 1;
    }
    proof {
        assert(snapshots(states@) =~= space);
        lemma_state_space(inventory@, bars@, choices(tuples@));
        assert forall|i: int| 0 <= i < states@.len() implies is_joint_state(
            inventory@,
            bars@,
            (#[trigger] states@[i])@,
        ) by {
            assert(states@[i]@ == space[i]);
        }
        assert forall|i: int, j: int| 0 <= i < j < states@.len() implies (#[trigger] states@[i])@ != (
        #[trigger] states@[j])@ by {
            assert(states@[i]@ == space[i]);
            assert(states@[j]@ == space[j]);
        }
        assert forall|i: int, b: Bar|
            0 <= i < states@.len() && (#[trigger] states@[i])@.contains_key(b) implies load_weight(
            #[trigger] states@[i]@[b],
        ) <= u32::MAX && states@[i]@[b].bar == b by {
            assert(states@[i]@ == space[i]);
            assert(is_joint_state(inventory@, bars@, space[i]));
            assert(bars@.contains(b));
            let k = choose|k: int| 0 <= k < bars@.len() && bars@[k] == b;
            let load = space[i][b];
            assert(is_configuration(unit_list(inventory@, b), b, load));
            assert(configurations(inventory@, bars@[k]).contains(load));
        }
    }
    states
}

/// What the state space is: every state gives each bar one of its
/// configurations, every such assignment is a state, and no state occurs
/// twice.
pub proof fn lemma_state_space(inventory: Seq<Plate>, bars: Seq<Bar>, tuples: Seq<Seq<usize>>)
    requires
        bars.no_duplicates(),
        tuples == product_of(sizes_of(inventory, bars)),
        is_product(sizes_of(inventory, bars), tuples),
        enumerated(inventory, bars),
    ensures
        state_space(inventory, bars).len() == tuples.len(),
        forall|i: int|
            0 <= i < tuples.len() ==> is_joint_state(
                inventory,
                bars,
                #[trigger] state_space(inventory, bars)[i],
            ),
        forall|state: Map<Bar, Load>|
            is_joint_state(inventory, bars, state) && well_keyed(state) ==> state_space(
                inventory,
                bars,
            ).contains(state),
        forall|i: int, j: int|
            0 <= i < j < tuples.len() ==> #[trigger] state_space(inventory, bars)[i]
                != #[trigger] state_space(inventory, bars)[j],
{
    let space = state_space(inventory, bars);
    let sizes = sizes_of(inventory, bars);
    assert forall|i: int| 0 <= i < tuples.len() implies is_joint_state(
        inventory,
        bars,
        #[trigger] space[i],
    ) by {
        lemma_picked(inventory, bars, tuples[i]);
    }
    assert forall|i: int, j: int| 0 <= i < j < tuples.len() implies #[trigger] space[i]
        != #[trigger] space[j] by {
        lemma_picked(inventory, bars, tuples[i]);
        lemma_picked(inventory, bars, tuples[j]);
        if space[i] == space[j] {
            assert forall|k: int| 0 <= k < bars.len() implies tuples[i][k] == tuples[j][k] by {
                let li = picked(inventory, bars, tuples[i]);
                let lj = picked(inventory, bars, tuples[j]);
                assert(space[i][bars[k]] == li[k]);
                assert(space[j][bars[k]] == lj[k]);
                let configs = configurations(inventory, bars[k]);
                assert(tuples[i][k] < sizes[k]);
                assert(tuples[j][k] < sizes[k]);
                assert(configs[tuples[i][k] as int] == configs[tuples[j][k] as int]);
            }
            assert(tuples[i] =~= tuples[j]);
        }
    }
    assert forall|state: Map<Bar, Load>|
        is_joint_state(inventory, bars, state) && well_keyed(state) implies space.contains(
        state,
    ) by {
        let choice = Seq::new(
            bars.len(),
            |k: int|
                choose|m: usize|
                    0 <= m < configurations(inventory, bars[k]).len() && configurations(
                        inventory,
                        bars[k],
                    )[m as int] == state[bars[k]],
        );
        assert forall|k: int| 0 <= k < bars.len() implies #[trigger] choice[k] < sizes[k]
            && configurations(inventory, bars[k])[choice[k] as int] == state[bars[k]] by {
            let configs = configurations(inventory, bars[k]);
            assert(bars.contains(bars[k]));
            assert(state.contains_key(bars[k]));
            assert(configs.contains(state[bars[k]]));
            let m0 = choose|m0: int| 0 <= m0 < configs.len() && configs[m0] == state[bars[k]];
            assert(0 <= (m0 as usize) < configs.len() && configs[(m0 as usize) as int]
                == state[bars[k]]);
        }
        assert(within(sizes, choice));
        assert(tuples.contains(choice));
        let i = choose|i: int| 0 <= i < tuples.len() && tuples[i] == choice;
        lemma_picked(inventory, bars, choice);
        let loads = picked(inventory, bars, choice);
        assert(space[i] == by_bar(loads));
        assert(by_bar(loads) =~= state) by {
            assert forall|b: Bar| by_bar(loads).contains_key(b) <==> state.contains_key(b) by {
                if by_bar(loads).contains_key(b) {
                    assert(bars.contains(b));
                }
                if state.contains_key(b) {
                    assert(bars.contains(b));
                }
            }
            assert forall|b: Bar| by_bar(loads).contains_key(b) implies by_bar(loads)[b]
                == state[b] by {
                assert(bars.contains(b));
                let k = choose|k: int| 0 <= k < bars.len() && bars[k] == b;
                assert(loads[k] == state[bars[k]]);
            }
        }
    }
}

/// What a choice within the sizes picks: for each bar one of its
/// configurations, stored under that bar.
proof fn lemma_picked(inventory: Seq<Plate>, bars: Seq<Bar>, choice: Seq<usize>)
    requires
        bars.no_duplicates(),
        within(sizes_of(inventory, bars), choice),
        enumerated(inventory, bars),
    ensures
        is_joint_state(inventory, bars, by_bar(picked(inventory, bars, choice))),
        well_keyed(by_bar(picked(inventory, bars, choice))),
        forall|k: int|
            0 <= k < bars.len() ==> by_bar(picked(inventory, bars, choice)).contains_key(
                #[trigger] bars[k],
            ) && by_bar(picked(inventory, bars, choice))[bars[k]] == picked(
                inventory,
                bars,
                choice,
            )[k],
{
    let loads = picked(inventory, bars, choice);
    let sizes = sizes_of(inventory, bars);
    assert forall|k: int| 0 <= k < bars.len() implies (#[trigger] loads[k]).bar == bars[k]
        && is_configuration(unit_list(inventory, bars[k]), bars[k], loads[k]) by {
        let configs = configurations(inventory, bars[k]);
        assert(choice[k] < sizes[k]);
        assert(configs.contains(configs[choice[k] as int]));
    }
    lemma_by_bar_distinct(loads);
    let state = by_bar(loads);
    assert forall|b: Bar| state.contains_key(b) <==> bars.contains(b) by {
        if state.contains_key(b) {
            let j = choose|j: int| 0 <= j < loads.len() && (#[trigger] loads[j]).bar == b;
            assert(bars[j] == b);
        }
        if bars.contains(b) {
            let j = choose|j: int| 0 <= j < bars.len() && bars[j] == b;
            assert(loads[j].bar == b);
        }
    }
    assert forall|b: Bar| #[trigger] state.contains_key(b) implies is_configuration(
        unit_list(inventory, b),
        b,
        state[b],
    ) by {
        let j = choose|j: int| 0 <= j < loads.len() && (#[trigger] loads[j]).bar == b;
        assert(state[loads[j].bar] == loads[j]);
        assert(bars[j] == b);
    }
    assert forall|k: int| 0 <= k < bars.len() implies state.contains_key(#[trigger] bars[k])
        && state[bars[k]] == loads[k] by {
        assert(loads[k].bar == bars[k]);
    }
}

} // verus!
