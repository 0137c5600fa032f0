use vstd::prelude::*;
use vstd::arithmetic::power2::pow2;
use vstd::relations::sorted_by;
use crate::bar::Bar;
use crate::combinations::{is_powerset, lists, powerset_of, selection, subsets_of};
use crate::dumbbell::{
    canonical, lemma_canonical_fixed_point, load_weight, plate_order, views, Dumbbell, Load,
};
use crate::inventory::{
    lemma_selection_elements, lemma_selection_none, lemma_selection_sorted,
    lemma_selection_weight, lemma_units_fit, unit_list, usable_units,
};
use crate::plate::Plate;

verus! {

/// The configuration of `bar` that a list of plates makes.
pub open spec fn load_of(plates: Seq<Plate>, bar: Bar) -> Load {
    Load { plates: canonical(plates, bar), bar }
}

/// The configurations of `bar` that the lists of plates make, one by one.
pub open spec fn loads_from(subsets: Seq<Seq<Plate>>, bar: Bar) -> Seq<Load> {
    subsets.map_values(|plates: Seq<Plate>| load_of(plates, bar))
}

/// The sequence without its repetitions: of equal configurations the first
/// one stays.
pub open spec fn distinct(loads: Seq<Load>) -> Seq<Load>
    decreases loads.len(),
{
    if loads.len() == 0 {
        loads
    } else {
        let before = distinct(loads.drop_last());
        if before.contains(loads.last()) {
            before
        } else {
            before.push(loads.last())
        }
    }
}

/// The number of configurations at the front of `loads` that weigh no more
/// than `weight`.
pub open spec fn lighter_prefix(loads: Seq<Load>, weight: int) -> nat
    decreases loads.len(),
{
    if loads.len() == 0 || load_weight(loads[0]) > weight {
        0
    } else {
        1 + lighter_prefix(loads.drop_first(), weight)
    }
}

/// The sequence in ascending order of weight; configurations of equal
/// weight keep the order they had.
pub open spec fn by_weight(loads: Seq<Load>) -> Seq<Load>
    decreases loads.len(),
{
    if loads.len() == 0 {
        loads
    } else {
        let before = by_weight(loads.drop_last());
        before.insert(lighter_prefix(before, load_weight(loads.last())) as int, loads.last())
    }
}

/// Whether no configuration of `loads` is heavier than one behind it.
pub open spec fn ascending(loads: Seq<Load>) -> bool {
    forall|i: int, j: int|
        0 <= i < j < loads.len() ==> load_weight(#[trigger] loads[i]) <= load_weight(
            #[trigger] loads[j],
        )
}

/// The configurations that a list of candidate lists of plates gives for
/// `bar`: each made canonical, repetitions left out, lightest first.
pub open spec fn arranged(subsets: Seq<Seq<Plate>>, bar: Bar) -> Seq<Load> {
    by_weight(distinct(loads_from(subsets, bar)))
}

/// Whether `load` is a configuration of `bar` that the usable units allow:
/// some of the units, in their order.
pub open spec fn is_configuration(units: Seq<Plate>, bar: Bar, load: Load) -> bool {
    &&& load.bar == bar
    &&& exists|mask: Seq<bool>|
        mask.len() == units.len() && load.plates == #[trigger] selection(units, mask)
}

/// The configurations of `bar` that the inventory allows, in the order in
/// which the gym numbers them.
pub open spec fn configurations(inventory: Seq<Plate>, bar: Bar) -> Seq<Load> {
    arranged(powerset_of(unit_list(inventory, bar)), bar)
}

/// Leaving out repetitions keeps every configuration once.
pub proof fn lemma_distinct(loads: Seq<Load>)
    ensures
        distinct(loads).no_duplicates(),
        distinct(loads).len() <= loads.len(),
        forall|x: Load| distinct(loads).contains(x) <==> loads.contains(x),
    decreases loads.len(),
{
    if loads.len() > 0 {
        let before = distinct(loads.drop_last());
        lemma_distinct(loads.drop_last());
        assert forall|x: Load| distinct(loads).contains(x) <==> loads.contains(x) by {
            if loads.contains(x) {
                let i = choose|i: int| 0 <= i < loads.len() && loads[i] == x;
                if i < loads.len() - 1 {
                    assert(loads.drop_last()[i] == x);
                    assert(loads.drop_last().contains(x));
                    assert(before.contains(x));
                    let k = choose|k: int| 0 <= k < before.len() && before[k] == x;
                    assert(distinct(loads)[k] == x);
                } else if !before.contains(loads.last()) {
                    assert(distinct(loads)[before.len() as int] == x);
                } else {
                    let k = choose|k: int| 0 <= k < before.len() && before[k] == x;
                    assert(distinct(loads)[k] == x);
                }
            }
            if distinct(loads).contains(x) {
                let k = choose|k: int| 0 <= k < distinct(loads).len() && distinct(loads)[k] == x;
                if k < before.len() {
                    assert(before.contains(x));
                    assert(loads.drop_last().contains(x));
                    let i = choose|i: int|
                        0 <= i < loads.drop_last().len() && loads.drop_last()[i] == x;
                    assert(loads[i] == x);
                } else {
                    assert(loads[loads.len() - 1] == x);
                }
            }
        }
    }
}

/// Ordering by weight rearranges the configurations and nothing else.
pub proof fn lemma_by_weight(loads: Seq<Load>)
    ensures
        by_weight(loads).len() == loads.len(),
        by_weight(loads).to_multiset() == loads.to_multiset(),
        ascending(by_weight(loads)),
        forall|x: Load| by_weight(loads).contains(x) <==> loads.contains(x),
        loads.no_duplicates() ==> by_weight(loads).no_duplicates(),
    decreases loads.len(),
{
    broadcast use vstd::seq_lib::group_to_multiset_ensures;

    if loads.len() > 0 {
        let before = by_weight(loads.drop_last());
        let x = loads.last();
        let at = lighter_prefix(before, load_weight(x)) as int;
        lemma_by_weight(loads.drop_last());
        lemma_lighter_prefix(before, load_weight(x));
        vstd::seq_lib::to_multiset_insert(before, at, x);
        vstd::seq_lib::to_multiset_build(loads.drop_last(), x);
        assert(loads.drop_last().push(x) =~= loads);
        let after = by_weight(loads);
        assert forall|i: int, j: int| 0 <= i < j < after.len() implies load_weight(
            #[trigger] after[i],
        ) <= load_weight(#[trigger] after[j]) by {
            let bi = if i < at {
                i
            } else {
                i - 1
            };
            let bj = if j < at {
                j
            } else {
                j - 1
            };
            if i != at && j != at {
                assert(load_weight(before[bi]) <= load_weight(before[bj]));
            }
        }
    }
    loads.to_multiset_ensures();
    by_weight(loads).to_multiset_ensures();
    assert forall|x: Load| by_weight(loads).contains(x) <==> loads.contains(x) by {
        assert(by_weight(loads).contains(x) <==> by_weight(loads).to_multiset().count(x) > 0);
        assert(loads.contains(x) <==> loads.to_multiset().count(x) > 0);
    }
    if loads.no_duplicates() {
        loads.lemma_multiset_has_no_duplicates();
        by_weight(loads).lemma_multiset_has_no_duplicates_conv();
    }
}

/// In a sequence in ascending order of weight, the configurations that
/// weigh no more than `weight` are exactly those at the front.
pub proof fn lemma_lighter_prefix(loads: Seq<Load>, weight: int)
    requires
        ascending(loads),
    ensures
        lighter_prefix(loads, weight) <= loads.len(),
        forall|i: int|
            0 <= i < lighter_prefix(loads, weight) ==> load_weight(#[trigger] loads[i]) <= weight,
        forall|i: int|
            lighter_prefix(loads, weight) <= i < loads.len() ==> load_weight(#[trigger] loads[i])
                > weight,
    decreases loads.len(),
{
    if loads.len() > 0 && load_weight(loads[0]) <= weight {
        let rest = loads.drop_first();
        assert forall|i: int, j: int| 0 <= i < j < rest.len() implies load_weight(
            #[trigger] rest[i],
        ) <= load_weight(#[trigger] rest[j]) by {
            assert(load_weight(loads[i + 1]) <= load_weight(loads[j + 1]));
        }
        lemma_lighter_prefix(rest, weight);
        assert forall|i: int| 0 <= i < lighter_prefix(loads, weight) implies load_weight(
            #[trigger] loads[i],
        ) <= weight by {
            if i > 0 {
                assert(loads[i] == rest[i - 1]);
            }
        }
        assert forall|i: int| lighter_prefix(loads, weight) <= i < loads.len() implies load_weight(
            #[trigger] loads[i],
        ) > weight by {
            assert(loads[i] == rest[i - 1]);
        }
    } else if loads.len() > 0 {
        assert forall|i: int| 0 <= i < loads.len() implies load_weight(#[trigger] loads[i])
            > weight by {
            if i > 0 {
                assert(load_weight(loads[0]) <= load_weight(loads[i]));
            }
        }
    }
}

/// What the arranged configurations are: every configuration that the
/// units allow, once; the unloaded bar among them; and none heavier than
/// the bar with all units on it.
pub proof fn lemma_arranged(units: Seq<Plate>, subsets: Seq<Seq<Plate>>, bar: Bar)
    requires
        is_powerset(units, subsets),
        sorted_by(units, plate_order()),
        forall|i: int| 0 <= i < units.len() ==> (#[trigger] units[i]).gauge == bar.gauge,
    ensures
        forall|load: Load|
            arranged(subsets, bar).contains(load) <==> is_configuration(units, bar, load),
        arranged(subsets, bar).no_duplicates(),
        ascending(arranged(subsets, bar)),
        1 <= arranged(subsets, bar).len() <= pow2(units.len()),
        arranged(subsets, bar).contains(Load { plates: Seq::empty(), bar }),
        forall|i: int|
            0 <= i < arranged(subsets, bar).len() ==> load_weight(
                #[trigger] arranged(subsets, bar)[i],
            ) <= load_weight(Load { plates: units, bar }),
{
    let raw = loads_from(subsets, bar);
    lemma_distinct(raw);
    lemma_by_weight(distinct(raw));
    let out = arranged(subsets, bar);
    assert forall|load: Load| out.contains(load) <==> is_configuration(units, bar, load) by {
        if out.contains(load) {
            assert(distinct(raw).contains(load));
            assert(raw.contains(load));
            let i = choose|i: int| 0 <= i < raw.len() && raw[i] == load;
            assert(raw[i] == load_of(subsets[i], bar));
            let mask = choose|mask: Seq<bool>|
                mask.len() == units.len() && #[trigger] subsets[i] == #[trigger] selection(
                    units,
                    mask,
                );
            lemma_selection_fits(units, mask, bar);
            assert(load.plates == selection(units, mask));
        }
        if is_configuration(units, bar, load) {
            let mask = choose|mask: Seq<bool>|
                mask.len() == units.len() && load.plates == #[trigger] selection(units, mask);
            lemma_selection_fits(units, mask, bar);
            assert(subsets.contains(selection(units, mask)));
            let i = choose|i: int| 0 <= i < subsets.len() && subsets[i] == selection(units, mask);
            assert(raw[i] == load_of(subsets[i], bar));
            assert(raw[i] == load);
            assert(raw.contains(load));
            assert(distinct(raw).contains(load));
        }
    }
    let nothing = Seq::new(units.len(), |i: int| false);
    lemma_selection_none(units);
    assert(selection(units, nothing) == Seq::<Plate>::empty());
    assert(is_configuration(units, bar, Load { plates: Seq::empty(), bar }));
    assert(out.contains(Load { plates: Seq::empty(), bar }));
    assert forall|i: int| 0 <= i < out.len() implies load_weight(#[trigger] out[i]) <= load_weight(
        Load { plates: units, bar },
    ) by {
        assert(out.contains(out[i]));
        assert(is_configuration(units, bar, out[i]));
        let mask = choose|mask: Seq<bool>|
            mask.len() == units.len() && out[i].plates == #[trigger] selection(units, mask);
        lemma_selection_weight(units, mask);
    }
}

/// A selection of units that are sorted and fit the bar is canonical.
pub proof fn lemma_selection_fits(units: Seq<Plate>, mask: Seq<bool>, bar: Bar)
    requires
        mask.len() == units.len(),
        sorted_by(units, plate_order()),
        forall|i: int| 0 <= i < units.len() ==> (#[trigger] units[i]).gauge == bar.gauge,
    ensures
        canonical(selection(units, mask), bar) == selection(units, mask),
{
    lemma_selection_sorted(units, mask);
    lemma_selection_elements(units, mask);
    let sel = selection(units, mask);
    assert forall|k: int| 0 <= k < sel.len() implies (#[trigger] sel[k]).gauge == bar.gauge by {
        assert(units.contains(sel[k]));
        let j = choose|j: int| 0 <= j < units.len() && units[j] == sel[k];
        assert(units[j].gauge == bar.gauge);
    }
    lemma_canonical_fixed_point(sel, bar);
}

/// Copies a list of plates.
fn copy_plates(plates: &Vec<Plate>) -> (copy: Vec<Plate>)
    ensures
        copy@ == plates@,
{
    let mut copy: Vec<Plate> = Vec::new();
    let mut i: usize = 0;
    while i < plates.len()
        invariant
            i <= plates.len(),
            copy@ == plates@.take(i as int),
        decreases plates.len() - i,
    {
        copy.push(plates[i]);
        proof {
            assert(plates@.take(i as int + 1) =~= plates@.take(i as int).push(plates@[i as int]));
        }
        i += 1;
    }
    proof {
        assert(plates@.take(plates@.len() as int) =~= plates@);
    }
    copy
}

/// Turns candidate lists of plates into the configurations of `bar`: each
/// list is made canonical, a configuration that was already found is left
/// out, and the rest is put in ascending order of weight.
pub fn configurations_from(subsets: &Vec<Vec<Plate>>, bar: &Bar) -> (configs: Vec<Dumbbell>)
    requires
        forall|i: int|
            0 <= i < subsets@.len() ==> load_weight(load_of((#[trigger] subsets@[i])@, *bar))
                <= u32::MAX,
    ensures
        views(configs@) == arranged(lists(subsets@), *bar),
{
    let ghost raw = loads_from(lists(subsets@), *bar);
    let mut found: Vec<Dumbbell> = Vec::new();
    let mut i: usize = 0;
    while i < subsets.len()
        invariant
            i <= subsets.len(),
            raw == loads_from(lists(subsets@), *bar),
            views(found@) == distinct(raw.take(i as int)),
            forall|k: int| 0 <= k < found@.len() ==> load_weight((#[trigger] found@[k])@) <= u32::MAX,
            forall|i: int|
                0 <= i < subsets@.len() ==> load_weight(load_of((#[trigger] subsets@[i])@, *bar))
                    <= u32::MAX,
        decreases subsets.len() - i,
    {
        let candidate = Dumbbell::new(copy_plates(&subsets[i]), *bar);
        proof {
            assert(raw.take(i as int + 1).drop_last() =~= raw.take(i as int));
            assert(raw[i as int] == candidate@);
            assert(load_weight(load_of(subsets@[i as int]@, *bar)) <= u32::MAX);
        }
        let mut present = false;
        let mut k: usize = 0;
        while k < found.len() && !present
            invariant
                k <= found.len(),
                present ==> views(found@).contains(candidate@),
                !present ==> forall|m: int| 0 <= m < k ==> views(found@)[m] != candidate@,
            decreases found.len() - k + if present { 0int } else { 1int },
        {
            if found[k].same_load(&candidate) {
                present = true;
                proof {
                    assert(views(found@)[k as int] == candidate@);
                }
            } else {
                k += 1;
            }
        }
        if !present {
            let ghost before = found@;
            found.push(candidate);
            proof {
                assert(views(found@) =~= views(before).push(candidate@));
            }
        }
        i += 1;
    }
    proof {
        assert(raw.take(raw.len() as int) =~= raw);
    }
    let mut configs: Vec<Dumbbell> = Vec::new();
    let mut n: usize = 0;
    while n < found.len()
        invariant
            n <= found.len(),
            views(configs@) == by_weight(views(found@).take(n as int)),
            forall|k: int| 0 <= k < found@.len() ==> load_weight((#[trigger] found@[k])@) <= u32::MAX,
            forall|k: int|
                0 <= k < configs@.len() ==> load_weight((#[trigger] configs@[k])@) <= u32::MAX,
        decreases found.len() - n,
    {
        let next = found[n].duplicate();
        let weight: u32 = next.weight();
        let ghost before = configs@;
        let mut at: usize = 0;
        proof {
            assert(views(before).skip(0) =~= views(before));
        }
        while at < configs.len() && configs[at].weight() <= weight
            invariant
                at <= configs.len(),
                configs@ == before,
                forall|k: int|
                    0 <= k < configs@.len() ==> load_weight((#[trigger] configs@[k])@) <= u32::MAX,
                lighter_prefix(views(before), weight as int) == at + lighter_prefix(
                    views(before).skip(at as int),
                    weight as int,
                ),
            decreases configs.len() - at,
        {
            proof {
                assert(views(before).skip(at as int).drop_first() =~= views(before).skip(
                    at as int + 1,
                ));
            }
            at += 1;
        }
        configs.insert(at, next);
        proof {
            assert(views(found@).take(n as int + 1).drop_last() =~= views(found@).take(n as int));
            assert(views(configs@) =~= views(before).insert(at as int, next@));
        }
        n += 1;
    }
    proof {
        assert(views(found@).take(found@.len() as int) =~= views(found@));
    }
    configs
}

/// The configurations of `bar` that the inventory allows: every subset of
/// the usable units, each as a canonical configuration, without
/// repetitions, lightest first.
pub fn dumbbells(inventory: &Vec<Plate>, bar: &Bar) -> (configs: Vec<Dumbbell>)
    requires
        unit_list(inventory@, *bar).len() <= 16,
        load_weight(Load { plates: unit_list(inventory@, *bar), bar: *bar }) <= u32::MAX,
    ensures
        views(configs@) == configurations(inventory@, *bar),
        forall|load: Load|
            views(configs@).contains(load) <==> is_configuration(
                unit_list(inventory@, *bar),
                *bar,
                load,
            ),
        views(configs@).no_duplicates(),
        ascending(views(configs@)),
        1 <= configs@.len() <= pow2(unit_list(inventory@, *bar).len()),
        forall|i: int| 0 <= i < configs@.len() ==> load_weight((#[trigger] configs@[i])@) <= u32::MAX,
{
    let units = usable_units(inventory, bar);
    let subsets = subsets_of(&units);
    proof {
        lemma_units_fit(units@, inventory@, *bar);
        assert forall|i: int| 0 <= i < subsets@.len() implies load_weight(
            load_of((#[trigger] subsets@[i])@, *bar),
        ) <= u32::MAX by {
            let s = lists(subsets@)[i];
            let mask = choose|mask: Seq<bool>|
                mask.len() == units@.len() && #[trigger] lists(subsets@)[i] == #[trigger] selection(
                    units@,
                    mask,
                );
            lemma_selection_fits(units@, mask, *bar);
            lemma_selection_weight(units@, mask);
        }
        lemma_arranged(units@, lists(subsets@), *bar);
    }
    let configs = configurations_from(&subsets, bar);
    proof {
        assert forall|i: int| 0 <= i < configs@.len() implies load_weight((#[trigger] configs@[i])@)
            <= u32::MAX by {
            assert(views(configs@)[i] == configs@[i]@);
        }
    }
    configs
}

} // verus!
