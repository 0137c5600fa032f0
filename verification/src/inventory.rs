use vstd::prelude::*;
use vstd::relations::sorted_by;
use vstd::seq_lib::lemma_sorted_unique;
use crate::bar::Bar;
use crate::combinations::selection;
use crate::dumbbell::{
    lemma_all_fit, lemma_canonical_properties, lemma_plate_order_total, plate_order,
    plates_weight, Dumbbell,
};
use crate::plate::Plate;

verus! {

/// How often `p` occurs in `plates`.
pub open spec fn occurrences(plates: Seq<Plate>, p: Plate) -> nat
    decreases plates.len(),
{
    if plates.len() == 0 {
        0
    } else {
        occurrences(plates.drop_last(), p) + if plates.last() == p {
            1nat
        } else {
            0nat
        }
    }
}

/// How many units of plate `p` can be loaded on one side of `bar`: none
/// where the plate does not fit the bar, else the number of such plates in
/// the inventory divided by the number of identical plates that one unit
/// takes, rounded down.
pub open spec fn usable(inventory: Seq<Plate>, bar: Bar, p: Plate) -> nat {
    if p.gauge == bar.gauge {
        occurrences(inventory, p) / (bar.kind.spec_required_similar_plates() as nat)
    } else {
        0
    }
}

/// Whether `units` lists the usable units of every plate for `bar`,
/// heaviest first.
pub open spec fn is_unit_list(units: Seq<Plate>, inventory: Seq<Plate>, bar: Bar) -> bool {
    &&& sorted_by(units, plate_order())
    &&& forall|p: Plate| #[trigger] occurrences(units, p) == usable(inventory, bar, p)
}

/// The usable units for `bar`, heaviest first.
pub open spec fn unit_list(inventory: Seq<Plate>, bar: Bar) -> Seq<Plate> {
    choose|units: Seq<Plate>| is_unit_list(units, inventory, bar)
}

/// Counting occurrences agrees with the multiset of a sequence.
pub proof fn lemma_occurrences_count(plates: Seq<Plate>, p: Plate)
    ensures
        occurrences(plates, p) == plates.to_multiset().count(p),
    decreases plates.len(),
{
    broadcast use vstd::multiset::group_multiset_axioms;

    if plates.len() == 0 {
        plates.to_multiset_ensures();
        assert(plates.to_multiset().len() == 0);
    } else {
        lemma_occurrences_count(plates.drop_last(), p);
        vstd::seq_lib::to_multiset_build(plates.drop_last(), plates.last());
        assert(plates.drop_last().push(plates.last()) =~= plates);
    }
}

/// A plate that occurs in a list is one of its elements, and the other way
/// round.
pub proof fn lemma_occurrences_contains(plates: Seq<Plate>, p: Plate)
    ensures
        occurrences(plates, p) > 0 <==> plates.contains(p),
    decreases plates.len(),
{
    if plates.len() > 0 {
        lemma_occurrences_contains(plates.drop_last(), p);
        if plates.contains(p) {
            let i = choose|i: int| 0 <= i < plates.len() && plates[i] == p;
            if i < plates.len() - 1 {
                assert(plates.drop_last()[i] == p);
            }
        }
        if plates.drop_last().contains(p) {
            let i = choose|i: int| 0 <= i < plates.drop_last().len() && plates.drop_last()[i] == p;
            assert(plates[i] == p);
        }
    }
}

/// There is one unit list only.
pub proof fn lemma_unit_list_unique(a: Seq<Plate>, b: Seq<Plate>, inventory: Seq<Plate>, bar: Bar)
    requires
        is_unit_list(a, inventory, bar),
        is_unit_list(b, inventory, bar),
    ensures
        a == b,
{
    assert forall|p: Plate| a.to_multiset().count(p) == b.to_multiset().count(p) by {
        lemma_occurrences_count(a, p);
        lemma_occurrences_count(b, p);
        assert(occurrences(a, p) == usable(inventory, bar, p));
        assert(occurrences(b, p) == usable(inventory, bar, p));
    }
    assert(a.to_multiset() =~= b.to_multiset());
    lemma_plate_order_total();
    lemma_sorted_unique(a, b, plate_order());
}

/// Every unit fits the bar.
pub proof fn lemma_units_fit(units: Seq<Plate>, inventory: Seq<Plate>, bar: Bar)
    requires
        is_unit_list(units, inventory, bar),
    ensures
        forall|i: int| 0 <= i < units.len() ==> (#[trigger] units[i]).gauge == bar.gauge,
{
    assert forall|i: int| 0 <= i < units.len() implies (#[trigger] units[i]).gauge == bar.gauge by {
        lemma_occurrences_contains(units, units[i]);
        assert(occurrences(units, units[i]) == usable(inventory, bar, units[i]));
    }
}

/// A selection is no longer than the list it is taken from, and holds
/// elements of that list only.
pub proof fn lemma_selection_elements(items: Seq<Plate>, mask: Seq<bool>)
    requires
        mask.len() == items.len(),
    ensures
        selection(items, mask).len() <= items.len(),
        forall|k: int|
            0 <= k < selection(items, mask).len() ==> items.contains(
                #[trigger] selection(items, mask)[k],
            ),
    decreases items.len(),
{
    if items.len() > 0 {
        let rest = selection(items.drop_last(), mask.drop_last());
        lemma_selection_elements(items.drop_last(), mask.drop_last());
        assert forall|k: int| 0 <= k < selection(items, mask).len() implies items.contains(
            #[trigger] selection(items, mask)[k],
        ) by {
            if k < rest.len() {
                assert(items.drop_last().contains(rest[k]));
                let j = choose|j: int| 0 <= j < items.drop_last().len() && items.drop_last()[j] == rest[k];
                assert(items[j] == rest[k]);
            } else {
                assert(items[items.len() - 1] == items.last());
            }
        }
    }
}

/// A selection of a list that is sorted is sorted.
pub proof fn lemma_selection_sorted(items: Seq<Plate>, mask: Seq<bool>)
    requires
        mask.len() == items.len(),
        sorted_by(items, plate_order()),
    ensures
        sorted_by(selection(items, mask), plate_order()),
    decreases items.len(),
{
    if items.len() > 0 {
        let rest = selection(items.drop_last(), mask.drop_last());
        lemma_selection_sorted(items.drop_last(), mask.drop_last());
        lemma_selection_elements(items.drop_last(), mask.drop_last());
        let sel = selection(items, mask);
        assert forall|a: int, b: int| 0 <= a < b < sel.len() implies (plate_order())(
            sel[a],
            sel[b],
        ) by {
            if b < rest.len() {
                assert((plate_order())(rest[a], rest[b]));
            } else {
                assert(items.drop_last().contains(rest[a]));
                let j = choose|j: int| 0 <= j < items.drop_last().len() && items.drop_last()[j] == rest[a];
                assert((plate_order())(items[j], items[items.len() - 1]));
            }
        }
    }
}

/// A selection weighs no more than the list it is taken from.
pub proof fn lemma_selection_weight(items: Seq<Plate>, mask: Seq<bool>)
    requires
        mask.len() == items.len(),
    ensures
        0 <= plates_weight(selection(items, mask)) <= plates_weight(items),
    decreases items.len(),
{
    if items.len() > 0 {
        lemma_selection_weight(items.drop_last(), mask.drop_last());
        let rest = selection(items.drop_last(), mask.drop_last());
        if mask.last() {
            assert(rest.push(items.last()).drop_last() =~= rest);
        }
    }
}

/// The selection that takes nothing is empty.
pub proof fn lemma_selection_none(items: Seq<Plate>)
    ensures
        selection(items, Seq::new(items.len(), |i: int| false)) == Seq::<Plate>::empty(),
    decreases items.len(),
{
    if items.len() > 0 {
        lemma_selection_none(items.drop_last());
        assert(Seq::new(items.len(), |i: int| false).drop_last() =~= Seq::new(
            items.drop_last().len(),
            |i: int| false,
        ));
    }
}

/// The usable units for `bar`: for each plate of the inventory that fits
/// the bar, as many units as the plates of that weight allow, heaviest
/// first.
pub fn usable_units(inventory: &Vec<Plate>, bar: &Bar) -> (units: Vec<Plate>)
    ensures
        is_unit_list(units@, inventory@, *bar),
        units@ == unit_list(inventory@, *bar),
{
    let per_unit: usize = bar.kind().required_similar_plates();
    let mut picks: Vec<Plate> = Vec::new();
    let mut i: usize = 0;
    while i < inventory.len()
        invariant
            i <= inventory.len(),
            per_unit == bar.kind.spec_required_similar_plates(),
            per_unit == 2 || per_unit == 4,
            forall|k: int| 0 <= k < picks@.len() ==> (#[trigger] picks@[k]).gauge == bar.gauge,
            forall|q: Plate| #[trigger]
                occurrences(picks@, q) == usable(inventory@.take(i as int), *bar, q),
        decreases inventory.len() - i,
    {
        let p = inventory[i];
        let ghost before = picks@;
        proof {
            assert(inventory@.take(i as int + 1).drop_last() =~= inventory@.take(i as int));
        }
        if p.gauge == bar.gauge {
            let mut seen: usize = 0;
            let mut j: usize = 0;
            while j < i
                invariant
                    j <= i,
                    i < inventory.len(),
                    seen <= j,
                    seen == occurrences(inventory@.take(j as int), p),
                decreases i - j,
            {
                proof {
                    assert(inventory@.take(j as int + 1).drop_last() =~= inventory@.take(j as int));
                }
                if inventory[j] == p {
                    seen += 1;
                }
                j += 1;
            }
            if (seen + 1) % per_unit == 0 {
                picks.push(p);
                proof {
                    assert(picks@.drop_last() =~= before);
                }
            }
        }
        proof {
            assert forall|q: Plate| #[trigger]
                occurrences(picks@, q) == usable(inventory@.take(i as int + 1), *bar, q) by {
                assert(occurrences(before, q) == usable(inventory@.take(i as int), *bar, q));
            }
        }
        i += 1;
    }
    proof {
        assert(inventory@.take(inventory@.len() as int) =~= inventory@);
    }
    let ghost picked = picks@;
    let sorted = Dumbbell::new(picks, *bar).plates_owned();
    proof {
        lemma_canonical_properties(picked, *bar);
        lemma_all_fit(picked, bar.gauge);
        assert forall|q: Plate| #[trigger] occurrences(sorted@, q) == usable(inventory@, *bar, q) by {
            lemma_occurrences_count(sorted@, q);
            lemma_occurrences_count(picked, q);
            assert(occurrences(picked, q) == usable(inventory@, *bar, q));
        }
        let chosen = unit_list(inventory@, *bar);
        assert(is_unit_list(sorted@, inventory@, *bar));
        lemma_unit_list_unique(sorted@, chosen, inventory@, *bar);
    }
    sorted
}

} // verus!
