use vstd::prelude::*;
use vstd::relations::{sorted_by, total_ordering};
use vstd::seq_lib::{lemma_sorted_unique, to_multiset_insert};
use std::rc::Rc;
use crate::bar::Bar;
use crate::plate::Plate;

verus! {

/// The mathematical model of a configuration: the plates on one side of a
/// bar, outermost plate last, together with the bar itself.
pub struct Load {
    pub plates: Seq<Plate>,
    pub bar: Bar,
}

/// The order in which plates sit on a bar: heaviest first, and among equal
/// weights the larger gauge first.
pub open spec fn plate_order() -> spec_fn(Plate, Plate) -> bool {
    |a: Plate, b: Plate| a.weight > b.weight || (a.weight == b.weight && a.gauge >= b.gauge)
}

/// Selects the plates whose hole matches `gauge`.
pub open spec fn has_gauge(gauge: u32) -> spec_fn(Plate) -> bool {
    |p: Plate| p.gauge == gauge
}

/// The canonical plate list for `bar`: the plates that fit its gauge, in
/// descending order of weight.
pub open spec fn canonical(plates: Seq<Plate>, bar: Bar) -> Seq<Plate> {
    plates.filter(has_gauge(bar.gauge)).sort_by(plate_order())
}

/// Sum of the weights of `plates`.
pub open spec fn plates_weight(plates: Seq<Plate>) -> int
    decreases plates.len(),
{
    if plates.len() == 0 {
        0
    } else {
        plates_weight(plates.drop_last()) + plates.last().weight
    }
}

/// Weight of a loaded bar: the bar plus the plates on both sides.
pub open spec fn load_weight(load: Load) -> int {
    load.bar.weight + 2 * plates_weight(load.plates)
}

/// Two configurations are plate-adjacent when they sit on the same bar, one
/// holds exactly one plate more than the other, and the shorter stack
/// matches the longer one weight for weight from the inside out.
pub open spec fn plate_adjacent(a: Load, b: Load) -> bool {
    &&& a.bar == b.bar
    &&& (a.plates.len() == b.plates.len() + 1 || b.plates.len() == a.plates.len() + 1)
    &&& forall|i: int|
        0 <= i < a.plates.len() && i < b.plates.len() ==> a.plates[i].weight == b.plates[i].weight
}

/// The configurations behind a sequence of values.
pub open spec fn views(dumbbells: Seq<Dumbbell>) -> Seq<Load> {
    dumbbells.map_values(|d: Dumbbell| d@)
}

/// Plate-adjacency does not depend on the order of its arguments.
pub proof fn lemma_plate_adjacent_symmetric(a: Load, b: Load)
    ensures
        plate_adjacent(a, b) == plate_adjacent(b, a),
{
}

/// No configuration is plate-adjacent to itself.
pub proof fn lemma_plate_adjacent_irreflexive(a: Load)
    ensures
        !plate_adjacent(a, a),
{
}

/// `plate_order` is a total order on plates.
pub proof fn lemma_plate_order_total()
    ensures
        total_ordering(plate_order()),
{
}

/// The canonical list holds exactly the fitting plates, heaviest first.
pub proof fn lemma_canonical_properties(plates: Seq<Plate>, bar: Bar)
    ensures
        canonical(plates, bar).to_multiset() == plates.filter(has_gauge(bar.gauge)).to_multiset(),
        sorted_by(canonical(plates, bar), plate_order()),
        canonical(plates, bar).len() == plates.filter(has_gauge(bar.gauge)).len(),
        forall|i: int|
            0 <= i < canonical(plates, bar).len() ==> (#[trigger] canonical(
                plates,
                bar,
            )[i]).gauge == bar.gauge,
{
    broadcast use vstd::seq_lib::group_to_multiset_ensures;

    let fit = plates.filter(has_gauge(bar.gauge));
    let out = canonical(plates, bar);
    lemma_plate_order_total();
    fit.lemma_sort_by_ensures(plate_order());
    fit.to_multiset_ensures();
    out.to_multiset_ensures();
    assert forall|i: int| 0 <= i < out.len() implies (#[trigger] out[i]).gauge == bar.gauge by {
        assert(out.contains(out[i]));
        assert(fit.contains(out[i]));
        let k = choose|k: int| 0 <= k < fit.len() && fit[k] == out[i];
        plates.lemma_filter_pred(has_gauge(bar.gauge), k);
    }
}

/// A list that is already canonical for `bar` is its own canonical form.
pub proof fn lemma_canonical_fixed_point(plates: Seq<Plate>, bar: Bar)
    requires
        sorted_by(plates, plate_order()),
        forall|i: int| 0 <= i < plates.len() ==> (#[trigger] plates[i]).gauge == bar.gauge,
    ensures
        canonical(plates, bar) == plates,
{
    lemma_all_fit(plates, bar.gauge);
    lemma_plate_order_total();
    plates.lemma_sort_by_ensures(plate_order());
    lemma_sorted_unique(plates.sort_by(plate_order()), plates, plate_order());
}

/// Filtering by gauge keeps a list whose plates all have that gauge.
pub proof fn lemma_all_fit(plates: Seq<Plate>, gauge: u32)
    requires
        forall|i: int| 0 <= i < plates.len() ==> (#[trigger] plates[i]).gauge == gauge,
    ensures
        plates.filter(has_gauge(gauge)) == plates,
    decreases plates.len(),
{
    reveal(Seq::filter);
    if plates.len() > 0 {
        lemma_all_fit(plates.drop_last(), gauge);
        assert(plates.drop_last().push(plates.last()) =~= plates);
    }
}

/// The weight of a prefix never exceeds the weight of the whole list.
pub proof fn lemma_plates_weight_prefix(plates: Seq<Plate>, n: int)
    requires
        0 <= n <= plates.len(),
    ensures
        0 <= plates_weight(plates.take(n)) <= plates_weight(plates),
    decreases plates.len() - n,
{
    if n == plates.len() {
        assert(plates.take(n) =~= plates);
        lemma_plates_weight_nonnegative(plates);
    } else {
        lemma_plates_weight_prefix(plates, n + 1);
        assert(plates.take(n + 1).drop_last() =~= plates.take(n));
        lemma_plates_weight_nonnegative(plates.take(n));
    }
}

/// A plate list never has negative weight.
pub proof fn lemma_plates_weight_nonnegative(plates: Seq<Plate>)
    ensures
        0 <= plates_weight(plates),
    decreases plates.len(),
{
    if plates.len() > 0 {
        lemma_plates_weight_nonnegative(plates.drop_last());
    }
}

/// A configuration: a bar and the canonical list of plates loaded on one of
/// its sides.
#[derive(Clone, Debug, PartialEq, Eq, Hash)]
pub struct Dumbbell {
    plates: Vec<Plate>,
    bar: Bar,
}

impl View for Dumbbell {
    type V = Load;

    closed spec fn view(&self) -> Load {
        Load { plates: self.plates@, bar: self.bar }
    }
}

impl Dumbbell {
    /// Builds the configuration of `bar` that holds the given plates: those
    /// that do not fit the bar's gauge are left out, the rest are stacked
    /// heaviest first.
    #[must_use]
    pub fn new(plates: Vec<Plate>, bar: Bar) -> (d: Self)
        ensures
            d@ == (Load { plates: canonical(plates@, bar), bar }),
    {
        let gauge = bar.gauge;
        let mut kept: Vec<Plate> = Vec::new();
        let mut i: usize = 0;
        proof {
            reveal(Seq::filter);
            assert(plates@.take(0).filter(has_gauge(gauge)) =~= kept@);
        }
        while i < plates.len()
            invariant
                i <= plates.len(),
                gauge == bar.gauge,
                kept@.to_multiset() == plates@.take(i as int).filter(
                    has_gauge(gauge),
                ).to_multiset(),
                sorted_by(kept@, plate_order()),
                forall|k: int| 0 <= k < kept@.len() ==> (#[trigger] kept@[k]).gauge == gauge,
            decreases plates.len() - i,
        {
            let p = plates[i];
            proof {
                assert(plates@.take(i as int + 1) =~= plates@.take(i as int).push(p));
                plates@.take(i as int).lemma_filter_push(p, has_gauge(gauge));
            }
            if p.gauge == gauge {
                let mut j: usize = 0;
                while j < kept.len() && kept[j].weight > p.weight
                    invariant
                        j <= kept.len(),
                        forall|k: int| 0 <= k < j ==> (#[trigger] kept@[k]).weight > p.weight,
                    decreases kept.len() - j,
                {
                    j += 1;
                }
                let ghost before = kept@;
                kept.insert(j, p);
                proof {
                    to_multiset_insert(before, j as int, p);
                    plates@.take(i as int).filter(has_gauge(gauge)).to_multiset_ensures();
                    assert forall|a: int, b: int| 0 <= a < b < kept@.len() implies (plate_order())(
                        kept@[a],
                        kept@[b],
                    ) by {
                        if b < j {
                            assert((plate_order())(before[a], before[b]));
                        } else if b == j {
                            assert(before[a].weight > p.weight);
                        } else if a == j {
                            assert(before[b - 1].gauge == gauge);
                            if j < before.len() {
                                assert(before[j as int].weight <= p.weight);
                                if b - 1 > j {
                                    assert((plate_order())(before[j as int], before[b - 1]));
                                }
                            }
                        } else if a < j {
                            assert((plate_order())(before[a], before[b - 1]));
                        } else {
                            assert((plate_order())(before[a - 1], before[b - 1]));
                        }
                    }
                }
            }
            i += 1;
        }
        proof {
            assert(plates@.take(plates@.len() as int) =~= plates@);
            lemma_canonical_properties(plates@, bar);
            lemma_plate_order_total();
            lemma_sorted_unique(kept@, canonical(plates@, bar), plate_order());
        }
        Dumbbell { plates: kept, bar }
    }

    /// Like [`Dumbbell::new`], behind a reference-counted pointer.
    #[must_use]
    pub fn new_rc(plates: Vec<Plate>, bar: &Bar) -> (d: Rc<Self>)
        ensures
            (*d)@ == (Load { plates: canonical(plates@, *bar), bar: *bar }),
    {
        Rc::new(Dumbbell::new(plates, *bar))
    }

    /// The plates on one side, heaviest first.
    #[must_use]
    pub fn plates(&self) -> (p: &[Plate])
        ensures
            p@ == self@.plates,
    {
        self.plates.as_slice()
    }

    /// Hands the plates over, heaviest first.
    #[must_use]
    pub fn plates_owned(self) -> (p: Vec<Plate>)
        ensures
            p@ == self@.plates,
    {
        self.plates
    }

    #[must_use]
    pub fn bar(&self) -> (b: &Bar)
        ensures
            *b == self@.bar,
    {
        &self.bar
    }

    /// Number of plates on one side.
    pub fn plate_count(&self) -> (n: usize)
        ensures
            n == self@.plates.len(),
    {
        self.plates.len()
    }

    /// The total weight, or `None` where it does not fit in 32 bits.
    pub fn checked_weight(&self) -> (w: Option<u32>)
        ensures
            match w {
                Some(w) => w == load_weight(self@),
                None => load_weight(self@) > u32::MAX,
            },
    {
        let mut sum: u64 = 0;
        let mut i: usize = 0;
        while i < self.plates.len()
            invariant
                i <= self.plates.len(),
                sum == plates_weight(self.plates@.take(i as int)),
                sum <= u32::MAX,
            decreases self.plates.len() - i,
        {
            proof {
                assert(self.plates@.take(i as int + 1).drop_last() =~= self.plates@.take(i as int));
                lemma_plates_weight_prefix(self.plates@, i as int + 1);
            }
            sum = sum + self.plates[i].weight as u64;
            if sum > u32::MAX as u64 {
                return None;
            }
            i += 1;
        }
        proof {
            assert(self.plates@.take(self.plates@.len() as int) =~= self.plates@);
        }
        let total: u64 = self.bar.weight as u64 + 2 * sum;
        if total > u32::MAX as u64 {
            None
        } else {
            Some(total as u32)
        }
    }

    /// The total weight: the bar plus twice the plates on one side.
    #[must_use]
    pub fn weight(&self) -> (w: u32)
        requires
            load_weight(self@) <= u32::MAX,
        ensures
            w == load_weight(self@),
    {
        match self.checked_weight() {
            Some(w) => w,
            None => 0,
        }
    }

    /// Whether `other` can be reached from this configuration by adding or
    /// removing the outermost plate.
    #[must_use]
    pub fn adjacent(&self, other: &Self) -> (r: bool)
        ensures
            r == plate_adjacent(self@, other@),
    {
        if !(self.bar == other.bar) {
            return false;
        }
        let n = self.plates.len();
        let m = other.plates.len();
        if !((n > m && n - m == 1) || (m > n && m - n == 1)) {
            return false;
        }
        let shorter = if n < m { n } else { m };
        let mut i: usize = 0;
        while i < shorter
            invariant
                i <= shorter,
                shorter <= self.plates.len(),
                shorter <= other.plates.len(),
                forall|k: int| 0 <= k < i ==> self.plates@[k].weight == other.plates@[k].weight,
            decreases shorter - i,
        {
            if self.plates[i].weight != other.plates[i].weight {
                return false;
            }
            i += 1;
        }
        true
    }

    /// Whether both configurations hold the same plates on the same bar.
    pub fn same_load(&self, other: &Self) -> (r: bool)
        ensures
            r == (self@ == other@),
    {
        if !(self.bar == other.bar) {
            return false;
        }
        if self.plates.len() != other.plates.len() {
            return false;
        }
        let mut i: usize = 0;
        while i < self.plates.len()
            invariant
                i <= self.plates.len(),
                self.plates.len() == other.plates.len(),
                forall|k: int| 0 <= k < i ==> self.plates@[k] == other.plates@[k],
            decreases self.plates.len() - i,
        {
            if !(self.plates[i] == other.plates[i]) {
                return false;
            }
            i += 1;
        }
        proof {
            assert(self.plates@ =~= other.plates@);
        }
        true
    }

    /// An independent copy of this configuration.
    pub fn duplicate(&self) -> (d: Self)
        ensures
            d@ == self@,
    {
        let mut plates: Vec<Plate> = Vec::new();
        let mut i: usize = 0;
        while i < self.plates.len()
            invariant
                i <= self.plates.len(),
                plates@ == self.plates@.take(i as int),
            decreases self.plates.len() - i,
        {
            plates.push(self.plates[i]);
            proof {
                assert(self.plates@.take(i as int + 1) =~= self.plates@.take(i as int).push(
                    self.plates@[i as int],
                ));
            }
            i += 1;
        }
        proof {
            assert(self.plates@.take(self.plates@.len() as int) =~= self.plates@);
        }
        Dumbbell { plates, bar: self.bar }
    }
}

} // verus!
