use vstd::prelude::*;
use crate::bar::Bar;
use crate::dumbbell::{views, Dumbbell, Load};

verus! {

/// The lists of configurations behind a sequence of entries.
pub open spec fn entry_views(entries: Seq<(Bar, Vec<Dumbbell>)>) -> Seq<(Bar, Seq<Load>)> {
    entries.map_values(|e: (Bar, Vec<Dumbbell>)| (e.0, views(e.1@)))
}

/// The configurations listed for `bar`: those of its first entry, then
/// those of its second entry, and so on.
pub open spec fn listed_for(entries: Seq<(Bar, Seq<Load>)>, bar: Bar) -> Seq<Load>
    decreases entries.len(),
{
    if entries.len() == 0 {
        Seq::empty()
    } else if entries.last().0 == bar {
        listed_for(entries.drop_last(), bar) + entries.last().1
    } else {
        listed_for(entries.drop_last(), bar)
    }
}

/// The bars that have an entry, each once, in the order in which they
/// first occur.
pub open spec fn listed_bars(entries: Seq<(Bar, Seq<Load>)>) -> Seq<Bar>
    decreases entries.len(),
{
    if entries.len() == 0 {
        Seq::empty()
    } else {
        let before = listed_bars(entries.drop_last());
        if before.contains(entries.last().0) {
            before
        } else {
            before.push(entries.last().0)
        }
    }
}

/// A plan: for each bar, the configurations to load on it, in order.
pub struct Workout {
    dumbbells: Vec<(Bar, Vec<Dumbbell>)>,
}

impl View for Workout {
    type V = Seq<(Bar, Seq<Load>)>;

    closed spec fn view(&self) -> Seq<(Bar, Seq<Load>)> {
        entry_views(self.dumbbells@)
    }
}

impl Default for Workout {
    fn default() -> (w: Self)
        ensures
            w@ == Seq::<(Bar, Seq<Load>)>::empty(),
    {
        let w = Workout { dumbbells: Vec::new() };
        proof {
            assert(w@ =~= Seq::<(Bar, Seq<Load>)>::empty());
        }
        w
    }
}

impl Workout {
    #[must_use]
    pub fn new(dumbbells: Vec<(Bar, Vec<Dumbbell>)>) -> (w: Self)
        ensures
            w@ == entry_views(dumbbells@),
    {
        Workout { dumbbells }
    }

    /// The configurations planned for `bar`, in order; none where the plan
    /// does not use the bar.
    #[must_use]
    pub fn get(&self, bar: Bar) -> (list: Vec<Dumbbell>)
        ensures
            views(list@) == listed_for(self@, bar),
    {
        let mut list: Vec<Dumbbell> = Vec::new();
        let mut i: usize = 0;
        while i < self.dumbbells.len()
            invariant
                i <= self.dumbbells.len(),
                views(list@) == listed_for(self@.take(i as int), bar),
            decreases self.dumbbells.len() - i,
        {
            proof {
                assert(self@.take(i as int + 1).drop_last() =~= self@.take(i as int));
                assert(self@.take(i as int + 1).last() == self@[i as int]);
                assert(self@[i as int] == (self.dumbbells@[i as int].0, views(self.dumbbells@[i as int].1@)));
            }
            if self.dumbbells[i].0 == bar {
                let entry = &self.dumbbells[i].1;
                let ghost before = list@;
                let mut k: usize = 0;
                while k < entry.len()
                    invariant
                        k <= entry.len(),
                        views(list@) == views(before) + views(entry@).take(k as int),
                    decreases entry.len() - k,
                {
                    let ghost so_far = list@;
                    list.push(entry[k].duplicate());
                    proof {
                        assert(views(list@) =~= views(so_far).push(entry@[k as int]@));
                        assert(views(entry@).take(k as int + 1) =~= views(entry@).take(k as int).push(
                            entry@[k as int]@,
                        ));
                    }
                    k += 1;
                }
                proof {
                    assert(views(entry@).take(entry@.len() as int) =~= views(entry@));
                }
            }
            i += 1;
        }
        proof {
            assert(self@.take(self@.len() as int) =~= self@);
        }
        list
    }

    /// The bars that the plan uses.
    #[must_use]
    pub fn bars(&self) -> (bars: Vec<Bar>)
        ensures
            bars@ == listed_bars(self@),
    {
        let mut bars: Vec<Bar> = Vec::new();
        let mut i: usize = 0;
        while i < self.dumbbells.len()
            invariant
                i <= self.dumbbells.len(),
                bars@ == listed_bars(self@.take(i as int)),
            decreases self.dumbbells.len() - i,
        {
            proof {
                assert(self@.take(i as int + 1).drop_last() =~= self@.take(i as int));
                assert(self@.take(i as int + 1).last() == self@[i as int]);
            }
            let bar = self.dumbbells[i].0;
            let mut known = false;
            let mut k: usize = 0;
            while k < bars.len() && !known
                invariant
                    k <= bars.len(),
                    known ==> bars@.contains(bar),
                    !known ==> forall|m: int| 0 <= m < k ==> bars@[m] != bar,
                decreases bars.len() - k + if known { 0int } else { 1int },
            {
                if bars[k] == bar {
                    known = true;
                } else {
                    k += 1;
                }
            }
            if !known {
                bars.push(bar);
            }
            i += 1;
        }
        proof {
            assert(self@.take(self@.len() as int) =~= self@);
        }
        bars
    }

    /// Hands the entries over: each bar with its configurations.
    #[must_use]
    pub fn into_entries(self) -> (entries: Vec<(Bar, Vec<Dumbbell>)>)
        ensures
            entry_views(entries@) == self@,
    {
        self.dumbbells
    }
}

} // verus!
