use vstd::prelude::*;
use hashbrown::HashMap;
use crate::bar::Bar;
use crate::dumbbell::{plate_adjacent, Dumbbell, Load};

verus! {

/// The stable number of a state within the state space of its bar kind.
#[derive(Clone, Copy, Debug, PartialEq, Eq, PartialOrd, Ord, Hash, Structural)]
pub struct GymStateId(pub usize);

/// A hash table from bar keys to configurations.
///
/// The table itself is `hashbrown::HashMap`; the verifier sees it only
/// through [`slot_entries`] and the three functions below.
#[verifier::external_body]
pub struct Slots {
    map: HashMap<(u32, u32, bool), Dumbbell>,
}

/// What a table holds: the configuration stored under each key.
pub uninterp spec fn slot_entries(slots: Slots) -> Map<(u32, u32, bool), Dumbbell>;

/// The table that results from storing each configuration under the key of
/// its own bar, one after the other.
pub open spec fn keyed(dumbbells: Seq<Dumbbell>) -> Map<(u32, u32, bool), Dumbbell>
    decreases dumbbells.len(),
{
    if dumbbells.len() == 0 {
        Map::empty()
    } else {
        keyed(dumbbells.drop_last()).insert(dumbbells.last()@.bar.spec_key(), dumbbells.last())
    }
}

/// Collects the configurations into a `hashbrown::HashMap` through its
/// `FromIterator` impl, which inserts the pairs in order, so that a later
/// configuration replaces an earlier one stored under the same key.
#[verifier::external_body]
fn slots_from(dumbbells: Vec<Dumbbell>) -> (slots: Slots)
    ensures
        slot_entries(slots) == keyed(dumbbells@),
{
    Slots { map: dumbbells.into_iter().map(|d| (d.bar().key(), d)).collect() }
}

/// `hashbrown::HashMap::get`: the configuration stored under `key`, if any.
#[verifier::external_body]
fn slots_get(slots: &Slots, key: (u32, u32, bool)) -> (found: Option<&Dumbbell>)
    ensures
        match found {
            Some(d) => slot_entries(*slots).contains_key(key) && *d == slot_entries(*slots)[key],
            None => !slot_entries(*slots).contains_key(key),
        },
{
    slots.map.get(&key)
}

/// `hashbrown::HashMap::iter`, collected: every stored pair exactly once, in
/// an order that is left open.
#[verifier::external_body]
fn slots_list(slots: &Slots) -> (pairs: Vec<((u32, u32, bool), &Dumbbell)>)
    ensures
        forall|i: int|
            0 <= i < pairs@.len() ==> slot_entries(*slots).contains_key((#[trigger] pairs@[i]).0)
                && *pairs@[i].1 == slot_entries(*slots)[pairs@[i].0],
        forall|k: (u32, u32, bool)|
            slot_entries(*slots).contains_key(k) ==> exists|i: int|
                0 <= i < pairs@.len() && (#[trigger] pairs@[i]).0 == k,
        forall|i: int, j: int|
            0 <= i < j < pairs@.len() ==> (#[trigger] pairs@[i]).0 != (#[trigger] pairs@[j]).0,
{
    slots.map.iter().map(|(k, v)| (*k, v)).collect()
}

/// The state that assigns each load to its own bar. Where several loads sit
/// on the same bar, the last one counts.
pub open spec fn by_bar(loads: Seq<Load>) -> Map<Bar, Load>
    decreases loads.len(),
{
    if loads.len() == 0 {
        Map::empty()
    } else {
        by_bar(loads.drop_last()).insert(loads.last().bar, loads.last())
    }
}

/// Every bar of the state carries a configuration of that very bar.
pub open spec fn well_keyed(state: Map<Bar, Load>) -> bool {
    forall|b: Bar| #[trigger] state.contains_key(b) ==> state[b].bar == b
}

/// Two states are state-adjacent when, among the bars that both track,
/// exactly one carries a different configuration, and the two
/// configurations of that bar are plate-adjacent.
pub open spec fn state_adjacent(s: Map<Bar, Load>, t: Map<Bar, Load>) -> bool {
    exists|b: Bar|
        {
            &&& #[trigger] s.contains_key(b)
            &&& t.contains_key(b)
            &&& plate_adjacent(s[b], t[b])
            &&& forall|c: Bar|
                c != b && #[trigger] s.contains_key(c) && t.contains_key(c) ==> s[c] == t[c]
        }
}

/// State-adjacency does not depend on the order of its arguments.
pub proof fn lemma_state_adjacent_symmetric(s: Map<Bar, Load>, t: Map<Bar, Load>)
    ensures
        state_adjacent(s, t) == state_adjacent(t, s),
{
    if state_adjacent(s, t) {
        let b = choose|b: Bar|
            {
                &&& #[trigger] s.contains_key(b)
                &&& t.contains_key(b)
                &&& plate_adjacent(s[b], t[b])
                &&& forall|c: Bar|
                    c != b && #[trigger] s.contains_key(c) && t.contains_key(c) ==> s[c] == t[c]
            };
        assert(t.contains_key(b));
        assert forall|c: Bar| c != b && #[trigger] t.contains_key(c) && s.contains_key(c) implies t[c]
            == s[c] by {
            assert(s.contains_key(c));
        }
    }
    if state_adjacent(t, s) {
        let b = choose|b: Bar|
            {
                &&& #[trigger] t.contains_key(b)
                &&& s.contains_key(b)
                &&& plate_adjacent(t[b], s[b])
                &&& forall|c: Bar|
                    c != b && #[trigger] t.contains_key(c) && s.contains_key(c) ==> t[c] == s[c]
            };
        assert(s.contains_key(b));
        assert forall|c: Bar| c != b && #[trigger] s.contains_key(c) && t.contains_key(c) implies s[c]
            == t[c] by {
            assert(t.contains_key(c));
        }
    }
}

/// The number of plates that the bars of `order` carry on one side, all
/// bars taken together.
pub open spec fn plates_over(state: Map<Bar, Load>, order: Seq<Bar>) -> nat
    decreases order.len(),
{
    if order.len() == 0 {
        0
    } else {
        plates_over(state, order.drop_last()) + state[order.last()].plates.len()
    }
}

/// No state is state-adjacent to itself.
pub proof fn lemma_state_adjacent_irreflexive(s: Map<Bar, Load>)
    ensures
        !state_adjacent(s, s),
{
}

/// The view of a table: each stored configuration under the bar that its key
/// stands for.
pub open spec fn loads_of(entries: Map<(u32, u32, bool), Dumbbell>) -> Map<Bar, Load> {
    Map::new(|b: Bar| entries.contains_key(b.spec_key()), |b: Bar| entries[b.spec_key()]@)
}

/// Storing configurations under their keys models assigning loads to bars.
pub proof fn lemma_keyed_by_bar(dumbbells: Seq<Dumbbell>)
    ensures
        loads_of(keyed(dumbbells)) == by_bar(dumbbells.map_values(|d: Dumbbell| d@)),
        well_keyed(by_bar(dumbbells.map_values(|d: Dumbbell| d@))),
        forall|k: (u32, u32, bool)| #[trigger]
            keyed(dumbbells).contains_key(k) ==> keyed(dumbbells)[k]@.bar.spec_key() == k,
    decreases dumbbells.len(),
{
    let loads = dumbbells.map_values(|d: Dumbbell| d@);
    if dumbbells.len() == 0 {
        assert(loads_of(keyed(dumbbells)) =~= by_bar(loads));
    } else {
        lemma_keyed_by_bar(dumbbells.drop_last());
        assert(loads.drop_last() =~= dumbbells.drop_last().map_values(|d: Dumbbell| d@));
        assert(loads_of(keyed(dumbbells)) =~= by_bar(loads));
    }
}

/// A full snapshot of the gym: the configuration that each tracked bar
/// currently carries.
pub struct GymState {
    state: Slots,
}

impl View for GymState {
    type V = Map<Bar, Load>;

    closed spec fn view(&self) -> Map<Bar, Load> {
        loads_of(slot_entries(self.state))
    }
}

impl GymState {
    #[verifier::type_invariant]
    spec fn stored_under_own_bar(self) -> bool {
        forall|k: (u32, u32, bool)| #[trigger]
            slot_entries(self.state).contains_key(k) ==> slot_entries(
                self.state,
            )[k]@.bar.spec_key() == k
    }

    /// The state in which each of the given configurations sits on its own
    /// bar.
    #[must_use]
    pub fn new(dumbbells: Vec<Dumbbell>) -> (s: Self)
        ensures
            s@ == by_bar(dumbbells@.map_values(|d: Dumbbell| d@)),
            well_keyed(s@),
    {
        proof {
            lemma_keyed_by_bar(dumbbells@);
        }
        GymState { state: slots_from(dumbbells) }
    }

    /// The configuration that `bar` carries in this state.
    #[must_use]
    pub fn get(&self, bar: &Bar) -> (found: Option<&Dumbbell>)
        ensures
            match found {
                Some(d) => self@.contains_key(*bar) && d@ == self@[*bar] && d@.bar == *bar,
                None => !self@.contains_key(*bar),
            },
    {
        proof {
            use_type_invariant(self);
        }
        slots_get(&self.state, bar.key())
    }

    /// The configurations of all tracked bars, in no particular order.
    #[must_use]
    pub fn value(&self) -> (all: Vec<&Dumbbell>)
        ensures
            forall|i: int|
                0 <= i < all@.len() ==> self@.contains_key((#[trigger] all@[i])@.bar) && self@[all@[i]@.bar]
                    == all@[i]@,
            forall|b: Bar| #[trigger]
                self@.contains_key(b) ==> exists|i: int|
                    0 <= i < all@.len() && (#[trigger] all@[i])@.bar == b,
            forall|i: int, j: int|
                0 <= i < j < all@.len() ==> (#[trigger] all@[i])@.bar != (#[trigger] all@[j])@.bar,
    {
        proof {
            use_type_invariant(self);
        }
        let pairs = slots_list(&self.state);
        let mut all: Vec<&Dumbbell> = Vec::new();
        let mut i: usize = 0;
        while i < pairs.len()
            invariant
                i <= pairs.len(),
                all@.len() == i,
                forall|k: int| 0 <= k < i ==> *(#[trigger] all@[k]) == *pairs@[k].1,
            decreases pairs.len() - i,
        {
            all.push(pairs[i].1);
            i += 1;
        }
        proof {
            assert forall|k: int| 0 <= k < all@.len() implies (#[trigger] all@[k])@.bar.spec_key()
                == pairs@[k].0 by {
                assert(slot_entries(self.state).contains_key(pairs@[k].0));
            }
            assert forall|b: Bar| #[trigger] self@.contains_key(b) implies exists|i: int|
                0 <= i < all@.len() && (#[trigger] all@[i])@.bar == b by {
                let i = choose|i: int| 0 <= i < pairs@.len() && (#[trigger] pairs@[i]).0 == b.spec_key();
                assert(all@[i]@.bar.spec_key() == b.spec_key());
            }
            assert forall|i: int, j: int| 0 <= i < j < all@.len() implies (#[trigger] all@[i])@.bar != (
            #[trigger] all@[j])@.bar by {
                assert(pairs@[i].0 != pairs@[j].0);
            }
        }
        all
    }

    /// The number of plates on one side of all bars together, counted bar
    /// by bar in some order; `usize::MAX` where the number does not fit.
    #[must_use]
    pub fn plates(&self) -> (n: usize)
        ensures
            exists|order: Seq<Bar>|
                #![trigger plates_over(self@, order)]
                order.no_duplicates() && order.to_set() == self@.dom() && n == if plates_over(
                    self@,
                    order,
                ) <= usize::MAX {
                    plates_over(self@, order)
                } else {
                    usize::MAX as nat
                },
    {
        let all = self.value();
        let ghost order = Seq::new(all@.len(), |i: int| all@[i]@.bar);
        let mut n: usize = 0;
        let mut i: usize = 0;
        while i < all.len()
            invariant
                i <= all.len(),
                order == Seq::new(all@.len(), |i: int| all@[i]@.bar),
                forall|k: int|
                    0 <= k < all@.len() ==> self@.contains_key((#[trigger] all@[k])@.bar)
                        && self@[all@[k]@.bar] == all@[k]@,
                n == if plates_over(self@, order.take(i as int)) <= usize::MAX {
                    plates_over(self@, order.take(i as int))
                } else {
                    usize::MAX as nat
                },
            decreases all.len() - i,
        {
            proof {
                assert(order.take(i as int + 1).drop_last() =~= order.take(i as int));
                assert(order.take(i as int + 1).last() == all@[i as int]@.bar);
            }
            let count: usize = all[i].plate_count();
            if count > usize::MAX - n {
                n = usize::MAX;
            } else {
                n = n + count;
            }
            i += 1;
        }
        proof {
            assert(order.take(all@.len() as int) =~= order);
            assert(order.to_set() =~= self@.dom()) by {
                assert forall|b: Bar| order.to_set().contains(b) <==> self@.dom().contains(b) by {
                    if order.to_set().contains(b) {
                        let k = choose|k: int| 0 <= k < order.len() && order[k] == b;
                        assert(self@.contains_key(all@[k]@.bar));
                    }
                    if self@.dom().contains(b) {
                        let k = choose|k: int| 0 <= k < all@.len() && (#[trigger] all@[k])@.bar == b;
                        assert(order[k] == b);
                    }
                }
            }
            assert(order.no_duplicates()) by {
                assert forall|a: int, b: int| 0 <= a < b < order.len() implies order[a] != order[b] by {
                    assert(all@[a]@.bar != all@[b]@.bar);
                }
            }
        }
        n
    }

    /// Whether the two states differ in the configuration of exactly one
    /// bar, by exactly one plate at the outside of the stack.
    #[must_use]
    pub fn adjacent(&self, other: &Self) -> (r: bool)
        ensures
            r == state_adjacent(self@, other@),
    {
        proof {
            use_type_invariant(self);
            use_type_invariant(other);
        }
        let pairs = slots_list(&self.state);
        let mut adjacencies: usize = 0;
        let ghost mut witness: int = 0;
        let mut i: usize = 0;
        while i < pairs.len()
            invariant
                i <= pairs.len(),
                adjacencies <= 1,
                forall|k: int|
                    0 <= k < pairs@.len() ==> slot_entries(self.state).contains_key(
                        (#[trigger] pairs@[k]).0,
                    ) && *pairs@[k].1 == slot_entries(self.state)[pairs@[k].0],
                forall|a: int, b: int|
                    0 <= a < b < pairs@.len() ==> (#[trigger] pairs@[a]).0 != (#[trigger] pairs@[b]).0,
                adjacencies == 1 ==> 0 <= witness < i && slot_entries(other.state).contains_key(
                    pairs@[witness].0,
                ) && plate_adjacent(
                    pairs@[witness].1@,
                    slot_entries(other.state)[pairs@[witness].0]@,
                ),
                forall|k: int|
                    0 <= k < i && !(adjacencies == 1 && k == witness) && slot_entries(
                        other.state,
                    ).contains_key((#[trigger] pairs@[k]).0) ==> pairs@[k].1@ == slot_entries(
                        other.state,
                    )[pairs@[k].0]@,
            decreases pairs.len() - i,
        {
            let key = pairs[i].0;
            let mine = pairs[i].1;
            match slots_get(&other.state, key) {
                Some(theirs) => {
                    let same = mine.same_load(theirs);
                    let adjacent = mine.adjacent(theirs);
                    let ghost b = Bar::from_key(key);
                    if !(same || adjacent) {
                        proof {
                            assert(b.spec_key() == key);
                            assert forall|w: Bar| !({
                                &&& #[trigger] self@.contains_key(w)
                                &&& other@.contains_key(w)
                                &&& plate_adjacent(self@[w], other@[w])
                                &&& forall|c: Bar|
                                    c != w && #[trigger] self@.contains_key(c) && other@.contains_key(
                                        c,
                                    ) ==> self@[c] == other@[c]
                            }) by {
                                if w != b {
                                    assert(self@.contains_key(b));
                                }
                            }
                        }
                        return false;
                    }
                    if adjacent {
                        if adjacencies == 1 {
                            proof {
                                let b1 = Bar::from_key(pairs@[witness].0);
                                assert(b.spec_key() == key);
                                assert(b1.spec_key() == pairs@[witness].0);
                                assert(b1 != b);
                                assert forall|w: Bar| !({
                                    &&& #[trigger] self@.contains_key(w)
                                    &&& other@.contains_key(w)
                                    &&& plate_adjacent(self@[w], other@[w])
                                    &&& forall|c: Bar|
                                        c != w && #[trigger] self@.contains_key(c)
                                            && other@.contains_key(c) ==> self@[c] == other@[c]
                                }) by {
                                    if w != b {
                                        assert(self@.contains_key(b));
                                    } else {
                                        assert(self@.contains_key(b1));
                                    }
                                }
                            }
                            return false;
                        }
                        adjacencies = 1;
                        proof {
                            witness = i as int;
                        }
                    }
                },
                None => {},
            }
            i += 1;
        }
        proof {
            if adjacencies == 1 {
                let b = Bar::from_key(pairs@[witness].0);
                assert(b.spec_key() == pairs@[witness].0);
                assert(self@.contains_key(b));
                assert forall|c: Bar|
                    c != b && #[trigger] self@.contains_key(c) && other@.contains_key(
                        c,
                    ) implies self@[c] == other@[c] by {
                    let k = choose|k: int|
                        0 <= k < pairs@.len() && (#[trigger] pairs@[k]).0 == c.spec_key();
                    assert(k != witness);
                }
            } else {
                assert forall|w: Bar| !({
                    &&& #[trigger] self@.contains_key(w)
                    &&& other@.contains_key(w)
                    &&& plate_adjacent(self@[w], other@[w])
                    &&& forall|c: Bar|
                        c != w && #[trigger] self@.contains_key(c) && other@.contains_key(c)
                            ==> self@[c] == other@[c]
                }) by {
                    if self@.contains_key(w) && other@.contains_key(w) {
                        let k = choose|k: int|
                            0 <= k < pairs@.len() && (#[trigger] pairs@[k]).0 == w.spec_key();
                        assert(self@[w] == other@[w]);
                    }
                }
            }
        }
        adjacencies == 1
    }
}

} // verus!
