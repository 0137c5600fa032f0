use vstd::prelude::*;
use std::collections::HashMap;
use vstd::std_specs::iter::IteratorSpec;

verus! {

/// A single weight disc: its weight in grams and the gauge of the hole.
#[derive(Clone, Copy, Debug, PartialEq, Eq, Hash, PartialOrd, Ord, Structural)]
pub struct Plate {
    pub weight: u32,
    pub gauge: u32,
}

impl Plate {
    #[must_use]
    pub fn new(weight: u32, gauge: u32) -> (p: Self)
        ensures
            p == (Plate { weight, gauge }),
    {
        Plate { weight, gauge }
    }

    #[must_use]
    pub fn weight(&self) -> (w: u32)
        ensures
            w == self.weight,
    {
        self.weight
    }

    #[must_use]
    pub fn gauge(&self) -> (g: u32)
        ensures
            g == self.gauge,
    {
        self.gauge
    }

    /// One plate of the given gauge for each of the weights, in their
    /// order.
    #[must_use]
    pub fn from_weights(weights: Vec<u32>, gauge: u32) -> (plates: Vec<Plate>)
        ensures
            plates@ == weights@.map_values(|w: u32| Plate { weight: w, gauge }),
    {
        let mut plates: Vec<Plate> = Vec::new();
        let mut i: usize = 0;
        while i < weights.len()
            invariant
                i <= weights.len(),
                plates@ == weights@.take(i as int).map_values(|w: u32| Plate { weight: w, gauge }),
            decreases weights.len() - i,
        {
            let ghost before = plates@;
            plates.push(Plate::new(weights[i], gauge));
            proof {
                assert(weights@.take(i as int + 1) =~= weights@.take(i as int).push(weights@[i as int]));
                assert(plates@ =~= weights@.take(i as int + 1).map_values(
                    |w: u32| Plate { weight: w, gauge },
                ));
            }
            i += 1;
        }
        proof {
            assert(weights@.take(weights@.len() as int) =~= weights@);
        }
        plates
    }

    /// The plates of the given gauge that a table from weights to counts
    /// stands for: each plate with its count, every weight of the table
    /// once, in no particular order.
    #[must_use]
    pub fn from_weights_map(weights_map: HashMap<u32, usize>, gauge: u32) -> (counted: Vec<
        (Plate, usize),
    >)
        ensures
            forall|i: int|
                0 <= i < counted@.len() ==> (#[trigger] counted@[i]).0.gauge == gauge
                    && weights_map@.contains_key(counted@[i].0.weight)
                    && weights_map@[counted@[i].0.weight] == counted@[i].1,
            forall|w: u32| #[trigger]
                weights_map@.contains_key(w) ==> exists|i: int|
                    0 <= i < counted@.len() && #[trigger] counted@[i] == (
                        Plate { weight: w, gauge },
                        weights_map@[w],
                    ),
            forall|i: int, j: int|
                0 <= i < j < counted@.len() ==> (#[trigger] counted@[i]).0 != (#[trigger] counted@[j]).0,
    {
        broadcast use vstd::std_specs::hash::group_hash_axioms;

        let mut counted: Vec<(Plate, usize)> = Vec::new();
        let ghost listed: Seq<&u32> = weights_map.keys().remaining();
        proof {
            vstd::std_specs::hash::axiom_spec_keys_iter(&weights_map);
        }
        for key in it: weights_map.keys()
            invariant
                it.seq() == listed,
                listed.no_duplicates(),
                listed.unref().to_set() == weights_map@.dom(),
                counted@.len() == it.index(),
                forall|i: int|
                    0 <= i < counted@.len() ==> (#[trigger] counted@[i]) == (
                        Plate { weight: *listed[i], gauge },
                        weights_map@[*listed[i]],
                    ),
        {
            proof {
                assert(listed.unref()[it.index()] == *key);
                assert(listed.unref().to_set().contains(*key));
            }
            match weights_map.get(key) {
                Some(count) => {
                    counted.push((Plate::new(*key, gauge), *count));
                },
                None => {},
            }
        }
        proof {
            assert forall|w: u32| #[trigger] weights_map@.contains_key(w) implies exists|i: int|
                0 <= i < counted@.len() && #[trigger] counted@[i] == (
                    Plate { weight: w, gauge },
                    weights_map@[w],
                ) by {
                assert(listed.unref().to_set().contains(w));
                let i = choose|i: int| 0 <= i < listed.unref().len() && listed.unref()[i] == w;
                assert(counted@[i] == (Plate { weight: w, gauge }, weights_map@[w]));
            }
            assert forall|i: int| 0 <= i < counted@.len() implies (#[trigger] counted@[i]).0.gauge
                == gauge && weights_map@.contains_key(counted@[i].0.weight)
                && weights_map@[counted@[i].0.weight] == counted@[i].1 by {
                assert(listed.unref()[i] == *listed[i]);
                assert(listed.unref().to_set().contains(listed.unref()[i]));
            }
            assert forall|i: int, j: int| 0 <= i < j < counted@.len() implies (
            #[trigger] counted@[i]).0 != (#[trigger] counted@[j]).0 by {
                assert(listed[i] != listed[j]);
            }
        }
        counted
    }
}

} // verus!
