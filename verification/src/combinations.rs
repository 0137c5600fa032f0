use vstd::prelude::*;
use vstd::arithmetic::power2::pow2;
use itertools::Itertools;
use crate::plate::Plate;

verus! {

/// The plates of `items` at the positions where `mask` holds `true`, in
/// their order.
pub open spec fn selection(items: Seq<Plate>, mask: Seq<bool>) -> Seq<Plate>
    decreases items.len(),
{
    if items.len() == 0 {
        Seq::empty()
    } else {
        let rest = selection(items.drop_last(), mask.drop_last());
        if mask.last() {
            rest.push(items.last())
        } else {
            rest
        }
    }
}

/// The plate lists behind a sequence of vectors.
pub open spec fn lists(subsets: Seq<Vec<Plate>>) -> Seq<Seq<Plate>> {
    subsets.map_values(|v: Vec<Plate>| v@)
}

/// The power set of a list of plates, in the order in which `itertools`
/// enumerates it.
pub uninterp spec fn powerset_of(items: Seq<Plate>) -> Seq<Seq<Plate>>;

/// Whether `subsets` holds nothing but selections of `items`, every
/// selection at least once, and two to the power of the number of items in
/// all.
pub open spec fn is_powerset(items: Seq<Plate>, subsets: Seq<Seq<Plate>>) -> bool {
    &&& forall|i: int|
        0 <= i < subsets.len() ==> exists|mask: Seq<bool>|
            mask.len() == items.len() && #[trigger] subsets[i] == #[trigger] selection(items, mask)
    &&& forall|mask: Seq<bool>|
        mask.len() == items.len() ==> subsets.contains(#[trigger] selection(items, mask))
    &&& subsets.len() == pow2(items.len())
}

/// `Itertools::powerset`, collected. Each vector it yields holds the items
/// of one subset of the positions, in the order of the input; every subset
/// of the positions is yielded once. With more than a few dozen items the
/// enumeration would not end in practice, so the number of items is bounded.
#[verifier::external_body]
pub(crate) fn subsets_of(items: &Vec<Plate>) -> (subsets: Vec<Vec<Plate>>)
    requires
        items@.len() <= 16,
    ensures
        lists(subsets@) == powerset_of(items@),
        is_powerset(items@, lists(subsets@)),
{
    items.iter().copied().powerset().collect()
}

/// The product of the numbers in `sizes`.
pub open spec fn product(sizes: Seq<usize>) -> nat
    decreases sizes.len(),
{
    if sizes.len() == 0 {
        1
    } else {
        product(sizes.drop_last()) * (sizes.last() as nat)
    }
}

/// Whether `choice` picks, for every position, a number below the size
/// given for that position.
pub open spec fn within(sizes: Seq<usize>, choice: Seq<usize>) -> bool {
    &&& choice.len() == sizes.len()
    &&& forall|j: int| 0 <= j < sizes.len() ==> #[trigger] choice[j] < sizes[j]
}

/// The index lists behind a sequence of vectors.
pub open spec fn choices(tuples: Seq<Vec<usize>>) -> Seq<Seq<usize>> {
    tuples.map_values(|v: Vec<usize>| v@)
}

/// The cartesian product of the ranges `0..sizes[j]`, in the order in which
/// `itertools` enumerates it.
pub uninterp spec fn product_of(sizes: Seq<usize>) -> Seq<Seq<usize>>;

/// Whether `tuples` holds every choice within `sizes` exactly once, and
/// nothing else.
pub open spec fn is_product(sizes: Seq<usize>, tuples: Seq<Seq<usize>>) -> bool {
    &&& forall|i: int| 0 <= i < tuples.len() ==> within(sizes, #[trigger] tuples[i])
    &&& forall|choice: Seq<usize>| #[trigger] within(sizes, choice) ==> tuples.contains(choice)
    &&& forall|i: int, j: int|
        0 <= i < j < tuples.len() ==> #[trigger] tuples[i] != #[trigger] tuples[j]
    &&& tuples.len() == product(sizes)
}

/// `Itertools::multi_cartesian_product` over the ranges `0..sizes[j]`,
/// collected. Each vector it yields holds one number from each range, in the
/// order of the ranges, and every such combination is yielded once; over no
/// ranges at all that is the one empty vector.
#[verifier::external_body]
pub(crate) fn index_product(sizes: &Vec<usize>) -> (tuples: Vec<Vec<usize>>)
    requires
        product(sizes@) <= 0xFFFF,
    ensures
        choices(tuples@) == product_of(sizes@),
        is_product(sizes@, choices(tuples@)),
{
    sizes.iter().map(|n| 0..*n).multi_cartesian_product().collect()
}

} // verus!
