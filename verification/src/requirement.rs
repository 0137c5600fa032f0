use vstd::prelude::*;
use crate::bar_kind::BarKind;
use crate::dumbbell::{load_weight, Dumbbell, Load};

verus! {

/// A target load: a total weight in grams on some bar of the given kind.
#[derive(Debug, Clone, Copy, PartialEq, Eq, Structural)]
pub struct Requirement {
    pub weight: u32,
    pub bar_kind: BarKind,
}

/// Whether a configuration has exactly the weight and the kind of bar that
/// the requirement asks for.
pub open spec fn meets(requirement: Requirement, load: Load) -> bool {
    load_weight(load) == requirement.weight && load.bar.kind == requirement.bar_kind
}

impl Requirement {
    #[must_use]
    pub fn new(weight: u32, bar_kind: BarKind) -> (r: Self)
        ensures
            r == (Requirement { weight, bar_kind }),
    {
        Requirement { weight, bar_kind }
    }

    /// Whether `dumbbell` satisfies this requirement.
    #[must_use]
    pub fn matches(&self, dumbbell: &Dumbbell) -> (r: bool)
        ensures
            r == meets(*self, dumbbell@),
    {
        match dumbbell.checked_weight() {
            Some(w) => w == self.weight && self.bar_kind == *dumbbell.bar().kind(),
            None => false,
        }
    }

    #[must_use]
    pub fn bar_kind(&self) -> (k: BarKind)
        ensures
            k == self.bar_kind,
    {
        self.bar_kind
    }

    #[must_use]
    pub fn weight(&self) -> (w: u32)
        ensures
            w == self.weight,
    {
        self.weight
    }
}

} // verus!
