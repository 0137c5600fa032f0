use vstd::prelude::*;
use crate::bar_kind::BarKind;

verus! {

/// The rod that plates are loaded onto.
#[derive(Clone, Copy, Debug, PartialEq, Eq, Hash, PartialOrd, Ord, Structural)]
pub struct Bar {
    pub weight: u32,
    pub gauge: u32,
    pub kind: BarKind,
}

impl Bar {
    pub fn new(weight: u32, gauge: u32, kind: BarKind) -> (b: Self)
        ensures
            b == (Bar { weight, gauge, kind }),
    {
        Bar { weight, gauge, kind }
    }

    pub fn weight(&self) -> (w: u32)
        ensures
            w == self.weight,
    {
        self.weight
    }

    pub fn gauge(&self) -> (g: u32)
        ensures
            g == self.gauge,
    {
        self.gauge
    }

    pub fn kind(&self) -> (k: &BarKind)
        ensures
            *k == self.kind,
    {
        &self.kind
    }

    /// The bar as a tuple of plain values, for use as a key: weight, gauge,
    /// and whether it is a barbell.
    pub open spec fn spec_key(&self) -> (u32, u32, bool) {
        (self.weight, self.gauge, self.kind == BarKind::Barbell)
    }

    /// The bar that a key stands for.
    pub open spec fn from_key(key: (u32, u32, bool)) -> Bar {
        Bar {
            weight: key.0,
            gauge: key.1,
            kind: if key.2 {
                BarKind::Barbell
            } else {
                BarKind::Dumbbell
            },
        }
    }

    #[verifier::when_used_as_spec(spec_key)]
    pub fn key(&self) -> (k: (u32, u32, bool))
        ensures
            k == self.spec_key(),
            Bar::from_key(k) == *self,
    {
        (self.weight, self.gauge, self.kind == BarKind::Barbell)
    }
}

} // verus!
