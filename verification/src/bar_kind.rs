use vstd::prelude::*;
use vstd::string::StringSliceAdditionalSpecFns;
use std::str::FromStr;

verus! {

/// The kind of a bar. It decides how many identical plates one loaded unit
/// on one side consumes.
#[derive(Clone, Copy, Debug, PartialEq, Eq, PartialOrd, Ord, Hash, Structural)]
pub enum BarKind {
    Dumbbell,
    Barbell,
}

impl BarKind {
    /// Number of physically identical plates that make up one usable unit.
    pub open spec fn spec_required_similar_plates(&self) -> usize {
        match self {
            BarKind::Dumbbell => 4,
            BarKind::Barbell => 2,
        }
    }

    #[verifier::when_used_as_spec(spec_required_similar_plates)]
    pub fn required_similar_plates(&self) -> (r: usize)
        ensures
            r == self.spec_required_similar_plates(),
            r == 4 || r == 2,
    {
        match self {
            BarKind::Dumbbell => 4,
            BarKind::Barbell => 2,
        }
    }
}

impl BarKind {
    /// Reads the kind off its one-letter code: `d` for a dumbbell, `b` for
    /// a barbell.
    pub fn from_code(code: &str) -> (r: Result<BarKind, String>)
        ensures
            code.spec_bytes() == seq![100u8] ==> r == Ok::<BarKind, String>(BarKind::Dumbbell),
            code.spec_bytes() == seq![98u8] ==> r == Ok::<BarKind, String>(BarKind::Barbell),
            code.spec_bytes() != seq![100u8] && code.spec_bytes() != seq![98u8] ==> r is Err
                && r->Err_0@ == "Invalid bar kind."@,
    {
        let bytes = code.as_bytes();
        if bytes.len() == 1 {
            if bytes[0] == 100 {
                proof {
                    assert(bytes@ =~= seq![100u8]);
                }
                return Ok(BarKind::Dumbbell);
            }
            if bytes[0] == 98 {
                proof {
                    assert(bytes@ =~= seq![98u8]);
                }
                return Ok(BarKind::Barbell);
            }
        }
        Err("Invalid bar kind.".to_owned())
    }
}

impl FromStr for BarKind {
    type Err = String;

    fn from_str(s: &str) -> (r: Result<Self, Self::Err>)
        ensures
            s.spec_bytes() == seq![100u8] ==> r == Ok::<BarKind, String>(BarKind::Dumbbell),
            s.spec_bytes() == seq![98u8] ==> r == Ok::<BarKind, String>(BarKind::Barbell),
            s.spec_bytes() != seq![100u8] && s.spec_bytes() != seq![98u8] ==> r is Err
                && r->Err_0@ == "Invalid bar kind."@,
    {
        BarKind::from_code(s)
    }
}

} // verus!
