use vstd::prelude::*;

verus! {

/// Radar cross-section classes offered for the target.
#[derive(Clone, Copy, Debug, PartialEq, Eq, Hash, Structural)]
pub enum RCSProfile {
    StealthFighter,
    Fighter,
    SmallAircraft,
    LargeAircraft,
    Ship,
}

impl RCSProfile {
    /// Text shown for the profile, with its cross-section.
    pub open spec fn label_text(self) -> Seq<char> {
        match self {
            RCSProfile::StealthFighter => "5G Stealth Fighter (0.1 m²)"@,
            RCSProfile::Fighter => "4G Fighter (5.0 m²)"@,
            RCSProfile::SmallAircraft => "Small Aircraft (2.0 m²)"@,
            RCSProfile::LargeAircraft => "Large Aircraft (50.0 m²)"@,
            RCSProfile::Ship => "Ship (5000.0 m²)"@,
        }
    }

    pub fn label(&self) -> (r: &'static str)
        ensures
            r@ == self.label_text(),
    {
        match self {
            RCSProfile::StealthFighter => "5G Stealth Fighter (0.1 m²)",
            RCSProfile::Fighter => "4G Fighter (5.0 m²)",
            RCSProfile::SmallAircraft => "Small Aircraft (2.0 m²)",
            RCSProfile::LargeAircraft => "Large Aircraft (50.0 m²)",
            RCSProfile::Ship => "Ship (5000.0 m²)",
        }
    }
}

} // verus!
