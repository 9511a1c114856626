use vstd::prelude::*;

verus! {

/// What the step pipeline reads of a body.
///
/// `is_static` marks a body that the simulation must never displace or
/// accelerate, whatever its mass fields hold. `infinite_mass` says that the
/// body's inverse mass is exactly zero, the encoding of infinite mass; a
/// body can have infinite mass without being static.
#[derive(Clone, Copy, Debug, PartialEq, Eq)]
pub struct Mobility {
    pub is_static: bool,
    pub infinite_mass: bool,
}

impl Mobility {
    /// Force integration applies to a body that is neither static nor of infinite mass.
    pub open spec fn takes_forces(self) -> bool {
        !self.is_static && !self.infinite_mass
    }

    /// Position integration and positional correction apply to every body
    /// that is not static.
    pub open spec fn moves(self) -> bool {
        !self.is_static
    }

    /// Whether force integration visits this body.
    pub fn integrates_forces(&self) -> (yes: bool)
        ensures
            yes == self.takes_forces(),
    {
        !self.is_static && !self.infinite_mass
    }

    /// Whether position integration visits this body.
    pub fn integrates_position(&self) -> (yes: bool)
        ensures
            yes == self.moves(),
    {
        !self.is_static
    }
}

} // verus!
