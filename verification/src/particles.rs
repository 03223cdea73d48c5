use vstd::prelude::*;

verus! {

/// The statistics family of a particle species: Fermi-Dirac or
/// Bose-Einstein. Simulation call sites tag their particles with it when
/// they build initial states for the kernel.
#[derive(Clone, Copy, Debug, PartialEq, Eq, Structural)]
pub enum ParticleType {
    Fermion,
    Boson,
}

impl ParticleType {
    /// Fermions obey the exclusion principle; bosons do not.
    pub fn excludes(&self) -> (r: bool)
        ensures
            r <==> self is Fermion,
    {
        match self {
            ParticleType::Fermion => true,
            ParticleType::Boson => false,
        }
    }
}

} // verus!
