use vstd::prelude::*;

verus! {

/// How much a fact matters; decides how fast it fades and what the rules say of it.
#[derive(Debug, Clone, Copy, PartialEq, Eq, Structural)]
pub enum ImportanceTier {
    Critical,
    Significant,
    Minor,
}

impl ImportanceTier {
    /// Position of the tier in the importance order: Minor < Significant < Critical.
    pub open spec fn spec_rank(self) -> nat {
        match self {
            ImportanceTier::Critical => 2,
            ImportanceTier::Significant => 1,
            ImportanceTier::Minor => 0,
        }
    }

    /// Position of the tier in the importance order; the order of the tiers' weights.
    pub fn rank(&self) -> (r: u8)
        ensures
            r == self.spec_rank(),
    {
        match self {
            ImportanceTier::Critical => 2,
            ImportanceTier::Significant => 1,
            ImportanceTier::Minor => 0,
        }
    }
}

impl Default for ImportanceTier {
    fn default() -> (t: Self)
        ensures
            t == ImportanceTier::Minor,
    {
        ImportanceTier::Minor
    }
}

} // verus!
