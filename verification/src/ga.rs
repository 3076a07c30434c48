//! Genomes for tuning the placement search: a weight for each feature of a field.

use vstd::prelude::*;

verus! {

/// The features a genome weighs.
pub enum GenomeKind {
    Line,
    HeightMax,
    HeightDiff,
    DeadSpace,
}

/// One weight per feature, in the order of `GenomeKind`.
pub type GenoSeq = [u8; 4];

impl GenomeKind {
    /// The place of the feature's weight in a genome.
    pub open spec fn slot(self) -> int {
        match self {
            GenomeKind::Line => 0,
            GenomeKind::HeightMax => 1,
            GenomeKind::HeightDiff => 2,
            GenomeKind::DeadSpace => 3,
        }
    }
}

/// The weight that genome `geno` gives to feature `kind`.
pub fn gene(geno: &GenoSeq, kind: GenomeKind) -> (w: u8)
    ensures
        w == geno[kind.slot()],
{
    match kind {
        GenomeKind::Line => geno[0],
        GenomeKind::HeightMax => geno[1],
        GenomeKind::HeightDiff => geno[2],
        GenomeKind::DeadSpace => geno[3],
    }
}

/// The number of genomes in a generation.
pub const POPULATION: usize = 10;

/// A genome's game ends once this many lines are cleared.
pub const LINE_COUNT_MAX: usize = 256;

} // verus!
