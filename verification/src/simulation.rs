//! Monte Carlo simulation: request defaults and the choice of distribution.

use vstd::prelude::*;

use crate::text::{owned, same_text};

verus! {

/// Distribution of a risk that names none.
pub fn default_distribution() -> (r: String)
    ensures
        r@ == "pert"@,
{
    owned("pert")
}

/// Number of iterations of a request that names none.
pub fn default_iterations() -> (r: u32)
    ensures
        r == 10_000,
{
    10_000
}

/// How a risk's impact is sampled.
#[derive(Debug, Clone, Copy, PartialEq, Eq)]
pub enum DistributionKind {
    /// Always the most likely value.
    Fixed,
    Uniform,
    Triangular,
    /// PERT, sampled through a Beta distribution.
    Pert,
}

/// `fixed`, `uniform` and `triangular` name their kinds; anything else is PERT.
pub open spec fn spec_distribution_kind(name: Seq<char>) -> DistributionKind {
    if name == "fixed"@ {
        DistributionKind::Fixed
    } else if name == "uniform"@ {
        DistributionKind::Uniform
    } else if name == "triangular"@ {
        DistributionKind::Triangular
    } else {
        DistributionKind::Pert
    }
}

/// Reads a distribution name (see `spec_distribution_kind`).
pub fn distribution_kind(name: &str) -> (r: DistributionKind)
    ensures
        r == spec_distribution_kind(name@),
{
    if same_text(name, "fixed") {
        DistributionKind::Fixed
    } else if same_text(name, "uniform") {
        DistributionKind::Uniform
    } else if same_text(name, "triangular") {
        DistributionKind::Triangular
    } else {
        DistributionKind::Pert
    }
}

} // verus!
