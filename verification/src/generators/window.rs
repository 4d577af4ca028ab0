//! Window generation.
use vstd::prelude::*;

verus! {

/// Which end of the sampled window is kept: a symmetric window holds both end
/// samples, a periodic one leaves out the last so that copies of it join up.
#[derive(Clone, Copy, Debug, PartialEq, Eq, Structural)]
pub enum WindowRange {
    Symmetric,
    Periodic,
}

} // verus!
