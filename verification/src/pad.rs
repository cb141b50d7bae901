//! What a controller reports of itself.

use vstd::prelude::*;

verus! {

/// One controller, as it is seen — for the listing that exists because "the
/// controller does nothing" has two completely different causes and no way
/// to tell them apart from the outside.
#[derive(Debug, Clone, PartialEq, Eq)]
pub struct Found {
    /// What the device calls itself.
    pub name: String,
    /// Whether its buttons are named by this desktop's own mapping rather
    /// than guessed from the driver.
    pub mapped: bool,
    /// Whether it reports analogue triggers at all.
    pub triggers: bool,
}

} // verus!
