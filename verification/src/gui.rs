//! Layout rules for sprites anchored to the screen.
use vstd::prelude::*;

verus! {

/// How an anchored sprite is fitted to the screen: `Keep` leaves it at its own size (no
/// fitting at all), `Stretch` stretches it.
#[derive(Debug, Clone, Copy, PartialEq, Eq, Structural)]
pub enum FitRule {
    Keep,
    Stretch,
}

} // verus!
