use vstd::prelude::*;

verus! {

/// A lifecycle signal fanned out between otherwise unrelated subsystems.
///
/// The store itself does not depend on the bus to function; at most it is
/// notified of a terminal shutdown so it can release file handles before the
/// process exits.  The broadcaster that delivers these events lives outside
/// the verified core.
#[derive(Debug, Clone, PartialEq, Eq, Structural)]
pub enum Event {
    Shutdown,
}

} // verus!
