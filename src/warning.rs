//! Whether a warning was issued during a run, kept as an explicit value.
use vstd::prelude::*;

verus! {

/// Records whether any warning was issued.
#[derive(Debug, Clone, Copy, PartialEq, Eq, Structural)]
pub struct WarningState {
    pub printed: bool,
}

impl WarningState {
    /// A state in which no warning was issued yet.
    pub fn new() -> (r: WarningState)
        ensures
            !r.printed,
    {
        WarningState { printed: false }
    }
}

/// Records whether a warning was issued.
pub fn set_warning(state: &mut WarningState, b: bool)
    ensures
        final(state).printed == b,
{
    state.printed = b;
}

/// Returns whether a warning was issued.
pub fn warning_printed(state: &WarningState) -> (r: bool)
    ensures
        r == state.printed,
{
    state.printed
}

} // verus!
