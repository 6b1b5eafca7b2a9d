//! The allowlist of event names that listeners may be attached for.
use crate::text::str_eq;
use vstd::prelude::*;

verus! {

/// The one event class that is forwarded to the diff engine.
pub open spec fn supported_event(event: Seq<char>) -> bool {
    event == "click"@
}

/// Whether listeners for `event` are supported.
pub fn is_supported_event(event: &str) -> (supported: bool)
    ensures
        supported == supported_event(event@),
{
    str_eq(event, "click")
}

} // verus!
