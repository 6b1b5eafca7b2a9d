//! Reconciliation core for a retained UI tree driven by a virtual-DOM diff
//! engine: an identity map between the engine's element handles and the
//! tree's node identities, a template cache, a style resolver and the edit
//! stream applier that ties them together.
#![allow(non_camel_case_types)]
#![allow(non_upper_case_globals)]

pub mod apply_mutations;
pub mod events;
pub mod identity;
pub mod prelude;
pub mod style;
pub mod template;
pub mod text;
pub mod tree;

pub use apply_mutations::{apply_mutations, UiRoot};
pub use events::is_supported_event;

use vstd::prelude::*;

verus! {

/// Marks an event handler that returns a future, which the host spawns.
pub struct AsyncMarker;

} // verus!
