//! What a user of the element macros brings into scope.
pub mod dioxus_elements;

use vstd::prelude::*;

verus! {

/// Marks a colour type that can be handed over as an attribute value.
pub trait ColorExt: Sized {

}

} // verus!
