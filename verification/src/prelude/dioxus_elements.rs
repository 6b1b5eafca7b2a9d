//! The one element that templates may use, and the names of its attributes.
use vstd::prelude::*;

verus! {

/// The name of an attribute, its namespace, and whether it is volatile.
pub type AttributeDescription = (&'static str, Option<&'static str>, bool);

/// The element `node`: a container of the retained tree.
pub struct node;

impl node {
    pub const TAG_NAME: &'static str = "node";

    pub const NAME_SPACE: Option<&'static str> = None;

    pub const width: AttributeDescription = ("width", None, false);

    pub const height: AttributeDescription = ("height", None, false);

    pub const justify_content: AttributeDescription = ("justify-content", None, false);

    pub const flex_direction: AttributeDescription = ("flex-direction", None, false);

    pub const padding: AttributeDescription = ("padding", None, false);

    pub const background_color: AttributeDescription = ("background-color", None, false);
}

} // verus!
