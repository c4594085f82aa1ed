//! What the window manager tells of its tags.
use vstd::prelude::*;

verus! {

/// A tag of the window manager: a workspace, or one of a set of views.
#[derive(Debug)]
pub struct Tag {
    pub name: String,
    /// The width of the name's glyphs.
    pub text_width: u32,
    pub is_focused: bool,
    /// Whether a window has the tag.
    pub is_active: bool,
    pub is_urgent: bool,
}

} // verus!
