//! The settings that the layout reads. All lengths are in pixels.
use crate::color::Color;
use vstd::prelude::*;

verus! {

/// The screen edge that the bar is attached to.
#[derive(Clone, Copy, Debug, PartialEq, Eq, Structural)]
pub enum Position {
    Top,
    Bottom,
}

pub struct Config {
    /// The bar's own background.
    pub background: Color,
    /// The text color of a block that names none.
    pub color: Color,
    /// The color of the mark between two series of blocks.
    pub separator: Color,
    pub tag_fg: Color,
    pub tag_bg: Color,
    pub tag_focused_fg: Color,
    pub tag_focused_bg: Color,
    pub tag_urgent_fg: Color,
    pub tag_urgent_bg: Color,
    pub tag_inactive_fg: Color,
    pub tag_inactive_bg: Color,
    pub hide_inactive_tags: bool,
    pub show_layout_name: bool,
    pub blend: bool,
    pub height: u32,
    pub margin_top: i32,
    pub margin_bottom: i32,
    pub margin_left: i32,
    pub margin_right: i32,
    /// The thickness of the mark between two series; 0 hides it.
    pub separator_width: u32,
    /// The corner radius of a group of tags.
    pub tags_r: u32,
    /// The room left and right of a tag's name.
    pub tags_padding: u32,
    /// The corner radius of a series of blocks.
    pub blocks_r: u32,
    pub blocks_overlap: u32,
    pub position: Position,
}

} // verus!
