//! Measured text: what the layout knows of a label before it is drawn.
use crate::color::Color;
use vstd::prelude::*;

verus! {

/// Where a text stands inside a box wider than itself.
#[derive(Clone, Copy, Debug, PartialEq, Eq, Structural)]
pub enum Align {
    Left,
    Center,
    Right,
}

/// How a text is laid out.
#[derive(Clone, Copy, Debug, PartialEq, Eq, Structural)]
pub struct Attributes {
    pub padding_left: u32,
    pub padding_right: u32,
    pub min_width: Option<u32>,
    pub align: Align,
    pub markup: bool,
}

/// A text with its attributes and the width that it takes in the bar.
#[derive(Debug)]
pub struct ComputedText {
    pub text: String,
    pub attr: Attributes,
    pub width: u32,
}

/// How a computed text is drawn.
#[derive(Clone, Copy, Debug, PartialEq, Eq, Structural)]
pub struct RenderOptions {
    /// The left edge. It is negative where the bar is too narrow for what
    /// stands to the right of it.
    pub x_offset: i128,
    pub bar_height: u32,
    pub fg_color: Color,
    pub bg_color: Option<Color>,
    /// The radius of the two left corners of the background.
    pub r_left: u32,
    /// The radius of the two right corners of the background.
    pub r_right: u32,
    pub overlap: u32,
}

/// The width of a text in the bar: the width of its glyphs and the padding
/// on both sides, at least the minimal width if there is one, and no more
/// than a `u32` holds.
pub open spec fn padded_width(text_width: u32, attr: Attributes) -> int {
    let padded = text_width + attr.padding_left + attr.padding_right;
    let wanted = match attr.min_width {
        Some(m) => if m > padded { m as int } else { padded },
        None => padded,
    };
    if wanted > u32::MAX { u32::MAX as int } else { wanted }
}

impl ComputedText {
    /// The text `text`, whose glyphs are `text_width` wide, laid out with
    /// `attr`.
    pub fn new(text: String, text_width: u32, attr: Attributes) -> (r: ComputedText)
        ensures
            r.text == text,
            r.attr == attr,
            r.width == padded_width(text_width, attr),
    {
        let padded = text_width.saturating_add(attr.padding_left).saturating_add(attr.padding_right);
        let width = match attr.min_width {
            Some(m) => if m > padded { m } else { padded },
            None => padded,
        };
        ComputedText { text, attr, width }
    }
}

} // verus!
