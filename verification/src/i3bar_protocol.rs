//! The blocks that a status producer sends.
use crate::color::Color;
use crate::text::ComputedText;
use vstd::prelude::*;

verus! {

/// One item of the status line.
#[derive(Debug)]
pub struct Block {
    /// Who the block belongs to. Neighbours of one name form a series.
    pub name: Option<String>,
    pub instance: Option<String>,
    pub full_text: String,
    pub short_text: Option<String>,
    pub color: Option<Color>,
    pub background: Option<Color>,
    /// Whether a mark is drawn in the room behind the block.
    pub separator: bool,
    /// The room kept free behind the block.
    pub separator_block_width: u8,
}

/// A block with its texts measured.
#[derive(Debug)]
pub struct ComputedBlock {
    pub block: Block,
    pub full: ComputedText,
    pub short: Option<ComputedText>,
}

/// A name as a plain value.
pub open spec fn name_view(name: Option<String>) -> Option<Seq<char>> {
    match name {
        Some(s) => Some(s@),
        None => None,
    }
}

/// Whether two names are the same.
pub fn same_name(a: &Option<String>, b: &Option<String>) -> (r: bool)
    ensures
        r == (name_view(*a) == name_view(*b)),
{
    match a {
        Some(x) => match b {
            Some(y) => *x == *y,
            None => false,
        },
        None => b.is_none(),
    }
}

/// A copy of a name.
pub fn clone_name(a: &Option<String>) -> (r: Option<String>)
    ensures
        r == *a,
{
    match a {
        Some(x) => Some(x.clone()),
        None => None,
    }
}

impl ComputedBlock {
    /// The width of the block as it is shown: that of its short text where
    /// its series was shortened and it has one, else that of its full text.
    pub open spec fn active_width(self, short: bool) -> int {
        if short && self.short is Some {
            self.short.unwrap().width as int
        } else {
            self.full.width as int
        }
    }

    /// What the block saves when it is shortened: nothing without a short
    /// text, or with one that is no narrower.
    pub open spec fn shrink(self) -> int {
        match self.short {
            Some(s) => if self.full.width > s.width {
                self.full.width - s.width
            } else {
                0
            },
            None => 0,
        }
    }

    /// The width of the block as it is shown.
    pub fn width_as(&self, short: bool) -> (w: u32)
        ensures
            w == self.active_width(short),
    {
        if short {
            match &self.short {
                Some(s) => s.width,
                None => self.full.width,
            }
        } else {
            self.full.width
        }
    }

    /// What the block saves when it is shortened.
    pub fn saving(&self) -> (d: u32)
        ensures
            d == self.shrink(),
    {
        match &self.short {
            Some(s) => if self.full.width > s.width {
                self.full.width - s.width
            } else {
                0
            },
            None => 0,
        }
    }
}

} // verus!
