//! The values that make up a sky: stars, links between them, and the draft line.
use vstd::prelude::*;

verus! {

/// A point of light in world space. Its position never changes; `bright`
/// turns false once, when the star's constellation is completed or the star
/// is left without any bright link.
#[derive(Clone, Copy, Debug, PartialEq, Eq, Structural)]
pub struct Star {
    pub x: i16,
    pub y: i16,
    pub bright: bool,
}

impl Star {
    pub fn new(x: i16, y: i16, bright: bool) -> (r: Star)
        ensures
            r == (Star { x, y, bright }),
    {
        Star { x, y, bright }
    }
}

/// How a line between two stars is shown.
#[derive(Clone, Copy, Debug, PartialEq, Eq, Structural)]
pub enum LinkStyle {
    /// The line being drafted; never stored in a sky.
    Dashed,
    /// A link of a completed constellation.
    Dim,
    /// A link that is part of no completed constellation yet.
    Bright,
}

/// An undirected edge between two stars, named by their indices.
#[derive(Clone, Copy, Debug, PartialEq, Eq, Structural)]
pub struct Link {
    pub start_idx: u16,
    pub end_idx: u16,
    pub style: LinkStyle,
}

impl Link {
    pub fn new(start_idx: u16, end_idx: u16, style: LinkStyle) -> (r: Link)
        ensures
            r == (Link { start_idx, end_idx, style }),
    {
        Link { start_idx, end_idx, style }
    }
}

/// The line that follows the pointer from an anchor star while a link is drafted.
#[derive(Clone, Copy, Debug, PartialEq, Eq, Structural)]
pub struct DraftLine {
    pub start_idx: u16,
    pub end_x: i16,
    pub end_y: i16,
    pub visible: bool,
}

impl DraftLine {
    /// A hidden draft line.
    pub fn new() -> (r: DraftLine)
        ensures
            r == (DraftLine { start_idx: 0, end_x: 0, end_y: 0, visible: false }),
    {
        DraftLine { start_idx: 0, end_x: 0, end_y: 0, visible: false }
    }
}

} // verus!
