use vstd::prelude::*;

verus! {

/// The color of a cell: one byte per channel.
#[derive(Hash, PartialEq, Eq, Structural, Clone, Copy, Debug)]
pub struct Color {
    pub r: u8,
    pub g: u8,
    pub b: u8,
}

/// Cells of this color cannot be entered.
pub open spec fn wall_color() -> Color {
    Color { r: 0, g: 0, b: 0 }
}

/// Cells of this color form the start region.
pub open spec fn start_color() -> Color {
    Color { r: 195, g: 195, b: 196 }
}

/// Cells of this color form end regions.
pub open spec fn end_color() -> Color {
    Color { r: 126, g: 127, b: 127 }
}

/// The color in which a route is drawn.
pub open spec fn path_color() -> Color {
    Color { r: 255, g: 0, b: 0 }
}

impl Color {
    /// The color of walls: black.
    pub fn wall() -> (c: Color)
        ensures
            c == wall_color(),
    {
        Color { r: 0, g: 0, b: 0 }
    }

    /// The color of the start region.
    pub fn start() -> (c: Color)
        ensures
            c == start_color(),
    {
        Color { r: 195, g: 195, b: 196 }
    }

    /// The color of end regions.
    pub fn end() -> (c: Color)
        ensures
            c == end_color(),
    {
        Color { r: 126, g: 127, b: 127 }
    }

    /// The color in which a route is drawn: red.
    pub fn path() -> (c: Color)
        ensures
            c == path_color(),
    {
        Color { r: 255, g: 0, b: 0 }
    }
}

/// Whether a color is a shade of gray: its three channels agree.
pub open spec fn grey(color: Color) -> bool {
    color.r == color.g && color.g == color.b
}

/// What it costs to step onto a cell of this color: the intensity of a gray
/// cell, one for every other.
pub open spec fn step_weight(color: Color) -> nat {
    if grey(color) {
        color.r as nat
    } else {
        1
    }
}

/// Whether a color is a shade of gray.
pub fn is_grey(color: &Color) -> (r: bool)
    ensures
        r == grey(*color),
{
    color.r == color.g && color.g == color.b
}

/// The cost of stepping onto a cell of this color.
pub fn weight_of(color: &Color) -> (w: u32)
    ensures
        w == step_weight(*color),
        w <= 255,
{
    if is_grey(color) {
        color.r as u32
    } else {
        1
    }
}

/// Stepping onto any cell that is not a wall costs at least one.
pub proof fn lemma_weight_positive(color: Color)
    requires
        color != wall_color(),
    ensures
        step_weight(color) >= 1,
{
}

} // verus!
