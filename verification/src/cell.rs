use vstd::prelude::*;
use std::collections::HashMap;
use crate::color::Color;

verus! {

/// What a cell was found to be. A cell stays `UNSET` until the search first
/// reaches its region.
#[derive(Clone, Copy, PartialEq, Eq, Structural, Debug)]
pub enum PixelType {
    UNSET,
    WALL,
    FREE,
    KEY,
    ZONE,
    START,
    END,
}

/// One cell of the grid: its color, what it was found to be, and the cheapest
/// known cost of reaching it for each key combination, named by its number in
/// the grid's pool of combinations.
pub struct Pixel {
    pub color: Color,
    pub p_type: PixelType,
    pub key_dists: HashMap<usize, u32>,
}

impl Default for Pixel {
    /// A black cell that is neither classified nor reached.
    fn default() -> (p: Pixel)
        ensures
            p.color == crate::color::wall_color(),
            p.p_type == PixelType::UNSET,
            p.key_dists@ == Map::<usize, u32>::empty(),
    {
        Pixel { color: Color { r: 0, g: 0, b: 0 }, p_type: PixelType::UNSET, key_dists: HashMap::new() }
    }
}

} // verus!
