use vstd::prelude::*;

verus! {

/// The textures that surfaces of the maze are drawn with.
#[derive(Clone, Copy, Hash, PartialEq, Eq, PartialOrd, Ord, Debug)]
pub enum TexType {
    Rat,
    Brick,
    Thing,
    Ceiling,
    Floor,
    /// No texture; stands for "none chosen yet" where textures are
    /// switched.
    Other,
}

/// How many times a texture repeats across one surface.
pub open spec fn tiling_of(t: TexType) -> i32 {
    match t {
        TexType::Ceiling | TexType::Floor => 4,
        _ => 1,
    }
}

impl TexType {
    /// How many times this texture repeats across one surface: four times
    /// on ceilings and floors, once elsewhere.
    pub fn tiling(&self) -> (r: i32)
        requires
            *self != TexType::Other,
        ensures
            r == tiling_of(*self),
    {
        match *self {
            TexType::Rat | TexType::Brick | TexType::Thing => 1,
            TexType::Ceiling | TexType::Floor => 4,
            TexType::Other => 1,
        }
    }
}

} // verus!
