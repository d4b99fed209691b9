//! Rulers and the Golomb property.

pub mod generate;
pub mod golomb_ruler;
pub mod index;
pub mod ruler;
pub mod text;

pub use generate::{
    generate_golomb_ruler_improved, generate_golomb_ruler_naive, GenerationError,
};
pub use golomb_ruler::GolombRuler;
pub use ruler::Ruler;

use vstd::prelude::*;

verus! {

/// The integer type of a mark.
pub type GInt = i128;

/// The distance between two marks of a ruler.
#[derive(Debug, Clone, Copy, PartialEq, Eq)]
pub struct Distance {
    pub lhs: GInt,
    pub rhs: GInt,
    pub dist: GInt,
}

/// How far two marks are apart.
pub open spec fn gap(a: int, b: int) -> int {
    if a >= b {
        a - b
    } else {
        b - a
    }
}

/// The distance between two marks.
pub fn dist(a: GInt, b: GInt) -> (d: GInt)
    requires
        gap(a as int, b as int) <= i128::MAX,
    ensures
        d == gap(a as int, b as int),
{
    if a >= b {
        a - b
    } else {
        b - a
    }
}

} // verus!
