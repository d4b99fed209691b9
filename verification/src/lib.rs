//! Library for the enumeration of Golomb rulers.
//!
//! A Golomb ruler is a set of marks at integer positions along a ruler such that no two
//! pairs of marks are the same distance apart. The marks `[0, 1, 3, 7]` make a Golomb
//! ruler of order 4 and length 7: the order is the number of marks, the length the last
//! mark. The marks `[0, 1, 2]` do not: 1 and 2 are as far apart as 0 and 1.
//!
//! No better way than enumeration is known to tell whether a Golomb ruler is the shortest of
//! its order. This library enumerates rulers: all of a length, those of an order, and those
//! that are Golomb rulers.

pub mod enumeration;
pub mod rulers;

pub use enumeration::iterators::{GolombRulerDepthIterator, GolombRulerPrunedIterator, RulerIterator};
pub use enumeration::state::RulerState;
pub use enumeration::{
    enumerate_golomb_rulers, enumerate_golomb_rulers_depth,
    enumerate_golomb_rulers_depth_with_length, enumerate_golomb_rulers_pruned,
    enumerate_golomb_rulers_pruned_with_length, enumerate_golomb_rulers_with_length,
    enumerate_pruned_rulers, enumerate_rulers, enumerate_rulers_with_length,
    enumerate_rulers_with_order, GolombIterationError,
};
pub use rulers::{
    dist, generate_golomb_ruler_improved, generate_golomb_ruler_naive, Distance, GInt,
    GenerationError, GolombRuler, Ruler,
};
