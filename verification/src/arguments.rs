//! Run configuration: the tape size and the feature toggles.

use vstd::prelude::*;

verus! {

/// An independent toggle of the interpreter, fixed at construction time.
///
/// Without any feature the interpreter uses byte-wide cells, fails with
/// `PointerOutOfBounds` when the pointer would leave the tape, and fails
/// with `ValueOutOfBounds` when a cell value would pass its numeric
/// boundary.
#[derive(Debug, PartialEq, Eq, Structural, Copy, Clone)]
pub enum Feature {
    /// When set, a cell value at its numeric boundary wraps to the opposite
    /// end on increment/decrement instead of failing with
    /// `ValueOutOfBounds`.
    NoReverseValue,
    /// When set, the pointer wraps to the opposite end of the tape instead
    /// of failing with `PointerOutOfBounds`.
    ReversePointer,
    /// When set, cells hold the full Unicode scalar range (0 to 1114111)
    /// instead of a single byte.
    AllowUtf8,
}

/// The configuration the surrounding program hands to the interpreter:
/// an optional source file, the features, the tape size, and whether the
/// closing banner is wanted.
#[derive(Debug, Clone)]
pub struct Args {
    /// The source file to run; an interactive session is meant when absent.
    pub source: Option<String>,
    /// The features to enable.
    pub features: Option<Vec<Feature>>,
    /// The tape size (number of cells).
    pub array_size: usize,
    /// Suppresses the closing banner of a file run.
    pub without_tiles: bool,
}

/// Returns whether `features` contains `f`.
pub fn has_feature(features: &Vec<Feature>, f: Feature) -> (r: bool)
    ensures
        r == features@.contains(f),
{
    let mut i: usize = 0;
    while i < features.len()
        invariant
            i <= features@.len(),
            forall|k: int| 0 <= k < i ==> features@[k] != f,
        decreases features@.len() - i,
    {
        if features[i] == f {
            return true;
        }
        i += 1;
    }
    false
}

} // verus!
