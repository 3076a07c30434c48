//! Cell colours. A cell of the field or of a piece holds one of these values.

use vstd::prelude::*;

verus! {

/// An empty cell.
pub const NONE: usize = 0;
/// A wall or floor cell.
pub const WALL: usize = 1;
/// A cell of the drop preview.
pub const GHOST: usize = 2;
/// The colour of each of the seven pieces.
pub const I: usize = 3;
pub const O: usize = 4;
pub const S: usize = 5;
pub const Z: usize = 6;
pub const J: usize = 7;
pub const L: usize = 8;
pub const T: usize = 9;

} // verus!
