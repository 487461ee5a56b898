//! Plain value types shared between the engine and its callers: grid
//! positions used as endpoint labels, and the built-in element kinds.

use vstd::prelude::*;

verus! {

/// Caller-supplied endpoint label: a coordinate on the editing grid. The
/// engine keeps a bijective mapping between labels and node indices, so a
/// label always resolves to the same node while any element still uses it.
#[derive(Clone, Copy, PartialEq, Eq, Structural, Hash, Debug)]
pub struct ElementPos {
    pub x: isize,
    pub y: isize,
}

impl ElementPos {
    /// The label at the given grid coordinates.
    pub fn new(x: isize, y: isize) -> (r: Self)
        ensures
            r.x == x,
            r.y == y,
    {
        ElementPos { x, y }
    }
}

impl Default for ElementPos {
    /// The origin of the grid.
    fn default() -> (r: Self)
        ensures
            r.x == 0,
            r.y == 0,
    {
        ElementPos { x: 0, y: 0 }
    }
}

/// The built-in element kinds a caller can place.
#[derive(Clone, Copy, PartialEq, Eq, Structural, Debug)]
pub enum ElementType {
    CurrentSource,
    Wire,
    Resistor,
}

/// A plain conducting wire: no resistance and no electromotive force. Its
/// physical constants live with the numeric front end; structurally it is
/// the simplest payload an element can carry.
#[derive(Clone, Copy, PartialEq, Eq, Structural, Debug)]
pub struct Wire;

} // verus!
