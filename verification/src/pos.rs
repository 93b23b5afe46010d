//! Coordinates on a grid.

use vstd::prelude::*;

verus! {

/// A pair of coordinates: `x` counts columns, `y` counts rows.
#[derive(Debug, Copy, PartialEq, Eq, Structural)]
pub struct Pos2<T> {
    pub x: T,
    pub y: T,
}

impl<T: Copy> Clone for Pos2<T> {
    fn clone(&self) -> (copy: Self)
        ensures
            copy == *self,
    {
        *self
    }
}

impl View for Pos2<usize> {
    type V = Pos2<nat>;

    open spec fn view(&self) -> Pos2<nat> {
        Pos2 { x: self.x as nat, y: self.y as nat }
    }
}

} // verus!
