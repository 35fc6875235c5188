use vstd::prelude::*;

verus! {

/// A playfield coordinate: `x` grows rightward, `y` grows downward,
/// with the origin at the top-left cell of the field.
#[derive(Debug, Clone, Copy, PartialEq, Eq, Hash, Structural)]
pub struct Pos(pub i32, pub i32);

impl View for Pos {
    type V = (int, int);

    open spec fn view(&self) -> (int, int) {
        (self.0 as int, self.1 as int)
    }
}

impl Pos {
    /// Component-wise sum of two coordinates.
    pub fn add(self, rhs: Pos) -> (r: Pos)
        requires
            i32::MIN <= self.0 + rhs.0 <= i32::MAX,
            i32::MIN <= self.1 + rhs.1 <= i32::MAX,
        ensures
            r@ == ((self.0 + rhs.0) as int, (self.1 + rhs.1) as int),
    {
        Pos(self.0 + rhs.0, self.1 + rhs.1)
    }
}

} // verus!
