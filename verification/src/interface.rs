use vstd::prelude::*;

use crate::position::Pos;
use crate::shape::{lemma_cells_of, overlaps, shifted_cells, Shape};
use crate::tetris::{spawn_at_top, spawned_shape_ok, MAX_DIM};

verus! {

/// A reduced engine: it tracks only the field, the falling piece and the
/// settled stack, with no scoring, line clearing, or game-over state.
#[derive(Debug)]
pub struct Tetris {
    pub width: i32,
    pub height: i32,
    pub curr_shape: Shape,
    pub fixed_shapes: Vec<Shape>,
}

impl Tetris {
    /// `c` lies within the field rectangle.
    pub open spec fn in_field(self, c: (int, int)) -> bool {
        0 <= c.0 < self.width as int && 0 <= c.1 < self.height as int
    }

    /// Every cell of `s` lies within the field rectangle.
    pub open spec fn all_in_field(self, s: Set<(int, int)>) -> bool {
        forall|c: (int, int)| #[trigger] s.contains(c) ==> self.in_field(c)
    }

    /// `s` shares a cell with some settled shape.
    pub open spec fn hits_settled(self, s: Set<(int, int)>) -> bool {
        exists|i: int|
            0 <= i < self.fixed_shapes@.len() && overlaps(
                (#[trigger] self.fixed_shapes@[i]).cells(),
                s,
            )
    }

    /// The next gravity step would not settle the piece.
    pub open spec fn can_fall(self) -> bool {
        let moved = shifted_cells(self.curr_shape.cells(), 0, 1);
        self.all_in_field(moved) && !self.hits_settled(moved)
    }

    /// Both dimensions are positive and small enough for the coordinate
    /// arithmetic.
    pub open spec fn dims_ok(self) -> bool {
        0 < self.width as int <= MAX_DIM as int && 0 < self.height as int <= MAX_DIM as int
    }

    /// The active shape is well-formed, has its four cells near the field,
    /// and keeps its anchor within two cells of each of them.
    pub open spec fn active_ok(self) -> bool {
        &&& self.curr_shape.wf()
        &&& self.curr_shape.positions@.len() == 4
        &&& forall|c: (int, int)| #[trigger] self.curr_shape.cells().contains(c) ==> -3 <= c.0
            <= self.width as int + 3 && -3 <= c.1 <= self.height as int + 3
        &&& forall|c: (int, int)| #[trigger] self.curr_shape.cells().contains(c) ==> -2 <= c.0
            - self.curr_shape.anchor@.0 <= 2 && -2 <= c.1 - self.curr_shape.anchor@.1 <= 2
    }

    /// Invariant of the reduced engine.
    pub open spec fn wf(self) -> bool {
        &&& self.dims_ok()
        &&& forall|i: int|
            0 <= i < self.fixed_shapes@.len() ==> (#[trigger] self.fixed_shapes@[i]).wf()
        &&& self.active_ok()
    }

    /// A fresh field with a randomly drawn falling piece and nothing
    /// settled.
    pub fn new(width: u32, height: u32) -> (t: Tetris)
        requires
            0 < width <= MAX_DIM,
            0 < height <= MAX_DIM,
        ensures
            t.wf(),
            t.width as int == width as int,
            t.height as int == height as int,
            t.fixed_shapes@.len() == 0,
            spawned_shape_ok(t.curr_shape, t.curr_shape.typ, width as int),
    {
        let k = Shape::new_rand().typ();
        let active = spawn_at_top(width as i32, height as i32, k);
        Tetris {
            width: width as i32,
            height: height as i32,
            curr_shape: active,
            fixed_shapes: Vec::new(),
        }
    }

    /// True iff some cell of `shape` falls outside the field rectangle.
    pub fn is_out_of_bounds(&self, shape: &Shape) -> (r: bool)
        ensures
            r == !self.all_in_field(shape.cells()),
    {
        let mut i: usize = 0;
        while i < shape.positions.len()
            invariant
                0 <= i <= shape.positions@.len(),
                forall|j: int| 0 <= j < i ==> self.in_field((#[trigger] shape.positions@[j])@),
            decreases shape.positions@.len() - i,
        {
            let p = shape.positions[i];
            if p.0 < 0 || p.0 >= self.width || p.1 < 0 || p.1 >= self.height {
                proof {
                    lemma_cells_of(shape.positions@);
                    assert(shape.cells().contains(shape.positions@[i as int]@));
                }
                return true;
            }
            i += 1;
        }
        proof {
            lemma_cells_of(shape.positions@);
            assert forall|c: (int, int)| #[trigger] shape.cells().contains(c) implies self.in_field(
                c,
            ) by {
                let j = choose|j: int|
                    0 <= j < shape.positions@.len() && (#[trigger] shape.positions@[j])@ == c;
            }
        }
        false
    }

    /// True iff `shape` shares a cell with some settled shape.
    pub fn is_colliding(&self, shape: &Shape) -> (r: bool)
        ensures
            r == self.hits_settled(shape.cells()),
    {
        let mut i: usize = 0;
        while i < self.fixed_shapes.len()
            invariant
                0 <= i <= self.fixed_shapes@.len(),
                forall|j: int| 0 <= j < i ==> !overlaps(
                    (#[trigger] self.fixed_shapes@[j]).cells(),
                    shape.cells(),
                ),
            decreases self.fixed_shapes@.len() - i,
        {
            if self.fixed_shapes[i].collides_with(shape) {
                return true;
            }
            i += 1;
        }
        false
    }

    /// One gravity step: the piece falls one row when it can; otherwise it
    /// settles as it stands and a random piece spawns at the top.
    pub fn tick(&mut self)
        requires
            old(self).wf(),
        ensures
            final(self).wf(),
            final(self).width == old(self).width,
            final(self).height == old(self).height,
            old(self).can_fall() ==> {
                &&& final(self).fixed_shapes@ == old(self).fixed_shapes@
                &&& final(self).curr_shape.typ == old(self).curr_shape.typ
                &&& final(self).curr_shape.cells() == shifted_cells(
                    old(self).curr_shape.cells(),
                    0,
                    1,
                )
                &&& final(self).curr_shape.anchor@ == (
                    old(self).curr_shape.anchor@.0,
                    old(self).curr_shape.anchor@.1 + 1,
                )
            },
            !old(self).can_fall() ==> {
                &&& final(self).fixed_shapes@.len() == old(self).fixed_shapes@.len() + 1
                &&& (forall|i: int|
                    0 <= i < old(self).fixed_shapes@.len() ==> (#[trigger] final(self).fixed_shapes@[i]).cells()
                        == old(self).fixed_shapes@[i].cells() && final(self).fixed_shapes@[i].typ
                        == old(self).fixed_shapes@[i].typ)
                &&& final(self).fixed_shapes@.last().cells() == old(self).curr_shape.cells()
                &&& final(self).fixed_shapes@.last().typ == old(self).curr_shape.typ
                &&& spawned_shape_ok(
                    final(self).curr_shape,
                    final(self).curr_shape.typ,
                    old(self).width as int,
                )
            },
    {
        let ghost pre = *old(self);
        proof {
            lemma_cells_of(self.curr_shape.positions@);
            assert(self.curr_shape.cells().contains(self.curr_shape.positions@[0]@));
        }
        let moved = self.curr_shape.translated(Pos(0, 1));
        let oob = self.is_out_of_bounds(&moved);
        let hit = self.is_colliding(&moved);
        if oob || hit {
            let piece = self.curr_shape.cloned();
            self.fixed_shapes.push(piece);
            let k = Shape::new_rand().typ();
            let active = spawn_at_top(self.width, self.height, k);
            self.curr_shape = active;
        } else {
            self.curr_shape = moved;
            proof {
                assert forall|c: (int, int)| #[trigger] self.curr_shape.cells().contains(c)
                    implies -3 <= c.0 <= self.width as int + 3 && -3 <= c.1 <= self.height as int
                    + 3 && -2 <= c.0 - self.curr_shape.anchor@.0 <= 2 && -2 <= c.1
                    - self.curr_shape.anchor@.1 <= 2 by {
                    assert(self.in_field(c));
                    assert(pre.curr_shape.cells().contains((c.0, c.1 - 1)));
                }
            }
        }
    }
}

} // verus!
