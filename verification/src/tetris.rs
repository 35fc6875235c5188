use vstd::prelude::*;

use crate::position::Pos;
use crate::shape::{
    canon_anchor, canon_cells, cells_of, lemma_canon_props, lemma_cells_of, overlaps,
    removed_row_set, rotated_cells, shifted_cells, Kind, Shape,
};

verus! {

/// A sideways move of the active piece.
#[derive(Debug, Clone, Copy, Eq, PartialEq, Structural)]
pub enum Direction {
    Left,
    Right,
}

/// The game engine: field dimensions, the falling shape, the settled
/// fragments, the score and the terminal game-over flag.
#[derive(Debug)]
pub struct Tetris {
    pub width: i32,
    pub height: i32,
    pub curr_shape: Shape,
    pub fixed_shapes: Vec<Shape>,
    pub game_over: bool,
    pub score: u32,
}

/// Largest accepted field dimension; keeps every coordinate computation,
/// rotation included, inside `i32`.
pub const MAX_DIM: u32 = 0x3FFF_FFF0;

/// The horizontal displacement of a sideways move.
pub open spec fn dir_dx(d: Direction) -> int {
    match d {
        Direction::Left => -1,
        Direction::Right => 1,
    }
}

/// The cell sets of a sequence of shapes.
pub open spec fn cells_seq_of(shapes: Seq<Shape>) -> Seq<Set<(int, int)>> {
    shapes.map_values(|s: Shape| s.cells())
}

/// The union of a sequence of cell sets.
pub open spec fn union_of(cs: Seq<Set<(int, int)>>) -> Set<(int, int)>
    decreases cs.len(),
{
    if cs.len() == 0 {
        Set::<(int, int)>::empty()
    } else {
        union_of(cs.drop_last()).union(cs.last())
    }
}

/// Membership in the union is membership in some member.
pub proof fn lemma_union_of(cs: Seq<Set<(int, int)>>)
    ensures
        forall|c: (int, int)|
            union_of(cs).contains(c) <==> exists|i: int|
                0 <= i < cs.len() && (#[trigger] cs[i]).contains(c),
    decreases cs.len(),
{
    if cs.len() == 0 {
    } else {
        lemma_union_of(cs.drop_last());
        assert forall|c: (int, int)| union_of(cs).contains(c) implies exists|i: int|
            0 <= i < cs.len() && (#[trigger] cs[i]).contains(c) by {
            if cs.last().contains(c) {
                assert(cs[cs.len() - 1].contains(c));
            } else {
                assert(union_of(cs.drop_last()).contains(c));
                assert(exists|i: int|
                    0 <= i < cs.drop_last().len() && (#[trigger] cs.drop_last()[i]).contains(c));
                let i = choose|i: int|
                    0 <= i < cs.drop_last().len() && (#[trigger] cs.drop_last()[i]).contains(c);
                assert(cs.drop_last()[i] == cs[i]);
                assert(cs[i].contains(c));
            }
        }
        assert forall|c: (int, int)|
            (exists|i: int| 0 <= i < cs.len() && (#[trigger] cs[i]).contains(c)) implies union_of(
            cs,
        ).contains(c) by {
            let i = choose|i: int| 0 <= i < cs.len() && (#[trigger] cs[i]).contains(c);
            if i < cs.len() - 1 {
                assert(cs.drop_last()[i] == cs[i]);
                assert(cs.drop_last()[i].contains(c));
                assert(union_of(cs.drop_last()).contains(c));
            } else {
                assert(cs.last().contains(c));
            }
        }
    }
}

/// The distinct x-coordinates covered at row `y` by a family of cell sets.
pub open spec fn row_xs(cs: Seq<Set<(int, int)>>, y: int) -> Set<int> {
    Set::new(|x: int| exists|i: int| 0 <= i < cs.len() && (#[trigger] cs[i]).contains((x, y)))
}

/// A row is full when it covers exactly `w` distinct x-coordinates.
pub open spec fn row_full(cs: Seq<Set<(int, int)>>, w: int, y: int) -> bool {
    row_xs(cs, y).finite() && row_xs(cs, y).len() == w
}

/// One top-to-bottom pass over the original row indices `0 .. n`: each row
/// found full against the progressively shifted contents is removed from
/// every member.
pub open spec fn clear_pass(cs: Seq<Set<(int, int)>>, w: int, n: int) -> Seq<Set<(int, int)>>
    decreases n,
{
    if n <= 0 {
        cs
    } else {
        let prev = clear_pass(cs, w, n - 1);
        if row_full(prev, w, n - 1) {
            prev.map_values(|s: Set<(int, int)>| removed_row_set(s, n - 1))
        } else {
            prev
        }
    }
}

/// How many rows the pass removes.
pub open spec fn cleared_count(cs: Seq<Set<(int, int)>>, w: int, n: int) -> nat
    decreases n,
{
    if n <= 0 {
        0
    } else {
        cleared_count(cs, w, n - 1) + if row_full(clear_pass(cs, w, n - 1), w, n - 1) {
            1nat
        } else {
            0nat
        }
    }
}

/// Points for the number of lines cleared in one settle event.
pub open spec fn line_points(n: nat) -> nat {
    if n == 1 {
        100
    } else if n == 2 {
        300
    } else if n == 3 {
        500
    } else if n == 4 {
        800
    } else {
        0
    }
}

/// A freshly spawned shape of kind `k`, horizontally centered on a field of
/// width `w`.
pub open spec fn spawned_shape_ok(s: Shape, k: Kind, w: int) -> bool {
    &&& s.typ == k
    &&& s.wf()
    &&& s.positions@.len() == 4
    &&& s.cells() == shifted_cells(canon_cells(k), w / 2, 0)
    &&& s.anchor@ == (canon_anchor(k).0 + w / 2, canon_anchor(k).1)
}

/// The kind shown at `c`: the active shape first, then the first settled
/// shape in insertion order, then nothing.
pub open spec fn first_settled_kind(shapes: Seq<Shape>, c: (int, int)) -> Option<Kind>
    decreases shapes.len(),
{
    if shapes.len() == 0 {
        None
    } else if shapes[0].cells().contains(c) {
        Some(shapes[0].typ)
    } else {
        first_settled_kind(shapes.drop_first(), c)
    }
}

impl Tetris {
    /// The cell sets of the settled shapes, in insertion order.
    pub open spec fn settled_cells_seq(self) -> Seq<Set<(int, int)>> {
        cells_seq_of(self.fixed_shapes@)
    }

    /// Every cell owned by some settled shape.
    pub open spec fn settled_union(self) -> Set<(int, int)> {
        union_of(self.settled_cells_seq())
    }

    /// `c` lies within the field rectangle.
    pub open spec fn in_field(self, c: (int, int)) -> bool {
        0 <= c.0 < self.width as int && 0 <= c.1 < self.height as int
    }

    /// Every cell of `s` lies within the field rectangle.
    pub open spec fn all_in_field(self, s: Set<(int, int)>) -> bool {
        forall|c: (int, int)| #[trigger] s.contains(c) ==> self.in_field(c)
    }

    /// `s` shares a cell with some settled shape.
    pub open spec fn hits_settled(self, s: Set<(int, int)>) -> bool {
        exists|i: int|
            0 <= i < self.fixed_shapes@.len() && overlaps(
                (#[trigger] self.fixed_shapes@[i]).cells(),
                s,
            )
    }

    /// The active shape, moved down `e` rows, would be in bounds and free.
    pub open spec fn fall_ok(self, e: int) -> bool {
        let moved = shifted_cells(self.curr_shape.cells(), 0, e);
        self.all_in_field(moved) && !self.hits_settled(moved)
    }

    /// The next gravity step would not settle the piece.
    pub open spec fn can_fall(self) -> bool {
        self.fall_ok(1)
    }

    /// Both dimensions are positive and small enough for the coordinate
    /// arithmetic.
    pub open spec fn dims_ok(self) -> bool {
        0 < self.width as int <= MAX_DIM as int && 0 < self.height as int <= MAX_DIM as int
    }

    /// All cells of `s` stay in a slightly padded box around the field.
    pub open spec fn shape_in_box(self, s: Shape) -> bool {
        forall|c: (int, int)| #[trigger] s.cells().contains(c) ==> -3 <= c.0 <= self.width as int
            + 3 && -3 <= c.1 <= self.height as int + 3
    }

    /// The active shape is well-formed, has its four cells near the field,
    /// and keeps its anchor within two cells of each of them.
    pub open spec fn active_ok(self) -> bool {
        &&& self.curr_shape.wf()
        &&& self.curr_shape.positions@.len() == 4
        &&& self.shape_in_box(self.curr_shape)
        &&& forall|c: (int, int)| #[trigger] self.curr_shape.cells().contains(c) ==> -2 <= c.0
            - self.curr_shape.anchor@.0 <= 2 && -2 <= c.1 - self.curr_shape.anchor@.1 <= 2
    }

    /// The settled shapes are well-formed and pairwise disjoint.
    pub open spec fn settled_ok(self) -> bool {
        &&& forall|i: int|
            0 <= i < self.fixed_shapes@.len() ==> (#[trigger] self.fixed_shapes@[i]).wf()
        &&& forall|i: int, j: int|
            #![trigger self.fixed_shapes@[i], self.fixed_shapes@[j]]
            0 <= i < j < self.fixed_shapes@.len() ==> self.fixed_shapes@[i].cells().disjoint(
                self.fixed_shapes@[j].cells(),
            )
    }

    /// Field-level well-formedness: dimensions and settled shapes.
    pub open spec fn wf_field(self) -> bool {
        self.dims_ok() && self.settled_ok()
    }

    /// Full engine invariant; the active shape overlaps nothing settled
    /// except in the terminal game-over state.
    pub open spec fn wf(self) -> bool {
        &&& self.wf_field()
        &&& self.active_ok()
        &&& !self.game_over ==> !self.hits_settled(self.curr_shape.cells())
    }

    /// What the renderer sees at `c`.
    pub open spec fn cell_kind(self, c: (int, int)) -> Option<Kind> {
        if self.curr_shape.cells().contains(c) {
            Some(self.curr_shape.typ)
        } else {
            first_settled_kind(self.fixed_shapes@, c)
        }
    }

    /// The game-over flag.
    pub fn is_game_over(&self) -> (r: bool)
        ensures
            r == self.game_over,
    {
        self.game_over
    }

    /// The current score.
    pub fn score(&self) -> (r: u32)
        ensures
            r == self.score,
    {
        self.score
    }

    /// The field width.
    pub fn width(&self) -> (r: i32)
        ensures
            r == self.width,
    {
        self.width
    }

    /// The field height.
    pub fn height(&self) -> (r: i32)
        ensures
            r == self.height,
    {
        self.height
    }

    /// True iff some cell of `shape` falls outside the field rectangle.
    pub fn is_out_of_bounds(&self, shape: &Shape) -> (r: bool)
        ensures
            r == !self.all_in_field(shape.cells()),
    {
        let mut i: usize = 0;
        while i < shape.positions.len()
            invariant
                0 <= i <= shape.positions@.len(),
                forall|j: int| 0 <= j < i ==> self.in_field((#[trigger] shape.positions@[j])@),
            decreases shape.positions@.len() - i,
        {
            let p = shape.positions[i];
            if p.0 < 0 || p.0 >= self.width || p.1 < 0 || p.1 >= self.height {
                proof {
                    lemma_cells_of(shape.positions@);
                    assert(shape.cells().contains(shape.positions@[i as int]@));
                }
                return true;
            }
            i += 1;
        }
        proof {
            lemma_cells_of(shape.positions@);
            assert forall|c: (int, int)| #[trigger] shape.cells().contains(c) implies self.in_field(
                c,
            ) by {
                let j = choose|j: int|
                    0 <= j < shape.positions@.len() && (#[trigger] shape.positions@[j])@ == c;
            }
        }
        false
    }

    /// True iff `shape` shares a cell with some settled shape.
    pub fn is_colliding(&self, shape: &Shape) -> (r: bool)
        ensures
            r == self.hits_settled(shape.cells()),
    {
        let mut i: usize = 0;
        while i < self.fixed_shapes.len()
            invariant
                0 <= i <= self.fixed_shapes@.len(),
                forall|j: int| 0 <= j < i ==> !overlaps(
                    (#[trigger] self.fixed_shapes@[j]).cells(),
                    shape.cells(),
                ),
            decreases self.fixed_shapes@.len() - i,
        {
            if self.fixed_shapes[i].collides_with(shape) {
                return true;
            }
            i += 1;
        }
        false
    }

    /// The kind occupying `pos`: the active shape first, otherwise the first
    /// settled shape in insertion order that holds it.
    pub fn get(&self, pos: Pos) -> (r: Option<Kind>)
        ensures
            r == self.cell_kind(pos@),
    {
        if self.curr_shape.has_position(pos) {
            return Some(self.curr_shape.typ());
        }
        let mut i: usize = 0;
        while i < self.fixed_shapes.len()
            invariant
                0 <= i <= self.fixed_shapes@.len(),
                !self.curr_shape.cells().contains(pos@),
                forall|j: int| 0 <= j < i ==> !(#[trigger] self.fixed_shapes@[j]).cells().contains(
                    pos@,
                ),
            decreases self.fixed_shapes@.len() - i,
        {
            if self.fixed_shapes[i].has_position(pos) {
                proof {
                    lemma_first_settled_prefix(self.fixed_shapes@, pos@, i as int);
                    assert(self.fixed_shapes@.skip(i as int).len() > 0);
                    assert(self.fixed_shapes@.skip(i as int)[0] == self.fixed_shapes@[i as int]);
                    assert(first_settled_kind(self.fixed_shapes@.skip(i as int), pos@) == Some(
                        self.fixed_shapes@[i as int].typ,
                    ));
                }
                return Some(self.fixed_shapes[i].typ());
            }
            i += 1;
        }
        proof {
            lemma_first_settled_prefix(self.fixed_shapes@, pos@, self.fixed_shapes@.len() as int);
        }
        None
    }

    /// Every field coordinate, row by row from the top, left to right.
    pub fn iter_position(&self) -> (r: Vec<Pos>)
        requires
            0 <= self.width,
            0 <= self.height,
        ensures
            r@.len() == self.width as int * self.height as int,
            forall|idx: int| 0 <= idx < r@.len() ==> (#[trigger] r@[idx])@ == (
                idx % (self.width as int),
                idx / (self.width as int),
            ),
    {
        let w = self.width;
        let h = self.height;
        let mut r: Vec<Pos> = Vec::new();
        if w == 0 {
            return r;
        }
        let mut y: i32 = 0;
        while y < h
            invariant
                0 < w == self.width,
                h == self.height,
                0 <= y <= h,
                r@.len() == y as int * w as int,
                forall|idx: int| 0 <= idx < r@.len() ==> (#[trigger] r@[idx])@ == (
                    idx % (w as int),
                    idx / (w as int),
                ),
            decreases h - y,
        {
            let mut x: i32 = 0;
            while x < w
                invariant
                    0 < w == self.width,
                    h == self.height,
                    0 <= y < h,
                    0 <= x <= w,
                    r@.len() == y as int * w as int + x as int,
                    forall|idx: int| 0 <= idx < r@.len() ==> (#[trigger] r@[idx])@ == (
                        idx % (w as int),
                        idx / (w as int),
                    ),
                decreases w - x,
            {
                r.push(Pos(x, y));
                proof {
                    vstd::arithmetic::div_mod::lemma_fundamental_div_mod_converse(
                        y as int * w as int + x as int,
                        w as int,
                        y as int,
                        x as int,
                    );
                }
                x += 1;
            }
            proof {
                assert(y as int * w as int + w as int == (y as int + 1) * w as int) by (
                nonlinear_arith);
            }
            y += 1;
        }
        proof {
            assert(h as int * w as int == w as int * h as int) by (nonlinear_arith);
        }
        r
    }

    /// True iff the settled shapes cover exactly `width` distinct
    /// x-coordinates at row `y`.
    pub fn is_line_full(&self, y: i32) -> (r: bool)
        requires
            0 <= self.width,
        ensures
            r == row_full(self.settled_cells_seq(), self.width as int, y as int),
    {
        let ghost cs = self.settled_cells_seq();
        let mut seen: Vec<i32> = Vec::new();
        let ghost mut gs = Set::<int>::empty();
        let mut i: usize = 0;
        proof {
            assert(gs =~= row_xs(cs.take(0), y as int));
        }
        while i < self.fixed_shapes.len()
            invariant
                0 <= i <= self.fixed_shapes@.len(),
                cs == self.settled_cells_seq(),
                gs == row_xs(cs.take(i as int), y as int),
                gs.finite(),
                gs.len() == seen@.len(),
                forall|x: int| gs.contains(x) <==> (exists|k: int|
                    0 <= k < seen@.len() && (#[trigger] seen@[k]) as int == x),
            decreases self.fixed_shapes@.len() - i,
        {
            let shape = &self.fixed_shapes[i];
            let ghost sc = shape.cells();
            let mut j: usize = 0;
            proof {
                assert(cells_of(shape.positions@.take(0)) =~= Set::<(int, int)>::empty());
                assert(gs =~= row_xs(cs.take(i as int), y as int).union(
                    xs_at(cells_of(shape.positions@.take(0)), y as int),
                ));
            }
            while j < shape.positions.len()
                invariant
                    0 <= j <= shape.positions@.len(),
                    0 <= i < self.fixed_shapes@.len(),
                    cs == self.settled_cells_seq(),
                    shape == &self.fixed_shapes[i as int],
                    gs == row_xs(cs.take(i as int), y as int).union(
                        xs_at(cells_of(shape.positions@.take(j as int)), y as int),
                    ),
                    gs.finite(),
                    gs.len() == seen@.len(),
                    forall|x: int| gs.contains(x) <==> (exists|k: int|
                        0 <= k < seen@.len() && (#[trigger] seen@[k]) as int == x),
                decreases shape.positions@.len() - j,
            {
                let p = shape.positions[j];
                proof {
                    assert(shape.positions@.take(j as int + 1).drop_last() =~= shape.positions@.take(
                        j as int,
                    ));
                    assert(shape.positions@.take(j as int + 1).last() == shape.positions@[j as int]);
                }
                if p.1 == y {
                    let already = contains_val(&seen, p.0);
                    if !already {
                        let ghost seen_pre = seen@;
                        let ghost gs_pre = gs;
                        seen.push(p.0);
                        proof {
                            assert(!gs_pre.contains(p.0 as int));
                            gs = gs_pre.insert(p.0 as int);
                            assert(seen@ == seen_pre.push(p.0));
                            assert(gs.len() == seen@.len());
                            assert forall|x: int| gs.contains(x) implies (exists|k: int|
                                0 <= k < seen@.len() && (#[trigger] seen@[k]) as int == x) by {
                                if x == p.0 as int {
                                    assert(seen@[seen@.len() - 1] as int == x);
                                } else {
                                    let k = choose|k: int|
                                        0 <= k < seen_pre.len() && (#[trigger] seen_pre[k]) as int
                                            == x;
                                    assert(seen@[k] == seen_pre[k]);
                                    assert(seen@[k] as int == x);
                                }
                            }
                            assert forall|x: int|
                                (exists|k: int|
                                    0 <= k < seen@.len() && (#[trigger] seen@[k]) as int == x)
                                implies gs.contains(x) by {
                                let k = choose|k: int|
                                    0 <= k < seen@.len() && (#[trigger] seen@[k]) as int == x;
                                if k < seen@.len() - 1 {
                                    assert(seen_pre[k] as int == x);
                                } else {
                                    assert(x == p.0 as int);
                                }
                            }
                        }
                    }
                }
                proof {
                    assert(gs =~= row_xs(cs.take(i as int), y as int).union(
                        xs_at(cells_of(shape.positions@.take(j as int + 1)), y as int),
                    ));
                }
                j += 1;
            }
            proof {
                assert(shape.positions@.take(shape.positions@.len() as int) =~= shape.positions@);
                assert(cs.take(i as int + 1).drop_last() =~= cs.take(i as int));
                assert(cs[i as int] == sc);
                assert forall|x: int|
                    row_xs(cs.take(i as int + 1), y as int).contains(x) == gs.contains(x) by {
                    if row_xs(cs.take(i as int + 1), y as int).contains(x) {
                        let ii = choose|ii: int|
                            0 <= ii < cs.take(i as int + 1).len() && (#[trigger] cs.take(
                                i as int + 1,
                            )[ii]).contains((x, y as int));
                        if ii < i as int {
                            assert(cs.take(i as int)[ii].contains((x, y as int)));
                        } else {
                            assert(sc.contains((x, y as int)));
                        }
                    }
                    if gs.contains(x) {
                        if row_xs(cs.take(i as int), y as int).contains(x) {
                            let ii = choose|ii: int|
                                0 <= ii < cs.take(i as int).len() && (#[trigger] cs.take(
                                    i as int,
                                )[ii]).contains((x, y as int));
                            assert(cs.take(i as int + 1)[ii].contains((x, y as int)));
                        } else {
                            assert(cs.take(i as int + 1)[i as int].contains((x, y as int)));
                        }
                    }
                }
                assert(gs =~= row_xs(cs.take(i as int + 1), y as int));
            }
            i += 1;
        }
        proof {
            assert(cs.take(cs.len() as int) =~= cs);
        }
        seen.len() == (self.width as usize)
    }
}

/// Two states with the same dimensions and settled shapes agree on bounds
/// and collision tests.
pub proof fn lemma_same_field(a: Tetris, b: Tetris, s: Set<(int, int)>)
    requires
        a.width == b.width,
        a.height == b.height,
        a.fixed_shapes@ == b.fixed_shapes@,
    ensures
        a.all_in_field(s) == b.all_in_field(s),
        a.hits_settled(s) == b.hits_settled(s),
{
    if a.all_in_field(s) {
        assert forall|c: (int, int)| #[trigger] s.contains(c) implies b.in_field(c) by {
            assert(a.in_field(c));
        }
    }
    if b.all_in_field(s) {
        assert forall|c: (int, int)| #[trigger] s.contains(c) implies a.in_field(c) by {
            assert(b.in_field(c));
        }
    }
    if a.hits_settled(s) {
        let i = choose|i: int|
            0 <= i < a.fixed_shapes@.len() && overlaps((#[trigger] a.fixed_shapes@[i]).cells(), s);
        assert(overlaps(b.fixed_shapes@[i].cells(), s));
    }
    if b.hits_settled(s) {
        let i = choose|i: int|
            0 <= i < b.fixed_shapes@.len() && overlaps((#[trigger] b.fixed_shapes@[i]).cells(), s);
        assert(overlaps(a.fixed_shapes@[i].cells(), s));
    }
}

impl Tetris {
    /// Removes row `y` from every settled shape.
    fn remove_line(&mut self, y: i32)
        requires
            forall|i: int|
                0 <= i < old(self).fixed_shapes@.len() ==> (#[trigger] old(self).fixed_shapes@[i]).wf(),
        ensures
            final(self).width == old(self).width,
            final(self).height == old(self).height,
            final(self).curr_shape == old(self).curr_shape,
            final(self).game_over == old(self).game_over,
            final(self).score == old(self).score,
            final(self).fixed_shapes@.len() == old(self).fixed_shapes@.len(),
            forall|i: int|
                0 <= i < final(self).fixed_shapes@.len() ==> (#[trigger] final(self).fixed_shapes@[i]).typ == old(self).fixed_shapes@[i].typ,
            forall|i: int|
                0 <= i < final(self).fixed_shapes@.len() ==> (#[trigger] final(self).fixed_shapes@[i]).wf(),
            forall|i: int|
                0 <= i < final(self).fixed_shapes@.len() ==> (#[trigger] final(self).fixed_shapes@[i]).cells() == removed_row_set(
                    old(self).fixed_shapes@[i].cells(),
                    y as int,
                ),
    {
        let ghost olds = self.fixed_shapes@;
        let mut updated: Vec<Shape> = Vec::new();
        let mut i: usize = 0;
        while i < self.fixed_shapes.len()
            invariant
                olds == self.fixed_shapes@,
                0 <= i <= olds.len(),
                updated@.len() == i,
                forall|j: int| 0 <= j < olds.len() ==> (#[trigger] olds[j]).wf(),
                forall|j: int| 0 <= j < i ==> (#[trigger] updated@[j]).typ == olds[j].typ,
                forall|j: int| 0 <= j < i ==> (#[trigger] updated@[j]).wf(),
                forall|j: int| 0 <= j < i ==> (#[trigger] updated@[j]).cells() == removed_row_set(
                    olds[j].cells(),
                    y as int,
                ),
            decreases olds.len() - i,
        {
            let mut sh = self.fixed_shapes[i].cloned();
            sh.remove_line(y);
            updated.push(sh);
            i += 1;
        }
        self.fixed_shapes = updated;
    }

    /// One top-to-bottom pass over the original row indices: every row found
    /// full is removed from all settled shapes, and the pass is scored.
    fn remove_full_lines(&mut self)
        requires
            old(self).wf_field(),
            old(self).score + 800 <= u32::MAX,
        ensures
            final(self).wf_field(),
            final(self).width == old(self).width,
            final(self).height == old(self).height,
            final(self).curr_shape == old(self).curr_shape,
            final(self).game_over == old(self).game_over,
            final(self).fixed_shapes@.len() == old(self).fixed_shapes@.len(),
            forall|i: int|
                0 <= i < final(self).fixed_shapes@.len() ==> (#[trigger] final(self).fixed_shapes@[i]).typ == old(self).fixed_shapes@[i].typ,
            forall|i: int|
                0 <= i < final(self).fixed_shapes@.len() ==> (#[trigger] final(self).fixed_shapes@[i]).cells() == clear_pass(
                    old(self).settled_cells_seq(),
                    old(self).width as int,
                    old(self).height as int,
                )[i],
            final(self).score == old(self).score + line_points(
                cleared_count(
                    old(self).settled_cells_seq(),
                    old(self).width as int,
                    old(self).height as int,
                ),
            ),
    {
        let ghost orig = self.settled_cells_seq();
        let ghost w = self.width as int;
        let mut lines_removed: u32 = 0;
        let mut line: i32 = 0;
        while line < self.height
            invariant
                0 <= line <= self.height,
                self.wf_field(),
                self.width == old(self).width,
                self.height == old(self).height,
                self.curr_shape == old(self).curr_shape,
                self.game_over == old(self).game_over,
                self.score == old(self).score,
                old(self).score + 800 <= u32::MAX,
                orig == old(self).settled_cells_seq(),
                w == self.width as int,
                self.fixed_shapes@.len() == old(self).fixed_shapes@.len(),
                forall|i: int|
                    0 <= i < self.fixed_shapes@.len() ==> (#[trigger] self.fixed_shapes@[i]).typ
                        == old(self).fixed_shapes@[i].typ,
                self.settled_cells_seq() == clear_pass(orig, w, line as int),
                lines_removed as int == cleared_count(orig, w, line as int),
                lines_removed as int <= line as int,
            decreases self.height - line,
        {
            let ghost prev = self.settled_cells_seq();
            let ghost prev_shapes = self.fixed_shapes@;
            let full = self.is_line_full(line);
            if full {
                self.remove_line(line);
                lines_removed = lines_removed + 1;
                proof {
                    assert forall|i: int, j: int|
                        #![trigger self.fixed_shapes@[i], self.fixed_shapes@[j]]
                        0 <= i < j < self.fixed_shapes@.len() implies self.fixed_shapes@[i].cells()
                        .disjoint(self.fixed_shapes@[j].cells()) by {
                        lemma_removed_row_disjoint(
                            prev_shapes[i].cells(),
                            prev_shapes[j].cells(),
                            line as int,
                        );
                    }
                    assert(self.settled_cells_seq() =~= prev.map_values(
                        |s: Set<(int, int)>| removed_row_set(s, line as int),
                    ));
                }
            }
            proof {
                let pr = clear_pass(orig, w, line as int);
                assert(pr == prev);
                if full {
                    assert(clear_pass(orig, w, line as int + 1) == pr.map_values(
                        |s: Set<(int, int)>| removed_row_set(s, line as int),
                    ));
                } else {
                    assert(clear_pass(orig, w, line as int + 1) == pr);
                }
            }
            line += 1;
        }
        let pts: u32 = if lines_removed == 1 {
            100
        } else if lines_removed == 2 {
            300
        } else if lines_removed == 3 {
            500
        } else if lines_removed == 4 {
            800
        } else {
            0
        };
        proof {
            assert(pts as int == line_points(cleared_count(orig, w, self.height as int)) as int);
        }
        self.score = self.score + pts;
    }
}

/// Spawns kind `k` horizontally centered at the top of a `w` by `h` field.
pub(crate) fn spawn_at_top(w: i32, h: i32, k: Kind) -> (r: Shape)
    requires
        0 < w as int <= MAX_DIM as int,
        0 < h as int <= MAX_DIM as int,
    ensures
        spawned_shape_ok(r, k, w as int),
        forall|c: (int, int)| #[trigger] r.cells().contains(c) ==> -3 <= c.0 <= w as int + 3 && -3
            <= c.1 <= h as int + 3,
        forall|c: (int, int)| #[trigger] r.cells().contains(c) ==> -2 <= c.0 - r.anchor@.0 <= 2
            && -2 <= c.1 - r.anchor@.1 <= 2,
{
    let base = Shape::spawn(k);
    proof {
        lemma_canon_props(k);
    }
    let r = base.translated(Pos(w / 2, 0));
    proof {
        let half = w as int / 2;
        assert(0 <= half <= w as int);
        assert forall|c: (int, int)| #[trigger] r.cells().contains(c) implies -3 <= c.0 <= w as int
            + 3 && -3 <= c.1 <= h as int + 3 && -2 <= c.0 - r.anchor@.0 <= 2 && -2 <= c.1
            - r.anchor@.1 <= 2 by {
            assert(canon_cells(k).contains((c.0 - half, c.1)));
        }
    }
    r
}

impl Tetris {
    /// A fresh field of the given dimensions whose first active piece has
    /// kind `k`.
    pub fn new_with(width: u32, height: u32, k: Kind) -> (t: Tetris)
        requires
            0 < width <= MAX_DIM,
            0 < height <= MAX_DIM,
        ensures
            t.wf(),
            t.width as int == width as int,
            t.height as int == height as int,
            t.fixed_shapes@.len() == 0,
            t.score == 0,
            !t.game_over,
            spawned_shape_ok(t.curr_shape, k, width as int),
    {
        let w = width as i32;
        let h = height as i32;
        let active = spawn_at_top(w, h, k);
        let t = Tetris {
            width: w,
            height: h,
            curr_shape: active,
            fixed_shapes: Vec::new(),
            game_over: false,
            score: 0,
        };
        proof {
            assert(!t.hits_settled(t.curr_shape.cells()));
        }
        t
    }

    /// A fresh field whose first active piece is drawn at random.
    pub fn new(width: u32, height: u32) -> (t: Tetris)
        requires
            0 < width <= MAX_DIM,
            0 < height <= MAX_DIM,
        ensures
            t.wf(),
            t.width as int == width as int,
            t.height as int == height as int,
            t.fixed_shapes@.len() == 0,
            t.score == 0,
            !t.game_over,
            spawned_shape_ok(t.curr_shape, t.curr_shape.typ, width as int),
    {
        let k = Shape::new_rand().typ();
        Self::new_with(width, height, k)
    }

    /// Starts the session over, keeping the dimensions: settled shapes and
    /// score are discarded and a piece of kind `k` is spawned.
    pub fn reset_with(&mut self, k: Kind)
        requires
            old(self).dims_ok(),
        ensures
            final(self).wf(),
            final(self).width == old(self).width,
            final(self).height == old(self).height,
            final(self).fixed_shapes@.len() == 0,
            final(self).score == 0,
            !final(self).game_over,
            spawned_shape_ok(final(self).curr_shape, k, old(self).width as int),
    {
        let active = spawn_at_top(self.width, self.height, k);
        self.curr_shape = active;
        self.fixed_shapes.clear();
        self.game_over = false;
        self.score = 0;
        proof {
            assert(!self.hits_settled(self.curr_shape.cells()));
        }
    }

    /// Starts the session over with a randomly drawn piece.
    pub fn reset(&mut self)
        requires
            old(self).dims_ok(),
        ensures
            final(self).wf(),
            final(self).width == old(self).width,
            final(self).height == old(self).height,
            final(self).fixed_shapes@.len() == 0,
            final(self).score == 0,
            !final(self).game_over,
            spawned_shape_ok(
                final(self).curr_shape,
                final(self).curr_shape.typ,
                old(self).width as int,
            ),
    {
        let k = Shape::new_rand().typ();
        self.reset_with(k);
    }

    /// One gravity step whose spawned kind, if the piece settles, is `k`.
    pub fn tick_with(&mut self, k: Kind)
        requires
            old(self).wf(),
            old(self).score + 800 <= u32::MAX,
        ensures
            final(self).wf(),
            tick_rel(*old(self), *final(self), k),
            old(self).score <= final(self).score,
            final(self).width == old(self).width,
            final(self).height == old(self).height,
    {
        let ghost pre = *old(self);
        if self.game_over {
            return;
        }
        proof {
            lemma_cells_of(self.curr_shape.positions@);
            assert(self.curr_shape.cells().contains(self.curr_shape.positions@[0]@));
        }
        let moved = self.curr_shape.translated(Pos(0, 1));
        let oob = self.is_out_of_bounds(&moved);
        let hit = self.is_colliding(&moved);
        if oob || hit {
            proof {
                assert(!pre.can_fall());
            }
            let ghost acells = self.curr_shape.cells();
            let settled_piece = self.curr_shape.cloned();
            self.fixed_shapes.push(settled_piece);
            proof {
                let ghost stacked = pre.settled_cells_seq().push(acells);
                assert(self.settled_cells_seq() =~= stacked);
                assert forall|i: int, j: int|
                    #![trigger self.fixed_shapes@[i], self.fixed_shapes@[j]]
                    0 <= i < j < self.fixed_shapes@.len() implies self.fixed_shapes@[i].cells()
                    .disjoint(self.fixed_shapes@[j].cells()) by {
                    if j < self.fixed_shapes@.len() - 1 {
                        assert(pre.fixed_shapes@[i].cells().disjoint(pre.fixed_shapes@[j].cells()));
                    } else {
                        if overlaps(pre.fixed_shapes@[i].cells(), acells) {
                            assert(pre.hits_settled(acells));
                        }
                        lemma_not_overlaps_disjoint(pre.fixed_shapes@[i].cells(), acells);
                    }
                }
                assert(self.wf_field());
            }
            self.remove_full_lines();
            let active = spawn_at_top(self.width, self.height, k);
            self.curr_shape = active;
            let collides = self.is_colliding(&self.curr_shape);
            if collides {
                self.game_over = true;
            }
            proof {
                assert(settle_from(pre, *self, k, acells, pre.curr_shape.typ));
                assert(tick_rel(pre, *self, k));
            }
        } else {
            self.curr_shape = moved;
            proof {
                assert(pre.can_fall());
                assert(fall_step(pre, *self));
                assert forall|c: (int, int)| #[trigger] self.curr_shape.cells().contains(c)
                    implies -3 <= c.0 <= self.width as int + 3 && -3 <= c.1 <= self.height as int
                    + 3 && -2 <= c.0 - self.curr_shape.anchor@.0 <= 2 && -2 <= c.1
                    - self.curr_shape.anchor@.1 <= 2 by {
                    assert(self.in_field(c));
                    assert(pre.curr_shape.cells().contains((c.0, c.1 - 1)));
                }
                assert(self.wf());
            }
        }
    }

    /// One gravity step with a randomly drawn replacement kind.
    pub fn tick(&mut self)
        requires
            old(self).wf(),
            old(self).score + 800 <= u32::MAX,
        ensures
            final(self).wf(),
            exists|kk: Kind| tick_rel(*old(self), *final(self), kk),
            old(self).score <= final(self).score,
            final(self).width == old(self).width,
            final(self).height == old(self).height,
    {
        let k = Shape::new_rand().typ();
        self.tick_with(k);
        proof {
            assert(tick_rel(*old(self), *self, k));
        }
    }

    /// Moves the active piece one column sideways when the result is in
    /// bounds and collision-free; otherwise the move is silently absorbed.
    pub fn shift(&mut self, direction: Direction)
        requires
            old(self).wf(),
        ensures
            final(self).wf(),
            shift_rel(*old(self), *final(self), direction),
            final(self).score == old(self).score,
    {
        let ghost pre = *old(self);
        if self.game_over {
            return;
        }
        proof {
            lemma_cells_of(self.curr_shape.positions@);
            assert(self.curr_shape.cells().contains(self.curr_shape.positions@[0]@));
        }
        let delta = match direction {
            Direction::Left => Pos(-1, 0),
            Direction::Right => Pos(1, 0),
        };
        let moved = self.curr_shape.translated(delta);
        let oob = self.is_out_of_bounds(&moved);
        let hit = self.is_colliding(&moved);
        if !oob && !hit {
            self.curr_shape = moved;
            proof {
                assert forall|c: (int, int)| #[trigger] self.curr_shape.cells().contains(c)
                    implies -3 <= c.0 <= self.width as int + 3 && -3 <= c.1 <= self.height as int
                    + 3 && -2 <= c.0 - self.curr_shape.anchor@.0 <= 2 && -2 <= c.1
                    - self.curr_shape.anchor@.1 <= 2 by {
                    assert(self.in_field(c));
                    assert(pre.curr_shape.cells().contains((c.0 - dir_dx(direction), c.1)));
                }
                assert(self.wf());
                assert(shift_rel(pre, *self, direction));
            }
        }
    }

    /// Rotates the active piece a quarter turn about its anchor when the
    /// result is in bounds and collision-free; there is no wall-kick.
    pub fn rotate(&mut self)
        requires
            old(self).wf(),
        ensures
            final(self).wf(),
            rotate_rel(*old(self), *final(self)),
            final(self).score == old(self).score,
    {
        let ghost pre = *old(self);
        if self.game_over {
            return;
        }
        proof {
            lemma_cells_of(self.curr_shape.positions@);
            assert(self.curr_shape.cells().contains(self.curr_shape.positions@[0]@));
        }
        let turned = self.curr_shape.rotated();
        let oob = self.is_out_of_bounds(&turned);
        let hit = self.is_colliding(&turned);
        if !oob && !hit {
            self.curr_shape = turned;
            proof {
                let a = pre.curr_shape.anchor@;
                assert forall|c: (int, int)| #[trigger] self.curr_shape.cells().contains(c)
                    implies -3 <= c.0 <= self.width as int + 3 && -3 <= c.1 <= self.height as int
                    + 3 && -2 <= c.0 - self.curr_shape.anchor@.0 <= 2 && -2 <= c.1
                    - self.curr_shape.anchor@.1 <= 2 by {
                    assert(self.in_field(c));
                    let o = crate::shape::rot_ccw(c, a);
                    assert(pre.curr_shape.cells().contains(o));
                }
                assert(self.wf());
                assert(rotate_rel(pre, *self));
            }
        }
    }

    /// Hard drop whose spawned kind after settling is `k`: the piece falls
    /// to the lowest legal position and one gravity step settles it there.
    pub fn drop_with(&mut self, k: Kind)
        requires
            old(self).wf(),
            old(self).score + 800 <= u32::MAX,
        ensures
            final(self).wf(),
            drop_rel(*old(self), *final(self), k),
            old(self).score <= final(self).score,
    {
        let ghost pre = *old(self);
        if self.game_over {
            return;
        }
        let ghost mut d: int = 0;
        let mut done = false;
        while !done
            invariant
                pre.wf(),
                !pre.game_over,
                pre.score + 800 <= u32::MAX,
                self.width == pre.width,
                self.height == pre.height,
                self.fixed_shapes@ == pre.fixed_shapes@,
                self.score == pre.score,
                self.game_over == pre.game_over,
                self.wf(),
                0 <= d <= pre.height as int + 4,
                self.curr_shape.typ == pre.curr_shape.typ,
                self.curr_shape.cells() == shifted_cells(pre.curr_shape.cells(), 0, d),
                self.curr_shape.anchor@ == (
                    pre.curr_shape.anchor@.0,
                    pre.curr_shape.anchor@.1 + d,
                ),
                forall|e: int| 1 <= e <= d ==> pre.fall_ok(e),
                done ==> !pre.fall_ok(d + 1),
            decreases 2 * (pre.height as int + 8 - d) + (if done {
                0int
            } else {
                1int
            }),
        {
            proof {
                lemma_cells_of(self.curr_shape.positions@);
                assert(self.curr_shape.cells().contains(self.curr_shape.positions@[0]@));
            }
            let t = self.curr_shape.translated(Pos(0, 1));
            let oob = self.is_out_of_bounds(&t);
            let hit = self.is_colliding(&t);
            proof {
                assert(t.cells() =~= shifted_cells(pre.curr_shape.cells(), 0, d + 1));
                lemma_same_field(*self, pre, t.cells());
            }
            if oob || hit {
                done = true;
                proof {
                    assert(!pre.fall_ok(d + 1));
                }
            } else {
                self.curr_shape = t;
                proof {
                    let dprev = d;
                    d = d + 1;
                    assert(pre.fall_ok(d));
                    assert forall|e: int| 1 <= e <= d implies pre.fall_ok(e) by {
                        if e <= dprev {
                        }
                    }
                    assert forall|c: (int, int)| #[trigger] self.curr_shape.cells().contains(c)
                        implies -3 <= c.0 <= self.width as int + 3 && -3 <= c.1 <= self.height
                        as int + 3 && -2 <= c.0 - self.curr_shape.anchor@.0 <= 2 && -2 <= c.1
                        - self.curr_shape.anchor@.1 <= 2 by {
                        assert(self.in_field(c));
                        assert(pre.curr_shape.cells().contains((c.0, c.1 - d)));
                    }
                    let ghost witness = self.curr_shape.positions@[0]@;
                    assert(self.curr_shape.cells().contains(witness)) by {
                        lemma_cells_of(self.curr_shape.positions@);
                    }
                    assert(pre.curr_shape.cells().contains((witness.0, witness.1 - d)));
                    assert(d <= pre.height as int + 4);
                    assert(self.wf());
                }
            }
        }
        let ghost mid = *self;
        self.tick_with(k);
        proof {
            assert(shifted_cells(shifted_cells(pre.curr_shape.cells(), 0, d), 0, 1)
                =~= shifted_cells(pre.curr_shape.cells(), 0, d + 1));
            lemma_same_field(mid, pre, shifted_cells(pre.curr_shape.cells(), 0, d + 1));
            assert(!mid.can_fall());
            assert(settle_from(mid, *self, k, mid.curr_shape.cells(), mid.curr_shape.typ));
            assert(mid.settled_cells_seq() == pre.settled_cells_seq());
            assert(settle_from(
                pre,
                *self,
                k,
                shifted_cells(pre.curr_shape.cells(), 0, d),
                pre.curr_shape.typ,
            ));
            assert(drop_descent(pre, d));
            assert(drop_rel(pre, *self, k));
        }
    }

    /// Hard drop with a randomly drawn replacement kind.
    pub fn drop(&mut self)
        requires
            old(self).wf(),
            old(self).score + 800 <= u32::MAX,
        ensures
            final(self).wf(),
            exists|kk: Kind| drop_rel(*old(self), *final(self), kk),
            old(self).score <= final(self).score,
    {
        let k = Shape::new_rand().typ();
        self.drop_with(k);
        proof {
            assert(drop_rel(*old(self), *self, k));
        }
    }
}

/// A step that does not settle moves the active cells down exactly one row.
pub proof fn lemma_step_keeps_cells(pre: Tetris, post: Tetris, k: Kind)
    requires
        tick_rel(pre, post, k),
        !pre.game_over,
        pre.can_fall(),
    ensures
        post.curr_shape.cells() == shifted_cells(pre.curr_shape.cells(), 0, 1),
{
}

/// Once a step settles the piece, the settling shape's cells — carried
/// through the same clearing pass as every settled fragment — are cells of
/// `settled`.
pub proof fn lemma_step_settle_subset(pre: Tetris, post: Tetris, k: Kind)
    requires
        tick_rel(pre, post, k),
        !pre.game_over,
        !pre.can_fall(),
    ensures
        post.fixed_shapes@.len() == pre.fixed_shapes@.len() + 1,
        post.fixed_shapes@.last().cells() == clear_pass(
            pre.settled_cells_seq().push(pre.curr_shape.cells()),
            pre.width as int,
            pre.height as int,
        ).last(),
        post.fixed_shapes@.last().cells().subset_of(post.settled_union()),
{
    let stacked = pre.settled_cells_seq().push(pre.curr_shape.cells());
    lemma_clear_pass_len(stacked, pre.width as int, pre.height as int);
    let lastidx = post.fixed_shapes@.len() - 1;
    assert(post.fixed_shapes@[lastidx].cells() == clear_pass(
        stacked,
        pre.width as int,
        pre.height as int,
    )[lastidx]);
    lemma_union_of(post.settled_cells_seq());
    assert forall|c: (int, int)| post.fixed_shapes@.last().cells().contains(c) implies post
        .settled_union().contains(c) by {
        assert(post.settled_cells_seq()[lastidx].contains(c));
    }
}

/// A row covered at exactly the columns `0 .. w` is full; one confined to
/// those columns but missing one of them is not.
pub proof fn lemma_row_full_detection(cs: Seq<Set<(int, int)>>, w: int, y: int, x0: int)
    requires
        w >= 0,
    ensures
        row_xs(cs, y) == vstd::set_lib::set_int_range(0, w) ==> row_full(cs, w, y),
        ((forall|x: int| #[trigger] row_xs(cs, y).contains(x) ==> 0 <= x < w) && 0 <= x0 < w
            && !row_xs(cs, y).contains(x0)) ==> !row_full(cs, w, y),
{
    vstd::set_lib::lemma_int_range(0, w);
    if (forall|x: int| #[trigger] row_xs(cs, y).contains(x) ==> 0 <= x < w) && 0 <= x0 < w
        && !row_xs(cs, y).contains(x0) {
        let missing = vstd::set_lib::set_int_range(0, w).remove(x0);
        assert(row_xs(cs, y).subset_of(missing));
        vstd::set::axiom_set_remove_len(vstd::set_lib::set_int_range(0, w), x0);
        vstd::set_lib::lemma_len_subset(row_xs(cs, y), missing);
        assert(row_xs(cs, y).len() < w);
    }
}

/// The x-coordinates that `s` holds at row `y`.
pub open spec fn xs_at(s: Set<(int, int)>, y: int) -> Set<int> {
    Set::new(|x: int| s.contains((x, y)))
}

/// Linear membership scan.
fn contains_val(v: &Vec<i32>, x: i32) -> (r: bool)
    ensures
        r == (exists|k: int| 0 <= k < v@.len() && (#[trigger] v@[k]) == x),
{
    let mut k: usize = 0;
    while k < v.len()
        invariant
            0 <= k <= v@.len(),
            forall|m: int| 0 <= m < k ==> (#[trigger] v@[m]) != x,
        decreases v@.len() - k,
    {
        if v[k] == x {
            return true;
        }
        k += 1;
    }
    false
}

/// The branch of `tick` that merely lowers the active piece one row.
pub open spec fn fall_step(pre: Tetris, post: Tetris) -> bool {
    &&& post.width == pre.width
    &&& post.height == pre.height
    &&& post.fixed_shapes@ == pre.fixed_shapes@
    &&& post.score == pre.score
    &&& post.game_over == pre.game_over
    &&& post.curr_shape.typ == pre.curr_shape.typ
    &&& post.curr_shape.anchor@ == (pre.curr_shape.anchor@.0, pre.curr_shape.anchor@.1 + 1)
    &&& post.curr_shape.cells() == shifted_cells(pre.curr_shape.cells(), 0, 1)
}

/// The branch of `tick` that settles the cells `acells` of kind `atyp`,
/// runs the line-clear pass, scores it, and spawns a piece of kind `k`.
pub open spec fn settle_from(
    pre: Tetris,
    post: Tetris,
    k: Kind,
    acells: Set<(int, int)>,
    atyp: Kind,
) -> bool {
    let stacked = pre.settled_cells_seq().push(acells);
    let cleared = clear_pass(stacked, pre.width as int, pre.height as int);
    let n = cleared_count(stacked, pre.width as int, pre.height as int);
    &&& post.width == pre.width
    &&& post.height == pre.height
    &&& post.fixed_shapes@.len() == pre.fixed_shapes@.len() + 1
    &&& (forall|i: int|
        0 <= i < pre.fixed_shapes@.len() ==> (#[trigger] post.fixed_shapes@[i]).typ
            == pre.fixed_shapes@[i].typ)
    &&& post.fixed_shapes@.last().typ == atyp
    &&& (forall|i: int|
        0 <= i < post.fixed_shapes@.len() ==> (#[trigger] post.fixed_shapes@[i]).cells()
            == cleared[i])
    &&& post.score == pre.score + line_points(n)
    &&& spawned_shape_ok(post.curr_shape, k, pre.width as int)
    &&& post.game_over == post.hits_settled(post.curr_shape.cells())
}

/// One gravity step; `k` is the kind spawned if the piece settles.
pub open spec fn tick_rel(pre: Tetris, post: Tetris, k: Kind) -> bool {
    if pre.game_over {
        post == pre
    } else if pre.can_fall() {
        fall_step(pre, post)
    } else {
        settle_from(pre, post, k, pre.curr_shape.cells(), pre.curr_shape.typ)
    }
}

/// A sideways move: applied when in bounds and free, otherwise a no-op.
pub open spec fn shift_rel(pre: Tetris, post: Tetris, d: Direction) -> bool {
    let moved = shifted_cells(pre.curr_shape.cells(), dir_dx(d), 0);
    if pre.game_over {
        post == pre
    } else if pre.all_in_field(moved) && !pre.hits_settled(moved) {
        &&& post.width == pre.width
        &&& post.height == pre.height
        &&& post.fixed_shapes@ == pre.fixed_shapes@
        &&& post.score == pre.score
        &&& post.game_over == pre.game_over
        &&& post.curr_shape.typ == pre.curr_shape.typ
        &&& post.curr_shape.anchor@ == (
            pre.curr_shape.anchor@.0 + dir_dx(d),
            pre.curr_shape.anchor@.1,
        )
        &&& post.curr_shape.cells() == moved
    } else {
        post == pre
    }
}

/// A quarter turn about the anchor: applied when in bounds and free,
/// otherwise a no-op; there is no wall-kick fallback.
pub open spec fn rotate_rel(pre: Tetris, post: Tetris) -> bool {
    let turned = rotated_cells(pre.curr_shape.cells(), pre.curr_shape.anchor@);
    if pre.game_over {
        post == pre
    } else if pre.all_in_field(turned) && !pre.hits_settled(turned) {
        &&& post.width == pre.width
        &&& post.height == pre.height
        &&& post.fixed_shapes@ == pre.fixed_shapes@
        &&& post.score == pre.score
        &&& post.game_over == pre.game_over
        &&& post.curr_shape.typ == pre.curr_shape.typ
        &&& post.curr_shape.anchor == pre.curr_shape.anchor
        &&& post.curr_shape.cells() == turned
    } else {
        post == pre
    }
}

/// The active piece can fall `d` rows but not `d + 1`.
pub open spec fn drop_descent(pre: Tetris, d: int) -> bool {
    &&& 0 <= d
    &&& (forall|e: int| 1 <= e <= d ==> pre.fall_ok(e))
    &&& !pre.fall_ok(d + 1)
}

/// A hard drop: the piece falls as far as it legally can, then settles as
/// one gravity step would, spawning kind `k`.
pub open spec fn drop_rel(pre: Tetris, post: Tetris, k: Kind) -> bool {
    if pre.game_over {
        post == pre
    } else {
        exists|d: int|
            #[trigger] drop_descent(pre, d) && settle_from(
                pre,
                post,
                k,
                shifted_cells(pre.curr_shape.cells(), 0, d),
                pre.curr_shape.typ,
            )
    }
}

/// Cell sets that do not overlap are disjoint.
pub proof fn lemma_not_overlaps_disjoint(a: Set<(int, int)>, b: Set<(int, int)>)
    requires
        !overlaps(a, b),
    ensures
        a.disjoint(b),
{
    assert forall|c: (int, int)| a.contains(c) implies !b.contains(c) by {
        if b.contains(c) {
            assert(overlaps(a, b));
        }
    }
}

/// Removing a row keeps disjoint cell sets disjoint.
pub proof fn lemma_removed_row_disjoint(a: Set<(int, int)>, b: Set<(int, int)>, y: int)
    requires
        a.disjoint(b),
    ensures
        removed_row_set(a, y).disjoint(removed_row_set(b, y)),
{
    assert forall|c: (int, int)| removed_row_set(a, y).contains(c) implies !removed_row_set(
        b,
        y,
    ).contains(c) by {
        if c.1 > y {
            assert(a.contains(c));
        } else {
            assert(a.contains((c.0, c.1 - 1)));
        }
    }
}

/// The clearing pass never changes how many fragments there are.
pub proof fn lemma_clear_pass_len(cs: Seq<Set<(int, int)>>, w: int, n: int)
    ensures
        clear_pass(cs, w, n).len() == cs.len(),
    decreases n,
{
    if n <= 0 {
    } else {
        lemma_clear_pass_len(cs, w, n - 1);
    }
}

/// Skipping settled shapes that do not hold `c` does not change the first
/// hit.
pub proof fn lemma_first_settled_prefix(shapes: Seq<Shape>, c: (int, int), i: int)
    requires
        0 <= i <= shapes.len(),
        forall|j: int| 0 <= j < i ==> !(#[trigger] shapes[j]).cells().contains(c),
    ensures
        first_settled_kind(shapes, c) == first_settled_kind(shapes.skip(i), c),
    decreases i,
{
    if i == 0 {
        assert(shapes.skip(0) =~= shapes);
    } else {
        assert(!shapes[0].cells().contains(c));
        assert(shapes.drop_first() =~= shapes.skip(1));
        lemma_first_settled_prefix(shapes.drop_first(), c, i - 1);
        assert(shapes.drop_first().skip(i - 1) =~= shapes.skip(i));
    }
}

} // verus!
