use vstd::prelude::*;

use crate::position::Pos;

verus! {

/// The seven canonical tetromino kinds.
#[derive(Debug, Clone, Copy, PartialEq, Eq, Structural)]
pub enum Kind {
    I,
    O,
    T,
    S,
    Z,
    J,
    L,
}

/// One tetromino: the falling piece or a settled fragment. `positions` is the
/// set of occupied cells (kept as a duplicate-free vector), `anchor` the fixed
/// point of rotation. The kind never changes after creation.
#[derive(Debug)]
pub struct Shape {
    pub typ: Kind,
    pub positions: Vec<Pos>,
    pub anchor: Pos,
}

/// The set of coordinates held by a sequence of cells.
pub open spec fn cells_of(s: Seq<Pos>) -> Set<(int, int)>
    decreases s.len(),
{
    if s.len() == 0 {
        Set::<(int, int)>::empty()
    } else {
        cells_of(s.drop_last()).insert(s.last()@)
    }
}

/// No two entries of the vector name the same coordinate.
pub open spec fn distinct_seq(s: Seq<Pos>) -> bool {
    forall|i: int, j: int| #![trigger s[i], s[j]] 0 <= i < j < s.len() ==> s[i]@ != s[j]@
}

/// `cells_of` is finite and holds exactly the coordinates of the entries.
pub proof fn lemma_cells_of(s: Seq<Pos>)
    ensures
        cells_of(s).finite(),
        forall|c: (int, int)|
            cells_of(s).contains(c) <==> (exists|i: int|
                0 <= i < s.len() && (#[trigger] s[i])@ == c),
    decreases s.len(),
{
    if s.len() == 0 {
    } else {
        lemma_cells_of(s.drop_last());
        assert forall|c: (int, int)| cells_of(s).contains(c) implies (exists|i: int|
            0 <= i < s.len() && (#[trigger] s[i])@ == c) by {
            if c == s.last()@ {
                assert((s[s.len() - 1])@ == c);
            } else {
                let i = choose|i: int| 0 <= i < s.drop_last().len() && (#[trigger] s.drop_last()[i])@
                    == c;
                assert((s[i])@ == c);
            }
        }
        assert forall|c: (int, int)| (exists|i: int| 0 <= i < s.len() && (#[trigger] s[i])@ == c)
            implies cells_of(s).contains(c) by {
            let i = choose|i: int| 0 <= i < s.len() && (#[trigger] s[i])@ == c;
            if i < s.len() - 1 {
                assert((s.drop_last()[i])@ == c);
            }
        }
    }
}

/// Every cell of `s` moved by `(dx, dy)`.
pub open spec fn shifted_cells(s: Set<(int, int)>, dx: int, dy: int) -> Set<(int, int)> {
    Set::new(|c: (int, int)| s.contains((c.0 - dx, c.1 - dy)))
}

/// One point rotated a quarter turn clockwise about the anchor `a`.
pub open spec fn rot_cw(c: (int, int), a: (int, int)) -> (int, int) {
    (a.0 + a.1 - c.1, a.1 - a.0 + c.0)
}

/// The inverse quarter turn; `rot_cw(rot_ccw(c, a), a) == c`.
pub open spec fn rot_ccw(c: (int, int), a: (int, int)) -> (int, int) {
    (c.1 - a.1 + a.0, a.0 + a.1 - c.0)
}

/// Every cell of `s` rotated a quarter turn clockwise about `a`.
pub open spec fn rotated_cells(s: Set<(int, int)>, a: (int, int)) -> Set<(int, int)> {
    Set::new(|c: (int, int)| s.contains(rot_ccw(c, a)))
}

/// Cells at row `y` are dropped; cells strictly above it move down one row;
/// cells below it stay.
pub open spec fn removed_row_set(s: Set<(int, int)>, y: int) -> Set<(int, int)> {
    Set::new(
        |c: (int, int)|
            (c.1 > y && s.contains(c)) || (c.1 <= y && s.contains((c.0, c.1 - 1)) && c.1 - 1 < y),
    )
}

/// Where a surviving cell lands when row `y` is removed.
pub open spec fn row_shift_pt(c: (int, int), y: int) -> (int, int) {
    if c.1 > y {
        c
    } else {
        (c.0, c.1 + 1)
    }
}

/// The cell vector after removing row `y`: entries at row `y` are dropped,
/// entries above it move down one row, the rest keep their place and order.
pub open spec fn compacted_seq(s: Seq<Pos>, y: int) -> Seq<Pos>
    decreases s.len(),
{
    if s.len() == 0 {
        Seq::<Pos>::empty()
    } else {
        let rest = compacted_seq(s.drop_last(), y);
        let p = s.last();
        if p@.1 == y {
            rest
        } else if p@.1 > y {
            rest.push(p)
        } else {
            rest.push(Pos(p.0, (p@.1 + 1) as i32))
        }
    }
}

/// `compacted_seq` realises `removed_row_set` and keeps entries distinct.
pub proof fn lemma_compacted(s: Seq<Pos>, y: int)
    requires
        distinct_seq(s),
        forall|i: int| 0 <= i < s.len() ==> (#[trigger] s[i])@.1 < y ==> s[i]@.1 + 1 <= i32::MAX,
    ensures
        distinct_seq(compacted_seq(s, y)),
        cells_of(compacted_seq(s, y)) == removed_row_set(cells_of(s), y),
        compacted_seq(s, y).len() <= s.len(),
    decreases s.len(),
{
    if s.len() == 0 {
        assert(cells_of(compacted_seq(s, y)) =~= removed_row_set(cells_of(s), y));
    } else {
        let d = s.drop_last();
        let p = s.last();
        assert(distinct_seq(d));
        lemma_compacted(d, y);
        lemma_cells_of(d);
        let rest = compacted_seq(d, y);
        lemma_cells_of(rest);
        assert(!cells_of(d).contains(p@));
        if p@.1 == y {
            assert forall|c: (int, int)|
                removed_row_set(cells_of(s), y).contains(c) == removed_row_set(
                    cells_of(d),
                    y,
                ).contains(c) by {
                if c.1 > y && c == p@ {
                    assert(false);
                }
            }
            assert(cells_of(compacted_seq(s, y)) =~= removed_row_set(cells_of(s), y));
        } else {
            let q = row_shift_pt(p@, y);
            let qp = if p@.1 > y {
                p
            } else {
                Pos(p.0, (p@.1 + 1) as i32)
            };
            assert(qp@ == q);
            assert(compacted_seq(s, y) == rest.push(qp));
            assert(cells_of(rest.push(qp)) == cells_of(rest).insert(q)) by {
                assert(rest.push(qp).drop_last() =~= rest);
            }
            assert(!cells_of(rest).contains(q));
            assert forall|aa: int, bb: int|
                #![trigger compacted_seq(s, y)[aa], compacted_seq(s, y)[bb]]
                0 <= aa < bb < compacted_seq(s, y).len() implies (compacted_seq(s, y)[aa])@ != (
            compacted_seq(s, y)[bb])@ by {
                if bb < compacted_seq(s, y).len() - 1 {
                    assert((rest[aa])@ != (rest[bb])@);
                } else {
                    assert(compacted_seq(s, y)[bb] == qp);
                    assert(cells_of(rest).contains(rest[aa]@));
                }
            }
            assert(cells_of(rest).insert(q) =~= removed_row_set(cells_of(s), y));
        }
    }
}

/// Two cell sets share a coordinate.
pub open spec fn overlaps(a: Set<(int, int)>, b: Set<(int, int)>) -> bool {
    exists|c: (int, int)| #![trigger a.contains(c), b.contains(c)] a.contains(c) && b.contains(c)
}

/// The canonical base layout of each kind.
pub open spec fn canon_cells(k: Kind) -> Set<(int, int)> {
    match k {
        Kind::I => set![(0int, 0int), (1int, 0int), (2int, 0int), (3int, 0int)],
        Kind::O => set![(0int, 0int), (1int, 0int), (0int, 1int), (1int, 1int)],
        Kind::T => set![(0int, 0int), (1int, 0int), (2int, 0int), (1int, 1int)],
        Kind::J => set![(0int, 0int), (0int, 1int), (0int, 2int), (-1int, 2int)],
        Kind::L => set![(0int, 0int), (0int, 1int), (0int, 2int), (1int, 2int)],
        Kind::S => set![(0int, 0int), (1int, 0int), (0int, 1int), (-1int, 1int)],
        Kind::Z => set![(0int, 0int), (-1int, 0int), (0int, 1int), (-1int, 1int)],
    }
}

/// The canonical rotation anchor of each kind.
pub open spec fn canon_anchor(k: Kind) -> (int, int) {
    match k {
        Kind::I => (1int, 0int),
        Kind::O => (0int, 0int),
        Kind::T => (0int, 0int),
        Kind::J => (0int, 1int),
        Kind::L => (0int, 1int),
        Kind::S => (0int, 0int),
        Kind::Z => (0int, 0int),
    }
}

impl Shape {
    /// The mathematical cell set of this shape.
    pub open spec fn cells(self) -> Set<(int, int)> {
        cells_of(self.positions@)
    }

    /// Well-formed: the cell vector holds no duplicate coordinate.
    pub open spec fn wf(self) -> bool {
        distinct_seq(self.positions@)
    }

    /// The kind tag, fixed at creation.
    pub fn typ(&self) -> (k: Kind)
        ensures
            k == self.typ,
    {
        self.typ
    }

    /// A copy of this shape with the same model.
    pub fn cloned(&self) -> (r: Shape)
        ensures
            r.typ == self.typ,
            r.anchor == self.anchor,
            r.positions@ == self.positions@,
    {
        let mut v: Vec<Pos> = Vec::new();
        let mut i: usize = 0;
        while i < self.positions.len()
            invariant
                0 <= i <= self.positions@.len(),
                v@ == self.positions@.take(i as int),
            decreases self.positions@.len() - i,
        {
            v.push(self.positions[i]);
            proof {
                assert(v@ =~= self.positions@.take(i as int + 1));
            }
            i += 1;
        }
        proof {
            assert(v@ =~= self.positions@);
        }
        Shape { typ: self.typ, positions: v, anchor: self.anchor }
    }

    /// The occupied coordinates, as a vector.
    pub fn iter_positions(&self) -> (r: Vec<Pos>)
        ensures
            r@ == self.positions@,
    {
        let c = self.cloned();
        c.positions
    }

    /// Membership test on the cell set.
    pub fn has_position(&self, pos: Pos) -> (r: bool)
        ensures
            r == self.cells().contains(pos@),
    {
        proof {
            lemma_cells_of(self.positions@);
        }
        let mut i: usize = 0;
        while i < self.positions.len()
            invariant
                0 <= i <= self.positions@.len(),
                forall|j: int| 0 <= j < i ==> (#[trigger] self.positions@[j])@ != pos@,
            decreases self.positions@.len() - i,
        {
            if self.positions[i] == pos {
                proof {
                    lemma_cells_of(self.positions@);
                    assert((self.positions@[i as int])@ == pos@);
                }
                return true;
            }
            i += 1;
        }
        false
    }

    /// True iff the two cell sets intersect. Symmetric.
    pub fn collides_with(&self, other: &Shape) -> (r: bool)
        ensures
            r == overlaps(self.cells(), other.cells()),
    {
        proof {
            lemma_cells_of(self.positions@);
            lemma_cells_of(other.positions@);
        }
        let mut i: usize = 0;
        while i < self.positions.len()
            invariant
                0 <= i <= self.positions@.len(),
                forall|a: int, b: int| #![trigger self.positions@[a], other.positions@[b]]
                    0 <= a < i && 0 <= b < other.positions@.len()
                        ==> self.positions@[a]@ != other.positions@[b]@,
            decreases self.positions@.len() - i,
        {
            let p = self.positions[i];
            let mut j: usize = 0;
            while j < other.positions.len()
                invariant
                    0 <= j <= other.positions@.len(),
                    p == self.positions@[i as int],
                    i < self.positions@.len(),
                    forall|b: int| 0 <= b < j ==> (#[trigger] other.positions@[b])@ != p@,
                decreases other.positions@.len() - j,
            {
                if p == other.positions[j] {
                    proof {
                        lemma_cells_of(self.positions@);
                        lemma_cells_of(other.positions@);
                        assert((self.positions@[i as int])@ == p@);
                        assert((other.positions@[j as int])@ == p@);
                        assert(self.cells().contains(p@));
                        assert(other.cells().contains(p@));
                    }
                    return true;
                }
                j += 1;
            }
            i += 1;
        }
        proof {
            assert forall|c: (int, int)| !(self.cells().contains(c) && other.cells().contains(c)) by {
                if self.cells().contains(c) && other.cells().contains(c) {
                    let a = choose|a: int| 0 <= a < self.positions@.len() && (#[trigger] self
                        .positions@[a])@ == c;
                    let b = choose|b: int| 0 <= b < other.positions@.len() && (#[trigger] other
                        .positions@[b])@ == c;
                    assert(self.positions@[a]@ != other.positions@[b]@);
                }
            }
        }
        false
    }

    /// A new shape with every cell and the anchor offset by `delta`.
    pub fn translated(&self, delta: Pos) -> (r: Shape)
        requires
            forall|c: (int, int)| #[trigger] self.cells().contains(c)
                ==> i32::MIN <= c.0 + delta@.0 <= i32::MAX && i32::MIN <= c.1 + delta@.1
                    <= i32::MAX,
            i32::MIN <= self.anchor@.0 + delta@.0 <= i32::MAX,
            i32::MIN <= self.anchor@.1 + delta@.1 <= i32::MAX,
        ensures
            r.typ == self.typ,
            r.anchor@ == (self.anchor@.0 + delta@.0, self.anchor@.1 + delta@.1),
            r.cells() == shifted_cells(self.cells(), delta@.0, delta@.1),
            self.wf() ==> r.wf(),
            r.positions@.len() == self.positions@.len(),
    {
        proof {
            lemma_cells_of(self.positions@);
        }
        let mut v: Vec<Pos> = Vec::new();
        let mut i: usize = 0;
        while i < self.positions.len()
            invariant
                0 <= i <= self.positions@.len(),
                v@.len() == i,
                forall|c: (int, int)| #[trigger] self.cells().contains(c)
                    ==> i32::MIN <= c.0 + delta@.0 <= i32::MAX && i32::MIN <= c.1 + delta@.1
                        <= i32::MAX,
                forall|c: (int, int)|
                    self.cells().contains(c) <==> (exists|j: int|
                        0 <= j < self.positions@.len() && (#[trigger] self.positions@[j])@ == c),
                forall|j: int| 0 <= j < i ==> (#[trigger] v@[j])@ == (self.positions@[j]@.0
                    + delta@.0, self.positions@[j]@.1 + delta@.1),
            decreases self.positions@.len() - i,
        {
            let p = self.positions[i];
            proof {
                assert(self.cells().contains(p@));
            }
            v.push(Pos(p.0 + delta.0, p.1 + delta.1));
            i += 1;
        }
        let r = Shape {
            typ: self.typ,
            positions: v,
            anchor: Pos(self.anchor.0 + delta.0, self.anchor.1 + delta.1),
        };
        proof {
            lemma_cells_of(r.positions@);
            let dx = delta@.0;
            let dy = delta@.1;
            assert forall|c: (int, int)| r.cells().contains(c) implies shifted_cells(
                self.cells(),
                dx,
                dy,
            ).contains(c) by {
                let j = choose|j: int| 0 <= j < r.positions@.len() && (#[trigger] r.positions@[j])@
                    == c;
                assert(self.positions@[j]@ == (c.0 - dx, c.1 - dy));
            }
            assert forall|c: (int, int)| shifted_cells(self.cells(), dx, dy).contains(c) implies r
                .cells().contains(c) by {
                let j = choose|j: int| 0 <= j < self.positions@.len() && (#[trigger] self
                    .positions@[j])@ == (c.0 - dx, c.1 - dy);
                assert(r.positions@[j]@ == c);
            }
            assert(r.cells() =~= shifted_cells(self.cells(), dx, dy));
            if self.wf() {
                assert forall|a: int, b: int| #![trigger r.positions@[a], r.positions@[b]]
                    0 <= a < b < r.positions@.len() implies r.positions@[a]@ != r.positions@[b]@ by {
                    assert(self.positions@[a]@ != self.positions@[b]@);
                }
            }
        }
        r
    }

    /// A quarter turn clockwise about the anchor; the anchor itself is the
    /// fixed point and does not move.
    pub fn rotated(&self) -> (r: Shape)
        requires
            i32::MIN <= self.anchor@.0 + self.anchor@.1 <= i32::MAX,
            i32::MIN <= self.anchor@.1 - self.anchor@.0 <= i32::MAX,
            forall|c: (int, int)| #[trigger] self.cells().contains(c)
                ==> i32::MIN <= self.anchor@.0 + self.anchor@.1 - c.1 <= i32::MAX && i32::MIN
                    <= self.anchor@.1 - self.anchor@.0 + c.0 <= i32::MAX,
        ensures
            r.typ == self.typ,
            r.anchor == self.anchor,
            r.cells() == rotated_cells(self.cells(), self.anchor@),
            self.wf() ==> r.wf(),
            r.positions@.len() == self.positions@.len(),
    {
        proof {
            lemma_cells_of(self.positions@);
        }
        let a = self.anchor.0;
        let b = self.anchor.1;
        let mut v: Vec<Pos> = Vec::new();
        let mut i: usize = 0;
        while i < self.positions.len()
            invariant
                0 <= i <= self.positions@.len(),
                v@.len() == i,
                a == self.anchor.0,
                b == self.anchor.1,
                i32::MIN <= self.anchor@.0 + self.anchor@.1 <= i32::MAX,
                i32::MIN <= self.anchor@.1 - self.anchor@.0 <= i32::MAX,
                forall|c: (int, int)| #[trigger] self.cells().contains(c)
                    ==> i32::MIN <= self.anchor@.0 + self.anchor@.1 - c.1 <= i32::MAX && i32::MIN
                        <= self.anchor@.1 - self.anchor@.0 + c.0 <= i32::MAX,
                forall|c: (int, int)|
                    self.cells().contains(c) <==> (exists|j: int|
                        0 <= j < self.positions@.len() && (#[trigger] self.positions@[j])@ == c),
                forall|j: int| 0 <= j < i ==> (#[trigger] v@[j])@ == rot_cw(
                    self.positions@[j]@,
                    self.anchor@,
                ),
            decreases self.positions@.len() - i,
        {
            let p = self.positions[i];
            proof {
                assert(self.cells().contains(p@));
            }
            let s = a + b;
            let d = b - a;
            v.push(Pos(s - p.1, d + p.0));
            i += 1;
        }
        let r = Shape { typ: self.typ, positions: v, anchor: self.anchor };
        proof {
            lemma_cells_of(r.positions@);
            let av = self.anchor@;
            assert forall|c: (int, int)| r.cells().contains(c) implies rotated_cells(
                self.cells(),
                av,
            ).contains(c) by {
                let j = choose|j: int| 0 <= j < r.positions@.len() && (#[trigger] r.positions@[j])@
                    == c;
                assert(c == rot_cw(self.positions@[j]@, av));
                assert(rot_ccw(c, av) == self.positions@[j]@);
            }
            assert forall|c: (int, int)| rotated_cells(self.cells(), av).contains(c) implies r
                .cells().contains(c) by {
                let j = choose|j: int| 0 <= j < self.positions@.len() && (#[trigger] self
                    .positions@[j])@ == rot_ccw(c, av);
                assert(rot_cw(rot_ccw(c, av), av) == c);
                assert(r.positions@[j]@ == c);
            }
            assert(r.cells() =~= rotated_cells(self.cells(), av));
            if self.wf() {
                assert forall|x: int, y: int| #![trigger r.positions@[x], r.positions@[y]]
                    0 <= x < y < r.positions@.len() implies r.positions@[x]@ != r.positions@[y]@ by {
                    assert(self.positions@[x]@ != self.positions@[y]@);
                    assert(rot_ccw(rot_cw(self.positions@[x]@, av), av) == self.positions@[x]@);
                    assert(rot_ccw(rot_cw(self.positions@[y]@, av), av) == self.positions@[y]@);
                }
            }
        }
        r
    }

    /// Removes every cell at row `y`, then shifts the remaining cells that lie
    /// strictly above `y` down by one row.
    pub fn remove_line(&mut self, y: i32)
        requires
            old(self).wf(),
        ensures
            final(self).wf(),
            final(self).typ == old(self).typ,
            final(self).anchor == old(self).anchor,
            final(self).cells() == removed_row_set(old(self).cells(), y as int),
            final(self).positions@.len() <= old(self).positions@.len(),
    {
        let ghost olds = self.positions@;
        let yi = y;
        let mut v: Vec<Pos> = Vec::new();
        let mut i: usize = 0;
        proof {
            assert(olds.take(0) =~= Seq::<Pos>::empty());
        }
        while i < self.positions.len()
            invariant
                0 <= i <= olds.len(),
                olds == self.positions@,
                yi == y,
                distinct_seq(olds),
                v@ == compacted_seq(olds.take(i as int), y as int),
            decreases olds.len() - i,
        {
            let p = self.positions[i];
            proof {
                assert(olds.take(i as int + 1).drop_last() =~= olds.take(i as int));
                assert(olds.take(i as int + 1).last() == olds[i as int]);
            }
            if p.1 != yi {
                let q = if p.1 > yi {
                    p
                } else {
                    Pos(p.0, p.1 + 1)
                };
                v.push(q);
            }
            i += 1;
        }
        proof {
            assert(olds.take(olds.len() as int) =~= olds);
            lemma_compacted(olds, y as int);
        }
        self.positions = v;
    }
}

/// Relies on `rand::random`, which draws a value of the given type from the
/// thread-local generator; nothing is promised of the value drawn.
pub assume_specification<T>[ rand::random::<T> ]() -> (r: T)
    where
        rand::distributions::Standard: rand::distributions::Distribution<T>,
;

impl Shape {
    /// The canonical layout of the given kind, at the origin.
    pub fn spawn(k: Kind) -> (r: Shape)
        ensures
            r.wf(),
            r.typ == k,
            r.positions@.len() == 4,
            r.cells() == canon_cells(k),
            r.anchor@ == canon_anchor(k),
    {
        let r = match k {
            Kind::I => shape4(k, Pos(0, 0), Pos(1, 0), Pos(2, 0), Pos(3, 0), Pos(1, 0)),
            Kind::O => shape4(k, Pos(0, 0), Pos(1, 0), Pos(0, 1), Pos(1, 1), Pos(0, 0)),
            Kind::T => shape4(k, Pos(0, 0), Pos(1, 0), Pos(2, 0), Pos(1, 1), Pos(0, 0)),
            Kind::J => shape4(k, Pos(0, 0), Pos(0, 1), Pos(0, 2), Pos(-1, 2), Pos(0, 1)),
            Kind::L => shape4(k, Pos(0, 0), Pos(0, 1), Pos(0, 2), Pos(1, 2), Pos(0, 1)),
            Kind::S => shape4(k, Pos(0, 0), Pos(1, 0), Pos(0, 1), Pos(-1, 1), Pos(0, 0)),
            Kind::Z => shape4(k, Pos(0, 0), Pos(-1, 0), Pos(0, 1), Pos(-1, 1), Pos(0, 0)),
        };
        proof {
            assert(r.cells() =~= canon_cells(k));
        }
        r
    }

    /// A shape of a kind picked by the process-wide random source.
    pub fn new_rand() -> (r: Shape)
        ensures
            r.wf(),
            r.positions@.len() == 4,
            r.cells() == canon_cells(r.typ),
            r.anchor@ == canon_anchor(r.typ),
    {
        let b: u8 = rand::random::<u8>();
        let k = kind_of_index(b % 7);
        Shape::spawn(k)
    }
}

/// Maps an index below seven to a kind; every kind is reached.
fn kind_of_index(i: u8) -> (k: Kind)
    requires
        i < 7,
{
    match i {
        0 => Kind::I,
        1 => Kind::O,
        2 => Kind::T,
        3 => Kind::J,
        4 => Kind::L,
        5 => Kind::S,
        _ => Kind::Z,
    }
}

/// Builds a four-cell shape from distinct coordinates.
fn shape4(k: Kind, p0: Pos, p1: Pos, p2: Pos, p3: Pos, anchor: Pos) -> (r: Shape)
    requires
        p0@ != p1@,
        p0@ != p2@,
        p0@ != p3@,
        p1@ != p2@,
        p1@ != p3@,
        p2@ != p3@,
    ensures
        r.typ == k,
        r.anchor == anchor,
        r.wf(),
        r.positions@.len() == 4,
        r.cells() == set![p0@, p1@, p2@, p3@],
{
    let mut v: Vec<Pos> = Vec::new();
    v.push(p0);
    v.push(p1);
    v.push(p2);
    v.push(p3);
    let r = Shape { typ: k, positions: v, anchor };
    proof {
        let s = r.positions@;
        assert(s.len() == 4);
        assert(s[0] == p0 && s[1] == p1 && s[2] == p2 && s[3] == p3);
        lemma_cells_of(s);
        assert(r.cells() =~= set![p0@, p1@, p2@, p3@]) by {
            assert(s[0]@ == p0@ && s[1]@ == p1@ && s[2]@ == p2@ && s[3]@ == p3@);
        }
        assert(distinct_seq(s));
    }
    r
}

/// Every canonical layout has four cells, all within the small box around the
/// origin, and none farther than two cells from its anchor in either axis.
pub proof fn lemma_canon_props(k: Kind)
    ensures
        canon_cells(k).finite(),
        canon_cells(k).len() == 4,
        forall|c: (int, int)| #[trigger] canon_cells(k).contains(c)
            ==> -1 <= c.0 <= 3 && 0 <= c.1 <= 2 && -2 <= c.0 - canon_anchor(k).0 <= 2 && -2 <= c.1
                - canon_anchor(k).1 <= 2,
        0 <= canon_anchor(k).0 <= 1,
        0 <= canon_anchor(k).1 <= 1,
{
    let s = canon_cells(k);
    match k {
        Kind::I => {
            assert(s.len() == 4);
        }
        Kind::O => {
            assert(s.len() == 4);
        }
        Kind::T => {
            assert(s.len() == 4);
        }
        Kind::J => {
            assert(s.len() == 4);
        }
        Kind::L => {
            assert(s.len() == 4);
        }
        Kind::S => {
            assert(s.len() == 4);
        }
        Kind::Z => {
            assert(s.len() == 4);
        }
    }
}

/// Rotating any cell set four times about the same anchor restores it exactly.
pub proof fn lemma_rotated_four_times(s: Set<(int, int)>, a: (int, int))
    ensures
        rotated_cells(rotated_cells(rotated_cells(rotated_cells(s, a), a), a), a) == s,
{
    let r4 = rotated_cells(rotated_cells(rotated_cells(rotated_cells(s, a), a), a), a);
    assert forall|c: (int, int)| r4.contains(c) == s.contains(c) by {
        let c1 = rot_ccw(c, a);
        let c2 = rot_ccw(c1, a);
        let c3 = rot_ccw(c2, a);
        let c4 = rot_ccw(c3, a);
        assert(c4 == c);
    }
    assert(r4 =~= s);
}

/// Collision is symmetric.
pub proof fn lemma_overlaps_symmetric(a: Set<(int, int)>, b: Set<(int, int)>)
    ensures
        overlaps(a, b) == overlaps(b, a),
{
    if overlaps(a, b) {
        let c = choose|c: (int, int)| #![trigger a.contains(c), b.contains(c)] a.contains(c)
            && b.contains(c);
        assert(b.contains(c) && a.contains(c));
    }
    if overlaps(b, a) {
        let c = choose|c: (int, int)| #![trigger b.contains(c), a.contains(c)] b.contains(c)
            && a.contains(c);
        assert(a.contains(c) && b.contains(c));
    }
}

/// Two translated copies of one shape that share no coordinate never collide.
pub proof fn lemma_disjoint_copies_no_collision(s: Set<(int, int)>, d1: (int, int), d2: (int, int))
    requires
        shifted_cells(s, d1.0, d1.1).disjoint(shifted_cells(s, d2.0, d2.1)),
    ensures
        !overlaps(shifted_cells(s, d1.0, d1.1), shifted_cells(s, d2.0, d2.1)),
        !overlaps(shifted_cells(s, d2.0, d2.1), shifted_cells(s, d1.0, d1.1)),
{
    let a = shifted_cells(s, d1.0, d1.1);
    let b = shifted_cells(s, d2.0, d2.1);
    if overlaps(a, b) {
        let c = choose|c: (int, int)| #![trigger a.contains(c), b.contains(c)] a.contains(c)
            && b.contains(c);
        assert(false);
    }
    lemma_overlaps_symmetric(a, b);
}

} // verus!
