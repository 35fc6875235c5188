use tetris::position::Pos;
use tetris::shape::{Kind, Shape};
use tetris::tetris::{Direction, Tetris};

fn sorted_cells(s: &Shape) -> Vec<(i32, i32)> {
    let mut v: Vec<(i32, i32)> = s.iter_positions().iter().map(|p| (p.0, p.1)).collect();
    v.sort();
    v
}

fn settled_cell_count(t: &Tetris) -> usize {
    t.fixed_shapes.iter().map(|s| s.iter_positions().len()).sum()
}

fn settled_has(t: &Tetris, x: i32, y: i32) -> bool {
    t.fixed_shapes.iter().any(|s| s.has_position(Pos(x, y)))
}

const ALL_KINDS: [Kind; 7] = [
    Kind::I,
    Kind::O,
    Kind::T,
    Kind::S,
    Kind::Z,
    Kind::J,
    Kind::L,
];

#[test]
fn tests() {
    let mut tetris = Tetris::new(10, 30);
    tetris.tick();
    tetris.tick();
    tetris.tick();
    println!("{:#?}", tetris);
}

#[test]
fn spawn_has_four_cells_and_canonical_pivot() {
    for &k in ALL_KINDS.iter() {
        let s = Shape::spawn(k);
        assert_eq!(s.iter_positions().len(), 4);
        let expected_anchor = match k {
            Kind::I => (1, 0),
            Kind::O => (0, 0),
            Kind::T => (0, 0),
            Kind::J => (0, 1),
            Kind::L => (0, 1),
            Kind::S => (0, 0),
            Kind::Z => (0, 0),
        };
        assert_eq!((s.anchor.0, s.anchor.1), expected_anchor);
    }
    let i = Shape::spawn(Kind::I);
    assert_eq!(sorted_cells(&i), vec![(0, 0), (1, 0), (2, 0), (3, 0)]);
    let z = Shape::spawn(Kind::Z);
    assert_eq!(sorted_cells(&z), vec![(-1, 0), (-1, 1), (0, 0), (0, 1)]);
}

#[test]
fn four_rotations_restore_cells() {
    for &k in ALL_KINDS.iter() {
        let s = Shape::spawn(k);
        let r = s.rotated().rotated().rotated().rotated();
        assert_eq!(sorted_cells(&r), sorted_cells(&s));
        assert_eq!((r.anchor.0, r.anchor.1), (s.anchor.0, s.anchor.1));
    }
}

#[test]
fn collision_is_symmetric_and_false_for_disjoint_copies() {
    let s = Shape::spawn(Kind::T);
    let far = s.translated(Pos(0, 5));
    assert!(!s.collides_with(&far));
    assert!(!far.collides_with(&s));
    let near = s.translated(Pos(0, 0));
    assert!(s.collides_with(&near));
    assert!(near.collides_with(&s));
}

#[test]
fn non_settling_step_moves_cells_down_one_row() {
    let mut t = Tetris::new_with(10, 20, Kind::O);
    let before = sorted_cells(&t.curr_shape);
    t.tick_with(Kind::O);
    let after = sorted_cells(&t.curr_shape);
    let moved: Vec<(i32, i32)> = before.iter().map(|&(x, y)| (x, y + 1)).collect();
    assert_eq!(after, moved);
}

#[test]
fn settled_piece_cells_stay_in_settled() {
    let mut t = Tetris::new_with(10, 20, Kind::O);
    let before = sorted_cells(&t.curr_shape);
    for _ in 0..25 {
        if t.fixed_shapes.len() == 1 {
            break;
        }
        t.tick_with(Kind::O);
    }
    assert_eq!(t.fixed_shapes.len(), 1);
    // no line was cleared, so the settled fragment holds the dropped cells
    let dropped: Vec<(i32, i32)> = before.iter().map(|&(x, y)| (x, y + 18)).collect();
    for &(x, y) in dropped.iter() {
        assert!(settled_has(&t, x, y));
    }
}

#[test]
fn first_settle_scenario() {
    let mut t = Tetris::new(10, 20);
    for _ in 0..100 {
        if t.fixed_shapes.len() == 1 {
            break;
        }
        t.tick();
    }
    assert_eq!(t.fixed_shapes.len(), 1);
    assert_eq!(t.score(), 0);
    assert!(!t.is_game_over());
}

/// Drops one vertical I bar into the given column of a 7-wide, 6-high field.
fn drop_bar(t: &mut Tetris, column: i32) {
    t.tick_with(Kind::I);
    t.rotate();
    // after the rotation the bar stands in column 4, rows 0..4
    let mut at = 4;
    while at < column {
        t.shift(Direction::Right);
        at += 1;
    }
    while at > column {
        t.shift(Direction::Left);
        at -= 1;
    }
    t.drop_with(Kind::I);
}

#[test]
fn four_simultaneous_lines_score_eight_hundred() {
    let mut t = Tetris::new_with(7, 6, Kind::I);
    for &c in [0, 1, 2, 3, 6, 5].iter() {
        drop_bar(&mut t, c);
        assert_eq!(t.score(), 0);
        assert!(!t.is_game_over());
    }
    let before_cells = settled_cell_count(&t) + 4;  // the bar about to settle
    drop_bar(&mut t, 4);
    assert_eq!(t.score(), 800);
    assert_eq!(
        before_cells - settled_cell_count(&t),
        4 * 7,
        "exactly four full rows vanish"
    );
    for y in 2..6 {
        for x in 0..7 {
            assert!(!settled_has(&t, x, y));
        }
    }
}

#[test]
fn shifting_into_the_wall_is_absorbed() {
    let mut t = Tetris::new_with(10, 20, Kind::O);
    for _ in 0..10 {
        t.shift(Direction::Left);
    }
    let against_wall = sorted_cells(&t.curr_shape);
    assert_eq!(against_wall[0].0, 0);
    t.shift(Direction::Left);
    assert_eq!(sorted_cells(&t.curr_shape), against_wall);
}

#[test]
fn blocked_spawn_ends_the_game_and_only_reset_recovers() {
    let mut t = Tetris::new_with(6, 4, Kind::O);
    t.drop_with(Kind::O);
    assert!(!t.is_game_over());
    t.drop_with(Kind::O);
    assert!(t.is_game_over());

    let frozen_active = sorted_cells(&t.curr_shape);
    let frozen_settled = t.fixed_shapes.len();
    let frozen_score = t.score();
    t.tick();
    t.shift(Direction::Left);
    t.rotate();
    t.drop();
    assert_eq!(sorted_cells(&t.curr_shape), frozen_active);
    assert_eq!(t.fixed_shapes.len(), frozen_settled);
    assert_eq!(t.score(), frozen_score);
    assert!(t.is_game_over());

    t.reset();
    assert!(!t.is_game_over());
    assert_eq!(t.score(), 0);
    assert_eq!(t.fixed_shapes.len(), 0);
}

#[test]
fn hard_drop_reaches_the_lowest_legal_position() {
    let mut t = Tetris::new_with(10, 20, Kind::T);
    // the T spawns with cells (5,0) (6,0) (7,0) (6,1)
    t.drop_with(Kind::T);
    assert!(settled_has(&t, 5, 18));
    assert!(settled_has(&t, 6, 18));
    assert!(settled_has(&t, 7, 18));
    assert!(settled_has(&t, 6, 19));
    assert_eq!(t.get(Pos(6, 19)), Some(Kind::T));
    // nothing floats above an occupied bottom row
    assert!(!settled_has(&t, 6, 17));
}

#[test]
fn full_row_detection_by_exact_coverage() {
    let left = Shape::spawn(Kind::O).translated(Pos(0, 4));
    let right = Shape::spawn(Kind::O).translated(Pos(2, 4));
    let t = Tetris {
        width: 4,
        height: 6,
        curr_shape: Shape::spawn(Kind::O),
        fixed_shapes: vec![left, right],
        game_over: false,
        score: 0,
    };
    assert!(t.is_line_full(4));
    assert!(t.is_line_full(5));
    assert!(!t.is_line_full(3));

    let only_left = Shape::spawn(Kind::O).translated(Pos(0, 4));
    let partial = Tetris {
        width: 4,
        height: 6,
        curr_shape: Shape::spawn(Kind::O),
        fixed_shapes: vec![only_left],
        game_over: false,
        score: 0,
    };
    assert!(!partial.is_line_full(4));
}

#[test]
fn score_never_decreases_outside_reset() {
    let mut t = Tetris::new_with(7, 6, Kind::I);
    let mut last = t.score();
    for &c in [0, 1, 2, 3, 6, 5, 4].iter() {
        t.tick_with(Kind::I);
        assert!(t.score() >= last);
        last = t.score();
        t.rotate();
        let mut at = 4;
        while at != c {
            t.shift(if at < c { Direction::Right } else { Direction::Left });
            at += if at < c { 1 } else { -1 };
            assert!(t.score() >= last);
        }
        t.drop_with(Kind::I);
        assert!(t.score() >= last);
        last = t.score();
    }
    assert_eq!(t.score(), 800);
}

#[test]
fn scoring_table_for_one_and_two_lines() {
    // a 4-wide field: two O pieces complete two rows at once
    let mut t = Tetris::new_with(4, 6, Kind::O);
    t.shift(Direction::Left);
    t.shift(Direction::Left);
    t.drop_with(Kind::O);
    assert_eq!(t.score(), 0);
    t.drop_with(Kind::O);
    assert_eq!(t.score(), 300);
    assert_eq!(settled_cell_count(&t), 0);
}

#[test]
fn random_spawn_is_well_formed() {
    for _ in 0..20 {
        let s = Shape::new_rand();
        assert_eq!(s.iter_positions().len(), 4);
        let t = Tetris::new(10, 20);
        assert!(!t.is_game_over());
        assert_eq!(t.width(), 10);
        assert_eq!(t.height(), 20);
    }
}

#[test]
fn cell_queries_and_iteration_order() {
    let t = Tetris::new_with(3, 2, Kind::O);
    let all = t.iter_position();
    assert_eq!(all.len(), 6);
    let listed: Vec<(i32, i32)> = all.iter().map(|p| (p.0, p.1)).collect();
    assert_eq!(
        listed,
        vec![(0, 0), (1, 0), (2, 0), (0, 1), (1, 1), (2, 1)]
    );
    // the O spawned at x = 1 covers (1,0) (2,0) (1,1) (2,1)
    assert_eq!(t.get(Pos(1, 0)), Some(Kind::O));
    assert_eq!(t.get(Pos(0, 0)), None);
}

#[test]
fn removing_a_row_compacts_the_fragment() {
    // an O at (0,4) occupies (0,4) (1,4) (0,5) (1,5)
    let mut s = Shape::spawn(Kind::O).translated(Pos(0, 4));
    s.remove_line(5);
    // row 5 vanishes and row 4 falls into its place
    assert_eq!(sorted_cells(&s), vec![(0, 5), (1, 5)]);
    let mut upper = Shape::spawn(Kind::O).translated(Pos(0, 1));
    upper.remove_line(4);
    // nothing at row 4: everything above shifts down one row
    assert_eq!(sorted_cells(&upper), vec![(0, 2), (0, 3), (1, 2), (1, 3)]);
}

#[test]
fn membership_queries() {
    let s = Shape::spawn(Kind::L);
    assert!(s.has_position(Pos(1, 2)));
    assert!(!s.has_position(Pos(1, 1)));
    assert_eq!(s.typ(), Kind::L);
}

#[test]
fn coordinate_addition() {
    let p = Pos(2, -3).add(Pos(5, 4));
    assert_eq!((p.0, p.1), (7, 1));
}
