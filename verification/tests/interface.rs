use tetris::interface::Tetris;
use tetris::position::Pos;
use tetris::shape::Shape;

#[test]
fn test() {
    println!("{:#?}", Tetris::new(5, 10))
}

#[test]
fn reduced_engine_settles_without_clearing() {
    let mut t = Tetris::new(4, 3);
    for _ in 0..10 {
        if t.fixed_shapes.len() == 1 {
            break;
        }
        t.tick();
    }
    assert_eq!(t.fixed_shapes.len(), 1);
}

#[test]
fn reduced_engine_bounds_and_collision() {
    let t = Tetris::new(10, 20);
    let inside = Shape::spawn(tetris::shape::Kind::O).translated(Pos(4, 4));
    assert!(!t.is_out_of_bounds(&inside));
    let outside = inside.translated(Pos(8, 0));
    assert!(t.is_out_of_bounds(&outside));
    assert!(!t.is_colliding(&inside));
}
