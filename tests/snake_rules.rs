use term_snake::snake::{collides_with_body, is_reverse, Direction, MoveResult, Snake};

#[test]
fn new_snake_facing_right_trails_left() {
    let s = Snake::new((10, 10), 3, Direction::Right);
    assert_eq!(s.body(), &[(8, 10), (9, 10), (10, 10)]);
    assert_eq!(s.get_direction(), Direction::Right);
}

#[test]
fn new_snake_facing_up_trails_down() {
    let s = Snake::new((5, 5), 4, Direction::Up);
    assert_eq!(s.body(), &[(5, 8), (5, 7), (5, 6), (5, 5)]);
}

#[test]
fn new_snake_of_length_one() {
    let s = Snake::new((3, 4), 1, Direction::Left);
    assert_eq!(s.body(), &[(3, 4)]);
}

#[test]
fn reverse_turn_is_ignored() {
    let mut s = Snake::new((10, 10), 3, Direction::Right);
    s.set_direction(Direction::Left);
    assert_eq!(s.get_direction(), Direction::Right);
    assert!(is_reverse(Direction::Up, Direction::Down));
    assert!(!is_reverse(Direction::Up, Direction::Left));
}

#[test]
fn turn_takes_effect_on_next_move() {
    let mut s = Snake::new((10, 10), 3, Direction::Right);
    s.set_direction(Direction::Up);
    s.set_direction(Direction::Left);
    assert_eq!(s.get_direction(), Direction::Left);
    let mut s = Snake::new((10, 10), 3, Direction::Right);
    s.set_direction(Direction::Down);
    match s.move_step(20, 20) {
        MoveResult::Moved { new_head, old_head, old_tail } => {
            assert_eq!(new_head, (10, 11));
            assert_eq!(old_head, (10, 10));
            assert_eq!(old_tail, Some((8, 10)));
        }
        MoveResult::Crashed => panic!("unexpected crash"),
    }
}

#[test]
fn moves_keep_length_without_growth() {
    let mut s = Snake::new((5, 5), 3, Direction::Right);
    for _ in 0..5 {
        assert!(matches!(s.move_step(20, 20), MoveResult::Moved { .. }));
        assert_eq!(s.body().len(), 3);
    }
    assert_eq!(s.body(), &[(8, 5), (9, 5), (10, 5)]);
}

#[test]
fn repeated_grow_adds_one_cell() {
    let mut s = Snake::new((5, 5), 3, Direction::Right);
    s.grow();
    s.grow();
    s.grow();
    let r = s.move_step(20, 20);
    assert_eq!(r, MoveResult::Moved { new_head: (6, 5), old_head: (5, 5), old_tail: None });
    assert_eq!(s.body().len(), 4);
    assert!(matches!(s.move_step(20, 20), MoveResult::Moved { old_tail: Some((3, 5)), .. }));
    assert_eq!(s.body().len(), 4);
}

#[test]
fn walls_crash_on_every_side() {
    let mut s = Snake::new((5, 1), 2, Direction::Right);
    s.set_direction(Direction::Up);
    assert_eq!(s.move_step(5, 5), MoveResult::Crashed);
    assert_eq!(s.body(), &[(4, 1), (5, 1)]);
    let mut s = Snake::new((1, 3), 1, Direction::Left);
    assert_eq!(s.move_step(5, 5), MoveResult::Crashed);
    let mut s = Snake::new((5, 3), 2, Direction::Right);
    assert_eq!(s.move_step(5, 5), MoveResult::Crashed);
    let mut s = Snake::new((3, 5), 2, Direction::Down);
    assert_eq!(s.move_step(5, 5), MoveResult::Crashed);
    let mut s = Snake::new((4, 3), 2, Direction::Right);
    assert!(matches!(s.move_step(5, 5), MoveResult::Moved { .. }));
}

#[test]
fn moving_into_body_crashes() {
    // A 5-cell snake bent into a hook: its head points back at its own neck.
    let mut s = Snake::new((5, 5), 5, Direction::Right);
    s.set_direction(Direction::Down);
    s.move_step(20, 20);
    s.set_direction(Direction::Left);
    s.move_step(20, 20);
    s.set_direction(Direction::Up);
    assert!(collides_with_body(s.body(), (4, 5)));
    assert_eq!(s.move_step(20, 20), MoveResult::Crashed);
}

#[test]
fn moving_into_tail_is_accepted() {
    // A 4-cell snake in a square: the head moves onto the tail's cell.
    let mut s = Snake::new((5, 5), 2, Direction::Right);
    s.grow();
    s.set_direction(Direction::Down);
    s.move_step(20, 20);
    s.grow();
    s.set_direction(Direction::Left);
    s.move_step(20, 20);
    assert_eq!(s.body(), &[(4, 5), (5, 5), (5, 6), (4, 6)]);
    s.set_direction(Direction::Up);
    assert!(!collides_with_body(s.body(), (4, 5)));
    let r = s.move_step(20, 20);
    assert_eq!(r, MoveResult::Moved { new_head: (4, 5), old_head: (4, 6), old_tail: Some((4, 5)) });
}

#[test]
fn head_glyph_follows_direction() {
    let mut s = Snake::new((5, 5), 2, Direction::Right);
    assert_eq!(s.head_char(), '>');
    s.set_direction(Direction::Up);
    assert_eq!(s.head_char(), '^');
    s.set_direction(Direction::Left);
    assert_eq!(s.head_char(), '<');
    s.set_direction(Direction::Down);
    assert_eq!(s.head_char(), 'v');
}
