use term_snake::game::{
    is_ctrl_c, key_command, step_counter, vertical_counter, Command, Key, KeyCode, Round,
    SnakeGame, TickResult, TICKS_UNTIL_UPDATE,
};
use term_snake::snake::{Direction, Snake};
use term_snake::term::Output;

fn ready_game() -> SnakeGame {
    let mut g = SnakeGame::new(40, 20);
    g.initialize();
    g
}

fn key(code: KeyCode) -> Key {
    Key { code, ctrl: false }
}

fn in_arena(c: (u16, u16)) -> bool {
    c.0 >= 1 && c.0 <= 38 && c.1 >= 1 && c.1 <= 18
}

fn device_after(g: &mut SnakeGame) -> Vec<char> {
    let mut device = vec![' '; 40 * 20];
    for op in g.flush() {
        match op {
            Output::Put { x, y, ch } => device[y as usize * 40 + x as usize] = ch,
            Output::Clear => device.iter_mut().for_each(|c| *c = ' '),
        }
    }
    device
}

#[test]
fn step_counter_formula() {
    assert_eq!(step_counter(10, 0), 10);
    assert_eq!(step_counter(10, 6), 10);
    assert_eq!(step_counter(10, 7), 9);
    assert_eq!(step_counter(10, 63), 1);
    assert_eq!(step_counter(10, 70), 1);
    assert_eq!(step_counter(10, 700), 1);
    assert_eq!(step_counter(10, u64::MAX), 1);
}

#[test]
fn vertical_counter_rounds_up() {
    assert_eq!(vertical_counter(1), 2);
    assert_eq!(vertical_counter(9), 13);
    assert_eq!(vertical_counter(10), 14);
    assert_eq!(vertical_counter(20), 27);
}

#[test]
fn end_to_end_speed_schedule() {
    assert_eq!(TICKS_UNTIL_UPDATE, 10);
    assert_eq!(step_counter(TICKS_UNTIL_UPDATE, 0), 10);
    assert_eq!(step_counter(TICKS_UNTIL_UPDATE, 7), 9);
    assert_eq!(step_counter(TICKS_UNTIL_UPDATE, 70), 1);
    assert_eq!(step_counter(TICKS_UNTIL_UPDATE, 75), 1);
}

#[test]
fn keys_map_to_commands() {
    assert_eq!(key_command(&key(KeyCode::Char('w'))), Command::Turn(Direction::Up));
    assert_eq!(key_command(&key(KeyCode::Up)), Command::Turn(Direction::Up));
    assert_eq!(key_command(&key(KeyCode::Char('a'))), Command::Turn(Direction::Left));
    assert_eq!(key_command(&key(KeyCode::Left)), Command::Turn(Direction::Left));
    assert_eq!(key_command(&key(KeyCode::Char('s'))), Command::Turn(Direction::Down));
    assert_eq!(key_command(&key(KeyCode::Down)), Command::Turn(Direction::Down));
    assert_eq!(key_command(&key(KeyCode::Char('d'))), Command::Turn(Direction::Right));
    assert_eq!(key_command(&key(KeyCode::Right)), Command::Turn(Direction::Right));
    assert_eq!(key_command(&key(KeyCode::Esc)), Command::TogglePause);
    assert_eq!(key_command(&key(KeyCode::Char('c'))), Command::Ignore);
    assert_eq!(key_command(&key(KeyCode::Other)), Command::Ignore);
    let ctrl_c = Key { code: KeyCode::Char('c'), ctrl: true };
    assert!(is_ctrl_c(&ctrl_c));
    assert_eq!(key_command(&ctrl_c), Command::Quit);
    assert!(!is_ctrl_c(&key(KeyCode::Char('c'))));
}

#[test]
fn round_starts_with_centred_snake_and_free_apple() {
    let mut g = ready_game();
    let round = g.start_round().unwrap();
    assert_eq!(round.snake.body(), &[(15, 10), (16, 10), (17, 10), (18, 10), (19, 10), (20, 10)]);
    assert_eq!(round.ticks_until_step, 10);
    assert_eq!(round.score(), 0);
    assert!(in_arena(round.apple));
    assert!(!round.snake.body().contains(&round.apple));
    assert_eq!(g.term().char_at(round.apple), 'O');
    assert_eq!(g.term().char_at((20, 10)), '>');
    assert_eq!(g.term().char_at((0, 0)), '+');
    assert!(!g.term().has_message());
}

#[test]
fn apples_never_land_on_the_snake() {
    let mut g = ready_game();
    for _ in 0..50 {
        let round = g.start_round().unwrap();
        assert!(in_arena(round.apple));
        assert!(!round.snake.body().contains(&round.apple));
    }
}

#[test]
fn step_comes_after_countdown() {
    let mut g = ready_game();
    let mut round = g.start_round().unwrap();
    round.apple = (1, 1);
    for _ in 0..9 {
        assert_eq!(g.tick(&mut round), TickResult::Idle);
    }
    assert_eq!(round.ticks_until_step, 1);
    assert_eq!(g.tick(&mut round), TickResult::Moved);
    assert_eq!(round.snake.body().last(), Some(&(21, 10)));
    assert_eq!(round.ticks_until_step, 10);
    assert_eq!(g.term().char_at((21, 10)), '>');
    assert_eq!(g.term().char_at((15, 10)), ' ');
}

#[test]
fn pending_turn_applies_at_step_and_slows_vertical() {
    let mut g = ready_game();
    let mut round = g.start_round().unwrap();
    round.apple = (1, 1);
    round.ticks_until_step = 1;
    g.handle_key(&mut round, &key(KeyCode::Char('s')));
    g.handle_key(&mut round, &key(KeyCode::Up));
    assert_eq!(round.dir_change, Some(Direction::Up));
    assert_eq!(g.tick(&mut round), TickResult::Moved);
    assert_eq!(round.dir_change, None);
    assert_eq!(round.snake.get_direction(), Direction::Up);
    assert_eq!(round.snake.body().last(), Some(&(20, 9)));
    assert_eq!(round.ticks_until_step, 14);
}

#[test]
fn score_seven_speeds_up() {
    let mut g = ready_game();
    let mut round = Round {
        snake: Snake::new((30, 10), 13, Direction::Right),
        apple: (1, 1),
        dir_change: None,
        ticks_until_step: 1,
    };
    assert_eq!(round.score(), 7);
    assert_eq!(g.tick(&mut round), TickResult::Moved);
    assert_eq!(round.ticks_until_step, 9);
    round.ticks_until_step = 1;
    round.dir_change = Some(Direction::Down);
    assert_eq!(g.tick(&mut round), TickResult::Moved);
    assert_eq!(round.ticks_until_step, 13);
}

#[test]
fn eating_an_apple_grows_and_replaces_it() {
    let mut g = ready_game();
    let mut round = g.start_round().unwrap();
    round.apple = (21, 10);
    round.ticks_until_step = 1;
    assert_eq!(g.tick(&mut round), TickResult::Moved);
    assert_ne!(round.apple, (21, 10));
    assert!(in_arena(round.apple));
    assert!(!round.snake.body().contains(&round.apple));
    round.ticks_until_step = 1;
    assert_eq!(g.tick(&mut round), TickResult::Moved);
    assert_eq!(round.snake.body().len(), 7);
    assert_eq!(round.score(), 1);
}

#[test]
fn crash_ends_round_with_score() {
    let mut g = ready_game();
    let mut round = Round {
        snake: Snake::new((38, 10), 13, Direction::Right),
        apple: (1, 1),
        dir_change: None,
        ticks_until_step: 1,
    };
    g.flush();
    assert_eq!(g.tick(&mut round), TickResult::Lost);
    assert_eq!(round.snake.body().len(), 13);
    assert!(g.term().has_message());
    assert_eq!(g.term().char_at((38, 10)), 'X');
    let device = device_after(&mut g);
    let text: String = device.iter().collect();
    assert!(text.contains("Game over!"));
    assert!(text.contains("Score: 7"));
}

#[test]
fn pause_freezes_the_round() {
    let mut g = ready_game();
    let mut round = g.start_round().unwrap();
    assert_eq!(g.handle_key(&mut round, &key(KeyCode::Esc)), Command::TogglePause);
    assert!(g.is_paused_now());
    assert!(g.term().has_message());
    let before = round.ticks_until_step;
    for _ in 0..20 {
        assert_eq!(g.tick(&mut round), TickResult::Idle);
    }
    assert_eq!(round.ticks_until_step, before);
    g.handle_key(&mut round, &key(KeyCode::Esc));
    assert!(!g.is_paused_now());
    assert!(!g.term().has_message());
}

#[test]
fn intro_shows_and_dismisses() {
    let mut g = ready_game();
    g.show_intro();
    assert!(g.term().has_message());
    let text: String = device_after(&mut g).iter().collect();
    assert!(text.contains("Arrow keys or WASD to move"));
    g.dismiss_message();
    assert!(!g.term().has_message());
}

fn apply_ops(device: &mut Vec<char>, ops: Vec<Output>) {
    for op in ops {
        match op {
            Output::Put { x, y, ch } => device[y as usize * 40 + x as usize] = ch,
            Output::Clear => device.iter_mut().for_each(|c| *c = ' '),
        }
    }
}

#[test]
fn spawned_apple_avoids_snake() {
    let mut g = ready_game();
    let snake = Snake::new((20, 10), 6, Direction::Right);
    for _ in 0..50 {
        let apple = g.spawn_apple(&snake).unwrap();
        assert!(in_arena(apple));
        assert!(!snake.body().contains(&apple));
        assert_eq!(g.term().char_at(apple), 'O');
    }
}

#[test]
fn pause_then_resume_restores_device() {
    let mut g = ready_game();
    let _round = g.start_round().unwrap();
    let mut device = vec!['.'; 40 * 20];
    apply_ops(&mut device, g.flush());
    let before = device.clone();
    g.toggle_pause();
    apply_ops(&mut device, g.flush());
    let text: String = device.iter().collect();
    assert!(text.contains("Press Esc to resume"));
    g.toggle_pause();
    apply_ops(&mut device, g.flush());
    assert!(!g.is_paused_now());
    assert!(!g.term().has_message());
    assert_eq!(device, before);
}

#[test]
fn new_game_screen_is_blank() {
    let g = SnakeGame::new(40, 20);
    assert_eq!(g.term().char_at((39, 19)), ' ');
    assert!(!g.term().has_message());
}
