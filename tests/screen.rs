use term_snake::term::{Message, Output, TermManager};

fn apply(grid: &mut Vec<char>, width: u16, ops: &[Output]) {
    for op in ops {
        match op {
            Output::Put { x, y, ch } => grid[(*y as usize) * (width as usize) + (*x as usize)] = *ch,
            Output::Clear => grid.iter_mut().for_each(|c| *c = ' '),
        }
    }
}

#[test]
fn new_terminal_is_blank() {
    let mut t = TermManager::new(4, 3);
    assert_eq!(t.get_terminal_size(), (4, 3));
    assert_eq!(t.char_at((3, 2)), ' ');
    assert!(!t.has_message());
    assert!(t.flush().is_empty());
}

#[test]
fn print_at_writes_mirror_and_device() {
    let mut t = TermManager::new(4, 3);
    t.print_at((2, 1), 'a');
    assert_eq!(t.char_at((2, 1)), 'a');
    assert_eq!(t.flush(), vec![Output::Put { x: 2, y: 1, ch: 'a' }]);
    assert!(t.flush().is_empty());
}

#[test]
fn borders_frame_the_terminal() {
    let mut t = TermManager::new(4, 3);
    t.draw_borders(None);
    let row = |t: &TermManager, y: u16| (0..4).map(|x| t.char_at((x, y))).collect::<String>();
    assert_eq!(row(&t, 0), "+--+");
    assert_eq!(row(&t, 1), "|  |");
    assert_eq!(row(&t, 2), "+--+");
    assert_eq!(t.flush().len(), 4 + 4 + 1 + 1);
}

#[test]
fn smaller_border_leaves_the_rest() {
    let mut t = TermManager::new(5, 4);
    t.draw_borders(Some((3, 3)));
    assert_eq!(t.char_at((2, 2)), '+');
    assert_eq!(t.char_at((4, 3)), ' ');
    assert_eq!(t.char_at((1, 1)), ' ');
}

#[test]
fn message_is_centred_and_leaves_mirror() {
    let mut t = TermManager::new(10, 5);
    t.print_at((4, 2), 'z');
    t.flush();
    t.show_message(&["hi"]);
    let m = t.current_message().unwrap();
    assert_eq!(m, Message::new(4, 3, (3, 1)));
    assert_eq!((m.width(), m.height(), m.top_left()), (4, 3, (3, 1)));
    assert_eq!(t.char_at((4, 2)), 'z');
    let mut device = vec!['.'; 50];
    apply(&mut device, 10, &t.flush());
    let row: String = device[20..30].iter().collect();
    assert_eq!(row, "... hi ...");
}

#[test]
fn odd_padding_goes_right() {
    let mut t = TermManager::new(10, 5);
    t.show_message(&["ab", "c"]);
    let m = t.current_message().unwrap();
    assert_eq!((m.width(), m.height(), m.top_left()), (4, 4, (3, 0)));
    let mut device = vec!['.'; 50];
    apply(&mut device, 10, &t.flush());
    let row1: String = device[13..17].iter().collect();
    let row2: String = device[23..27].iter().collect();
    assert_eq!(row1, " ab ");
    assert_eq!(row2, " c  ");
}

#[test]
fn show_then_hide_restores_the_box() {
    let mut t = TermManager::new(10, 5);
    t.draw_borders(None);
    t.print_at((5, 2), 'q');
    let before: Vec<char> = (0..50).map(|i| t.char_at(((i % 10) as u16, (i / 10) as u16))).collect();
    let mut device = before.clone();
    t.flush();
    t.show_message(&["hello"]);
    apply(&mut device, 10, &t.flush());
    assert_ne!(device, before);
    t.hide_message();
    assert!(!t.has_message());
    apply(&mut device, 10, &t.flush());
    assert_eq!(device, before);
}

#[test]
fn second_message_replaces_first() {
    let mut t = TermManager::new(12, 6);
    let mut device = vec![' '; 72];
    t.show_message(&["a long line"]);
    apply(&mut device, 12, &t.flush());
    t.show_message(&["x"]);
    apply(&mut device, 12, &t.flush());
    assert_eq!(t.current_message().unwrap().width(), 3);
    t.hide_message();
    apply(&mut device, 12, &t.flush());
    assert!(device.iter().all(|c| *c == ' '));
}

#[test]
fn hide_without_message_does_nothing() {
    let mut t = TermManager::new(4, 3);
    t.hide_message();
    assert!(t.flush().is_empty());
}

#[test]
fn clear_blanks_mirror() {
    let mut t = TermManager::new(4, 3);
    t.print_at((1, 1), 'k');
    t.clear();
    assert_eq!(t.char_at((1, 1)), ' ');
    assert_eq!(t.flush().last(), Some(&Output::Clear));
}
