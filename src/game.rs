//! The game rules: keys to commands, the step-speed formula, apple
//! placement, and the per-tick state machine of one round.

use vstd::prelude::*;

use rand::seq::SliceRandom;

use crate::snake::{
    as_int, crashes, head_glyph, next_cell, turn_result, Direction, MoveResult, Snake,
};
use crate::term::{
    border_glyph, border_ops, cell_of, lemma_message_round_trip, message_box, message_fits, message_ops, paint, queue_after_hide, restore_if, texts,
    widest, Output, TermManager,
};
use crate::Coords;

verus! {

/// Ticks per game step at score zero.
pub const TICKS_UNTIL_UPDATE: u64 = 10;

pub const INITIAL_SNAKE_LENGTH: i16 = 6;

/// The score gained between two speed-ups.
pub const POINTS_PER_SPEEDUP: u64 = 7;

pub const SNAKE_BODY_CHAR: char = '\u{2588}';

pub const APPLE_CHAR: char = 'O';

pub const DEAD_SNAKE_CHAR: char = 'X';

/// The smallest terminal that holds every message box and the first snake.
pub const MIN_WIDTH: u16 = 30;

pub const MIN_HEIGHT: u16 = 7;

/// The countdown before the next step: one tick fewer per seven points,
/// never below one.
pub open spec fn step_ticks(baseline: int, score: int) -> int {
    if baseline - score / 7 >= 1 {
        baseline - score / 7
    } else {
        1
    }
}

/// `t * 1.35` rounded up: vertical steps are slower, since terminal cells
/// are taller than wide.
pub open spec fn vertical_ticks(t: int) -> int {
    (t * 135 + 99) / 100
}

pub open spec fn is_vertical(d: Direction) -> bool {
    d == Direction::Up || d == Direction::Down
}

/// The countdown set at a step, for the score before the step and the
/// heading the snake moves in.
pub open spec fn next_countdown(score: int, d: Direction) -> int {
    let t = step_ticks(TICKS_UNTIL_UPDATE as int, score);
    if is_vertical(d) {
        vertical_ticks(t)
    } else {
        t
    }
}

/// `max(baseline - score / 7, 1)`, with the subtraction saturating.
pub fn step_counter(baseline: u64, score: u64) -> (r: u64)
    ensures
        r == step_ticks(baseline as int, score as int),
{
    match baseline.checked_sub(score / POINTS_PER_SPEEDUP) {
        Some(x) => if x >= 1 {
            x
        } else {
            1
        },
        None => 1,
    }
}

/// The countdown `t` stretched for a vertical step: `t * 1.35` rounded up.
pub fn vertical_counter(t: u64) -> (r: u64)
    requires
        vertical_ticks(t as int) <= u64::MAX,
    ensures
        r == vertical_ticks(t as int),
{
    (((t as u128) * 135 + 99) / 100) as u64
}

pub open spec fn digit_char(d: int) -> char {
    if d == 0 {
        '0'
    } else if d == 1 {
        '1'
    } else if d == 2 {
        '2'
    } else if d == 3 {
        '3'
    } else if d == 4 {
        '4'
    } else if d == 5 {
        '5'
    } else if d == 6 {
        '6'
    } else if d == 7 {
        '7'
    } else if d == 8 {
        '8'
    } else {
        '9'
    }
}

/// The decimal digits of `n`, most significant first, without leading zeros.
pub open spec fn decimal(n: nat) -> Seq<char>
    decreases n,
{
    if n < 10 {
        seq![digit_char(n as int)]
    } else {
        decimal(n / 10).push(digit_char((n % 10) as int))
    }
}

pub open spec fn score_prefix() -> Seq<char> {
    seq!['S', 'c', 'o', 'r', 'e', ':', ' ']
}

/// Relies on `format!` with `{}` on a `u64`, which writes its decimal digits.
#[verifier::external_body]
fn score_line(score: u64) -> (r: String)
    ensures
        r@ == score_prefix() + decimal(score as nat),
{
    format!("Score: {}", score)
}

/// Relies on rand's `SliceRandom::choose` on a slice, with the thread-local
/// generator: `None` for an empty slice, otherwise one of its elements.
#[verifier::external_body]
fn choose_cell(cells: &Vec<Coords>) -> (r: Option<Coords>)
    ensures
        r is None <==> cells@.len() == 0,
        r matches Some(c) ==> cells@.contains(c),
{
    cells.choose(&mut rand::thread_rng()).copied()
}

pub open spec fn pow10(k: nat) -> nat
    decreases k,
{
    if k == 0 {
        1
    } else {
        10 * pow10((k - 1) as nat)
    }
}

proof fn lemma_decimal_len(n: nat, k: nat)
    requires
        k >= 1,
        n < pow10(k),
    ensures
        decimal(n).len() <= k,
    decreases n,
{
    if n >= 10 {
        assert(k >= 2) by {
            if k == 1 {
                assert(pow10(1) == 10) by {
                    reveal_with_fuel(pow10, 2);
                }
            }
        }
        assert(n / 10 < pow10((k - 1) as nat));
        lemma_decimal_len(n / 10, (k - 1) as nat);
    }
}

/// A score line fits in twenty-seven characters.
proof fn lemma_score_line_len(score: u64)
    ensures
        (score_prefix() + decimal(score as nat)).len() <= 27,
{
    assert(pow10(20) == 100_000_000_000_000_000_000) by {
        reveal_with_fuel(pow10, 21);
    }
    lemma_decimal_len(score as nat, 20);
}

/// (`c.0`, `c.1`) lies inside the border of a `w` x `h` terminal.
pub open spec fn in_arena(c: Coords, w: int, h: int) -> bool {
    1 <= c.0 <= w - 2 && 1 <= c.1 <= h - 2
}

/// Row `y` of the arena, left to right.
pub open spec fn arena_row(w: int, y: int) -> Seq<Coords> {
    Seq::new((w - 2) as nat, |i: int| ((i + 1) as u16, y as u16))
}

/// The first `n` rows of the arena, top to bottom.
pub open spec fn arena_rows(w: int, n: int) -> Seq<Coords>
    decreases n,
{
    if n <= 0 {
        seq![]
    } else {
        arena_rows(w, n - 1) + arena_row(w, n)
    }
}

/// Every arena cell of a `w` x `h` terminal, row by row.
pub open spec fn arena_cells(w: int, h: int) -> Seq<Coords> {
    arena_rows(w, h - 2)
}

proof fn lemma_arena_member(w: int, n: int, c: Coords)
    requires
        2 <= w <= 0xFFFF,
        0 <= n <= 0xFFFF,
    ensures
        arena_rows(w, n).contains(c) <==> (1 <= c.0 <= w - 2 && 1 <= c.1 <= n),
    decreases n,
{
    if n > 0 {
        lemma_arena_member(w, n - 1, c);
        let a = arena_rows(w, n - 1);
        let b = arena_row(w, n);
        if 1 <= c.0 <= w - 2 && c.1 == n {
            assert((a + b)[a.len() + c.0 - 1] == c);
        }
        if (a + b).contains(c) {
            let i = choose|i: int| 0 <= i < (a + b).len() && (a + b)[i] == c;
            if i >= a.len() {
                assert(b[i - a.len()] == c);
            } else {
                assert(a[i] == c);
            }
        }
        if a.contains(c) {
            let i = choose|i: int| 0 <= i < a.len() && a[i] == c;
            assert((a + b)[i] == c);
        }
    }
}

/// The cells of `ps` that `body` does not occupy, in order.
pub open spec fn free_cells_of(ps: Seq<Coords>, body: Seq<Coords>) -> Seq<Coords>
    decreases ps.len(),
{
    if ps.len() == 0 {
        seq![]
    } else {
        let rest = free_cells_of(ps.drop_last(), body);
        if body.contains(ps.last()) {
            rest
        } else {
            rest.push(ps.last())
        }
    }
}

proof fn lemma_free_member(ps: Seq<Coords>, body: Seq<Coords>, c: Coords)
    ensures
        free_cells_of(ps, body).contains(c) <==> (ps.contains(c) && !body.contains(c)),
    decreases ps.len(),
{
    if ps.len() > 0 {
        lemma_free_member(ps.drop_last(), body, c);
        let rest = free_cells_of(ps.drop_last(), body);
        if ps.contains(c) && c != ps.last() {
            let i = choose|i: int| 0 <= i < ps.len() && ps[i] == c;
            assert(ps.drop_last()[i] == c);
        }
        if ps.drop_last().contains(c) {
            let i = choose|i: int| 0 <= i < ps.len() - 1 && ps.drop_last()[i] == c;
            assert(ps[i] == c);
        }
        if !body.contains(ps.last()) {
            if rest.push(ps.last()).contains(c) && c != ps.last() {
                let i = choose|i: int| 0 <= i < rest.len() + 1 && rest.push(ps.last())[i] == c;
                assert(rest[i] == c);
            }
            if rest.contains(c) {
                let i = choose|i: int| 0 <= i < rest.len() && rest[i] == c;
                assert(rest.push(ps.last())[i] == c);
            }
            assert(rest.push(ps.last())[rest.len() as int] == ps.last());
        }
    }
}

proof fn lemma_widest_at_most(ts: Seq<Seq<char>>, k: nat)
    requires
        forall|i: int| 0 <= i < ts.len() ==> #[trigger] ts[i].len() <= k,
    ensures
        widest(ts) <= k,
    decreases ts.len(),
{
    if ts.len() > 0 {
        assert forall|i: int| 0 <= i < ts.len() - 1 implies #[trigger] ts.drop_last()[i].len()
            <= k by {
            assert(ts.drop_last()[i] == ts[i]);
        }
        lemma_widest_at_most(ts.drop_last(), k);
        assert(ts.last() == ts[ts.len() - 1]);
    }
}

/// Up to five lines of at most twenty-eight characters fit a game terminal.
proof fn lemma_lines_fit(lines: Seq<&str>, cols: int, rows: int)
    requires
        1 <= lines.len() <= 5,
        forall|i: int| 0 <= i < lines.len() ==> #[trigger] lines[i]@.len() <= 28,
        cols >= MIN_WIDTH,
        rows >= MIN_HEIGHT,
    ensures
        message_fits(cols, rows, texts(lines)),
{
    let ts = texts(lines);
    assert forall|i: int| 0 <= i < ts.len() implies #[trigger] ts[i].len() <= 28 by {
        assert(ts[i] == lines[i]@);
    }
    lemma_widest_at_most(ts, 28);
}

/// A key as the game reads it.
#[derive(Clone, Copy, Debug, PartialEq, Eq, Structural)]
pub enum KeyCode {
    Char(char),
    Up,
    Down,
    Left,
    Right,
    Esc,
    Other,
}

/// A key press; `ctrl` holds when Control is the only modifier.
#[derive(Clone, Copy, Debug, PartialEq, Eq, Structural)]
pub struct Key {
    pub code: KeyCode,
    pub ctrl: bool,
}

/// What a key asks the game to do.
#[derive(Clone, Copy, Debug, PartialEq, Eq, Structural)]
pub enum Command {
    Quit,
    Turn(Direction),
    TogglePause,
    Ignore,
}

pub open spec fn command_of(k: Key) -> Command {
    if k.ctrl && k.code == KeyCode::Char('c') {
        Command::Quit
    } else {
        match k.code {
            KeyCode::Char('w') | KeyCode::Up => Command::Turn(Direction::Up),
            KeyCode::Char('a') | KeyCode::Left => Command::Turn(Direction::Left),
            KeyCode::Char('s') | KeyCode::Down => Command::Turn(Direction::Down),
            KeyCode::Char('d') | KeyCode::Right => Command::Turn(Direction::Right),
            KeyCode::Esc => Command::TogglePause,
            _ => Command::Ignore,
        }
    }
}

/// Whether the key is Ctrl+C, which quits from anywhere.
pub fn is_ctrl_c(key: &Key) -> (r: bool)
    ensures
        r == (key.ctrl && key.code == KeyCode::Char('c')),
{
    key.ctrl && match key.code {
        KeyCode::Char(c) => c == 'c',
        _ => false,
    }
}

/// Arrow keys and WASD turn, Esc pauses or resumes, Ctrl+C quits.
pub fn key_command(key: &Key) -> (r: Command)
    ensures
        r == command_of(*key),
{
    if is_ctrl_c(key) {
        return Command::Quit;
    }
    match key.code {
        KeyCode::Char(c) => if c == 'w' {
            Command::Turn(Direction::Up)
        } else if c == 'a' {
            Command::Turn(Direction::Left)
        } else if c == 's' {
            Command::Turn(Direction::Down)
        } else if c == 'd' {
            Command::Turn(Direction::Right)
        } else {
            Command::Ignore
        },
        KeyCode::Up => Command::Turn(Direction::Up),
        KeyCode::Left => Command::Turn(Direction::Left),
        KeyCode::Down => Command::Turn(Direction::Down),
        KeyCode::Right => Command::Turn(Direction::Right),
        KeyCode::Esc => Command::TogglePause,
        KeyCode::Other => Command::Ignore,
    }
}

/// What one tick did.
#[derive(Clone, Copy, Debug, PartialEq, Eq, Structural)]
pub enum TickResult {
    /// No step was due, or the game is paused.
    Idle,
    /// The snake took a step.
    Moved,
    /// The snake crashed; the round is over.
    Lost,
    /// The snake fills the arena; the round is over.
    Won,
}

/// The state of one round: the snake, the apple, the turn asked for since
/// the last step, and the ticks left until the next step.
pub struct Round {
    pub snake: Snake,
    pub apple: Coords,
    pub dir_change: Option<Direction>,
    pub ticks_until_step: u64,
}

impl Round {
    pub open spec fn valid(&self, w: int, h: int) -> bool {
        &&& self.snake.wf()
        &&& self.snake.cells().len() >= INITIAL_SNAKE_LENGTH
        &&& forall|i: int|
            0 <= i < self.snake.cells().len() ==> in_arena(#[trigger] self.snake.cells()[i], w, h)
        &&& in_arena(self.apple, w, h)
        &&& self.ticks_until_step >= 1
    }

    /// Apples eaten: the body length beyond the initial length.
    pub fn score(&self) -> (r: u64)
        requires
            self.snake.cells().len() >= INITIAL_SNAKE_LENGTH,
        ensures
            r == score_of(self.snake.cells().len() as int),
    {
        (self.snake.body().len() - INITIAL_SNAKE_LENGTH as usize) as u64
    }
}

pub open spec fn score_of(len: int) -> int {
    len - INITIAL_SNAKE_LENGTH
}

/// The heading a step uses: the pending turn, unless it is a direct reverse.
pub open spec fn heading_after(s: Snake, change: Option<Direction>) -> Direction {
    match change {
        Some(d) => turn_result(s.heading(), d),
        None => s.heading(),
    }
}

/// The cell the head moves to.
pub open spec fn head_cell(cells: Seq<Coords>, d: Direction) -> Coords {
    let nh = next_cell(cells.last(), d);
    (nh.0 as u16, nh.1 as u16)
}

/// The body after a successful step.
pub open spec fn moved_cells(cells: Seq<Coords>, d: Direction, grow: bool) -> Seq<Coords> {
    if grow {
        cells.push(head_cell(cells, d))
    } else {
        cells.push(head_cell(cells, d)).drop_first()
    }
}

/// What `move_step` returns for a step that does not crash.
pub open spec fn step_move(cells: Seq<Coords>, d: Direction, grow: bool) -> MoveResult {
    MoveResult::Moved {
        new_head: head_cell(cells, d),
        old_head: cells.last(),
        old_tail: if grow {
            None
        } else {
            Some(cells[0])
        },
    }
}

/// A blank `w` x `h` screen with a border round its edge, row-major.
pub open spec fn framed_blank(w: int, h: int) -> Seq<char> {
    Seq::new(
        (w * h) as nat,
        |i: int|
            match border_glyph(i % w, i / w, w, h) {
                Some(c) => c,
                None => ' ',
            },
    )
}

/// The starting body: six cells ending at the centre, facing right.
pub open spec fn start_cells(w: int, h: int) -> Seq<Coords> {
    Seq::new(6, |i: int| ((w / 2 - 5 + i) as u16, (h / 2) as u16))
}

/// The writes that draw a whole snake: the body glyph, then `head` last.
pub open spec fn snake_ops(cells: Seq<Coords>, head: char) -> Seq<Output> {
    Seq::new(
        cells.len(),
        |i: int|
            Output::Put {
                x: cells[i].0,
                y: cells[i].1,
                ch: if i == cells.len() - 1 {
                    head
                } else {
                    SNAKE_BODY_CHAR
                },
            },
    )
}

/// The writes that mark a crashed snake.
pub open spec fn dead_ops(cells: Seq<Coords>) -> Seq<Output> {
    Seq::new(cells.len(), |i: int| Output::Put { x: cells[i].0, y: cells[i].1, ch: DEAD_SNAKE_CHAR })
}

/// The writes after a step: the head glyph at the new head, the body glyph
/// at the old head, and a blank at the vacated tail.
pub open spec fn update_ops(mov: MoveResult, head: char) -> Seq<Output> {
    match mov {
        MoveResult::Moved { new_head, old_head, old_tail } => seq![
            Output::Put { x: new_head.0, y: new_head.1, ch: head },
            Output::Put { x: old_head.0, y: old_head.1, ch: SNAKE_BODY_CHAR },
        ] + match old_tail {
            Some(t) => seq![Output::Put { x: t.0, y: t.1, ch: ' ' }],
            None => seq![],
        },
        MoveResult::Crashed => seq![],
    }
}

pub open spec fn move_in_arena(mov: MoveResult, w: int, h: int) -> bool {
    mov matches MoveResult::Moved { new_head, old_head, old_tail } ==> {
        &&& in_arena(new_head, w, h)
        &&& in_arena(old_head, w, h)
        &&& old_tail matches Some(t) ==> in_arena(t, w, h)
    }
}

pub open spec fn pause_lines() -> Seq<&'static str> {
    seq!["Paused", "Press Esc to resume", "or Ctrl+C to quit"]
}

/// The lines of the end-of-round message.
pub open spec fn game_over_texts(win: bool, score: u64) -> Seq<Seq<char>> {
    seq![
        if win {
            "You won!"@
        } else {
            "Game over!"@
        },
        score_prefix() + decimal(score as nat),
        Seq::<char>::empty(),
        "Press any key to play again,"@,
        "or CTRL+C to quit."@,
    ]
}

/// `g1` is `g0` after `toggle_pause`: pausing draws the pause box over the
/// screen; resuming takes it down, writing the mirror back over it.
pub open spec fn pause_toggled(g0: SnakeGame, g1: SnakeGame) -> bool {
    let pause_box = message_box(g0.cols(), g0.rows(), texts(pause_lines()));
    &&& g1.ready()
    &&& g1.cols() == g0.cols()
    &&& g1.rows() == g0.rows()
    &&& g1.positions() == g0.positions()
    &&& g1.is_paused() == !g0.is_paused()
    &&& g1.screen().mirror() == g0.screen().mirror()
    &&& g1.screen().message() == if g0.is_paused() {
        None
    } else {
        Some(pause_box)
    }
    &&& g1.screen().queued() == queue_after_hide(g0.screen()) + if g0.is_paused() {
        Seq::empty()
    } else {
        message_ops(texts(pause_lines()), pause_box)
    }
}

/// Pausing and then resuming, with no message up before, leaves the game
/// unpaused with no message and the mirror as it was; the writes of the
/// resume put back, at every cell of the pause box, what the mirror held
/// there before the pause.
pub proof fn lemma_pause_round_trip(g0: SnakeGame, g1: SnakeGame, g2: SnakeGame)
    requires
        g0.ready(),
        !g0.is_paused(),
        g0.screen().message() is None,
        pause_toggled(g0, g1),
        pause_toggled(g1, g2),
    ensures
        !g2.is_paused(),
        g2.screen().message() is None,
        g2.screen().mirror() == g0.screen().mirror(),
        ({
            let m = message_box(g0.cols(), g0.rows(), texts(pause_lines()));
            let added = g2.screen().queued().subrange(
                g1.screen().queued().len() as int,
                g2.screen().queued().len() as int,
            );
            &&& added.len() == m.width * m.height
            &&& forall|dx: int, dy: int|
                0 <= dx < m.width && 0 <= dy < m.height ==> #[trigger] added[dy * m.width + dx]
                    == Output::Put {
                    x: (m.top_left.0 + dx) as u16,
                    y: (m.top_left.1 + dy) as u16,
                    ch: g0.screen().at(m.top_left.0 + dx, m.top_left.1 + dy),
                }
        }),
{
    reveal_strlit("Paused");
    reveal_strlit("Press Esc to resume");
    reveal_strlit("or Ctrl+C to quit");
    lemma_lines_fit(pause_lines(), g0.cols() as int, g0.rows() as int);
    assert(g2.screen().queued() =~= queue_after_hide(g1.screen()));
    lemma_message_round_trip(g0.screen(), pause_lines(), g1.screen(), g2.screen());
}

pub open spec fn intro_lines() -> Seq<&'static str> {
    seq![
        "Arrow keys or WASD to move",
        "Esc to pause",
        "CTRL+C to quit",
        "",
        "Press any key to begin",
    ]
}

/// Whether `c` is one of `cells`.
fn occupies(cells: &[Coords], c: Coords) -> (r: bool)
    ensures
        r == cells@.contains(c),
{
    let mut i: usize = 0;
    while i < cells.len()
        invariant
            i <= cells@.len(),
            forall|j: int| 0 <= j < i ==> cells@[j] != c,
        decreases cells.len() - i,
    {
        if cells[i].0 == c.0 && cells[i].1 == c.1 {
            assert(cells@[i as int] == c);
            return true;
        }
        i = i + 1;
    }
    false
}

/// The game: terminal size, pause state, screen buffer and the arena cells.
pub struct SnakeGame {
    width: u16,
    height: u16,
    paused: bool,
    term: TermManager,
    game_positions: Vec<Coords>,
}

impl SnakeGame {
    pub closed spec fn cols(&self) -> u16 {
        self.width
    }

    pub closed spec fn rows(&self) -> u16 {
        self.height
    }

    pub closed spec fn is_paused(&self) -> bool {
        self.paused
    }

    pub closed spec fn screen(&self) -> TermManager {
        self.term
    }

    /// The cells where an apple may be placed.
    pub closed spec fn positions(&self) -> Seq<Coords> {
        self.game_positions@
    }

    /// Initialised on a terminal large enough for the game.
    pub open spec fn ready(&self) -> bool {
        &&& self.screen().wf()
        &&& self.cols() == self.screen().cols()
        &&& self.rows() == self.screen().rows()
        &&& self.cols() >= MIN_WIDTH
        &&& self.rows() >= MIN_HEIGHT
        &&& self.positions() == arena_cells(self.cols() as int, self.rows() as int)
    }

    /// A game on a terminal of the given size, not yet initialised.
    pub fn new(term_width: u16, term_height: u16) -> (g: Self)
        ensures
            g.cols() == 0,
            g.rows() == 0,
            !g.is_paused(),
            g.screen().wf(),
            g.screen().cols() == term_width,
            g.screen().rows() == term_height,
            g.screen().mirror() == Seq::new((term_width * term_height) as nat, |i: int| ' '),
            g.screen().message() is None,
            g.screen().queued().len() == 0,
            g.positions().len() == 0,
    {
        SnakeGame {
            width: 0,
            height: 0,
            paused: false,
            term: TermManager::new(term_width, term_height),
            game_positions: Vec::new(),
        }
    }

    /// Takes the terminal size and lists the arena cells, row by row.
    pub fn initialize(&mut self)
        requires
            old(self).screen().cols() >= 2,
            old(self).screen().rows() >= 2,
        ensures
            final(self).cols() == old(self).screen().cols(),
            final(self).rows() == old(self).screen().rows(),
            final(self).screen() == old(self).screen(),
            final(self).is_paused() == old(self).is_paused(),
            final(self).positions() == old(self).positions() + arena_cells(
                final(self).cols() as int,
                final(self).rows() as int,
            ),
    {
        let (w, h) = self.term.get_terminal_size();
        self.width = w;
        self.height = h;
        let ghost start = self.game_positions@;
        let mut y: u16 = 1;
        while y < h - 1
            invariant
                self.width == w && self.height == h && w >= 2 && h >= 2,
                self.term == old(self).term,
                self.paused == old(self).paused,
                1 <= y <= h - 1,
                self.game_positions@ == start + arena_rows(w as int, y - 1),
            decreases h - 1 - y,
        {
            let ghost before = self.game_positions@;
            let mut x: u16 = 1;
            while x < w - 1
                invariant
                    self.width == w && self.height == h && w >= 2 && h >= 2,
                    self.term == old(self).term,
                    self.paused == old(self).paused,
                    1 <= y < h - 1,
                    1 <= x <= w - 1,
                    before == start + arena_rows(w as int, y - 1),
                    self.game_positions@ == before + Seq::new(
                        (x - 1) as nat,
                        |i: int| ((i + 1) as u16, y),
                    ),
                decreases w - 1 - x,
            {
                self.game_positions.push((x, y));
                x = x + 1;
                assert(self.game_positions@ =~= before + Seq::new(
                    (x - 1) as nat,
                    |i: int| ((i + 1) as u16, y),
                ));
            }
            assert(arena_rows(w as int, y as int) =~= arena_rows(w as int, y - 1) + arena_row(
                w as int,
                y as int,
            ));
            assert(self.game_positions@ =~= start + arena_rows(w as int, y as int));
            y = y + 1;
        }
    }

    /// Shows how to play; the caller takes it down after a key press.
    pub fn show_intro(&mut self)
        requires
            old(self).ready(),
        ensures
            final(self).ready(),
            final(self).cols() == old(self).cols(),
            final(self).rows() == old(self).rows(),
            final(self).is_paused() == old(self).is_paused(),
            final(self).screen().mirror() == old(self).screen().mirror(),
            final(self).screen().message() == Some(
                message_box(old(self).cols(), old(self).rows(), texts(intro_lines())),
            ),
            final(self).screen().queued() == queue_after_hide(old(self).screen()) + message_ops(
                texts(intro_lines()),
                message_box(old(self).cols(), old(self).rows(), texts(intro_lines())),
            ),
    {
        let lines: [&str; 5] = [
            "Arrow keys or WASD to move",
            "Esc to pause",
            "CTRL+C to quit",
            "",
            "Press any key to begin",
        ];
        proof {
            reveal_strlit("Arrow keys or WASD to move");
            reveal_strlit("Esc to pause");
            reveal_strlit("CTRL+C to quit");
            reveal_strlit("");
            reveal_strlit("Press any key to begin");
            assert(lines@ == intro_lines());
            lemma_lines_fit(lines@, self.width as int, self.height as int);
        }
        self.term.show_message(&lines);
    }

    /// Takes down the message on screen, if any.
    pub fn dismiss_message(&mut self)
        requires
            old(self).ready(),
        ensures
            final(self).ready(),
            final(self).cols() == old(self).cols(),
            final(self).rows() == old(self).rows(),
            final(self).is_paused() == old(self).is_paused(),
            final(self).screen().mirror() == old(self).screen().mirror(),
            final(self).screen().message() is None,
            final(self).screen().queued() == queue_after_hide(old(self).screen()),
    {
        self.term.hide_message();
    }

    /// Hands out the device writes queued so far, oldest first.
    pub fn flush(&mut self) -> (r: Vec<Output>)
        ensures
            r@ == old(self).screen().queued(),
            final(self).screen().queued().len() == 0,
            final(self).screen().mirror() == old(self).screen().mirror(),
            final(self).screen().message() == old(self).screen().message(),
            final(self).screen().cols() == old(self).screen().cols(),
            final(self).screen().rows() == old(self).screen().rows(),
            final(self).cols() == old(self).cols(),
            final(self).rows() == old(self).rows(),
            final(self).is_paused() == old(self).is_paused(),
            final(self).positions() == old(self).positions(),
    {
        self.term.flush()
    }

    /// The screen buffer.
    pub fn term(&self) -> (r: &TermManager)
        ensures
            *r == self.screen(),
    {
        &self.term
    }

    pub fn is_paused_now(&self) -> (r: bool)
        ensures
            r == self.is_paused(),
    {
        self.paused
    }

    /// Pauses with a message on screen, or resumes and takes it down.
    pub fn toggle_pause(&mut self)
        requires
            old(self).ready(),
        ensures
            pause_toggled(*old(self), *final(self)),
    {
        if !self.paused {
            let lines: [&str; 3] = ["Paused", "Press Esc to resume", "or Ctrl+C to quit"];
            proof {
                reveal_strlit("Paused");
                reveal_strlit("Press Esc to resume");
                reveal_strlit("or Ctrl+C to quit");
                assert(lines@ == pause_lines());
                lemma_lines_fit(lines@, self.width as int, self.height as int);
            }
            self.term.show_message(&lines);
        } else {
            self.term.hide_message();
            assert(self.term.queued() =~= queue_after_hide(old(self).term) + Seq::empty());
        }
        self.paused = !self.paused;
    }

    /// Draws the whole snake, body first and the head glyph last.
    fn print_snake(&mut self, snake: &Snake)
        requires
            old(self).ready(),
            forall|i: int|
                0 <= i < snake.cells().len() ==> in_arena(
                    #[trigger] snake.cells()[i],
                    old(self).cols() as int,
                    old(self).rows() as int,
                ),
        ensures
            final(self).ready(),
            final(self).cols() == old(self).cols(),
            final(self).rows() == old(self).rows(),
            final(self).is_paused() == old(self).is_paused(),
            final(self).screen().message() == old(self).screen().message(),
            final(self).screen().queued() == old(self).screen().queued() + snake_ops(
                snake.cells(),
                head_glyph(snake.heading()),
            ),
            final(self).screen().mirror() == paint(
                old(self).screen().mirror(),
                old(self).cols() as int,
                snake_ops(snake.cells(), head_glyph(snake.heading())),
            ),
    {
        let body = snake.body();
        let head = snake.head_char();
        let n = body.len();
        let ghost start = self.term;
        let ghost ops = snake_ops(snake.cells(), head);
        let mut i: usize = 0;
        while i < n
            invariant
                self.ready(),
                self.cols() == old(self).cols() && self.rows() == old(self).rows(),
                self.paused == old(self).paused,
                self.term.message() == start.message(),
                body@ == snake.cells(),
                n == body@.len(),
                i <= n,
                ops == snake_ops(snake.cells(), head),
                forall|j: int|
                    0 <= j < snake.cells().len() ==> in_arena(
                        #[trigger] snake.cells()[j],
                        self.cols() as int,
                        self.rows() as int,
                    ),
                self.term.queued() == start.queued() + ops.take(i as int),
                self.term.mirror() == paint(start.mirror(), self.cols() as int, ops.take(i as int)),
            decreases n - i,
        {
            let ch = if i == n - 1 {
                head
            } else {
                SNAKE_BODY_CHAR
            };
            assert(in_arena(body@[i as int], self.cols() as int, self.rows() as int));
            self.term.print_at(body[i], ch);
            assert(ops.take(i + 1).drop_last() =~= ops.take(i as int));
            assert(ops.take(i + 1) =~= ops.take(i as int).push(ops[i as int]));
            i = i + 1;
        }
        assert(ops.take(n as int) =~= ops);
    }

    /// Draws the change after a step: the new head, the old head as body,
    /// and a blank over the vacated tail.
    fn print_snake_update(&mut self, snake: &Snake, mov: &MoveResult)
        requires
            old(self).ready(),
            move_in_arena(*mov, old(self).cols() as int, old(self).rows() as int),
        ensures
            final(self).ready(),
            final(self).cols() == old(self).cols(),
            final(self).rows() == old(self).rows(),
            final(self).is_paused() == old(self).is_paused(),
            final(self).screen().message() == old(self).screen().message(),
            final(self).screen().queued() == old(self).screen().queued() + update_ops(
                *mov,
                head_glyph(snake.heading()),
            ),
            final(self).screen().mirror() == paint(
                old(self).screen().mirror(),
                old(self).cols() as int,
                update_ops(*mov, head_glyph(snake.heading())),
            ),
    {
        let ghost start = self.term;
        let ghost ops = update_ops(*mov, head_glyph(snake.heading()));
        if let MoveResult::Moved { new_head, old_head, old_tail } = mov {
            let ghost cols = self.width as int;
            self.term.print_at(*new_head, snake.head_char());
            assert(ops.take(1).drop_last() =~= ops.take(0));
            assert(paint(start.mirror(), cols, ops.take(0)) == start.mirror());
            assert(self.term.mirror() == paint(start.mirror(), cols, ops.take(1)));
            self.term.print_at(*old_head, SNAKE_BODY_CHAR);
            assert(ops.take(2).drop_last() =~= ops.take(1));
            assert(self.term.mirror() == paint(start.mirror(), cols, ops.take(2)));
            if let Some(old_tail_pos) = old_tail {
                self.term.print_at(*old_tail_pos, ' ');
                assert(ops.take(3).drop_last() =~= ops.take(2));
                assert(self.term.mirror() == paint(start.mirror(), cols, ops.take(3)));
                assert(ops =~= ops.take(3));
            } else {
                assert(ops =~= ops.take(2));
            }
            assert(self.term.queued() =~= start.queued() + ops);
        } else {
            assert(ops =~= seq![]);
            assert(self.term.queued() =~= start.queued() + ops);
            assert(paint(start.mirror(), self.width as int, ops) == start.mirror());
        }
    }

    /// Ends a round: marks a crashed snake dead, then shows the result and
    /// the score.
    fn game_over(&mut self, snake: &Snake, score: u64, win: bool)
        requires
            old(self).ready(),
            forall|i: int|
                0 <= i < snake.cells().len() ==> in_arena(
                    #[trigger] snake.cells()[i],
                    old(self).cols() as int,
                    old(self).rows() as int,
                ),
        ensures
            final(self).ready(),
            final(self).cols() == old(self).cols(),
            final(self).rows() == old(self).rows(),
            final(self).is_paused() == old(self).is_paused(),
            final(self).screen().message() == Some(
                message_box(old(self).cols(), old(self).rows(), game_over_texts(win, score)),
            ),
            ({
                let marks = if win {
                    Seq::empty()
                } else {
                    dead_ops(snake.cells())
                };
                let painted = paint(old(self).screen().mirror(), old(self).cols() as int, marks);
                &&& final(self).screen().mirror() == painted
                &&& final(self).screen().queued() == old(self).screen().queued() + marks
                    + restore_if(painted, old(self).cols() as int, old(self).screen().message())
                    + message_ops(
                    game_over_texts(win, score),
                    message_box(old(self).cols(), old(self).rows(), game_over_texts(win, score)),
                )
            }),
    {
        let ghost start = self.term;
        let ghost marks: Seq<Output> = if win {
            Seq::empty()
        } else {
            dead_ops(snake.cells())
        };
        if !win {
            let body = snake.body();
            let n = body.len();
            let mut i: usize = 0;
            while i < n
                invariant
                    self.ready(),
                    self.cols() == old(self).cols() && self.rows() == old(self).rows(),
                    self.paused == old(self).paused,
                    self.term.message() == start.message(),
                    body@ == snake.cells(),
                    n == body@.len(),
                    i <= n,
                    !win,
                    marks == dead_ops(snake.cells()),
                    forall|j: int|
                        0 <= j < snake.cells().len() ==> in_arena(
                            #[trigger] snake.cells()[j],
                            self.cols() as int,
                            self.rows() as int,
                        ),
                    self.term.queued() == start.queued() + marks.take(i as int),
                    self.term.mirror() == paint(
                        start.mirror(),
                        self.cols() as int,
                        marks.take(i as int),
                    ),
                decreases n - i,
            {
                assert(in_arena(body@[i as int], self.cols() as int, self.rows() as int));
                self.term.print_at(body[i], DEAD_SNAKE_CHAR);
                assert(marks.take(i + 1).drop_last() =~= marks.take(i as int));
                assert(marks.take(i + 1) =~= marks.take(i as int).push(marks[i as int]));
                i = i + 1;
            }
            assert(marks.take(n as int) =~= marks);
        } else {
            assert(self.term.queued() =~= start.queued() + marks);
        }
        let title: &str = if win {
            "You won!"
        } else {
            "Game over!"
        };
        let score_text = score_line(score);
        let lines: [&str; 5] = [
            title,
            score_text.as_str(),
            "",
            "Press any key to play again,",
            "or CTRL+C to quit.",
        ];
        proof {
            reveal_strlit("You won!");
            reveal_strlit("Game over!");
            reveal_strlit("");
            reveal_strlit("Press any key to play again,");
            reveal_strlit("or CTRL+C to quit.");
            lemma_score_line_len(score);
            let ts = texts(lines@);
            let gs = game_over_texts(win, score);
            assert(ts.len() == 5);
            assert(ts[0] == gs[0]);
            assert(ts[1] == gs[1]);
            assert(ts[2] =~= gs[2]);
            assert(ts[3] == gs[3]);
            assert(ts[4] == gs[4]);
            assert(ts =~= gs);
            lemma_lines_fit(lines@, self.width as int, self.height as int);
        }
        self.term.show_message(&lines);
    }

    /// Clears the screen, draws the border, and sets up a new round: the
    /// starting snake at the centre facing right, an apple, and a full
    /// countdown. `None` when the starting snake leaves no cell for an apple.
    pub fn start_round(&mut self) -> (r: Option<Round>)
        requires
            old(self).ready(),
        ensures
            final(self).ready(),
            final(self).cols() == old(self).cols(),
            final(self).rows() == old(self).rows(),
            final(self).is_paused() == old(self).is_paused(),
            final(self).screen().message() is None,
            r is None <==> forall|c: Coords|
                in_arena(c, old(self).cols() as int, old(self).rows() as int) ==> #[trigger] start_cells(
                    old(self).cols() as int,
                    old(self).rows() as int,
                ).contains(c),
            r matches Some(round) ==> {
                &&& round.valid(old(self).cols() as int, old(self).rows() as int)
                &&& round.snake.cells() == start_cells(old(self).cols() as int, old(self).rows() as int)
                &&& round.snake.heading() == Direction::Right
                &&& !round.snake.grow_pending()
                &&& !round.snake.cells().contains(round.apple)
                &&& round.dir_change is None
                &&& round.ticks_until_step == TICKS_UNTIL_UPDATE
                &&& final(self).screen().queued() == old(self).screen().queued().push(Output::Clear)
                    + border_ops(old(self).cols(), old(self).rows()) + restore_if(
                    framed_blank(old(self).cols() as int, old(self).rows() as int),
                    old(self).cols() as int,
                    old(self).screen().message(),
                ).push(Output::Put { x: round.apple.0, y: round.apple.1, ch: APPLE_CHAR })
                    + snake_ops(round.snake.cells(), head_glyph(Direction::Right))
                &&& final(self).screen().mirror() == paint(
                    framed_blank(old(self).cols() as int, old(self).rows() as int).update(
                        cell_of(old(self).cols() as int, round.apple.0 as int, round.apple.1 as int),
                        APPLE_CHAR,
                    ),
                    old(self).cols() as int,
                    snake_ops(round.snake.cells(), head_glyph(Direction::Right)),
                )
            },
    {
        self.term.clear();
        let ghost cleared = self.term;
        self.term.draw_borders(Some((self.width, self.height)));
        let ghost framed = self.term;
        self.term.hide_message();
        let ghost w = self.width as int;
        let ghost h = self.height as int;
        let ghost hidden_q = self.term.queued();
        assert(self.term.mirror() =~= framed_blank(w, h)) by {
            assert forall|i: int| 0 <= i < w * h implies self.term.mirror()[i] == framed_blank(w, h)[i] by {
                let x = i % w;
                let y = i / w;
                vstd::arithmetic::div_mod::lemma_fundamental_div_mod(i, w);
                vstd::arithmetic::div_mod::lemma_mod_bound(i, w);
                vstd::arithmetic::div_mod::lemma_div_pos_is_pos(i, w);
                assert(y < h) by {
                    vstd::arithmetic::div_mod::lemma_div_by_multiple_is_strongly_ordered(i, w * h, h, w);
                    vstd::arithmetic::div_mod::lemma_div_multiples_vanish(h, w);
                    vstd::arithmetic::mul::lemma_mul_is_commutative(w, h);
                }
                assert(cell_of(w, x, y) == i) by {
                    vstd::arithmetic::mul::lemma_mul_is_commutative(w, y);
                }
                assert(cleared.at(x, y) == ' ');
                assert(framed.at(x, y) == match border_glyph(x, y, w, h) {
                    Some(c) => c,
                    None => cleared.at(x, y),
                });
            }
        }
        let center: Coords = (self.width / 2, self.height / 2);
        let snake = Snake::new(center, INITIAL_SNAKE_LENGTH, Direction::Right);
        assert(snake.cells() =~= start_cells(w, h)) by {
            assert forall|i: int| 0 <= i < 6 implies snake.cells()[i] == start_cells(w, h)[i] by {
                assert(as_int(snake.cells()[i]) == (w / 2 + i - 5, h / 2));
            }
        }
        assert forall|i: int| 0 <= i < snake.cells().len() implies in_arena(
            #[trigger] snake.cells()[i],
            w,
            h,
        ) by {
            assert(snake.cells()[i] == start_cells(w, h)[i]);
        }
        let apple = match self.spawn_apple(&snake) {
            Some(a) => a,
            None => {
                return None;
            },
        };
        assert(self.term.queued() == hidden_q.push(Output::Put { x: apple.0, y: apple.1, ch: APPLE_CHAR }));
        self.print_snake(&snake);
        assert(hidden_q == old(self).term.queued().push(Output::Clear) + border_ops(w as u16, h as u16)
            + restore_if(framed_blank(w, h), w, old(self).term.message()));
        assert(self.term.queued() =~= old(self).term.queued().push(Output::Clear) + border_ops(
            w as u16,
            h as u16,
        ) + restore_if(framed_blank(w, h), w, old(self).term.message()).push(
            Output::Put { x: apple.0, y: apple.1, ch: APPLE_CHAR },
        ) + snake_ops(snake.cells(), head_glyph(Direction::Right)));
        Some(Round { snake, apple, dir_change: None, ticks_until_step: TICKS_UNTIL_UPDATE })
    }

    /// Applies a key: a direction key becomes the pending turn, Esc pauses or
    /// resumes. Ctrl+C is only reported; quitting is the caller's.
    pub fn handle_key(&mut self, round: &mut Round, key: &Key) -> (r: Command)
        requires
            old(self).ready(),
        ensures
            r == command_of(*key),
            final(self).ready(),
            final(self).cols() == old(self).cols(),
            final(self).rows() == old(self).rows(),
            r matches Command::Turn(d) ==> *final(round) == (Round {
                dir_change: Some(d),
                ..*old(round)
            }),
            !(r is Turn) ==> *final(round) == *old(round),
            r is TogglePause ==> pause_toggled(*old(self), *final(self)),
            !(r is TogglePause) ==> *final(self) == *old(self),
    {
        let c = key_command(key);
        match c {
            Command::Turn(d) => {
                round.dir_change = Some(d);
            },
            Command::TogglePause => {
                self.toggle_pause();
            },
            _ => {},
        }
        c
    }

    /// One tick of a round. While paused nothing happens. Otherwise the
    /// countdown drops by one; when it reaches zero the snake takes a step:
    /// the countdown is set from the score and heading, the pending turn is
    /// applied, and the snake moves. A crash ends the round; eating the apple
    /// places a new one and makes the snake grow, or ends the round as a win
    /// when no free cell is left.
    pub fn tick(&mut self, round: &mut Round) -> (r: TickResult)
        requires
            old(self).ready(),
            old(round).valid(old(self).cols() as int, old(self).rows() as int),
        ensures
            final(self).ready(),
            final(self).cols() == old(self).cols(),
            final(self).rows() == old(self).rows(),
            final(self).is_paused() == old(self).is_paused(),
            final(round).valid(old(self).cols() as int, old(self).rows() as int),
            0 <= score_of(old(round).snake.cells().len() as int) <= score_of(
                final(round).snake.cells().len() as int,
            ),
            old(self).is_paused() ==> r is Idle && *final(round) == *old(round) && *final(self)
                == *old(self),
            !old(self).is_paused() && old(round).ticks_until_step > 1 ==> {
                &&& r is Idle
                &&& *final(round) == (Round {
                    ticks_until_step: (old(round).ticks_until_step - 1) as u64,
                    ..*old(round)
                })
                &&& *final(self) == *old(self)
            },
            !old(self).is_paused() && old(round).ticks_until_step == 1 ==> {
                let s0 = old(round).snake;
                let d = heading_after(s0, old(round).dir_change);
                let w = old(self).cols() as int;
                let h = old(self).rows() as int;
                let crash = crashes(s0.cells(), d, (w - 2) as u16, (h - 2) as u16);
                let cells = moved_cells(s0.cells(), d, s0.grow_pending());
                let ate = head_cell(s0.cells(), d) == old(round).apple;
                &&& final(round).dir_change is None
                &&& final(round).snake.heading() == d
                &&& final(round).ticks_until_step == next_countdown(
                    score_of(s0.cells().len() as int),
                    d,
                )
                &&& r is Lost <==> crash
                &&& crash ==> final(round).snake.cells() == s0.cells()
                &&& !crash ==> final(round).snake.cells() == cells
                &&& r is Won <==> (!crash && ate && forall|c: Coords|
                    in_arena(c, w, h) ==> #[trigger] cells.contains(c))
                &&& r is Lost ==> final(self).screen().message() == Some(
                    message_box(
                        old(self).cols(),
                        old(self).rows(),
                        game_over_texts(false, score_of(s0.cells().len() as int) as u64),
                    ),
                )
                &&& r is Lost ==> {
                    let painted = paint(old(self).screen().mirror(), w, dead_ops(s0.cells()));
                    &&& final(self).screen().mirror() == painted
                    &&& final(self).screen().queued() == old(self).screen().queued() + dead_ops(
                        s0.cells(),
                    ) + restore_if(painted, w, old(self).screen().message()) + message_ops(
                        game_over_texts(false, score_of(s0.cells().len() as int) as u64),
                        message_box(
                            old(self).cols(),
                            old(self).rows(),
                            game_over_texts(false, score_of(s0.cells().len() as int) as u64),
                        ),
                    )
                }
                &&& r is Won ==> {
                    &&& final(self).screen().mirror() == old(self).screen().mirror()
                    &&& final(self).screen().queued() == old(self).screen().queued() + restore_if(
                        old(self).screen().mirror(),
                        w,
                        old(self).screen().message(),
                    ) + message_ops(
                        game_over_texts(true, score_of(s0.cells().len() as int) as u64),
                        message_box(
                            old(self).cols(),
                            old(self).rows(),
                            game_over_texts(true, score_of(s0.cells().len() as int) as u64),
                        ),
                    )
                }
                &&& r is Won ==> final(self).screen().message() == Some(
                    message_box(
                        old(self).cols(),
                        old(self).rows(),
                        game_over_texts(true, score_of(s0.cells().len() as int) as u64),
                    ),
                )
                &&& r is Moved ==> {
                    &&& final(self).screen().message() == old(self).screen().message()
                    &&& final(self).screen().mirror() == paint(
                        if ate {
                            old(self).screen().mirror().update(
                                cell_of(w, final(round).apple.0 as int, final(round).apple.1 as int),
                                APPLE_CHAR,
                            )
                        } else {
                            old(self).screen().mirror()
                        },
                        w,
                        update_ops(step_move(s0.cells(), d, s0.grow_pending()), head_glyph(d)),
                    )
                    &&& final(self).screen().queued() == old(self).screen().queued() + (if ate {
                        seq![Output::Put { x: final(round).apple.0, y: final(round).apple.1, ch: APPLE_CHAR }]
                    } else {
                        Seq::empty()
                    }) + update_ops(step_move(s0.cells(), d, s0.grow_pending()), head_glyph(d))
                    &&& ate ==> final(round).snake.grow_pending() && !cells.contains(
                        final(round).apple,
                    )
                    &&& !ate ==> !final(round).snake.grow_pending() && final(round).apple
                        == old(round).apple
                }
            },
    {
        if self.paused {
            return TickResult::Idle;
        }
        round.ticks_until_step = round.ticks_until_step - 1;
        if round.ticks_until_step > 0 {
            return TickResult::Idle;
        }
        let ghost s0 = round.snake;
        let ghost w = self.width as int;
        let ghost h = self.height as int;
        let score = round.score();
        let mut next = step_counter(TICKS_UNTIL_UPDATE, score);
        if let Some(d) = round.dir_change {
            round.dir_change = None;
            round.snake.set_direction(d);
        }
        if matches!(round.snake.get_direction(), Direction::Up | Direction::Down) {
            next = vertical_counter(next);
        }
        round.ticks_until_step = next;
        let ghost s1 = round.snake;
        let mov = round.snake.move_step(self.width - 2, self.height - 2);
        match mov {
            MoveResult::Crashed => {
                self.game_over(&round.snake, score, false);
                TickResult::Lost
            },
            MoveResult::Moved { new_head, old_head, old_tail } => {
                assert(new_head == head_cell(s1.cells(), s1.heading()));
                assert(round.snake.cells() =~= moved_cells(s0.cells(), s1.heading(), s0.grow_pending()));
                assert forall|i: int| 0 <= i < round.snake.cells().len() implies in_arena(
                    #[trigger] round.snake.cells()[i],
                    w,
                    h,
                ) by {
                    if i == round.snake.cells().len() - 1 {
                    } else if s0.grow_pending() {
                        assert(round.snake.cells()[i] == s0.cells()[i]);
                    } else {
                        assert(round.snake.cells()[i] == s0.cells()[i + 1]);
                    }
                }
                assert(mov == step_move(s0.cells(), s1.heading(), s0.grow_pending()));
                let ghost q0 = self.term.queued();
                let ate: bool = new_head.0 == round.apple.0 && new_head.1 == round.apple.1;
                if ate {
                    match self.spawn_apple(&round.snake) {
                        None => {
                            self.game_over(&round.snake, score, true);
                            assert(paint(old(self).term.mirror(), w, Seq::empty()) == old(self).term.mirror());
                            assert(old(self).term.queued() + Seq::empty() =~= old(self).term.queued());
                            return TickResult::Won;
                        },
                        Some(a) => {
                            round.apple = a;
                            round.snake.grow();
                        },
                    }
                }
                let ghost q1 = self.term.queued();
                let ghost m1 = self.term.mirror();
                self.print_snake_update(&round.snake, &mov);
                assert(self.term.queued() == q1 + update_ops(mov, head_glyph(s1.heading())));
                if ate {
                    assert(q1 == q0.push(Output::Put { x: round.apple.0, y: round.apple.1, ch: APPLE_CHAR }));
                    assert(q1 =~= q0 + seq![Output::Put { x: round.apple.0, y: round.apple.1, ch: APPLE_CHAR }]);
                } else {
                    assert(q1 =~= q0 + Seq::empty());
                }
                TickResult::Moved
            },
        }
    }

    /// The arena cells that `snake` leaves free, in arena order.
    fn free_cells(&self, snake: &Snake) -> (r: Vec<Coords>)
        ensures
            r@ == free_cells_of(self.positions(), snake.cells()),
    {
        let body = snake.body();
        let mut r: Vec<Coords> = Vec::new();
        let mut i: usize = 0;
        while i < self.game_positions.len()
            invariant
                i <= self.game_positions@.len(),
                body@ == snake.cells(),
                r@ == free_cells_of(self.game_positions@.take(i as int), body@),
            decreases self.game_positions.len() - i,
        {
            let c = self.game_positions[i];
            assert(self.game_positions@.take(i + 1).drop_last() =~= self.game_positions@.take(
                i as int,
            ));
            if !occupies(body, c) {
                r.push(c);
            }
            i = i + 1;
        }
        assert(self.game_positions@.take(i as int) =~= self.game_positions@);
        r
    }

    /// Places an apple on a random arena cell that the snake does not occupy
    /// and draws it; `None` when the snake fills the arena.
    pub fn spawn_apple(&mut self, snake: &Snake) -> (r: Option<Coords>)
        requires
            old(self).ready(),
        ensures
            final(self).ready(),
            final(self).cols() == old(self).cols(),
            final(self).rows() == old(self).rows(),
            final(self).is_paused() == old(self).is_paused(),
            final(self).screen().message() == old(self).screen().message(),
            r is None <==> forall|c: Coords|
                in_arena(c, old(self).cols() as int, old(self).rows() as int)
                    ==> #[trigger] snake.cells().contains(c),
            r is None ==> final(self).screen() == old(self).screen(),
            r matches Some(a) ==> {
                &&& in_arena(a, old(self).cols() as int, old(self).rows() as int)
                &&& !snake.cells().contains(a)
                &&& final(self).screen().mirror() == old(self).screen().mirror().update(
                    cell_of(old(self).cols() as int, a.0 as int, a.1 as int),
                    APPLE_CHAR,
                )
                &&& final(self).screen().queued() == old(self).screen().queued().push(
                    Output::Put { x: a.0, y: a.1, ch: APPLE_CHAR },
                )
            },
    {
        let choices = self.free_cells(snake);
        let res = choose_cell(&choices);
        let ghost w = self.width as int;
        let ghost h = self.height as int;
        let ghost ps = self.game_positions@;
        proof {
            assert forall|c: Coords| #[trigger] choices@.contains(c) <==> (in_arena(c, w, h)
                && !snake.cells().contains(c)) by {
                lemma_free_member(ps, snake.cells(), c);
                lemma_arena_member(w, h - 2, c);
            }
            if choices@.len() > 0 {
                assert(choices@.contains(choices@[0]));
            }
        }
        match res {
            Some(apple) => {
                assert(choices@.contains(apple));
                assert(in_arena(apple, w, h) && !snake.cells().contains(apple));
                self.term.print_at(apple, APPLE_CHAR);
                Some(apple)
            },
            None => {
                assert forall|c: Coords| in_arena(c, w, h) implies #[trigger] snake.cells().contains(
                    c,
                ) by {
                    assert(!choices@.contains(c));
                }
                None
            },
        }
    }
}

} // verus!
