//! The snake: its body geometry, direction, and the move / grow rules.

use vstd::prelude::*;

use crate::Coords;

verus! {

#[derive(Clone, Copy, Debug, PartialEq, Eq, Structural)]
pub enum Direction {
    Up,
    Down,
    Left,
    Right,
}

/// What one step of the snake did.
#[derive(Clone, Copy, Debug, PartialEq, Eq)]
pub enum MoveResult {
    /// The head advanced; `old_tail` is the vacated cell, or `None` when the
    /// snake grew on this step.
    Moved { new_head: Coords, old_head: Coords, old_tail: Option<Coords> },
    /// The head would have hit a wall or the body.
    Crashed,
}

/// The cell `k` steps from `p` along `d`, in unbounded integers.
pub open spec fn shifted(p: Coords, d: Direction, k: int) -> (int, int) {
    match d {
        Direction::Up => (p.0 as int, p.1 - k),
        Direction::Down => (p.0 as int, p.1 + k),
        Direction::Left => (p.0 - k, p.1 as int),
        Direction::Right => (p.0 + k, p.1 as int),
    }
}

/// The cell one step from `p` along `d`.
pub open spec fn next_cell(p: Coords, d: Direction) -> (int, int) {
    shifted(p, d, 1)
}

pub open spec fn as_int(c: Coords) -> (int, int) {
    (c.0 as int, c.1 as int)
}

/// `b` is the direct reverse of `a`.
pub open spec fn reverse_of(a: Direction, b: Direction) -> bool {
    match (a, b) {
        (Direction::Up, Direction::Down) | (Direction::Down, Direction::Up) | (
            Direction::Left,
            Direction::Right,
        ) | (Direction::Right, Direction::Left) => true,
        _ => false,
    }
}

/// A straight snake of `size` cells ending at `pos` and facing `d` lies
/// inside the coordinate range.
pub open spec fn fits(pos: Coords, size: int, d: Direction) -> bool {
    let tail = shifted(pos, d, -(size - 1));
    0 <= tail.0 <= u16::MAX && 0 <= tail.1 <= u16::MAX
}

/// `c` lies on the border or outside the arena whose last interior cell is
/// (`max_x`, `max_y`).
pub open spec fn hits_wall(c: (int, int), max_x: u16, max_y: u16) -> bool {
    c.0 <= 0 || c.1 <= 0 || c.0 > max_x || c.1 > max_y
}

/// `c` is a body cell other than the tail (the first cell).
pub open spec fn hits_body(body: Seq<Coords>, c: (int, int)) -> bool {
    exists|i: int| 1 <= i < body.len() && #[trigger] as_int(body[i]) == c
}

/// The outcome that the move rules give for a body, direction and arena.
pub open spec fn crashes(body: Seq<Coords>, d: Direction, max_x: u16, max_y: u16) -> bool {
    let nh = next_cell(body.last(), d);
    hits_wall(nh, max_x, max_y) || hits_body(body, nh)
}

/// Whether `b` is the direct reverse of `a`; a turn to the reverse is refused.
pub fn is_reverse(a: Direction, b: Direction) -> (r: bool)
    ensures
        r == reverse_of(a, b),
{
    match (a, b) {
        (Direction::Up, Direction::Down) | (Direction::Down, Direction::Up) | (
            Direction::Left,
            Direction::Right,
        ) | (Direction::Right, Direction::Left) => true,
        _ => false,
    }
}

/// Whether `pos` is one of the body cells other than the tail (index 0).
/// The tail is left out because it normally vacates on the same step.
pub fn collides_with_body(body: &[Coords], pos: Coords) -> (r: bool)
    ensures
        r == hits_body(body@, as_int(pos)),
{
    let mut i: usize = 1;
    while i < body.len()
        invariant
            1 <= i <= body@.len() || (i == 1 && body@.len() == 0),
            forall|j: int| 1 <= j < i && j < body@.len() ==> as_int(body@[j]) != as_int(pos),
        decreases body.len() - i,
    {
        if body[i].0 == pos.0 && body[i].1 == pos.1 {
            assert(as_int(body@[i as int]) == as_int(pos));
            return true;
        }
        i = i + 1;
    }
    false
}

pub struct Snake {
    body: Vec<Coords>,
    direction: Direction,
    grow_next_move: bool,
}

impl Snake {
    /// The body cells, tail first and head last.
    pub closed spec fn cells(&self) -> Seq<Coords> {
        self.body@
    }

    pub closed spec fn heading(&self) -> Direction {
        self.direction
    }

    /// Whether the next successful move keeps the tail.
    pub closed spec fn grow_pending(&self) -> bool {
        self.grow_next_move
    }

    pub open spec fn wf(&self) -> bool {
        self.cells().len() >= 1
    }

    /// A straight snake of `size` cells whose head is `pos`, facing `direction`,
    /// trailing back along the opposite direction.
    pub fn new(pos: Coords, size: i16, direction: Direction) -> (s: Self)
        requires
            size >= 1,
            fits(pos, size as int, direction),
        ensures
            s.wf(),
            s.cells().len() == size,
            s.cells().last() == pos,
            forall|i: int|
                0 <= i < size ==> #[trigger] as_int(s.cells()[i]) == shifted(
                    pos,
                    direction,
                    i - (size - 1),
                ),
            forall|i: int|
                0 <= i < size - 1 ==> as_int(#[trigger] s.cells()[i + 1]) == next_cell(
                    s.cells()[i],
                    direction,
                ),
            s.heading() == direction,
            !s.grow_pending(),
    {
        let n: u16 = size as u16;
        let mut body: Vec<Coords> = Vec::new();
        let mut i: u16 = 0;
        while i < n
            invariant
                n == size,
                i <= n,
                fits(pos, size as int, direction),
                body@.len() == i,
                forall|j: int|
                    0 <= j < i ==> #[trigger] as_int(body@[j]) == shifted(
                        pos,
                        direction,
                        j - (size - 1),
                    ),
            decreases n - i,
        {
            let k: u16 = n - 1 - i;
            let cell: Coords = match direction {
                Direction::Up => (pos.0, pos.1 + k),
                Direction::Down => (pos.0, pos.1 - k),
                Direction::Left => (pos.0 + k, pos.1),
                Direction::Right => (pos.0 - k, pos.1),
            };
            body.push(cell);
            i = i + 1;
        }
        let s = Snake { body, direction, grow_next_move: false };
        assert forall|i: int| 0 <= i < size - 1 implies as_int(#[trigger] s.cells()[i + 1])
            == next_cell(s.cells()[i], direction) by {
            assert(as_int(s.cells()[i]) == shifted(pos, direction, i - (size - 1)));
            assert(as_int(s.cells()[i + 1]) == shifted(pos, direction, i + 1 - (size - 1)));
        }
        assert(as_int(s.cells()[size - 1]) == shifted(pos, direction, 0));
        s
    }

    /// The body cells, tail first and head last.
    pub fn body(&self) -> (r: &[Coords])
        ensures
            r@ == self.cells(),
    {
        self.body.as_slice()
    }

    /// Advances the head one cell along the current direction.
    ///
    /// The move crashes when the new head lies on the border or outside the
    /// arena, or on a body cell other than the current tail; the snake is then
    /// unchanged. Otherwise the new head is appended and, unless growth was
    /// pending, the tail is dropped. Moving onto the current tail's cell is
    /// accepted even while growth is pending.
    pub fn move_step(&mut self, max_x: u16, max_y: u16) -> (r: MoveResult)
        requires
            old(self).wf(),
        ensures
            step_taken(*old(self), *final(self), max_x, max_y, r),
    {
        let old_head: Coords = self.body[self.body.len() - 1];
        let wall: bool = match self.direction {
            Direction::Up => old_head.1 <= 1,
            Direction::Down => old_head.1 >= max_y,
            Direction::Left => old_head.0 <= 1,
            Direction::Right => old_head.0 >= max_x,
        };
        if wall {
            return MoveResult::Crashed;
        }
        let new_head: Coords = match self.direction {
            Direction::Up => (old_head.0, old_head.1 - 1),
            Direction::Down => (old_head.0, old_head.1 + 1),
            Direction::Left => (old_head.0 - 1, old_head.1),
            Direction::Right => (old_head.0 + 1, old_head.1),
        };
        if new_head.0 == 0 || new_head.1 == 0 || new_head.0 > max_x || new_head.1 > max_y
            || collides_with_body(self.body.as_slice(), new_head) {
            return MoveResult::Crashed;
        }
        self.body.push(new_head);
        if self.grow_next_move {
            self.grow_next_move = false;
            MoveResult::Moved { new_head, old_head, old_tail: None }
        } else {
            let old_tail = self.body.remove(0);
            assert(self.body@ =~= old(self).body@.push(new_head).drop_first());
            MoveResult::Moved { new_head, old_head, old_tail: Some(old_tail) }
        }
    }

    /// Turns the snake for its next move, unless `new_direction` is the direct
    /// reverse of the current one, in which case nothing changes.
    pub fn set_direction(&mut self, new_direction: Direction)
        ensures
            turned(*old(self), *final(self), new_direction),
    {
        if !is_reverse(new_direction, self.direction) {
            self.direction = new_direction;
        }
    }

    pub fn get_direction(&self) -> (r: Direction)
        ensures
            r == self.heading(),
    {
        self.direction
    }

    /// Makes the next successful move keep the tail. Calling it again before
    /// that move changes nothing.
    pub fn grow(&mut self)
        ensures
            grown(*old(self), *final(self)),
    {
        self.grow_next_move = true;
    }

    /// The glyph drawn at the head: it points the way the snake travels.
    pub fn head_char(&self) -> (c: char)
        ensures
            c == head_glyph(self.heading()),
    {
        match self.direction {
            Direction::Up => '^',
            Direction::Down => 'v',
            Direction::Left => '<',
            Direction::Right => '>',
        }
    }
}

/// `s1` is `s0` after one `move_step(max_x, max_y)` that returned `r`.
pub open spec fn step_taken(s0: Snake, s1: Snake, max_x: u16, max_y: u16, r: MoveResult) -> bool {
    &&& s1.wf()
    &&& s1.heading() == s0.heading()
    &&& crashes(s0.cells(), s0.heading(), max_x, max_y) <==> r is Crashed
    &&& r is Crashed ==> s1 == s0
    &&& r matches MoveResult::Moved { new_head, old_head, old_tail } ==> {
        &&& as_int(new_head) == next_cell(s0.cells().last(), s0.heading())
        &&& old_head == s0.cells().last()
        &&& !s1.grow_pending()
        &&& if s0.grow_pending() {
            &&& old_tail is None
            &&& s1.cells() == s0.cells().push(new_head)
        } else {
            &&& old_tail == Some(s0.cells()[0])
            &&& s1.cells() == s0.cells().push(new_head).drop_first()
        }
    }
}

/// The heading after asking to turn to `d`: a direct reverse is refused.
pub open spec fn turn_result(current: Direction, d: Direction) -> Direction {
    if reverse_of(d, current) {
        current
    } else {
        d
    }
}

/// `s1` is `s0` after `set_direction(d)`.
pub open spec fn turned(s0: Snake, s1: Snake, d: Direction) -> bool {
    &&& s1.cells() == s0.cells()
    &&& s1.grow_pending() == s0.grow_pending()
    &&& s1.heading() == turn_result(s0.heading(), d)
}

/// `s1` is `s0` after `grow()`.
pub open spec fn grown(s0: Snake, s1: Snake) -> bool {
    &&& s1.cells() == s0.cells()
    &&& s1.heading() == s0.heading()
    &&& s1.grow_pending()
}

pub open spec fn head_glyph(d: Direction) -> char {
    match d {
        Direction::Up => '^',
        Direction::Down => 'v',
        Direction::Left => '<',
        Direction::Right => '>',
    }
}

/// A turn that is not a direct reverse takes effect on the very next move:
/// that move goes, or crashes, along the new direction.
pub proof fn lemma_turn_takes_effect(
    s0: Snake,
    d: Direction,
    s1: Snake,
    max_x: u16,
    max_y: u16,
    s2: Snake,
    r: MoveResult,
)
    requires
        s0.wf(),
        !reverse_of(d, s0.heading()),
        turned(s0, s1, d),
        step_taken(s1, s2, max_x, max_y, r),
    ensures
        s1.heading() == d,
        r is Crashed <==> crashes(s0.cells(), d, max_x, max_y),
        r matches MoveResult::Moved { new_head, .. } ==> as_int(new_head) == next_cell(
            s0.cells().last(),
            d,
        ),
{
}

/// Growth is a flag: asking again before the next move changes nothing.
pub proof fn lemma_grow_idempotent(s0: Snake, s1: Snake, s2: Snake)
    requires
        grown(s0, s1),
        grown(s1, s2),
    ensures
        s2.cells() == s1.cells(),
        s2.heading() == s1.heading(),
        s2.grow_pending() == s1.grow_pending(),
{
}

/// A successful move keeps the length, or adds exactly one cell when growth
/// was pending; either way no growth is pending afterwards.
pub proof fn lemma_move_length(s0: Snake, max_x: u16, max_y: u16, s1: Snake, r: MoveResult)
    requires
        s0.wf(),
        step_taken(s0, s1, max_x, max_y, r),
        r is Moved,
    ensures
        s1.cells().len() == s0.cells().len() + if s0.grow_pending() {
            1int
        } else {
            0int
        },
        !s1.grow_pending(),
{
}

/// A move whose new head lies on a wall line crashes.
pub proof fn lemma_wall_crashes(s0: Snake, max_x: u16, max_y: u16, s1: Snake, r: MoveResult)
    requires
        s0.wf(),
        step_taken(s0, s1, max_x, max_y, r),
        ({
            let nh = next_cell(s0.cells().last(), s0.heading());
            nh.0 == 0 || nh.1 == 0 || nh.0 == max_x + 1 || nh.1 == max_y + 1
        }),
    ensures
        r is Crashed,
        s1 == s0,
{
}

/// A move onto any body cell but the tail crashes.
pub proof fn lemma_body_crashes(
    s0: Snake,
    max_x: u16,
    max_y: u16,
    s1: Snake,
    r: MoveResult,
    i: int,
)
    requires
        s0.wf(),
        step_taken(s0, s1, max_x, max_y, r),
        1 <= i < s0.cells().len(),
        as_int(s0.cells()[i]) == next_cell(s0.cells().last(), s0.heading()),
    ensures
        r is Crashed,
{
}

/// A move onto the current tail's cell, inside the walls, is accepted when
/// the body has no repeated cell, whether or not growth is pending.
pub proof fn lemma_tail_accepted(s0: Snake, max_x: u16, max_y: u16, s1: Snake, r: MoveResult)
    requires
        s0.wf(),
        s0.cells().no_duplicates(),
        step_taken(s0, s1, max_x, max_y, r),
        as_int(s0.cells()[0]) == next_cell(s0.cells().last(), s0.heading()),
        !hits_wall(next_cell(s0.cells().last(), s0.heading()), max_x, max_y),
    ensures
        r is Moved,
{
    let nh = next_cell(s0.cells().last(), s0.heading());
    assert forall|i: int| 1 <= i < s0.cells().len() implies #[trigger] as_int(s0.cells()[i]) != nh by {
        assert(s0.cells()[i] != s0.cells()[0]);
    }
}

} // verus!
