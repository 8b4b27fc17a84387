//! The screen buffer: a mirror of the game content shown on the terminal,
//! an overlay message box that can be removed without losing what lies
//! under it, and a queue of device writes that `flush` hands out.

use vstd::prelude::*;
use vstd::string::*;

use crate::Coords;

verus! {

/// One write to the terminal device.
#[derive(Clone, Copy, Debug, PartialEq, Eq, Structural)]
pub enum Output {
    /// Put `ch` at column `x`, row `y`.
    Put { x: u16, y: u16, ch: char },
    /// Blank the whole terminal.
    Clear,
}

/// The geometry of the overlay message box.
#[derive(Clone, Copy, Debug, PartialEq, Eq)]
pub struct Message {
    pub top_left: Coords,
    pub width: u16,
    pub height: u16,
}

impl Message {
    pub fn new(width: u16, height: u16, top_left: Coords) -> (m: Self)
        ensures
            m == (Message { top_left, width, height }),
    {
        Message { width, height, top_left }
    }

    pub fn width(&self) -> (r: u16)
        ensures
            r == self.width,
    {
        self.width
    }

    pub fn height(&self) -> (r: u16)
        ensures
            r == self.height,
    {
        self.height
    }

    pub fn top_left(&self) -> (r: Coords)
        ensures
            r == self.top_left,
    {
        self.top_left
    }
}

/// Position of cell (`x`, `y`) in a row-major grid `cols` wide.
pub open spec fn cell_of(cols: int, x: int, y: int) -> int {
    cols * y + x
}

/// The message box lies inside a `cols` x `rows` terminal.
pub open spec fn box_within(m: Message, cols: int, rows: int) -> bool {
    m.top_left.0 + m.width <= cols && m.top_left.1 + m.height <= rows
}

/// The write at offset (`dx`, `dy`) inside box `m`, of glyph `g` there.
pub open spec fn put_in_box(m: Message, dx: int, dy: int, g: spec_fn(int, int) -> char) -> Output {
    Output::Put { x: (m.top_left.0 + dx) as u16, y: (m.top_left.1 + dy) as u16, ch: g(dx, dy) }
}

/// The first `n` writes of a row-major sweep over box `m`.
pub open spec fn sweep_prefix(m: Message, g: spec_fn(int, int) -> char, n: int) -> Seq<Output> {
    Seq::new(n as nat, |k: int| put_in_box(m, k % (m.width as int), k / (m.width as int), g))
}

/// A row-major sweep over every cell of box `m`, writing glyph `g`.
pub open spec fn sweep(m: Message, g: spec_fn(int, int) -> char) -> Seq<Output> {
    sweep_prefix(m, g, m.width * m.height)
}

/// The mirrored content under box `m`.
pub open spec fn mirror_glyph(screen: Seq<char>, cols: int, m: Message) -> spec_fn(int, int) -> char {
    |dx: int, dy: int| screen[cell_of(cols, m.top_left.0 + dx, m.top_left.1 + dy)]
}

/// The writes that put the mirrored content back over box `m`.
pub open spec fn restore_ops(screen: Seq<char>, cols: int, m: Message) -> Seq<Output> {
    sweep(m, mirror_glyph(screen, cols, m))
}

pub open spec fn texts(lines: Seq<&str>) -> Seq<Seq<char>> {
    lines.map_values(|l: &str| l@)
}

/// The length of the longest line.
pub open spec fn widest(ts: Seq<Seq<char>>) -> nat
    decreases ts.len(),
{
    if ts.len() == 0 {
        0
    } else {
        let a = widest(ts.drop_last());
        let b = ts.last().len();
        if a >= b {
            a
        } else {
            b
        }
    }
}

/// A box of the given lines, with one blank cell of padding on every side,
/// fits in a `cols` x `rows` terminal.
pub open spec fn message_fits(cols: int, rows: int, ts: Seq<Seq<char>>) -> bool {
    ts.len() >= 1 && widest(ts) + 2 <= cols && ts.len() + 2 <= rows
}

/// The box for the given lines, centred on a `cols` x `rows` terminal.
pub open spec fn message_box(cols: u16, rows: u16, ts: Seq<Seq<char>>) -> Message {
    let mw = widest(ts) + 2;
    let mh = ts.len() + 2;
    Message {
        top_left: ((cols / 2 - mw / 2) as u16, (rows / 2 - mh / 2) as u16),
        width: mw as u16,
        height: mh as u16,
    }
}

/// The glyph at offset (`dx`, `dy`) of a message box: blank rows above and
/// below, each line centred in its row (any odd cell of padding goes right).
pub open spec fn text_glyph(ts: Seq<Seq<char>>, m: Message) -> spec_fn(int, int) -> char {
    |dx: int, dy: int|
        if dy == 0 || dy == m.height - 1 {
            ' '
        } else {
            let line = ts[dy - 1];
            let lpad = (m.width - line.len()) / 2;
            if lpad <= dx < lpad + line.len() {
                line[dx - lpad]
            } else {
                ' '
            }
        }
}

/// The writes that draw the message box.
pub open spec fn message_ops(ts: Seq<Seq<char>>, m: Message) -> Seq<Output> {
    sweep(m, text_glyph(ts, m))
}

proof fn lemma_cell_bound(cols: int, rows: int, x: int, y: int)
    requires
        0 <= x < cols,
        0 <= y < rows,
    ensures
        0 <= cols * y <= cell_of(cols, x, y) < cols * rows,
{
    assert(cols * y + x < cols * rows) by (nonlinear_arith)
        requires
            0 <= x < cols,
            0 <= y < rows,
    ;
    assert(0 <= cols * y) by (nonlinear_arith)
        requires
            0 <= x < cols,
            0 <= y,
    ;
}

proof fn lemma_grid_size(cols: u16, rows: u16)
    ensures
        0 <= cols * rows <= 0xFFFF_FFFF,
{
    assert(0 <= cols * rows <= 0xFFFF_FFFF) by (nonlinear_arith)
        requires
            0 <= cols <= 0xFFFF,
            0 <= rows <= 0xFFFF,
    ;
}

proof fn lemma_cell_distinct(cols: int, x1: int, y1: int, x2: int, y2: int)
    requires
        0 <= x1 < cols,
        0 <= x2 < cols,
        0 <= y1,
        0 <= y2,
        x1 != x2 || y1 != y2,
    ensures
        cell_of(cols, x1, y1) != cell_of(cols, x2, y2),
{
    if y1 < y2 {
        assert(cols * y1 + cols <= cols * y2) by (nonlinear_arith)
            requires
                y1 < y2,
                0 <= cols,
        ;
    } else if y2 < y1 {
        assert(cols * y2 + cols <= cols * y1) by (nonlinear_arith)
            requires
                y2 < y1,
                0 <= cols,
        ;
    }
}

proof fn lemma_sweep_step(m: Message, g: spec_fn(int, int) -> char, dx: int, dy: int)
    requires
        0 <= dx < m.width,
        0 <= dy,
    ensures
        sweep_prefix(m, g, dy * m.width + dx + 1) == sweep_prefix(m, g, dy * m.width + dx).push(
            put_in_box(m, dx, dy, g),
        ),
{
    let n = dy * m.width + dx;
    vstd::arithmetic::div_mod::lemma_fundamental_div_mod_converse(n, m.width as int, dy, dx);
    assert(0 <= dy * m.width) by (nonlinear_arith)
        requires
            0 <= dy,
            0 <= m.width,
    ;
    assert(sweep_prefix(m, g, n + 1) =~= sweep_prefix(m, g, n).push(put_in_box(m, dx, dy, g)));
}

proof fn lemma_widest_bound(ts: Seq<Seq<char>>)
    ensures
        forall|i: int| 0 <= i < ts.len() ==> #[trigger] ts[i].len() <= widest(ts),
    decreases ts.len(),
{
    if ts.len() > 0 {
        lemma_widest_bound(ts.drop_last());
        assert forall|i: int| 0 <= i < ts.len() implies #[trigger] ts[i].len() <= widest(ts) by {
            if i < ts.len() - 1 {
                assert(ts.drop_last()[i] == ts[i]);
            }
        }
    }
}

/// The terminal's mirror buffer, overlay message and pending device writes.
pub struct TermManager {
    width: u16,
    height: u16,
    screen: Vec<char>,
    current_msg: Option<Message>,
    pending: Vec<Output>,
}

/// The writes queued once any active message has been taken down.
pub open spec fn queue_after_hide(t: TermManager) -> Seq<Output> {
    t.queued() + restore_if(t.mirror(), t.cols() as int, t.message())
}

/// The writes that take down message `msg`, if there is one.
pub open spec fn restore_if(screen: Seq<char>, cols: int, msg: Option<Message>) -> Seq<Output> {
    match msg {
        Some(m) => restore_ops(screen, cols, m),
        None => seq![],
    }
}

/// `screen` after the `Put` writes of `ops`, in order.
pub open spec fn paint(screen: Seq<char>, cols: int, ops: Seq<Output>) -> Seq<char>
    decreases ops.len(),
{
    if ops.len() == 0 {
        screen
    } else {
        let before = paint(screen, cols, ops.drop_last());
        match ops.last() {
            Output::Put { x, y, ch } => before.update(cell_of(cols, x as int, y as int), ch),
            Output::Clear => before,
        }
    }
}

impl TermManager {
    pub closed spec fn cols(&self) -> u16 {
        self.width
    }

    pub closed spec fn rows(&self) -> u16 {
        self.height
    }

    /// The game content, row-major, one character per cell; never the overlay.
    pub closed spec fn mirror(&self) -> Seq<char> {
        self.screen@
    }

    pub closed spec fn message(&self) -> Option<Message> {
        self.current_msg
    }

    /// Device writes not yet handed out by `flush`, oldest first.
    pub closed spec fn queued(&self) -> Seq<Output> {
        self.pending@
    }

    pub open spec fn wf(&self) -> bool {
        &&& self.mirror().len() == self.cols() * self.rows()
        &&& self.message() matches Some(m) ==> box_within(m, self.cols() as int, self.rows() as int)
    }

    /// The mirrored character at (`x`, `y`).
    pub open spec fn at(&self, x: int, y: int) -> char {
        self.mirror()[cell_of(self.cols() as int, x, y)]
    }

    /// A blank terminal of the given size, with nothing queued.
    pub fn new(width: u16, height: u16) -> (t: Self)
        ensures
            t.wf(),
            t.cols() == width,
            t.rows() == height,
            t.mirror() == Seq::new((width * height) as nat, |i: int| ' '),
            t.message() is None,
            t.queued().len() == 0,
    {
        proof {
            lemma_grid_size(width, height);
        }
        let screen = blank_cells(width as usize * height as usize);
        TermManager { width, height, screen, current_msg: None, pending: Vec::new() }
    }

    pub fn get_terminal_size(&self) -> (r: Coords)
        ensures
            r == (self.cols(), self.rows()),
    {
        (self.width, self.height)
    }

    /// The mirrored character at `pos`.
    pub fn char_at(&self, pos: Coords) -> (r: char)
        requires
            self.wf(),
            pos.0 < self.cols(),
            pos.1 < self.rows(),
        ensures
            r == self.at(pos.0 as int, pos.1 as int),
    {
        proof {
            lemma_cell_bound(self.width as int, self.height as int, pos.0 as int, pos.1 as int);
            lemma_grid_size(self.width, self.height);
        }
        self.screen[self.width as usize * pos.1 as usize + pos.0 as usize]
    }

    /// The geometry of the message on screen, if any.
    pub fn current_message(&self) -> (r: Option<Message>)
        ensures
            r == self.message(),
    {
        self.current_msg
    }

    pub fn has_message(&self) -> (r: bool)
        ensures
            r == self.message() is Some,
    {
        self.current_msg.is_some()
    }

    /// Hands out the queued device writes, oldest first, and empties the queue.
    pub fn flush(&mut self) -> (r: Vec<Output>)
        ensures
            r@ == old(self).queued(),
            final(self).queued().len() == 0,
            final(self).cols() == old(self).cols(),
            final(self).rows() == old(self).rows(),
            final(self).mirror() == old(self).mirror(),
            final(self).message() == old(self).message(),
    {
        let mut r: Vec<Output> = Vec::new();
        r.append(&mut self.pending);
        r
    }

    /// Writes `ch` at `pos`, both to the device queue and to the mirror.
    pub fn print_at(&mut self, pos: Coords, ch: char)
        requires
            old(self).wf(),
            pos.0 < old(self).cols(),
            pos.1 < old(self).rows(),
        ensures
            final(self).wf(),
            final(self).cols() == old(self).cols(),
            final(self).rows() == old(self).rows(),
            final(self).mirror() == old(self).mirror().update(
                cell_of(old(self).cols() as int, pos.0 as int, pos.1 as int),
                ch,
            ),
            final(self).message() == old(self).message(),
            final(self).queued() == old(self).queued().push(Output::Put { x: pos.0, y: pos.1, ch }),
    {
        proof {
            lemma_cell_bound(self.width as int, self.height as int, pos.0 as int, pos.1 as int);
            lemma_grid_size(self.width, self.height);
        }
        self.pending.push(Output::Put { x: pos.0, y: pos.1, ch });
        let i: usize = self.width as usize * pos.1 as usize + pos.0 as usize;
        self.screen.set(i, ch);
    }

    /// Writes `ch` at `pos` on the device only, leaving the mirror as it is.
    fn print_at_no_save(&mut self, pos: Coords, ch: char)
        ensures
            final(self).cols() == old(self).cols(),
            final(self).rows() == old(self).rows(),
            final(self).mirror() == old(self).mirror(),
            final(self).message() == old(self).message(),
            final(self).queued() == old(self).queued().push(Output::Put { x: pos.0, y: pos.1, ch }),
    {
        self.pending.push(Output::Put { x: pos.0, y: pos.1, ch });
    }

    /// Blanks the device and the mirror.
    pub fn clear(&mut self)
        requires
            old(self).wf(),
        ensures
            final(self).wf(),
            final(self).cols() == old(self).cols(),
            final(self).rows() == old(self).rows(),
            final(self).mirror() == Seq::new(old(self).mirror().len(), |i: int| ' '),
            final(self).message() == old(self).message(),
            final(self).queued() == old(self).queued().push(Output::Clear),
    {
        self.pending.push(Output::Clear);
        self.screen = blank_cells(self.screen.len());
    }
    /// Takes down the active message, if any: every cell of its box is
    /// rewritten on the device from the mirror, which itself is unchanged.
    pub fn hide_message(&mut self)
        requires
            old(self).wf(),
        ensures
            final(self).wf(),
            final(self).cols() == old(self).cols(),
            final(self).rows() == old(self).rows(),
            final(self).mirror() == old(self).mirror(),
            final(self).message() is None,
            final(self).queued() == queue_after_hide(*old(self)),
    {
        let msg = match self.current_msg {
            Some(m) => m,
            None => {
                assert(self.queued() =~= queue_after_hide(*old(self)));
                return;
            },
        };
        self.current_msg = None;
        let ghost start = *old(self);
        let ghost cols = self.width as int;
        let ghost rows = self.height as int;
        let ghost g = mirror_glyph(start.mirror(), cols, msg);
        let top_left = msg.top_left();
        let mut dy: u16 = 0;
        while dy < msg.height()
            invariant
                self.wf(),
                self.cols() == cols && self.rows() == rows,
                self.mirror() == start.mirror(),
                self.message() is None,
                box_within(msg, cols, rows),
                top_left == msg.top_left,
                start.message() == Some(msg),
                g == mirror_glyph(start.mirror(), cols, msg),
                dy <= msg.height,
                self.queued() == start.queued() + sweep_prefix(msg, g, dy * msg.width),
            decreases msg.height - dy,
        {
            let mut dx: u16 = 0;
            while dx < msg.width()
                invariant
                    self.wf(),
                    self.cols() == cols && self.rows() == rows,
                    self.mirror() == start.mirror(),
                    self.message() is None,
                    box_within(msg, cols, rows),
                    top_left == msg.top_left,
                    g == mirror_glyph(start.mirror(), cols, msg),
                    dy < msg.height,
                    dx <= msg.width,
                    self.queued() == start.queued() + sweep_prefix(msg, g, dy * msg.width + dx),
                decreases msg.width - dx,
            {
                let (x, y) = (top_left.0 + dx, top_left.1 + dy);
                proof {
                    lemma_cell_bound(cols, rows, x as int, y as int);
                    lemma_grid_size(self.width, self.height);
                    lemma_sweep_step(msg, g, dx as int, dy as int);
                }
                let ch = self.screen[self.width as usize * y as usize + x as usize];
                self.print_at_no_save((x, y), ch);
                dx = dx + 1;
                assert(self.queued() =~= start.queued() + sweep_prefix(msg, g, dy * msg.width + dx));
            }
            assert(dy * msg.width + msg.width == (dy + 1) * msg.width) by (nonlinear_arith);
            dy = dy + 1;
        }
        assert(dy * msg.width == msg.width * msg.height) by (nonlinear_arith)
            requires
                dy == msg.height,
        ;
    }

    /// Shows `lines` in a box centred on the terminal, taking down any
    /// message that is already up. The box is drawn on the device only, so
    /// the mirror keeps what lies under it.
    pub fn show_message(&mut self, lines: &[&str])
        requires
            old(self).wf(),
            message_fits(old(self).cols() as int, old(self).rows() as int, texts(lines@)),
        ensures
            final(self).wf(),
            final(self).cols() == old(self).cols(),
            final(self).rows() == old(self).rows(),
            final(self).mirror() == old(self).mirror(),
            final(self).message() == Some(
                message_box(old(self).cols(), old(self).rows(), texts(lines@)),
            ),
            final(self).queued() == queue_after_hide(*old(self)) + message_ops(
                texts(lines@),
                message_box(old(self).cols(), old(self).rows(), texts(lines@)),
            ),
    {
        if self.has_message() {
            self.hide_message();
        }
        let ghost ts = texts(lines@);
        let ghost mid = *self;
        let mut lens: Vec<usize> = Vec::new();
        let mut longest: usize = 0;
        let mut i: usize = 0;
        while i < lines.len()
            invariant
                ts == texts(lines@),
                i <= lines@.len(),
                lens@.len() == i,
                forall|j: int| 0 <= j < i ==> lens@[j] == #[trigger] ts[j].len(),
                longest == widest(ts.take(i as int)),
                widest(ts) + 2 <= u16::MAX,
            decreases lines.len() - i,
        {
            proof {
                lemma_widest_bound(ts);
                assert(ts.take(i + 1).drop_last() =~= ts.take(i as int));
            }
            let n = lines[i].unicode_len();
            lens.push(n);
            if n > longest {
                longest = n;
            }
            i = i + 1;
        }
        assert(ts.take(lines@.len() as int) =~= ts);
        proof {
            lemma_widest_bound(ts);
        }
        let msg_width: u16 = (longest + 2) as u16;
        let msg_height: u16 = (lines.len() + 2) as u16;
        let top_left: Coords = (self.width / 2 - msg_width / 2, self.height / 2 - msg_height / 2);
        let msg = Message::new(msg_width, msg_height, top_left);
        let ghost cols = self.width as int;
        let ghost rows = self.height as int;
        let ghost g = text_glyph(ts, msg);
        assert(msg == message_box(self.width, self.height, ts));
        let mut dy: u16 = 0;
        while dy < msg_height
            invariant
                self.wf(),
                self.cols() == cols && self.rows() == rows,
                self.mirror() == mid.mirror(),
                self.message() is None,
                ts == texts(lines@),
                forall|j: int| 0 <= j < ts.len() ==> lens@[j] == #[trigger] ts[j].len(),
                forall|j: int| 0 <= j < ts.len() ==> #[trigger] ts[j].len() <= widest(ts),
                lens@.len() == ts.len(),
                msg_width == widest(ts) + 2,
                msg_height == ts.len() + 2,
                msg == (Message { top_left, width: msg_width, height: msg_height }),
                box_within(msg, cols, rows),
                g == text_glyph(ts, msg),
                dy <= msg_height,
                self.queued() == mid.queued() + sweep_prefix(msg, g, dy * msg.width),
            decreases msg_height - dy,
        {
            let mut dx: u16 = 0;
            while dx < msg_width
                invariant
                    self.wf(),
                    self.cols() == cols && self.rows() == rows,
                    self.mirror() == mid.mirror(),
                    self.message() is None,
                    ts == texts(lines@),
                    forall|j: int| 0 <= j < ts.len() ==> lens@[j] == #[trigger] ts[j].len(),
                    forall|j: int| 0 <= j < ts.len() ==> #[trigger] ts[j].len() <= widest(ts),
                    lens@.len() == ts.len(),
                    msg_width == widest(ts) + 2,
                    msg_height == ts.len() + 2,
                    msg == (Message { top_left, width: msg_width, height: msg_height }),
                    box_within(msg, cols, rows),
                    g == text_glyph(ts, msg),
                    dy < msg_height,
                    dx <= msg_width,
                    self.queued() == mid.queued() + sweep_prefix(msg, g, dy * msg.width + dx),
                decreases msg_width - dx,
            {
                let ch: char = if dy == 0 || dy == msg_height - 1 {
                    ' '
                } else {
                    let row: usize = (dy - 1) as usize;
                    assert(row < ts.len());
                    let len: usize = lens[row];
                    assert(len == ts[row as int].len());
                    let lpad: usize = (msg_width as usize - len) / 2;
                    if lpad <= dx as usize && (dx as usize) < lpad + len {
                        lines[row].get_char(dx as usize - lpad)
                    } else {
                        ' '
                    }
                };
                assert(ch == g(dx as int, dy as int));
                proof {
                    lemma_sweep_step(msg, g, dx as int, dy as int);
                }
                self.print_at_no_save((top_left.0 + dx, top_left.1 + dy), ch);
                dx = dx + 1;
                assert(self.queued() =~= mid.queued() + sweep_prefix(msg, g, dy * msg.width + dx));
            }
            assert(dy * msg.width + msg.width == (dy + 1) * msg.width) by (nonlinear_arith);
            dy = dy + 1;
        }
        assert(dy * msg.width == msg.width * msg.height) by (nonlinear_arith)
            requires
                dy == msg.height,
        ;
        self.current_msg = Some(msg);
    }

    /// Writes `ch` at `pos` on the device and in the mirror, stated cell by cell.
    fn put_cell(&mut self, pos: Coords, ch: char)
        requires
            old(self).wf(),
            pos.0 < old(self).cols(),
            pos.1 < old(self).rows(),
        ensures
            final(self).wf(),
            final(self).cols() == old(self).cols(),
            final(self).rows() == old(self).rows(),
            final(self).message() == old(self).message(),
            final(self).queued() == old(self).queued().push(Output::Put { x: pos.0, y: pos.1, ch }),
            forall|x: int, y: int|
                0 <= x < old(self).cols() && 0 <= y < old(self).rows() ==> #[trigger] final(self).at(x, y) == if x == pos.0 && y == pos.1 {
                    ch
                } else {
                    old(self).at(x, y)
                },
    {
        self.print_at(pos, ch);
        proof {
            let cols = old(self).cols() as int;
            let rows = old(self).rows() as int;
            assert forall|x: int, y: int| 0 <= x < cols && 0 <= y < rows implies #[trigger] self.at(
                x,
                y,
            ) == if x == pos.0 && y == pos.1 {
                ch
            } else {
                old(self).at(x, y)
            } by {
                lemma_cell_bound(cols, rows, x, y);
                lemma_cell_bound(cols, rows, pos.0 as int, pos.1 as int);
                if x != pos.0 || y != pos.1 {
                    lemma_cell_distinct(cols, x, y, pos.0 as int, pos.1 as int);
                }
            }
        }
    }

    /// Draws a frame of the given size (the whole terminal for `None`) with
    /// its top-left corner at the origin.
    pub fn draw_borders(&mut self, size: Option<Coords>)
        requires
            old(self).wf(),
            ({
                let (w, h) = match size {
                    Some(s) => s,
                    None => (old(self).cols(), old(self).rows()),
                };
                1 <= w <= old(self).cols() && 1 <= h <= old(self).rows()
            }),
        ensures
            final(self).wf(),
            final(self).cols() == old(self).cols(),
            final(self).rows() == old(self).rows(),
            final(self).message() == old(self).message(),
            ({
                let (w, h) = match size {
                    Some(s) => s,
                    None => (old(self).cols(), old(self).rows()),
                };
                &&& final(self).queued() == old(self).queued() + border_ops(w, h)
                &&& forall|x: int, y: int|
                    0 <= x < old(self).cols() && 0 <= y < old(self).rows() ==> #[trigger] final(self).at(x, y) == match border_glyph(x, y, w as int, h as int) {
                        Some(c) => c,
                        None => old(self).at(x, y),
                    }
            }),
    {
        let (width, height) = match size {
            Some((x, y)) => (x, y),
            None => (self.width, self.height),
        };
        let ghost start = *self;
        let ghost w = width as int;
        let ghost h = height as int;
        let ghost cols = self.width as int;
        let ghost rows = self.height as int;
        let end_x: u16 = width - 1;
        let end_y: u16 = height - 1;
        let mut x: u16 = 0;
        while x < width
            invariant
                self.wf(),
                self.cols() == cols && self.rows() == rows,
                1 <= w <= cols && 1 <= h <= rows,
                width == w && height == h && end_y == h - 1,
                self.message() == start.message(),
                x <= width,
                self.queued() == start.queued() + Seq::new(x as nat, |i: int| Output::Put { x: i as u16, y: 0, ch: corner_or_dash(i, w) }),
                forall|xx: int, yy: int|
                    0 <= xx < cols && 0 <= yy < rows ==> #[trigger] self.at(xx, yy) == match border_so_far(xx, yy, w, h, 0, x as int) {
                        Some(c) => c,
                        None => start.at(xx, yy),
                    },
            decreases width - x,
        {
            let ch = if x == 0 || x == width - 1 { '+' } else { '-' };
            self.put_cell((x, 0), ch);
            x = x + 1;
            assert(self.queued() =~= start.queued() + Seq::new(x as nat, |i: int| Output::Put { x: i as u16, y: 0, ch: corner_or_dash(i, w) }));
        }
        let ghost q1 = self.queued();
        x = 0;
        while x < width
            invariant
                self.wf(),
                self.cols() == cols && self.rows() == rows,
                1 <= w <= cols && 1 <= h <= rows,
                width == w && height == h && end_y == h - 1,
                self.message() == start.message(),
                x <= width,
                self.queued() == q1 + Seq::new(x as nat, |i: int| Output::Put { x: i as u16, y: (h - 1) as u16, ch: corner_or_dash(i, w) }),
                forall|xx: int, yy: int|
                    0 <= xx < cols && 0 <= yy < rows ==> #[trigger] self.at(xx, yy) == match border_so_far(xx, yy, w, h, 1, x as int) {
                        Some(c) => c,
                        None => start.at(xx, yy),
                    },
            decreases width - x,
        {
            let ch = if x == 0 || x == width - 1 { '+' } else { '-' };
            self.put_cell((x, end_y), ch);
            x = x + 1;
            assert(self.queued() =~= q1 + Seq::new(x as nat, |i: int| Output::Put { x: i as u16, y: (h - 1) as u16, ch: corner_or_dash(i, w) }));
        }
        let ghost q2 = self.queued();
        let mut y: u16 = 1;
        while y < end_y
            invariant
                self.wf(),
                self.cols() == cols && self.rows() == rows,
                1 <= w <= cols && 1 <= h <= rows,
                width == w && height == h && end_y == h - 1 && end_x == w - 1,
                self.message() == start.message(),
                1 <= y <= end_y || (y == 1 && end_y == 0),
                self.queued() == q2 + Seq::new((y - 1) as nat, |i: int| Output::Put { x: 0, y: (i + 1) as u16, ch: '|' }),
                forall|xx: int, yy: int|
                    0 <= xx < cols && 0 <= yy < rows ==> #[trigger] self.at(xx, yy) == match border_so_far(xx, yy, w, h, 2, y as int) {
                        Some(c) => c,
                        None => start.at(xx, yy),
                    },
            decreases end_y - y,
        {
            self.put_cell((0, y), '|');
            y = y + 1;
            assert(self.queued() =~= q2 + Seq::new((y - 1) as nat, |i: int| Output::Put { x: 0, y: (i + 1) as u16, ch: '|' }));
        }
        let ghost q3 = self.queued();
        y = 1;
        while y < end_y
            invariant
                self.wf(),
                self.cols() == cols && self.rows() == rows,
                1 <= w <= cols && 1 <= h <= rows,
                width == w && height == h && end_y == h - 1 && end_x == w - 1,
                self.message() == start.message(),
                1 <= y <= end_y || (y == 1 && end_y == 0),
                self.queued() == q3 + Seq::new((y - 1) as nat, |i: int| Output::Put { x: end_x, y: (i + 1) as u16, ch: '|' }),
                forall|xx: int, yy: int|
                    0 <= xx < cols && 0 <= yy < rows ==> #[trigger] self.at(xx, yy) == match border_so_far(xx, yy, w, h, 3, y as int) {
                        Some(c) => c,
                        None => start.at(xx, yy),
                    },
            decreases end_y - y,
        {
            self.put_cell((end_x, y), '|');
            y = y + 1;
            assert(self.queued() =~= q3 + Seq::new((y - 1) as nat, |i: int| Output::Put { x: end_x, y: (i + 1) as u16, ch: '|' }));
        }
        assert(self.queued() =~= start.queued() + border_ops(width, height));
        assert forall|xx: int, yy: int| 0 <= xx < cols && 0 <= yy < rows implies #[trigger] self.at(xx, yy)
            == match border_glyph(xx, yy, w, h) {
            Some(c) => c,
            None => start.at(xx, yy),
        } by {
            assert(border_so_far(xx, yy, w, h, 3, h - 1) == border_glyph(xx, yy, w, h));
        }
    }
}


/// The border glyph at (`x`, `y`) of a `w` x `h` frame anchored at the
/// origin: `+` at the corners, `-` along the top and bottom, `|` down the
/// sides; `None` off the frame.
pub open spec fn border_glyph(x: int, y: int, w: int, h: int) -> Option<char> {
    if 0 <= x < w && (y == 0 || y == h - 1) {
        Some(corner_or_dash(x, w))
    } else if 0 < y < h - 1 && (x == 0 || x == w - 1) {
        Some('|')
    } else {
        None
    }
}

pub open spec fn corner_or_dash(x: int, w: int) -> char {
    if x == 0 || x == w - 1 {
        '+'
    } else {
        '-'
    }
}

pub open spec fn side_count(h: int) -> nat {
    if h >= 2 {
        (h - 2) as nat
    } else {
        0
    }
}

/// The writes that draw a `w` x `h` frame: top row, bottom row, left side,
/// right side.
pub open spec fn border_ops(w: u16, h: u16) -> Seq<Output> {
    Seq::new(w as nat, |x: int| Output::Put { x: x as u16, y: 0, ch: corner_or_dash(x, w as int) })
        + Seq::new(
        w as nat,
        |x: int| Output::Put { x: x as u16, y: (h - 1) as u16, ch: corner_or_dash(x, w as int) },
    ) + Seq::new(side_count(h as int), |i: int| Output::Put { x: 0, y: (i + 1) as u16, ch: '|' })
        + Seq::new(
        side_count(h as int),
        |i: int| Output::Put { x: (w - 1) as u16, y: (i + 1) as u16, ch: '|' },
    )
}

/// Frame cells drawn so far: `stage` counts the finished parts (top, bottom,
/// left, right) and `k` the progress inside the current part.
pub open spec fn border_so_far(x: int, y: int, w: int, h: int, stage: int, k: int) -> Option<char> {
    if 0 <= x < w && y == 0 && (stage > 0 || x < k) {
        Some(corner_or_dash(x, w))
    } else if 0 <= x < w && y == h - 1 && (stage > 1 || (stage == 1 && x < k)) {
        Some(corner_or_dash(x, w))
    } else if x == 0 && 0 < y < h - 1 && (stage > 2 || (stage == 2 && y < k)) {
        Some('|')
    } else if x == w - 1 && 0 < y < h - 1 && stage == 3 && y < k {
        Some('|')
    } else {
        None
    }
}

/// Showing a message and then hiding it leaves the mirror as it was, and the
/// hide writes put back, at every cell of the box, the character that the
/// mirror held there before the message was shown.
pub proof fn lemma_message_round_trip(t0: TermManager, lines: Seq<&str>, t1: TermManager, t2: TermManager)
    requires
        t0.wf(),
        message_fits(t0.cols() as int, t0.rows() as int, texts(lines)),
        t1.wf(),
        t1.cols() == t0.cols(),
        t1.rows() == t0.rows(),
        t1.mirror() == t0.mirror(),
        t1.message() == Some(message_box(t0.cols(), t0.rows(), texts(lines))),
        t1.queued() == queue_after_hide(t0) + message_ops(texts(lines), message_box(t0.cols(), t0.rows(), texts(lines))),
        t2.wf(),
        t2.cols() == t1.cols(),
        t2.rows() == t1.rows(),
        t2.mirror() == t1.mirror(),
        t2.message() is None,
        t2.queued() == queue_after_hide(t1),
    ensures
        t2.mirror() == t0.mirror(),
        ({
            let m = message_box(t0.cols(), t0.rows(), texts(lines));
            let added = t2.queued().subrange(t1.queued().len() as int, t2.queued().len() as int);
            &&& added.len() == m.width * m.height
            &&& forall|dx: int, dy: int|
                0 <= dx < m.width && 0 <= dy < m.height ==> #[trigger] added[dy * m.width + dx]
                    == Output::Put {
                    x: (m.top_left.0 + dx) as u16,
                    y: (m.top_left.1 + dy) as u16,
                    ch: t0.at(m.top_left.0 + dx, m.top_left.1 + dy),
                }
        }),
{
    let m = message_box(t0.cols(), t0.rows(), texts(lines));
    let added = t2.queued().subrange(t1.queued().len() as int, t2.queued().len() as int);
    assert(added =~= restore_ops(t0.mirror(), t0.cols() as int, m));
    assert forall|dx: int, dy: int| 0 <= dx < m.width && 0 <= dy < m.height implies #[trigger] added[dy
        * m.width + dx] == Output::Put {
        x: (m.top_left.0 + dx) as u16,
        y: (m.top_left.1 + dy) as u16,
        ch: t0.at(m.top_left.0 + dx, m.top_left.1 + dy),
    } by {
        let k = dy * m.width + dx;
        vstd::arithmetic::div_mod::lemma_fundamental_div_mod_converse(k, m.width as int, dy, dx);
        assert(k < m.width * m.height) by (nonlinear_arith)
            requires
                0 <= dx < m.width,
                0 <= dy < m.height,
                k == dy * m.width + dx,
        ;
        assert(0 <= k) by (nonlinear_arith)
            requires
                0 <= dx,
                0 <= dy,
                0 <= m.width,
                k == dy * m.width + dx,
        ;
    }
}

fn blank_cells(n: usize) -> (v: Vec<char>)
    ensures
        v@ == Seq::new(n as nat, |i: int| ' '),
{
    let mut v: Vec<char> = Vec::new();
    let mut i: usize = 0;
    while i < n
        invariant
            i <= n,
            v@ == Seq::new(i as nat, |j: int| ' '),
        decreases n - i,
    {
        v.push(' ');
        i = i + 1;
        assert(v@ =~= Seq::new(i as nat, |j: int| ' '));
    }
    v
}

} // verus!
