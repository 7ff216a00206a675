//! Snake, sized to whatever frame it is given.
//!
//! The board is derived from the live framebuffer rather than baked in, so on
//! a tall phone it is a tall board. The body is a fixed ring buffer of cell
//! indices plus an occupancy map, so a self-collision test is one lookup.

use vstd::prelude::*;
use crate::engine::frame::{
    Frame, Rgb, lerp, width, height, MIN_SIDE, MAX_W, MAX_H, paint, live, in_box, box_region, dimmed,
    lerp_spec, lemma_paint_union, lemma_paint_same_live, lemma_pixel_coords,
};
use crate::engine::rng::{Rng, xorshift, xs_iter};

verus! {

/// Upper bounds on the board, which fix the size of the ring and the map.
pub const MAX_COLS: usize = 34;
pub const MAX_ROWS: usize = 34;
pub const MAX_CELLS: usize = MAX_COLS * MAX_ROWS;
pub const MIN_CELL: usize = 12;

pub const BACKDROP: Rgb = (18, 24, 30);
pub const GRID_DOT: Rgb = (32, 44, 53);
pub const TAIL: Rgb = (63, 125, 110);
pub const HEAD: Rgb = (201, 154, 46);
pub const FOOD: Rgb = (200, 71, 31);
pub const FOOD_CORE: Rgb = (233, 138, 90);
pub const DIM: u16 = 90;

pub const UP: u8 = 0;
pub const RIGHT: u8 = 1;
pub const DOWN: u8 = 2;
pub const LEFT: u8 = 3;

/// Time between steps, in half milliseconds: 130 ms at the start, 2.5 ms
/// quicker for every apple, never quicker than 65 ms.
pub const START_STEP_HALF_MS: u32 = 260;
pub const MIN_STEP_HALF_MS: u32 = 130;
pub const SPEEDUP_HALF_MS: u32 = 5;

/// How many draws `place_food` makes before it gives up. xorshift32 walks
/// every nonzero state once per period of `u32::MAX` steps, so within this
/// many draws every cell index has come up.
pub const FOOD_DRAWS: u32 = 0xFFFF_FFFF;

/// Everything the snake is, as mathematics.
pub struct SnakeModel {
    pub body: Seq<u16>,
    pub taken: Seq<bool>,
    pub head: int,
    pub len: int,
    pub dir: int,
    pub queued: int,
    pub food: int,
    pub cols: int,
    pub rows: int,
    pub cell: int,
    pub ox: int,
    pub oy: int,
    pub score: int,
    pub best: int,
    pub dead: bool,
    pub started: bool,
    pub step_half_ms: int,
    pub frames: int,
}

impl SnakeModel {
    pub open spec fn cells(self) -> int {
        self.cols * self.rows
    }

    /// Ring slot of segment `k`, counting back from the head.
    pub open spec fn ring(self, k: int) -> int {
        (self.head + MAX_CELLS - k) % (MAX_CELLS as int)
    }

    /// Cell of segment `k`; segment 0 is the head.
    pub open spec fn seg(self, k: int) -> int {
        self.body[self.ring(k)] as int
    }

    pub open spec fn tail_cell(self) -> int {
        self.seg(self.len - 1)
    }

    /// Cell `c` is one of the snake's segments.
    pub open spec fn in_snake(self, c: int) -> bool {
        exists|k: int| 0 <= k < self.len && #[trigger] self.seg(k) == c
    }

    /// The shape every snake keeps, dealt or not, apple aside: the board
    /// fits the ring, the snake fits the board, and the occupancy map is
    /// exactly the body.
    pub open spec fn shape(self) -> bool {
        &&& self.body.len() == MAX_CELLS
        &&& self.taken.len() == MAX_CELLS
        &&& 1 <= self.cols <= MAX_COLS
        &&& 1 <= self.rows <= MAX_ROWS
        &&& self.cells() < MAX_CELLS
        &&& 0 <= self.head < MAX_CELLS
        &&& 0 <= self.len <= self.cells()
        &&& (self.len == 0 ==> self.cols == 1 && self.rows == 1)
        &&& self.body[self.head] < self.cells()
        &&& forall|k: int| 0 <= k < self.len ==> #[trigger] self.seg(k) < self.cells()
        &&& forall|c: int|
            0 <= c < MAX_CELLS && #[trigger] self.taken[c] ==> c < self.cells() && self.in_snake(c)
        &&& 0 <= self.food <= u16::MAX
        &&& 0 <= self.dir < 4
        &&& 0 <= self.queued < 4
        &&& 0 <= self.score <= self.best <= u32::MAX
        &&& self.score <= self.len
        &&& MIN_STEP_HALF_MS <= self.step_half_ms <= START_STEP_HALF_MS
        &&& MIN_CELL <= self.cell <= 100
        &&& -2000 <= self.ox <= 2000
        &&& -2000 <= self.oy <= 2000
        &&& 0 <= self.frames <= u32::MAX
        &&& self.occupancy_exact()
    }

    /// While the board has a free cell, the apple is on one.
    pub open spec fn food_free(self) -> bool {
        self.len < self.cells() ==> 0 <= self.food < self.cells() && !self.taken[self.food]
    }

    /// Everything every snake keeps, dealt or not.
    pub open spec fn wf(self) -> bool {
        self.shape() && self.food_free()
    }

    /// The occupancy map is exactly the body, and no cell is in it twice.
    pub open spec fn occupancy_exact(self) -> bool {
        &&& forall|c: int| 0 <= c < MAX_CELLS ==> (#[trigger] self.taken[c] <==> (c < self.cells() && self.in_snake(c)))
        &&& forall|j: int, k: int| 0 <= j < k < self.len ==> #[trigger] self.seg(j) != #[trigger] self.seg(k)
    }

    /// The direction the next step takes: the queued turn, unless it would
    /// fold the snake straight back on itself.
    pub open spec fn turned(self) -> int {
        if (self.queued + 2) % 4 != self.dir {
            self.queued
        } else {
            self.dir
        }
    }

    pub open spec fn head_x(self) -> int {
        self.body[self.head] as int % self.cols
    }

    pub open spec fn head_y(self) -> int {
        self.body[self.head] as int / self.cols
    }

    /// Column and row the head moves to going direction `d`.
    pub open spec fn target(self, d: int) -> (int, int) {
        if d == UP {
            (self.head_x(), self.head_y() - 1)
        } else if d == RIGHT {
            (self.head_x() + 1, self.head_y())
        } else if d == DOWN {
            (self.head_x(), self.head_y() + 1)
        } else {
            (self.head_x() - 1, self.head_y())
        }
    }

    pub open spec fn on_board(self, x: int, y: int) -> bool {
        0 <= x < self.cols && 0 <= y < self.rows
    }

    /// The cell the head would enter next.
    pub open spec fn next_cell(self) -> int {
        let (x, y) = self.target(self.turned());
        y * self.cols + x
    }

    pub open spec fn eats(self) -> bool {
        self.next_cell() == self.food
    }

    /// The next step kills the snake: off the board, or into its own body
    /// (the tail is fair game when it is about to move away).
    pub open spec fn blocked(self) -> bool {
        let (x, y) = self.target(self.turned());
        ||| !self.on_board(x, y)
        ||| (self.taken[self.next_cell()] && !(self.next_cell() == self.tail_cell() && !self.eats()))
    }

}

/// Two models with the same ring, length and board have the same segments.
pub proof fn lemma_same_snake(a: SnakeModel, b: SnakeModel)
    requires
        a.body == b.body,
        a.head == b.head,
        a.len == b.len,
    ensures
        forall|k: int| #[trigger] b.seg(k) == a.seg(k),
        forall|c: int| #[trigger] b.in_snake(c) == a.in_snake(c),
{
    assert forall|c: int| #[trigger] b.in_snake(c) == a.in_snake(c) by {
        if a.in_snake(c) {
            let k = choose|k: int| 0 <= k < a.len && #[trigger] a.seg(k) == c;
            assert(b.seg(k) == c);
        }
        if b.in_snake(c) {
            let k = choose|k: int| 0 <= k < b.len && #[trigger] b.seg(k) == c;
            assert(a.seg(k) == c);
        }
    }
}

/// The cells the first `k` segments stand on.
spec fn seg_cells(m: SnakeModel, k: int) -> Set<int>
    decreases k,
{
    if k <= 0 {
        Set::empty()
    } else {
        seg_cells(m, k - 1).insert(m.seg(k - 1))
    }
}

proof fn lemma_seg_cells(m: SnakeModel, k: int)
    requires
        0 <= k,
    ensures
        seg_cells(m, k).finite(),
        seg_cells(m, k).len() <= k,
        forall|c: int| #[trigger] seg_cells(m, k).contains(c) <==> exists|j: int| 0 <= j < k && #[trigger] m.seg(j) == c,
        (forall|a: int, b: int| 0 <= a < b < k ==> #[trigger] m.seg(a) != #[trigger] m.seg(b)) ==> seg_cells(m, k).len() == k,
    decreases k,
{
    if k > 0 {
        lemma_seg_cells(m, k - 1);
        let prev = seg_cells(m, k - 1);
        assert forall|c: int| #[trigger] seg_cells(m, k).contains(c) <==> exists|j: int| 0 <= j < k && #[trigger] m.seg(j) == c by {
            if seg_cells(m, k).contains(c) && c != m.seg(k - 1) {
                let j = choose|j: int| 0 <= j < k - 1 && #[trigger] m.seg(j) == c;
            }
            if exists|j: int| 0 <= j < k && #[trigger] m.seg(j) == c {
                let j = choose|j: int| 0 <= j < k && #[trigger] m.seg(j) == c;
                if j < k - 1 {
                    assert(prev.contains(c));
                }
            }
        }
        if forall|a: int, b: int| 0 <= a < b < k ==> #[trigger] m.seg(a) != #[trigger] m.seg(b) {
            if prev.contains(m.seg(k - 1)) {
                let j = choose|j: int| 0 <= j < k - 1 && #[trigger] m.seg(j) == m.seg(k - 1);
                assert(m.seg(j) != m.seg(k - 1));
            }
        }
    }
}

/// A snake shorter than its board leaves a cell of it free.
proof fn lemma_free_cell(m: SnakeModel)
    requires
        m.shape(),
        m.len < m.cells(),
    ensures
        has_free(m.taken, m.cells()),
{
    lemma_seg_cells(m, m.len);
    if !has_free(m.taken, m.cells()) {
        let range = vstd::set_lib::set_int_range(0, m.cells());
        assert forall|c: int| #[trigger] range.contains(c) implies seg_cells(m, m.len).contains(c) by {
            assert(m.taken[c]);
            assert(m.in_snake(c));
            let j = choose|j: int| 0 <= j < m.len && #[trigger] m.seg(j) == c;
        }
        vstd::set_lib::lemma_int_range(0, m.cells());
        vstd::set_lib::lemma_len_subset(range, seg_cells(m, m.len));
    }
}

/// Distinct segments all on the board: the snake is no longer than the
/// board has cells.
proof fn lemma_len_fits(m: SnakeModel)
    requires
        0 <= m.len,
        0 <= m.cells(),
        forall|k: int| 0 <= k < m.len ==> #[trigger] m.seg(k) < m.cells(),
        forall|j: int, k: int| 0 <= j < k < m.len ==> #[trigger] m.seg(j) != #[trigger] m.seg(k),
    ensures
        m.len <= m.cells(),
{
    lemma_seg_cells(m, m.len);
    let range = vstd::set_lib::set_int_range(0, m.cells());
    assert forall|c: int| #[trigger] seg_cells(m, m.len).contains(c) implies range.contains(c) by {
        let j = choose|j: int| 0 <= j < m.len && #[trigger] m.seg(j) == c;
    }
    vstd::set_lib::lemma_int_range(0, m.cells());
    vstd::set_lib::lemma_len_subset(seg_cells(m, m.len), range);
}

/// After the head advances one ring slot onto cell `nx`, segment 0 is the
/// new head and every old segment moves one place back.
pub proof fn lemma_advance(o: SnakeModel, n: SnakeModel, nx: int)
    requires
        o.wf(),
        1 <= o.len < MAX_CELLS,
        0 <= nx <= u16::MAX,
        n.head == (o.head + 1) % (MAX_CELLS as int),
        n.body == o.body.update(n.head, nx as u16),
    ensures
        n.seg(0) == nx,
        forall|k: int| 1 <= k <= o.len ==> #[trigger] n.seg(k) == o.seg(k - 1),
{
    let nn = MAX_CELLS as int;
    assert(n.ring(0) == n.head) by {
        vstd::arithmetic::div_mod::lemma_mod_add_multiples_vanish(n.head, nn);
        vstd::arithmetic::div_mod::lemma_small_mod(n.head as nat, nn as nat);
    }
    assert forall|k: int| 1 <= k <= o.len implies #[trigger] n.seg(k) == o.seg(k - 1) by {
        let j = k - 1;
        if o.head + 1 < nn {
            vstd::arithmetic::div_mod::lemma_small_mod((o.head + 1) as nat, nn as nat);
        } else {
            vstd::arithmetic::div_mod::lemma_mod_self_0(nn);
            assert(n.head == 0);
        }
        // both slots are head - j, wrapped into the ring
        if o.head >= j {
            vstd::arithmetic::div_mod::lemma_mod_add_multiples_vanish(o.head - j, nn);
            vstd::arithmetic::div_mod::lemma_small_mod((o.head - j) as nat, nn as nat);
            assert(o.ring(j) == o.head - j);
            if o.head + 1 < nn {
                assert(n.head + nn - k == o.head - j + nn);
            } else {
                assert(n.head + nn - k == o.head - j);
            }
            assert(n.ring(k) == o.head - j);
        } else {
            vstd::arithmetic::div_mod::lemma_small_mod((o.head + nn - j) as nat, nn as nat);
            assert(o.ring(j) == o.head + nn - j);
            if o.head + 1 < nn {
                vstd::arithmetic::div_mod::lemma_small_mod((n.head + nn - k) as nat, nn as nat);
            }
            assert(n.ring(k) == o.head + nn - j);
        }
        assert(o.ring(j) != n.head);
    }
}

/// Some cell of the board is free.
pub open spec fn has_free(taken: Seq<bool>, cells: int) -> bool {
    exists|c: int| 0 <= c < cells && !#[trigger] taken[c]
}

/// `f` is the lowest free cell of the board.
pub open spec fn lowest_free(taken: Seq<bool>, cells: int, f: int) -> bool {
    &&& 0 <= f < cells
    &&& !taken[f]
    &&& forall|c: int| 0 <= c < f ==> #[trigger] taken[c]
}

/// Food placement from generator state `s0` onto a board of `cells` cells of
/// which `taken` are occupied: the first draw that lands on a free cell
/// (`draw % cells`) is where the food goes, and the generator has advanced
/// by exactly the draws made. Should `FOOD_DRAWS` draws all land on taken
/// cells (xorshift32 visits every residue well before that), the apple goes
/// to the lowest free cell. A full snake leaves the food and generator
/// alone.
pub open spec fn placed(
    taken: Seq<bool>,
    cells: int,
    len: int,
    f0: int,
    s0: u32,
    f1: int,
    s1: u32,
) -> bool {
    if len >= cells {
        f1 == f0 && s1 == s0
    } else {
        exists|k: nat|
            #![trigger xs_iter(s0, k)]
            1 <= k <= FOOD_DRAWS && s1 == xs_iter(s0, k) && (forall|j: nat|
                1 <= j < k ==> #[trigger] taken[xs_iter(s0, j) as int % (cells as int)]) && (if !taken[s1 as int
                % cells] {
                f1 == s1 as int % cells
            } else {
                k == FOOD_DRAWS && if has_free(taken, cells) {
                    lowest_free(taken, cells, f1)
                } else {
                    f1 == f0
                }
            })
    }
}


/// Half of `d`, rounded toward zero.
pub open spec fn half_toward_zero(d: int) -> int {
    if d >= 0 {
        d / 2
    } else {
        -((-d) / 2)
    }
}

/// Cell size for a `w x h` frame: sized off the long and short sides, so a
/// portrait phone and the same phone on its side get the same board: at most
/// 32 cells down the long side and 18 across the short one, and never
/// smaller than `MIN_CELL` pixels.
pub open spec fn cell_for(w: int, h: int) -> int {
    let long = if w > h { w } else { h };
    let short = if w > h { h } else { w };
    let by_long = (long + 31) / 32;
    let by_short = (short + 17) / 18;
    let c = if by_long > by_short { by_long } else { by_short };
    if c < MIN_CELL { MIN_CELL as int } else { c }
}

/// `n` cells clamped into `[6, max]`.
pub open spec fn fit_cells(n: int, max: int) -> int {
    if n > max {
        max
    } else if n < 6 {
        6
    } else {
        n
    }
}

/// The board a `w x h` frame gets: cell size, columns, rows, and the
/// leftover pixels split so the board sits centred.
pub open spec fn measured(w: int, h: int) -> (int, int, int, int, int) {
    let cell = cell_for(w, h);
    let cols = fit_cells(w / cell, MAX_COLS as int);
    let rows = fit_cells(h / cell, MAX_ROWS as int);
    (cell, cols, rows, half_toward_zero(w - cols * cell), half_toward_zero(h - rows * cell))
}

/// The first cell of the three-segment snake a board of `cols x rows` is
/// dealt: the middle row, two left of centre.
pub open spec fn start_cell(cols: int, rows: int) -> int {
    (rows / 2) * cols + cols / 2 - 2
}

fn cell_size(w: usize, h: usize) -> (cell: usize)
    requires
        MIN_SIDE <= w <= MAX_W,
        MIN_SIDE <= h <= MAX_H,
    ensures
        cell == cell_for(w as int, h as int),
        MIN_CELL <= cell <= 100,
{
    let (long, short) = if w > h { (w, h) } else { (h, w) };
    let by_long = (long + 31) / 32;
    let by_short = (short + 17) / 18;
    let mut cell = if by_long > by_short { by_long } else { by_short };
    if cell < MIN_CELL {
        cell = MIN_CELL;
    }
    cell
}

fn fit(n: usize, max: usize) -> (r: usize)
    requires
        6 <= max,
    ensures
        r == fit_cells(n as int, max as int),
        6 <= r <= max,
{
    let mut r = n;
    if r > max {
        r = max;
    }
    if r < 6 {
        r = 6;
    }
    r
}

fn centre(side: usize, used: usize) -> (o: i32)
    requires
        side <= MAX_W,
        used <= 3400,
    ensures
        o == half_toward_zero(side - used),
        -2000 <= o <= 2000,
{
    let d: i32 = side as i32 - used as i32;
    if d >= 0 {
        d / 2
    } else {
        -((-d) / 2)
    }
}

fn measure(w: usize, h: usize) -> (m: (usize, usize, usize, i32, i32))
    requires
        MIN_SIDE <= w <= MAX_W,
        MIN_SIDE <= h <= MAX_H,
    ensures
        (m.0 as int, m.1 as int, m.2 as int, m.3 as int, m.4 as int) == measured(w as int, h as int),
        MIN_CELL <= m.0 <= 100,
        6 <= m.1 <= 32,
        6 <= m.2 <= 32,
        -2000 <= m.3 <= 2000,
        -2000 <= m.4 <= 2000,
{
    let cell = cell_size(w, h);
    // the cell is sized so that neither side holds more than 32 of them
    assert(w / cell <= 32 && h / cell <= 32) by (nonlinear_arith)
        requires
            cell >= (w + 31) / 32,
            cell >= (h + 31) / 32,
            cell >= 1,
    ;
    let cols = fit(w / cell, MAX_COLS);
    let rows = fit(h / cell, MAX_ROWS);
    assert(cols * cell <= 3400) by (nonlinear_arith)
        requires
            cols <= 34,
            cell <= 100,
    ;
    assert(rows * cell <= 3400) by (nonlinear_arith)
        requires
            rows <= 34,
            cell <= 100,
    ;
    let ox = centre(w, cols * cell);
    let oy = centre(h, rows * cell);
    (cell, cols, rows, ox, oy)
}

/// The snake after it runs into something: dead, with the best score
/// brought up to date.
pub open spec fn died(o: SnakeModel) -> SnakeModel {
    SnakeModel { dir: o.turned(), dead: true, best: if o.score > o.best { o.score } else { o.best }, ..o }
}

/// The head advanced one ring slot onto the next cell.
pub open spec fn moved(o: SnakeModel) -> SnakeModel {
    let h2 = (o.head + 1) % (MAX_CELLS as int);
    SnakeModel { head: h2, body: o.body.update(h2, o.next_cell() as u16), dir: o.turned(), ..o }
}

/// The snake after eating, before the new apple is placed: one longer, one
/// point up, a little quicker.
pub open spec fn grown(o: SnakeModel) -> SnakeModel {
    SnakeModel {
        len: o.len + 1,
        taken: o.taken.update(o.next_cell(), true),
        score: o.score + 1,
        best: if o.score + 1 > o.best { o.score + 1 } else { o.best },
        step_half_ms: if o.step_half_ms - SPEEDUP_HALF_MS > MIN_STEP_HALF_MS {
            o.step_half_ms - SPEEDUP_HALF_MS
        } else {
            MIN_STEP_HALF_MS as int
        },
        ..moved(o)
    }
}

/// The snake after an ordinary move: the tail cell is released and the head
/// takes the next cell, which may be the one the tail has just left.
pub open spec fn slid(o: SnakeModel) -> SnakeModel {
    SnakeModel { taken: o.taken.update(o.tail_cell(), false).update(o.next_cell(), true), ..moved(o) }
}

/// What a step leaves, given the model and generator state before it and
/// after it.
pub open spec fn stepped(o: SnakeModel, n: SnakeModel, s0: u32, s1: u32) -> bool {
    if o.blocked() {
        n == died(o) && s1 == s0
    } else if o.eats() {
        &&& n == (SnakeModel { food: n.food, ..grown(o) })
        &&& placed(grown(o).taken, o.cells(), o.len + 1, o.food, s0, n.food, s1)
    } else {
        n == slid(o) && s1 == s0
    }
}

/// A step heads the queued way unless that would turn the snake straight
/// back on itself (0 up, 1 right, 2 down, 3 left), and a snake still alive
/// afterwards has its head on the neighbouring cell that way: one row up or
/// down, or one column left or right, of where the head was.
pub proof fn lemma_step_turns_and_moves(o: SnakeModel, n: SnakeModel, s0: u32, s1: u32)
    requires
        o.wf(),
        stepped(o, n, s0, s1),
    ensures
        (o.queued + 2) % 4 != o.dir ==> n.dir == o.queued,
        (o.queued + 2) % 4 == o.dir ==> n.dir == o.dir,
        !n.dead ==> {
            let c = o.body[o.head] as int;
            let x = c % o.cols;
            let y = c / o.cols;
            let h = n.body[n.head] as int;
            &&& n.dir == 0 ==> h == (y - 1) * o.cols + x && y >= 1
            &&& n.dir == 1 ==> h == y * o.cols + x + 1 && x + 1 < o.cols
            &&& n.dir == 2 ==> h == (y + 1) * o.cols + x && y + 1 < o.rows
            &&& n.dir == 3 ==> h == y * o.cols + x - 1 && x >= 1
        },
{
    if !n.dead && !o.blocked() {
        let (tx, ty) = o.target(o.turned());
        assert(o.on_board(tx, ty));
        assert(0 <= ty * o.cols + tx < o.cols * o.rows) by (nonlinear_arith)
            requires
                0 <= tx < o.cols,
                0 <= ty < o.rows,
        ;
        assert(0 <= o.next_cell() < MAX_CELLS);
        let h2 = (o.head + 1) % (MAX_CELLS as int);
        assert(n.head == h2);
        assert(n.body[h2] == o.next_cell() as u16);
    }
}

/// What a step does to a live snake, by where the head would go: the cell
/// one row up or down, or one column left or right, in the direction taken.
/// Off the board, or onto its own body (the tail excepted when it is about
/// to move away), it dies, and keeps its length and score. Onto the apple it
/// grows by one, scores a point and steps 2.5 ms quicker, down to 65 ms.
/// Otherwise it slides, keeping length, score and speed.
pub proof fn lemma_step_outcome(o: SnakeModel, n: SnakeModel, s0: u32, s1: u32)
    requires
        o.wf(),
        !o.dead,
        stepped(o, n, s0, s1),
    ensures
        ({
            let c = o.body[o.head] as int;
            let x = c % o.cols;
            let y = c / o.cols;
            let d = n.dir;
            let nx = if d == 1 { x + 1 } else if d == 3 { x - 1 } else { x };
            let ny = if d == 0 { y - 1 } else if d == 2 { y + 1 } else { y };
            let next = ny * o.cols + nx;
            let off = !(0 <= nx < o.cols && 0 <= ny < o.rows);
            let hits = !off && o.in_snake(next) && !(next == o.seg(o.len - 1) && next != o.food);
            &&& n.dead == (off || hits)
            &&& n.dead ==> n.len == o.len && n.score == o.score && n.best == (if o.score > o.best {
                o.score
            } else {
                o.best
            })
            &&& (!n.dead && next == o.food) ==> n.len == o.len + 1 && n.score == o.score + 1 && n.best == (if o.score
                + 1 > o.best {
                o.score + 1
            } else {
                o.best
            }) && n.step_half_ms == (if o.step_half_ms - 5 > 130 { o.step_half_ms - 5 } else { 130 })
            &&& (!n.dead && next != o.food) ==> n.len == o.len && n.score == o.score && n.step_half_ms
                == o.step_half_ms
        }),
{
    let (tx, ty) = o.target(o.turned());
    if o.on_board(tx, ty) {
        let nc = o.next_cell();
        assert(0 <= ty * o.cols + tx < o.cols * o.rows) by (nonlinear_arith)
            requires
                0 <= tx < o.cols,
                0 <= ty < o.rows,
        ;
        assert(o.taken[nc] == o.in_snake(nc));
    }
}

/// Committing the queued turn is idempotent: once taken, the next step
/// heads the same way, to the same cell, with the same outcome.
proof fn lemma_turn_settles(o: SnakeModel, n: SnakeModel)
    requires
        o.wf(),
        n == (SnakeModel { dir: o.turned(), ..o }),
    ensures
        n.turned() == o.turned(),
        n.dir == n.turned(),
        n.target(n.turned()) == o.target(o.turned()),
        n.next_cell() == o.next_cell(),
        n.eats() == o.eats(),
        n.tail_cell() == o.tail_cell(),
        n.blocked() == o.blocked(),
        moved(n) == moved(o),
        grown(n) == grown(o),
        slid(n) == slid(o),
        died(n) == died(o),
{
}

/// Growing onto the apple keeps the snake's shape: the occupancy map stays
/// exactly the body. The new apple is still to be placed.
proof fn lemma_step_grow(o: SnakeModel, n: SnakeModel)
    requires
        o.wf(),
        1 <= o.len < MAX_CELLS,
        !o.blocked(),
        o.eats(),
        0 <= o.next_cell() < o.cells(),
        n == grown(o),
    ensures
        n.shape(),
{
    let nx = o.next_cell();
    lemma_advance(o, n, nx);
    assert forall|k: int| 0 <= k < n.len implies #[trigger] n.seg(k) < n.cells() by {
        if k >= 1 {
            assert(n.seg(k) == o.seg(k - 1));
        }
    }
    assert(!o.taken[nx]);
    assert(!o.in_snake(nx));
    assert forall|c: int| 0 <= c < MAX_CELLS implies (#[trigger] n.taken[c] <==> (c < n.cells() && n.in_snake(c))) by {
        if c == nx {
            assert(n.seg(0) == c);
        } else if n.taken[c] {
            assert(o.taken[c]);
            let k = choose|k: int| 0 <= k < o.len && #[trigger] o.seg(k) == c;
            assert(n.seg(k + 1) == c);
        } else if c < n.cells() && n.in_snake(c) {
            let k = choose|k: int| 0 <= k < n.len && #[trigger] n.seg(k) == c;
            assert(k >= 1);
            assert(o.seg(k - 1) == c);
            assert(o.in_snake(c));
        }
    }
    assert forall|j: int, k: int| 0 <= j < k < n.len implies #[trigger] n.seg(j) != #[trigger] n.seg(k) by {
        if j == 0 {
            assert(n.seg(k) == o.seg(k - 1));
            if n.seg(k) == nx {
                assert(o.in_snake(nx));
            }
        } else {
            assert(n.seg(j) == o.seg(j - 1));
            assert(n.seg(k) == o.seg(k - 1));
        }
    }
    lemma_len_fits(n);
}

/// Sliding forward without eating keeps everything a snake keeps: the tail
/// cell is let go before the head takes its cell, so a head that follows
/// its tail onto the same cell stays marked.
proof fn lemma_step_slide(o: SnakeModel, n: SnakeModel)
    requires
        o.wf(),
        1 <= o.len < MAX_CELLS,
        !o.blocked(),
        !o.eats(),
        0 <= o.next_cell() < o.cells(),
        n == slid(o),
    ensures
        n.wf(),
{
    let nx = o.next_cell();
    let tl = o.tail_cell();
    lemma_advance(o, n, nx);
    assert forall|k: int| 0 <= k < n.len implies #[trigger] n.seg(k) < n.cells() by {
        if k >= 1 {
            assert(n.seg(k) == o.seg(k - 1));
        }
    }
    assert(o.seg(o.len - 1) == tl);
    assert(nx == tl || !o.taken[nx]);
    assert forall|j: int, k: int| 0 <= j < k < n.len implies #[trigger] n.seg(j) != #[trigger] n.seg(k) by {
        assert(n.seg(k) == o.seg(k - 1));
        if j == 0 {
            if o.seg(k - 1) == nx {
                if nx == tl {
                    assert(o.seg(k - 1) != o.seg(o.len - 1));
                } else {
                    assert(o.in_snake(nx));
                }
            }
        } else {
            assert(n.seg(j) == o.seg(j - 1));
        }
    }
    assert forall|c: int| 0 <= c < MAX_CELLS implies (#[trigger] n.taken[c] <==> (c < n.cells() && n.in_snake(c))) by {
        if c == nx {
            assert(n.seg(0) == c);
        } else if c == tl {
            if n.in_snake(c) {
                let k = choose|k: int| 0 <= k < n.len && #[trigger] n.seg(k) == c;
                assert(k >= 1);
                assert(o.seg(k - 1) == c);
                assert(o.seg(k - 1) != o.seg(o.len - 1));
            }
        } else {
            if o.taken[c] {
                let k = choose|k: int| 0 <= k < o.len && #[trigger] o.seg(k) == c;
                assert(k != o.len - 1);
                assert(n.seg(k + 1) == c);
            }
            if c < n.cells() && n.in_snake(c) {
                let k = choose|k: int| 0 <= k < n.len && #[trigger] n.seg(k) == c;
                assert(k >= 1);
                assert(o.seg(k - 1) == c);
                assert(o.in_snake(c));
            }
        }
    }
    if n.len < n.cells() {
        assert(o.food != nx);
    }
}

// ------------------------------------------------------------------ picture

/// Side of the faint dot marking each cell centre.
pub open spec fn dot_size(m: SnakeModel) -> int {
    if m.cell >= 18 { 2 } else { 1 }
}

/// Byte `i` lies in the dot at the centre of cell `(cx, cy)`.
pub open spec fn grid_dot(m: SnakeModel, fw: int, fh: int, cx: int, cy: int, i: int) -> bool {
    in_box(
        fw,
        fh,
        m.ox + cx * m.cell + m.cell / 2,
        m.oy + cy * m.cell + m.cell / 2,
        dot_size(m),
        dot_size(m),
        i,
    )
}

/// Byte `i` lies in the dot of one of the first `k` cells (row-major).
pub open spec fn in_grid_upto(m: SnakeModel, fw: int, fh: int, k: int, i: int) -> bool {
    exists|cx: int, cy: int|
        #![trigger grid_dot(m, fw, fh, cx, cy, i)]
        0 <= cx < m.cols && 0 <= cy < m.rows && cy * m.cols + cx < k && grid_dot(m, fw, fh, cx, cy, i)
}

pub open spec fn grid_region(m: SnakeModel, fw: int, fh: int) -> spec_fn(int) -> bool {
    |i: int| in_grid_upto(m, fw, fh, m.cols * m.rows, i)
}

/// How far the apple has swollen on its 60-frame breath: 0, 1 or 2.
pub open spec fn food_swell(frames: int) -> int {
    let p = frames % 60;
    (if p < 30 { p } else { 60 - p }) / 15
}

/// The apple, then its core, over `s`.
pub open spec fn with_food(m: SnakeModel, s: Seq<u8>, fw: int, fh: int) -> Seq<u8> {
    let cell = m.cell;
    let fx = m.ox + (m.food % m.cols) * cell;
    let fy = m.oy + (m.food / m.cols) * cell;
    let pad = cell / 5 - food_swell(m.frames) * (cell / 10);
    let s1 = paint(s, box_region(fw, fh, fx + pad, fy + pad, cell - pad * 2, cell - pad * 2), FOOD);
    paint(s1, box_region(fw, fh, fx + cell * 2 / 5, fy + cell * 2 / 5, cell / 5, cell / 5), FOOD_CORE)
}

/// The apple is drawn in its own cell, column `food % cols` and row
/// `food / cols` of the board: drawing it changes no byte outside that cell,
/// and when the cell is on screen its core shows in the apple's core colour.
pub proof fn lemma_food_in_its_cell(m: SnakeModel, s: Seq<u8>, fw: int, fh: int)
    requires
        m.wf(),
        fw > 0,
        fh > 0,
    ensures
        ({
            let fx = m.ox + (m.food % m.cols) * m.cell;
            let fy = m.oy + (m.food / m.cols) * m.cell;
            &&& with_food(m, s, fw, fh).len() == s.len()
            &&& forall|i: int|
                0 <= i < s.len() && #[trigger] with_food(m, s, fw, fh)[i] != s[i] ==> in_box(
                    fw,
                    fh,
                    fx,
                    fy,
                    m.cell,
                    m.cell,
                    i,
                )
            &&& (0 <= fx && fx + m.cell <= fw && 0 <= fy && fy + m.cell <= fh && fw * fh * 4 <= s.len()) ==> exists|i: int|
                0 <= i < s.len() && in_box(fw, fh, fx, fy, m.cell, m.cell, i) && i % 4 == 0
                    && #[trigger] with_food(m, s, fw, fh)[i] == FOOD_CORE.0
        }),
{
    let cell = m.cell;
    let fx = m.ox + (m.food % m.cols) * cell;
    let fy = m.oy + (m.food / m.cols) * cell;
    let sw = food_swell(m.frames);
    assert(0 <= sw <= 2);
    let pad = cell / 5 - sw * (cell / 10);
    assert(0 <= pad && pad * 2 <= cell) by (nonlinear_arith)
        requires
            0 <= sw <= 2,
            pad == cell / 5 - sw * (cell / 10),
            cell >= 12,
    ;
    assert(cell * 2 / 5 + cell / 5 <= cell && cell / 5 >= 1) by (nonlinear_arith)
        requires
            cell >= 12,
    ;
    if 0 <= fx && fx + cell <= fw && 0 <= fy && fy + cell <= fh && fw * fh * 4 <= s.len() {
        let px = fx + cell * 2 / 5;
        let py = fy + cell * 2 / 5;
        let i = (py * fw + px) * 4;
        lemma_pixel_coords(fw, px, py, 0);
        assert(i < fw * fh * 4) by (nonlinear_arith)
            requires
                0 <= px < fw,
                0 <= py < fh,
                i == (py * fw + px) * 4,
        ;
        assert(in_box(fw, fh, fx + cell * 2 / 5, fy + cell * 2 / 5, cell / 5, cell / 5, i));
        assert(in_box(fw, fh, fx, fy, cell, cell, i));
        assert(with_food(m, s, fw, fh)[i] == FOOD_CORE.0);
    }
}

/// Border left round each body segment inside its cell.
pub open spec fn seg_inset(m: SnakeModel) -> int {
    if m.cell >= 16 { 2 } else { 1 }
}

/// Colour of the `i`-th segment counted from the tail: verdigris at the tail
/// ramping to brass at the head.
pub open spec fn seg_color(m: SnakeModel, i: int) -> Rgb {
    let t = if m.len > 1 { i * 255 / (m.len - 1) } else { 255 };
    (
        lerp_spec(TAIL.0 as int, HEAD.0 as int, t) as u8,
        lerp_spec(TAIL.1 as int, HEAD.1 as int, t) as u8,
        lerp_spec(TAIL.2 as int, HEAD.2 as int, t) as u8,
    )
}

/// The body ramps from the tail's verdigris to the head's brass: the tail
/// segment is painted in the tail colour and the head in the head colour.
pub proof fn lemma_body_colours(m: SnakeModel)
    requires
        m.len >= 2,
    ensures
        seg_color(m, 0) == TAIL,
        seg_color(m, m.len - 1) == HEAD,
{
    assert((m.len - 1) * 255 / (m.len - 1) == 255) by (nonlinear_arith)
        requires
            m.len >= 2,
    ;
    assert(0int * 255 / (m.len - 1) == 0) by (nonlinear_arith)
        requires
            m.len >= 2,
    ;
    crate::engine::frame::lemma_lerp_ends(TAIL.0, HEAD.0, 0);
    crate::engine::frame::lemma_lerp_ends(TAIL.1, HEAD.1, 0);
    crate::engine::frame::lemma_lerp_ends(TAIL.2, HEAD.2, 0);
}

/// The box of the `i`-th segment counted from the tail.
pub open spec fn seg_box(m: SnakeModel, fw: int, fh: int, i: int) -> spec_fn(int) -> bool {
    let c = m.seg(m.len - 1 - i);
    box_region(
        fw,
        fh,
        m.ox + (c % m.cols) * m.cell + seg_inset(m),
        m.oy + (c / m.cols) * m.cell + seg_inset(m),
        m.cell - seg_inset(m) * 2,
        m.cell - seg_inset(m) * 2,
    )
}

/// The first `k` segments, tail first, painted over `s`.
pub open spec fn with_body(m: SnakeModel, s: Seq<u8>, fw: int, fh: int, k: int) -> Seq<u8>
    decreases k,
{
    if k <= 0 {
        s
    } else {
        paint(with_body(m, s, fw, fh, k - 1), seg_box(m, fw, fh, k - 1), seg_color(m, k - 1))
    }
}

/// The whole board over `s`: backdrop, cell dots, apple, body, and the
/// screen dimmed once the game is over.
pub open spec fn picture(m: SnakeModel, s: Seq<u8>, fw: int, fh: int) -> Seq<u8> {
    let s1 = paint(s, |i: int| live(fw, fh, i), BACKDROP);
    let s2 = paint(s1, grid_region(m, fw, fh), GRID_DOT);
    let s3 = with_food(m, s2, fw, fh);
    let s4 = with_body(m, s3, fw, fh, m.len);
    if m.dead { dimmed(s4, fw, fh, DIM as int) } else { s4 }
}

/// Same generator state, same apple: food placement is a function of the
/// board and the generator state.
pub proof fn lemma_placed_unique(
    taken: Seq<bool>,
    cells: int,
    len: int,
    f0: int,
    s0: u32,
    f1: int,
    s1: u32,
    g1: int,
    t1: u32,
)
    requires
        placed(taken, cells, len, f0, s0, f1, s1),
        placed(taken, cells, len, f0, s0, g1, t1),
    ensures
        f1 == g1,
        s1 == t1,
{
    if len < cells {
        let k1 = choose|k: nat|
            #![trigger xs_iter(s0, k)]
            1 <= k <= FOOD_DRAWS && s1 == xs_iter(s0, k) && (forall|j: nat|
                1 <= j < k ==> #[trigger] taken[xs_iter(s0, j) as int % cells]) && (if !taken[s1 as int
                % cells] {
                f1 == s1 as int % cells
            } else {
                k == FOOD_DRAWS && if has_free(taken, cells) {
                    lowest_free(taken, cells, f1)
                } else {
                    f1 == f0
                }
            });
        let k2 = choose|k: nat|
            #![trigger xs_iter(s0, k)]
            1 <= k <= FOOD_DRAWS && t1 == xs_iter(s0, k) && (forall|j: nat|
                1 <= j < k ==> #[trigger] taken[xs_iter(s0, j) as int % cells]) && (if !taken[t1 as int
                % cells] {
                g1 == t1 as int % cells
            } else {
                k == FOOD_DRAWS && if has_free(taken, cells) {
                    lowest_free(taken, cells, g1)
                } else {
                    g1 == f0
                }
            });
        if k1 < k2 {
            assert(taken[xs_iter(s0, k1) as int % cells]);
        } else if k2 < k1 {
            assert(taken[xs_iter(s0, k2) as int % cells]);
        } else if taken[s1 as int % cells] && has_free(taken, cells) {
            if f1 < g1 {
                assert(taken[f1]);
            } else if g1 < f1 {
                assert(taken[g1]);
            }
        }
    }
}

/// Wherever a new apple is placed on a board with a free cell, it lands on
/// a free cell of the board, never under the snake.
pub proof fn lemma_food_off_snake(m: SnakeModel, f0: int, s0: u32, f1: int, s1: u32)
    requires
        m.shape(),
        m.len < m.cells(),
        placed(m.taken, m.cells(), m.len, f0, s0, f1, s1),
    ensures
        0 <= f1 < m.cells(),
        !m.taken[f1],
        !m.in_snake(f1),
{
    let cells = m.cells();
    assert(cells >= 1) by (nonlinear_arith)
        requires
            m.cols >= 1,
            m.rows >= 1,
            cells == m.cols * m.rows,
    ;
    lemma_free_cell(m);
}

pub struct Snake {
    body: [u16; MAX_CELLS],
    taken: [bool; MAX_CELLS],
    head: usize,
    len: usize,
    dir: u8,
    queued: u8,
    food: u16,
    cols: usize,
    rows: usize,
    cell: usize,
    ox: i32,
    oy: i32,
    score: u32,
    best: u32,
    dead: bool,
    started: bool,
    step_half_ms: u32,
    frames: u32,
}

impl View for Snake {
    type V = SnakeModel;

    closed spec fn view(&self) -> SnakeModel {
        SnakeModel {
            body: self.body@,
            taken: self.taken@,
            head: self.head as int,
            len: self.len as int,
            dir: self.dir as int,
            queued: self.queued as int,
            food: self.food as int,
            cols: self.cols as int,
            rows: self.rows as int,
            cell: self.cell as int,
            ox: self.ox as int,
            oy: self.oy as int,
            score: self.score as int,
            best: self.best as int,
            dead: self.dead,
            started: self.started,
            step_half_ms: self.step_half_ms as int,
            frames: self.frames as int,
        }
    }
}

impl Snake {
    /// An empty one-cell board, waiting to be dealt.
    pub fn new() -> (s: Snake)
        ensures
            s@.wf(),
            s@.len == 0,
            s@.cols == 1,
            s@.rows == 1,
            s@.head == 0,
            s@.dir == RIGHT,
            s@.queued == RIGHT,
            s@.food == 0,
            s@.cell == MIN_CELL,
            s@.ox == 0,
            s@.oy == 0,
            s@.score == 0,
            s@.best == 0,
            !s@.dead,
            !s@.started,
            s@.step_half_ms == START_STEP_HALF_MS,
            s@.frames == 0,
            forall|c: int| 0 <= c < MAX_CELLS ==> !(#[trigger] s@.taken[c]) && s@.body[c] == 0,
    {
        let s = Snake {
            body: [0u16; MAX_CELLS],
            taken: [false; MAX_CELLS],
            head: 0,
            len: 0,
            dir: RIGHT,
            queued: RIGHT,
            food: 0,
            cols: 1,
            rows: 1,
            cell: MIN_CELL,
            ox: 0,
            oy: 0,
            score: 0,
            best: 0,
            dead: false,
            started: false,
            step_half_ms: START_STEP_HALF_MS,
            frames: 0,
        };
        assert(forall|c: int| 0 <= c < MAX_CELLS ==> !(#[trigger] s@.taken[c]));
        s
    }

    /// 0 up, 1 right, 2 down, 3 left. Anything else, or a key after the end,
    /// is ignored; a direction also starts the game.
    pub fn key(&mut self, dir: u32)
        ensures
            (dir < 4 && !old(self)@.dead) ==> final(self)@ == (SnakeModel {
                queued: dir as int,
                started: true,
                ..old(self)@
            }),
            !(dir < 4 && !old(self)@.dead) ==> final(self)@ == old(self)@,
    {
        if dir < 4 && !self.dead {
            self.queued = dir as u8;
            self.started = true;
        }
    }

    pub fn score(&self) -> (n: u32)
        ensures
            n == self@.score,
    {
        self.score
    }

    pub fn best(&self) -> (n: u32)
        ensures
            n == self@.best,
    {
        self.best
    }

    /// 0 waiting for the first key, 1 running, 2 over.
    pub fn status(&self) -> (n: u32)
        ensures
            n == (if self@.dead {
                2int
            } else if self@.started {
                1int
            } else {
                0int
            }),
    {
        if self.dead {
            2
        } else if self.started {
            1
        } else {
            0
        }
    }

    /// Time between steps, in half milliseconds.
    pub fn step_half_ms(&self) -> (n: u32)
        ensures
            n == self@.step_half_ms,
    {
        self.step_half_ms
    }

    pub fn is_dead(&self) -> (b: bool)
        ensures
            b == self@.dead,
    {
        self.dead
    }

    pub fn is_started(&self) -> (b: bool)
        ensures
            b == self@.started,
    {
        self.started
    }

    /// Number of segments.
    pub fn len(&self) -> (n: usize)
        ensures
            n == self@.len,
    {
        self.len
    }

    /// Cell index of the apple.
    pub fn food(&self) -> (f: u16)
        ensures
            f == self@.food,
    {
        self.food
    }

    /// Cell index of the head.
    pub fn head_cell(&self) -> (c: u16)
        requires
            self@.wf(),
        ensures
            c == self@.body[self@.head],
    {
        self.body[self.head]
    }

    /// Columns and rows of the board.
    pub fn board(&self) -> (d: (usize, usize))
        ensures
            d.0 == self@.cols,
            d.1 == self@.rows,
    {
        (self.cols, self.rows)
    }

    fn cells(&self) -> (n: usize)
        requires
            self@.shape(),
        ensures
            n == self@.cells(),
            n <= MAX_CELLS,
    {
        assert(self.cols * self.rows <= MAX_CELLS) by (nonlinear_arith)
            requires
                self.cols <= MAX_COLS,
                self.rows <= MAX_ROWS,
        ;
        self.cols * self.rows
    }

    /// Drop the apple on a free cell, drawn from the generator until one
    /// lands free. A snake that fills the board leaves it where it is.
    fn place_food(&mut self, rng: &mut Rng)
        requires
            old(self)@.shape(),
            old(rng).wf(),
        ensures
            final(self)@.wf(),
            final(rng).wf(),
            final(self)@ == (SnakeModel { food: final(self)@.food, ..old(self)@ }),
            placed(
                old(self)@.taken,
                old(self)@.cells(),
                old(self)@.len,
                old(self)@.food,
                old(rng).state(),
                final(self)@.food,
                final(rng).state(),
            ),
    {
        let cells = self.cells();
        if self.len >= cells {
            return;
        }
        let ghost s0 = rng.state();
        let ghost m0 = self@;
        assert(cells >= 1) by (nonlinear_arith)
            requires
                self.cols >= 1,
                self.rows >= 1,
                cells == self.cols * self.rows,
        ;
        let mut tries: u32 = 0;
        while tries < FOOD_DRAWS
            invariant
                rng.wf(),
                self@ == m0,
                old(self)@ == m0,
                old(rng).state() == s0,
                m0.shape(),
                cells == m0.cells(),
                1 <= cells <= MAX_CELLS,
                m0.len < cells,
                rng.state() == xs_iter(s0, tries as nat),
                forall|j: nat| 1 <= j <= tries ==> #[trigger] m0.taken[xs_iter(s0, j) as int % (cells as int)],
            decreases FOOD_DRAWS - tries,
        {
            let x = rng.next();
            tries = tries + 1;
            assert(xs_iter(s0, tries as nat) == xorshift(xs_iter(s0, (tries - 1) as nat)));
            let candidate = (x as usize) % cells;
            if !self.taken[candidate] {
                self.food = candidate as u16;
                proof { lemma_same_snake(m0, self@); }
                assert(placed(m0.taken, m0.cells(), m0.len, m0.food, s0, self@.food, rng.state())) by {
                    assert(xs_iter(s0, tries as nat) == rng.state());
                }
                proof { lemma_food_off_snake(m0, m0.food, s0, self@.food, rng.state()); }
                return;
            }
        }
        // Every draw landed on the snake, which xorshift32 cannot do while a
        // cell is free; take the lowest free cell all the same.
        proof { lemma_free_cell(m0); }
        let mut c: usize = 0;
        while c < cells
            invariant
                self@ == m0,
                m0.shape(),
                cells == m0.cells(),
                cells < MAX_CELLS,
                0 <= c <= cells,
                has_free(m0.taken, cells as int),
                rng.wf(),
                old(rng).state() == s0,
                old(self)@ == m0,
                m0.len < cells,
                tries == FOOD_DRAWS,
                rng.state() == xs_iter(s0, tries as nat),
                forall|j: nat| 1 <= j <= tries ==> #[trigger] m0.taken[xs_iter(s0, j) as int % (cells as int)],
                forall|j: int| 0 <= j < c ==> #[trigger] m0.taken[j],
            decreases cells - c,
        {
            if !self.taken[c] {
                self.food = c as u16;
                proof { lemma_same_snake(m0, self@); }
                assert(lowest_free(m0.taken, cells as int, c as int));
                assert(placed(m0.taken, m0.cells(), m0.len, m0.food, s0, self@.food, rng.state())) by {
                    assert(xs_iter(s0, tries as nat) == rng.state());
                    assert(m0.taken[xs_iter(s0, tries as nat) as int % (cells as int)]);
                }
                return;
            }
            c = c + 1;
        }
        proof {
            let w = choose|w: int| 0 <= w < cells && !#[trigger] m0.taken[w];
            assert(m0.taken[w]);
        }
    }

    /// Deal a fresh board sized to the frame: a three-segment snake heading
    /// right from the middle, a new apple, the score back to zero. The best
    /// score and the frame counter carry over.
    pub fn reset(&mut self, fb: &Frame, rng: &mut Rng)
        requires
            fb.wf(),
            old(self)@.wf(),
            old(rng).wf(),
        ensures
            final(self)@.wf(),
            final(rng).wf(),
            final(self)@.occupancy_exact(),
            ({
                let n = final(self)@;
                let o = old(self)@;
                let (cell, cols, rows, ox, oy) = measured(fb.fw(), fb.fh());
                let base = start_cell(cols, rows);
                &&& n.cell == cell
                &&& n.cols == cols
                &&& n.rows == rows
                &&& n.ox == ox
                &&& n.oy == oy
                &&& n.len == 3
                &&& n.head == 3
                &&& n.seg(0) == base + 2
                &&& n.seg(1) == base + 1
                &&& n.seg(2) == base
                &&& n.dir == RIGHT
                &&& n.queued == RIGHT
                &&& n.score == 0
                &&& n.best == o.best
                &&& !n.dead
                &&& !n.started
                &&& n.step_half_ms == START_STEP_HALF_MS
                &&& n.frames == o.frames
                &&& forall|c: int| 0 <= c < MAX_CELLS ==> (#[trigger] n.taken[c] <==> base <= c < base + 3)
                &&& forall|j: int| 0 <= j < MAX_CELLS && !(1 <= j <= 3) ==> #[trigger] n.body[j] == o.body[j]
                &&& placed(n.taken, n.cells(), 3, o.food, old(rng).state(), n.food, final(rng).state())
            }),
    {
        let (cell, cols, rows, ox, oy) = measure(width(fb), height(fb));
        self.cell = cell;
        self.cols = cols;
        self.rows = rows;
        self.ox = ox;
        self.oy = oy;
        self.taken = [false; MAX_CELLS];
        self.len = 0;
        self.head = 0;
        self.dir = RIGHT;
        self.queued = RIGHT;
        self.score = 0;
        self.dead = false;
        self.started = false;
        self.step_half_ms = START_STEP_HALF_MS;

        let row = self.rows / 2;
        let start = self.cols / 2 - 2;
        assert(row * cols + start + 2 < cols * rows) by (nonlinear_arith)
            requires
                row == rows / 2,
                start == cols / 2 - 2,
                cols >= 6,
                rows >= 6,
        ;
        assert(cols * rows < MAX_CELLS) by (nonlinear_arith)
            requires
                cols <= 32,
                rows <= 32,
        ;
        let ghost base = (row * cols + start) as int;
        assert(base == start_cell(cols as int, rows as int));
        let mut i: usize = 0;
        while i < 3
            invariant
                0 <= i <= 3,
                self.head == i,
                self.len == i,
                self.score == 0,
                self.best == old(self).best,
                !self.dead,
                !self.started,
                self.step_half_ms == START_STEP_HALF_MS,
                self.frames == old(self).frames,
                self.dir == RIGHT,
                self.queued == RIGHT,
                self.food == old(self).food,
                self.cell == cell,
                self.ox == ox,
                self.oy == oy,
                MIN_CELL <= cell <= 100,
                -2000 <= ox <= 2000,
                -2000 <= oy <= 2000,
                (cell as int, cols as int, rows as int, ox as int, oy as int) == measured(fb.fw(), fb.fh()),
                self.cols == cols,
                self.rows == rows,
                6 <= cols <= 32,
                6 <= rows <= 32,
                cols * rows < MAX_CELLS,
                base + 2 < cols * rows,
                base == row * cols + start,
                self.body@.len() == MAX_CELLS,
                self.taken@.len() == MAX_CELLS,
                forall|j: int| 1 <= j <= i ==> #[trigger] self.body@[j] == base + j - 1,
                forall|j: int| 0 <= j < MAX_CELLS && !(1 <= j <= i) ==> #[trigger] self.body@[j] == old(self).body@[j],
                forall|c: int| 0 <= c < MAX_CELLS ==> (#[trigger] self.taken@[c] <==> base <= c < base + i),
            decreases 3 - i,
        {
            let c = (row * self.cols + start + i) as u16;
            assert(c == base + i);
            proof {
                vstd::arithmetic::div_mod::lemma_small_mod((self.head + 1) as nat, MAX_CELLS as nat);
            }
            self.head = (self.head + 1) % MAX_CELLS;
            self.body[self.head] = c;
            self.taken[c as usize] = true;
            self.len = self.len + 1;
            i = i + 1;
        }
        proof {
            let m = self@;
            assert(m.ring(0) == 3);
            assert(m.ring(1) == 2);
            assert(m.ring(2) == 1);
            assert(m.seg(0) == base + 2);
            assert(m.seg(1) == base + 1);
            assert(m.seg(2) == base);
            assert forall|k: int| 0 <= k < m.len implies #[trigger] m.seg(k) < m.cells() by {
                assert(k == 0 || k == 1 || k == 2);
            }
            assert forall|c: int| 0 <= c < MAX_CELLS && #[trigger] m.taken[c] implies c < m.cells() && m.in_snake(c) by {
                if c == base {
                    assert(m.seg(2) == c);
                } else if c == base + 1 {
                    assert(m.seg(1) == c);
                } else {
                    assert(m.seg(0) == c);
                }
            }
            assert forall|c: int| 0 <= c < MAX_CELLS implies (#[trigger] m.taken[c] <==> (c < m.cells() && m.in_snake(c))) by {
                if c < m.cells() && m.in_snake(c) {
                    let k = choose|k: int| 0 <= k < m.len && #[trigger] m.seg(k) == c;
                }
            }
        }
        self.place_food(rng);
    }

    /// One tick of the game. A queued turn commits here, never on the key,
    /// so mashing two keys between steps cannot fold the snake into itself.
    /// Off the board or into its own body it dies; onto the apple it grows,
    /// speeds up and gets a new apple; otherwise the tail follows the head.
    pub fn step(&mut self, rng: &mut Rng)
        requires
            old(self)@.wf(),
            old(rng).wf(),
        ensures
            final(self)@.wf(),
            final(rng).wf(),
            stepped(old(self)@, final(self)@, old(rng).state(), final(rng).state()),
            final(self)@.dir != (old(self)@.dir + 2) % 4,
            (old(self)@.queued + 2) % 4 != old(self)@.dir ==> final(self)@.dir == old(self)@.queued,
            (old(self)@.queued + 2) % 4 == old(self)@.dir ==> final(self)@.dir == old(self)@.dir,
            final(self)@.occupancy_exact(),
            final(self)@.food_free(),
    {
        let ghost o = self@;
        if (self.queued + 2) % 4 != self.dir {
            self.dir = self.queued;
        }
        proof {
            lemma_same_snake(o, self@);
            lemma_turn_settles(o, self@);
        }
        let (next, ok) = self.next_cell();
        if !ok {
            self.die();
            proof { lemma_same_snake(o, self@); }
            return;
        }
        let eating = next as u16 == self.food;
        let tail = self.body[self.tail_index()] as usize;
        if self.taken[next] && !(next == tail && !eating) {
            self.die();
            proof { lemma_same_snake(o, self@); }
            return;
        }
        if eating {
            self.grow(next, rng);
        } else {
            self.slide(next);
        }
    }

    /// Where the head goes next, and whether that is still on the board.
    fn next_cell(&self) -> (r: (usize, bool))
        requires
            self@.wf(),
            self@.dir == self@.turned(),
        ensures
            r.1 == ({
                let (x, y) = self@.target(self@.turned());
                self@.on_board(x, y)
            }),
            r.1 ==> r.0 == self@.next_cell() && r.0 < self@.cells(),
            r.1 ==> self@.len >= 1,
    {
        let cols = self.cols;
        let cells = self.cells();
        let cell = self.body[self.head] as usize;
        let mut x: i32 = (cell % cols) as i32;
        let mut y: i32 = (cell / cols) as i32;
        assert(cell / cols < MAX_ROWS) by (nonlinear_arith)
            requires
                cell < cols * self.rows,
                cols >= 1,
                self.rows <= MAX_ROWS,
        ;
        if self.dir == UP {
            y = y - 1;
        } else if self.dir == RIGHT {
            x = x + 1;
        } else if self.dir == DOWN {
            y = y + 1;
        } else {
            x = x - 1;
        }
        if x < 0 || y < 0 || x >= self.cols as i32 || y >= self.rows as i32 {
            return (0, false);
        }
        assert(y * cols + x < cells) by (nonlinear_arith)
            requires
                0 <= x < cols,
                0 <= y < self.rows,
                cells == cols * self.rows,
        ;
        if self.len == 0 {
            // a board that has not been dealt is one cell wide: every move
            // leaves it
            assert(cols == 1 && self.rows == 1);
            assert(cells == 1) by (nonlinear_arith)
                requires
                    cols == 1,
                    self.rows == 1,
                    cells == cols * self.rows,
            ;
            assert(cell == 0);
            assert(cell % cols == 0 && cell / cols == 0);
            assert(false);
        }
        (y as usize * self.cols + x as usize, true)
    }

    /// Take the apple's cell: one segment longer, a point up, a little
    /// quicker, and a new apple.
    fn grow(&mut self, next: usize, rng: &mut Rng)
        requires
            old(self)@.wf(),
            old(rng).wf(),
            1 <= old(self)@.len < MAX_CELLS,
            old(self)@.dir == old(self)@.turned(),
            !old(self)@.blocked(),
            old(self)@.eats(),
            next == old(self)@.next_cell(),
            next < old(self)@.cells(),
        ensures
            final(self)@.wf(),
            final(rng).wf(),
            final(self)@ == (SnakeModel { food: final(self)@.food, ..grown(old(self)@) }),
            placed(grown(old(self)@).taken, old(self)@.cells(), old(self)@.len + 1, old(self)@.food, old(rng).state(), final(self)@.food, final(rng).state()),
    {
        let ghost o = self@;
        self.head = (self.head + 1) % MAX_CELLS;
        self.body[self.head] = next as u16;
        self.taken[next] = true;
        self.len = self.len + 1;
        self.score = self.score + 1;
        if self.score > self.best {
            self.best = self.score;
        }
        self.step_half_ms = if self.step_half_ms - SPEEDUP_HALF_MS > MIN_STEP_HALF_MS {
            self.step_half_ms - SPEEDUP_HALF_MS
        } else {
            MIN_STEP_HALF_MS
        };
        assert(self@ == grown(o));
        proof { lemma_step_grow(o, self@); }
        let ghost g = self@;
        self.place_food(rng);
        proof { lemma_same_snake(g, self@); }
    }

    /// Take the next cell and let the tail go.
    fn slide(&mut self, next: usize)
        requires
            old(self)@.wf(),
            1 <= old(self)@.len < MAX_CELLS,
            old(self)@.dir == old(self)@.turned(),
            !old(self)@.blocked(),
            !old(self)@.eats(),
            next == old(self)@.next_cell(),
            next < old(self)@.cells(),
        ensures
            final(self)@.wf(),
            final(self)@ == slid(old(self)@),
    {
        let ghost o = self@;
        // let the tail go first: the head may be moving onto that very cell
        let t = self.tail_index();
        assert(self.body@[t as int] == o.tail_cell());
        let tail = self.body[t] as usize;
        self.taken[tail] = false;
        self.head = (self.head + 1) % MAX_CELLS;
        self.body[self.head] = next as u16;
        self.taken[next] = true;
        assert(self@ == slid(o));
        proof { lemma_step_slide(o, self@); }
    }

    /// Draw the board. Each call is a frame: the apple breathes on a
    /// 60-frame cycle.
    pub fn draw(&mut self, fb: &mut Frame)
        requires
            old(self)@.wf(),
            old(fb).wf(),
        ensures
            final(self)@.wf(),
            final(self)@ == (SnakeModel {
                frames: (old(self)@.frames + 1) % 0x1_0000_0000,
                ..old(self)@
            }),
            final(fb).wf(),
            old(fb).same_shape(final(fb)),
            final(fb).bytes() == picture(final(self)@, old(fb).bytes(), old(fb).fw(), old(fb).fh()),
    {
        let ghost s0 = fb.bytes();
        let ghost fw = fb.fw();
        let ghost fh = fb.fh();
        let ghost o = self@;
        self.frames = self.frames.wrapping_add(1);
        proof { lemma_same_snake(o, self@); }
        fb.fill(BACKDROP);
        let cell = self.cell as i32;
        let dot: i32 = if cell >= 18 { 2 } else { 1 };
        self.draw_grid(fb, cell, dot);
        self.draw_food(fb, cell);
        self.draw_body(fb, cell);
        if self.dead {
            fb.dim(DIM);
        }
    }

    fn draw_grid(&self, fb: &mut Frame, cell: i32, dot: i32)
        requires
            self@.wf(),
            old(fb).wf(),
            cell == self@.cell,
            dot == dot_size(self@),
        ensures
            final(fb).wf(),
            old(fb).same_shape(final(fb)),
            final(fb).bytes() == paint(old(fb).bytes(), grid_region(self@, old(fb).fw(), old(fb).fh()), GRID_DOT),
    {
        let ghost s0 = fb.bytes();
        let ghost fw = fb.fw();
        let ghost fh = fb.fh();
        let ghost m = self@;
        assert(fb.bytes() =~= paint(s0, |i: int| in_grid_upto(m, fw, fh, 0, i), GRID_DOT));
        let mut cy: usize = 0;
        while cy < self.rows
            invariant
                fb.wf(),
                fb.fw() == fw,
                fb.fh() == fh,
                s0.len() == fb.bytes().len(),
                m == self@,
                m.wf(),
                cell == m.cell,
                dot == dot_size(m),
                0 <= cy <= m.rows,
                fb.bytes() == paint(s0, |i: int| in_grid_upto(m, fw, fh, cy * m.cols, i), GRID_DOT),
            decreases self.rows - cy,
        {
            let mut cx: usize = 0;
            while cx < self.cols
                invariant
                    fb.wf(),
                    fb.fw() == fw,
                    fb.fh() == fh,
                    s0.len() == fb.bytes().len(),
                    m == self@,
                    m.wf(),
                    cell == m.cell,
                    dot == dot_size(m),
                    0 <= cy < m.rows,
                    0 <= cx <= m.cols,
                    fb.bytes() == paint(s0, |i: int| in_grid_upto(m, fw, fh, cy * m.cols + cx, i), GRID_DOT),
                decreases self.cols - cx,
            {
                assert(cx * cell <= 34 * 100 && cy * cell <= 34 * 100) by (nonlinear_arith)
                    requires
                        cx < 34,
                        cy < 34,
                        cell <= 100,
                ;
                let x = self.ox + cx as i32 * cell + cell / 2;
                let y = self.oy + cy as i32 * cell + cell / 2;
                fb.rect(x, y, dot, dot, GRID_DOT);
                proof {
                    let k = cy * m.cols + cx;
                    let prev = |i: int| in_grid_upto(m, fw, fh, k, i);
                    let next = |i: int| in_grid_upto(m, fw, fh, k + 1, i);
                    let b = box_region(fw, fh, x as int, y as int, dot as int, dot as int);
                    lemma_paint_union(s0, prev, b, GRID_DOT);
                    assert forall|i: int| 0 <= i < s0.len() implies ((prev(i) || b(i)) <==> #[trigger] next(i)) by {
                        if b(i) {
                            assert(grid_dot(m, fw, fh, cx as int, cy as int, i));
                        }
                        if next(i) && !prev(i) {
                            let (ax, ay) = choose|ax: int, ay: int|
                                #![trigger grid_dot(m, fw, fh, ax, ay, i)]
                                0 <= ax < m.cols && 0 <= ay < m.rows && ay * m.cols + ax < k + 1 && grid_dot(m, fw, fh, ax, ay, i);
                            assert(ay * m.cols + ax == k);
                            assert(ay == cy && ax == cx) by (nonlinear_arith)
                                requires
                                    ay * m.cols + ax == cy * m.cols + cx,
                                    0 <= ax < m.cols,
                                    0 <= cx < m.cols,
                                    0 <= ay,
                                    0 <= cy,
                            ;
                        }
                    }
                    lemma_paint_same_live(s0, |i: int| prev(i) || b(i), next, GRID_DOT);
                }
                cx = cx + 1;
            }
            assert((cy + 1) * m.cols == cy * m.cols + m.cols) by (nonlinear_arith);
            cy = cy + 1;
        }
        assert(m.rows * m.cols == m.cols * m.rows) by (nonlinear_arith);
    }

    fn draw_food(&self, fb: &mut Frame, cell: i32)
        requires
            self@.wf(),
            old(fb).wf(),
            cell == self@.cell,
        ensures
            final(fb).wf(),
            old(fb).same_shape(final(fb)),
            final(fb).bytes() == with_food(self@, old(fb).bytes(), old(fb).fw(), old(fb).fh()),
    {
        let phase = self.frames % 60;
        let swell = (if phase < 30 { phase } else { 60 - phase } / 15) as i32;
        assert(swell == food_swell(self@.frames));
        let food = self.food as usize;
        assert(food / self.cols <= 65535 && food % self.cols < 34) by (nonlinear_arith)
            requires
                food <= 65535,
                1 <= self.cols <= 34,
        ;
        assert((food / self.cols) * (cell as int) <= 65535 * 100 && (food % self.cols) * (cell as int) <= 34 * 100) by (nonlinear_arith)
            requires
                food / self.cols <= 65535,
                food % self.cols < 34,
                12 <= cell <= 100,
        ;
        let fx = self.ox + (food % self.cols) as i32 * cell;
        let fy = self.oy + (food / self.cols) as i32 * cell;
        assert(0 <= swell <= 2);
        assert(0 <= swell * (cell / 10) <= 20) by (nonlinear_arith)
            requires
                0 <= swell <= 2,
                0 <= cell <= 100,
        ;
        let pad = cell / 5 - swell * (cell / 10);
        fb.rect(fx + pad, fy + pad, cell - pad * 2, cell - pad * 2, FOOD);
        fb.rect(fx + cell * 2 / 5, fy + cell * 2 / 5, cell / 5, cell / 5, FOOD_CORE);
    }

    fn draw_body(&self, fb: &mut Frame, cell: i32)
        requires
            self@.wf(),
            old(fb).wf(),
            cell == self@.cell,
        ensures
            final(fb).wf(),
            old(fb).same_shape(final(fb)),
            final(fb).bytes() == with_body(self@, old(fb).bytes(), old(fb).fw(), old(fb).fh(), self@.len),
    {
        let ghost s0 = fb.bytes();
        let ghost fw = fb.fw();
        let ghost fh = fb.fh();
        let ghost m = self@;
        let inset: i32 = if cell >= 16 { 2 } else { 1 };
        let mut i: usize = 0;
        while i < self.len
            invariant
                fb.wf(),
                fb.fw() == fw,
                fb.fh() == fh,
                m == self@,
                m.wf(),
                cell == m.cell,
                inset == seg_inset(m),
                0 <= i <= m.len,
                fb.bytes() == with_body(m, s0, fw, fh, i as int),
            decreases self.len - i,
        {
            let idx = (self.head + MAX_CELLS - (self.len - 1 - i)) % MAX_CELLS;
            assert(idx == m.ring(m.len - 1 - i));
            let c = self.body[idx] as usize;
            assert(c == m.seg(m.len - 1 - i));
            assert(c / self.cols < 34 && c % self.cols < 34) by (nonlinear_arith)
                requires
                    c < self.cols * self.rows,
                    1 <= self.cols <= 34,
                    self.rows <= 34,
            ;
            assert((c / self.cols) * (cell as int) <= 34 * 100 && (c % self.cols) * (cell as int) <= 34 * 100) by (nonlinear_arith)
                requires
                    c / self.cols < 34,
                    c % self.cols < 34,
                    0 <= cell <= 100,
            ;
            let x = self.ox + (c % self.cols) as i32 * cell;
            let y = self.oy + (c / self.cols) as i32 * cell;
            let t: u32 = if self.len > 1 {
                assert(i * 255 <= (self.len - 1) * 255) by (nonlinear_arith)
                    requires
                        i <= self.len - 1,
                ;
                assert(i * 255 / (self.len - 1) <= 255) by (nonlinear_arith)
                    requires
                        i * 255 <= (self.len - 1) * 255,
                        self.len - 1 >= 1,
                ;
                (i * 255 / (self.len - 1)) as u32
            } else {
                255
            };
            let col = (lerp(TAIL.0, HEAD.0, t), lerp(TAIL.1, HEAD.1, t), lerp(TAIL.2, HEAD.2, t));
            assert(col == seg_color(m, i as int));
            fb.rect(x + inset, y + inset, cell - inset * 2, cell - inset * 2, col);
            i = i + 1;
        }
    }

    fn die(&mut self)
        ensures
            final(self)@ == (SnakeModel {
                dead: true,
                best: if old(self)@.score > old(self)@.best { old(self)@.score } else { old(self)@.best },
                ..old(self)@
            }),
    {
        self.dead = true;
        if self.score > self.best {
            self.best = self.score;
        }
    }

    fn tail_index(&self) -> (t: usize)
        requires
            self.head < MAX_CELLS,
            1 <= self.len <= MAX_CELLS,
        ensures
            t == self@.ring(self@.len - 1),
            t < MAX_CELLS,
    {
        (self.head + MAX_CELLS - (self.len - 1)) % MAX_CELLS
    }
}

} // verus!
