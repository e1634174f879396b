//! A grid of display cells.

use vstd::prelude::*;
use crate::value::copy_bytes;

verus! {

/// A cell as a mathematical object: the bytes of its text and the id of
/// its highlight.
pub struct CellV {
    pub text: Seq<u8>,
    pub hl: u64,
}

/// One position of a grid: the text shown there and the id of the
/// highlight it is shown with. The text is empty where the cell is the
/// continuation of a wide character to its left.
#[derive(Debug, PartialEq, Eq)]
pub struct Cell {
    pub text: Vec<u8>,
    pub hl: u64,
}

impl View for Cell {
    type V = CellV;

    open spec fn view(&self) -> CellV {
        CellV { text: self.text@, hl: self.hl }
    }
}

impl Clone for Cell {
    fn clone(&self) -> (r: Self)
        ensures
            r@ == self@,
    {
        Cell { text: copy_bytes(&self.text), hl: self.hl }
    }
}

/// The blank cell: one space with the default highlight, 0.
pub open spec fn blank() -> CellV {
    CellV { text: seq![0x20u8], hl: 0 }
}

impl Cell {
    /// The blank cell.
    pub fn blank() -> (r: Cell)
        ensures
            r@ == blank(),
    {
        let mut text: Vec<u8> = Vec::new();
        text.push(0x20);
        proof {
            assert(text@ =~= seq![0x20u8]);
        }
        Cell { text, hl: 0 }
    }
}

/// One entry of a line update: a cell, and how many more times it is
/// repeated to the right.
pub struct LineCellV {
    pub text: Seq<u8>,
    pub hl: u64,
    pub repeat: u64,
}

/// One entry of a line update: a cell, and how many more times it is
/// repeated to the right.
#[derive(Debug, PartialEq, Eq)]
pub struct LineCell {
    pub text: Vec<u8>,
    pub hl: u64,
    pub repeat: u64,
}

impl View for LineCell {
    type V = LineCellV;

    open spec fn view(&self) -> LineCellV {
        LineCellV { text: self.text@, hl: self.hl, repeat: self.repeat }
    }
}

/// The entries, one by one, as mathematical objects.
pub open spec fn line_views(items: Seq<LineCell>) -> Seq<LineCellV> {
    Seq::new(items.len(), |i: int| items[i]@)
}

/// `n` times the same cell.
pub open spec fn run_of(cell: CellV, n: int) -> Seq<CellV> {
    Seq::new(n as nat, |i: int| cell)
}

/// The cells that a line update stands for: each entry's cell once, and
/// then as many more times as its repeat count says.
pub open spec fn expand(items: Seq<LineCellV>) -> Seq<CellV>
    decreases items.len(),
{
    if items.len() == 0 {
        Seq::empty()
    } else {
        let last = items.last();
        expand(items.drop_last()) + run_of(CellV { text: last.text, hl: last.hl }, 1 + last.repeat)
    }
}

/// A grid as a mathematical object: `rows` lines of `cols` cells each.
pub struct GridV {
    pub rows: int,
    pub cols: int,
    pub lines: Seq<Seq<CellV>>,
}

impl GridV {
    /// The lines are as many and as long as the dimensions say: every
    /// position within the dimensions holds a cell, and no other does.
    pub open spec fn wf(self) -> bool {
        &&& 0 <= self.rows
        &&& 0 <= self.cols
        &&& self.lines.len() == self.rows
        &&& forall|r: int| 0 <= r < self.rows ==> (#[trigger] self.lines[r]).len() == self.cols
    }

    /// The grid of these dimensions with every cell blank.
    pub open spec fn blank(rows: int, cols: int) -> GridV {
        GridV {
            rows,
            cols,
            lines: Seq::new(rows as nat, |r: int| Seq::new(cols as nat, |c: int| blank())),
        }
    }

    /// `n` cells from column `col` on lie within line `row`.
    pub open spec fn line_fits(self, row: int, col: int, n: int) -> bool {
        0 <= row < self.rows && 0 <= col && col + n <= self.cols
    }

    /// The grid with the cells of `from` in the columns `left` to
    /// `right` (`right` not included) of line `row`, column by column.
    pub open spec fn with_segment(self, row: int, left: int, right: int, from: Seq<CellV>) -> GridV {
        GridV {
            lines: self.lines.update(
                row,
                Seq::new(
                    self.cols as nat,
                    |c: int|
                        if left <= c < right {
                            from[c]
                        } else {
                            self.lines[row][c]
                        },
                ),
            ),
            ..self
        }
    }

    /// The grid with `cells` written into line `row` from column `col` on.
    pub open spec fn with_line(self, row: int, col: int, cells: Seq<CellV>) -> GridV {
        GridV {
            lines: self.lines.update(
                row,
                Seq::new(
                    self.cols as nat,
                    |c: int|
                        if col <= c < col + cells.len() {
                            cells[c - col]
                        } else {
                            self.lines[row][c]
                        },
                ),
            ),
            ..self
        }
    }

    /// The lines `top` to `bot` and the columns `left` to `right` (`bot`
    /// and `right` not included) are a region of the grid.
    pub open spec fn region_ok(self, top: int, bot: int, left: int, right: int) -> bool {
        0 <= top <= bot <= self.rows && 0 <= left <= right <= self.cols
    }

    /// The grid with the region scrolled by `by` lines: within the
    /// region, each cell holds what stood `by` lines below it, and is
    /// blank where that line lies outside the region. Nothing outside
    /// the region changes.
    pub open spec fn scrolled(self, top: int, bot: int, left: int, right: int, by: int) -> GridV {
        GridV {
            lines: Seq::new(
                self.rows as nat,
                |r: int|
                    Seq::new(
                        self.cols as nat,
                        |c: int|
                            if top <= r < bot && left <= c < right {
                                if top <= r + by < bot {
                                    self.lines[r + by][c]
                                } else {
                                    blank()
                                }
                            } else {
                                self.lines[r][c]
                            },
                    ),
            ),
            ..self
        }
    }

    /// The grid with the region's content moved by `by` lines, where it
    /// stays within the region; the lines of the region that nothing
    /// moves into keep what they held.
    pub open spec fn shifted(self, top: int, bot: int, left: int, right: int, by: int) -> GridV {
        GridV {
            lines: Seq::new(
                self.rows as nat,
                |r: int|
                    Seq::new(
                        self.cols as nat,
                        |c: int|
                            if top <= r < bot && left <= c < right && top <= r + by < bot {
                                self.lines[r + by][c]
                            } else {
                                self.lines[r][c]
                            },
                    ),
            ),
            ..self
        }
    }

    /// The grid with the lines of the region blanked that a scroll by
    /// `by` lines vacates: those that no line of the region moves into.
    pub open spec fn vacated_blanked(self, top: int, bot: int, left: int, right: int, by: int) -> GridV {
        GridV {
            lines: Seq::new(
                self.rows as nat,
                |r: int|
                    Seq::new(
                        self.cols as nat,
                        |c: int|
                            if top <= r < bot && left <= c < right && !(top <= r + by < bot) {
                                blank()
                            } else {
                                self.lines[r][c]
                            },
                    ),
            ),
            ..self
        }
    }

    /// Every cell has the default highlight or one of `known`.
    pub open spec fn uses_only(self, known: Set<u64>) -> bool {
        forall|r: int, c: int|
            0 <= r < self.rows && 0 <= c < self.cols ==> {
                let hl = (#[trigger] self.lines[r][c]).hl;
                hl == 0 || known.contains(hl)
            }
    }
}

/// Scrolling a region is copying its content shifted by `by` lines and
/// then blanking the lines that this vacated.
pub proof fn lemma_scroll_is_shift_then_blank(
    g: GridV,
    top: int,
    bot: int,
    left: int,
    right: int,
    by: int,
)
    requires
        g.wf(),
        g.region_ok(top, bot, left, right),
    ensures
        g.scrolled(top, bot, left, right, by) == g.shifted(
            top,
            bot,
            left,
            right,
            by,
        ).vacated_blanked(top, bot, left, right, by),
{
    let a = g.scrolled(top, bot, left, right, by);
    let b = g.shifted(top, bot, left, right, by).vacated_blanked(top, bot, left, right, by);
    assert forall|r: int| 0 <= r < g.rows implies #[trigger] a.lines[r] =~= b.lines[r] by {}
    assert(a.lines =~= b.lines);
}

/// A scroll by no lines changes nothing.
pub proof fn lemma_scroll_by_nothing(g: GridV, top: int, bot: int, left: int, right: int)
    requires
        g.wf(),
        g.region_ok(top, bot, left, right),
    ensures
        g.scrolled(top, bot, left, right, 0) == g,
{
    let a = g.scrolled(top, bot, left, right, 0);
    assert forall|r: int| 0 <= r < g.rows implies #[trigger] a.lines[r] =~= g.lines[r] by {}
    assert(a.lines =~= g.lines);
}

/// A line update of this many entries stands for at least as many cells
/// as any of its beginnings.
pub proof fn lemma_expand_grows(items: Seq<LineCellV>, n: int)
    requires
        0 <= n <= items.len(),
    ensures
        expand(items.take(n)).len() <= expand(items).len(),
    decreases items.len() - n,
{
    if n == items.len() {
        assert(items.take(n) =~= items);
    } else {
        lemma_expand_grows(items, n + 1);
        assert(items.take(n + 1).drop_last() =~= items.take(n));
    }
}

/// The cells of a beginning that is one entry longer.
pub proof fn lemma_expand_step(items: Seq<LineCellV>, n: int)
    requires
        0 <= n < items.len(),
    ensures
        expand(items.take(n + 1)) == expand(items.take(n)) + run_of(
            CellV { text: items[n].text, hl: items[n].hl },
            1 + items[n].repeat,
        ),
{
    assert(items.take(n + 1).drop_last() =~= items.take(n));
    assert(items.take(n + 1).last() == items[n]);
}

/// The cells of one line, as mathematical objects.
pub open spec fn row_view(line: Seq<Cell>) -> Seq<CellV> {
    Seq::new(line.len(), |c: int| line[c]@)
}

/// A grid of display cells.
pub struct Grid {
    rows: usize,
    cols: usize,
    lines: Vec<Vec<Cell>>,
}

impl View for Grid {
    type V = GridV;

    closed spec fn view(&self) -> GridV {
        GridV {
            rows: self.rows as int,
            cols: self.cols as int,
            lines: Seq::new(self.lines@.len(), |r: int| row_view(self.lines@[r]@)),
        }
    }
}

impl Grid {
    /// The lines are as many and as long as the dimensions say.
    pub closed spec fn wf(&self) -> bool {
        &&& self.lines@.len() == self.rows
        &&& forall|r: int| 0 <= r < self.rows ==> (#[trigger] self.lines@[r])@.len() == self.cols
    }

    /// A grid whose lines are as the dimensions say shows as one.
    pub proof fn lemma_wf(&self)
        requires
            self.wf(),
        ensures
            self@.wf(),
    {
    }

    /// The dimensions of a grid are numbers that the machine can state.
    pub proof fn lemma_dims(&self)
        ensures
            0 <= self@.rows <= usize::MAX,
            0 <= self@.cols <= usize::MAX,
    {
    }

    /// A grid of blank cells.
    pub fn new(rows: usize, cols: usize) -> (g: Grid)
        ensures
            g.wf(),
            g@ == GridV::blank(rows as int, cols as int),
    {
        let mut lines: Vec<Vec<Cell>> = Vec::new();
        let mut r: usize = 0;
        while r < rows
            invariant
                r <= rows,
                lines@.len() == r,
                forall|k: int| 0 <= k < r ==> row_view((#[trigger] lines@[k])@) == Seq::new(cols as nat, |c: int| blank()),
            decreases rows - r,
        {
            let line = blank_line(cols);
            lines.push(line);
            r = r + 1;
        }
        let g = Grid { rows, cols, lines };
        proof {
            assert forall|k: int| 0 <= k < rows implies (#[trigger] g.lines@[k])@.len() == cols by {
                assert(row_view(g.lines@[k]@).len() == cols);
            }
            assert(g@.lines =~= GridV::blank(rows as int, cols as int).lines);
        }
        g
    }

    /// The number of lines.
    pub fn rows(&self) -> (n: usize)
        ensures
            n == self@.rows,
    {
        self.rows
    }

    /// The number of cells in a line.
    pub fn cols(&self) -> (n: usize)
        ensures
            n == self@.cols,
    {
        self.cols
    }

    /// The cell at a position, if the position lies within the grid.
    pub fn cell(&self, row: usize, col: usize) -> (r: Option<&Cell>)
        requires
            self.wf(),
        ensures
            match r {
                Some(cell) => row < self@.rows && col < self@.cols && cell@
                    == self@.lines[row as int][col as int],
                None => !(row < self@.rows && col < self@.cols),
            },
    {
        if row < self.rows && col < self.cols {
            Some(&self.lines[row][col])
        } else {
            None
        }
    }

    /// Makes every cell blank.
    pub fn clear(&mut self)
        requires
            old(self).wf(),
        ensures
            final(self).wf(),
            final(self)@ == GridV::blank(old(self)@.rows, old(self)@.cols),
    {
        let fresh = Grid::new(self.rows, self.cols);
        *self = fresh;
    }

    /// Puts `cell` at a position within the grid.
    fn put(&mut self, row: usize, col: usize, cell: Cell)
        requires
            old(self).wf(),
            row < old(self)@.rows,
            col < old(self)@.cols,
        ensures
            final(self).wf(),
            final(self)@.rows == old(self)@.rows,
            final(self)@.cols == old(self)@.cols,
            final(self)@.lines == old(self)@.lines.update(
                row as int,
                old(self)@.lines[row as int].update(col as int, cell@),
            ),
    {
        self.lines[row][col] = cell;
        proof {
            assert forall|r: int| 0 <= r < self.rows implies (#[trigger] self.lines@[r])@.len()
                == self.cols by {
                if r != row {
                    assert(self.lines@[r] == old(self).lines@[r]);
                }
            }
            let target = old(self)@.lines.update(
                row as int,
                old(self)@.lines[row as int].update(col as int, cell@),
            );
            assert forall|r: int| 0 <= r < self.rows implies #[trigger] self@.lines[r]
                =~= target[r] by {
                if r != row {
                    assert(self.lines@[r] == old(self).lines@[r]);
                }
            }
            assert(self@.lines =~= target);
        }
    }

    /// Whether the cells that a line update stands for lie within line
    /// `row` from column `col` on.
    pub fn fits_line(&self, row: usize, col: usize, items: &Vec<LineCell>) -> (ok: bool)
        requires
            self.wf(),
        ensures
            ok == self@.line_fits(row as int, col as int, expand(line_views(items@)).len() as int),
    {
        if row >= self.rows || col > self.cols {
            return false;
        }
        let ghost all = line_views(items@);
        let room: usize = self.cols - col;
        let mut total: usize = 0;
        let mut i: usize = 0;
        while i < items.len()
            invariant
                i <= items.len(),
                all == line_views(items@),
                total == expand(all.take(i as int)).len(),
                total <= room,
                row < self.rows,
                col <= self.cols,
                room == self.cols - col,
            decreases items.len() - i,
        {
            let more: u64 = items[i].repeat;
            proof {
                lemma_expand_step(all, i as int);
                lemma_expand_grows(all, i + 1);
            }
            if more >= (room - total) as u64 {
                return false;
            }
            total = total + 1 + more as usize;
            i = i + 1;
        }
        proof {
            assert(all.take(i as int) =~= all);
        }
        true
    }

    /// Writes a line update into line `row` from column `col` on.
    ///
    /// Returns whether the cells that the update stands for lie within
    /// the line. Where they do not, nothing is written.
    pub fn write_line(&mut self, row: usize, col: usize, items: &Vec<LineCell>) -> (ok: bool)
        requires
            old(self).wf(),
        ensures
            final(self).wf(),
            ok == old(self)@.line_fits(
                row as int,
                col as int,
                expand(line_views(items@)).len() as int,
            ),
            ok ==> final(self)@ == old(self)@.with_line(
                row as int,
                col as int,
                expand(line_views(items@)),
            ),
            !ok ==> final(self)@ == old(self)@,
    {
        if !self.fits_line(row, col, items) {
            return false;
        }
        let ghost all = line_views(items@);
        let ghost total = expand(all).len();
        let mut i: usize = 0;
        let ghost cells = expand(all);
        let ghost before = self@;
        let mut at: usize = col;
        i = 0;
        proof {
            old(self).lemma_wf();
            let target = before.with_line(row as int, col as int, expand(all.take(0)));
            assert(target.lines[row as int] =~= before.lines[row as int]);
            assert(target.lines =~= before.lines);
        }
        while i < items.len()
            invariant
                i <= items.len(),
                self.wf(),
                all == line_views(items@),
                cells == expand(all),
                before == old(self)@,
                before.wf(),
                row < self.rows,
                self@.rows == before.rows,
                self@.cols == before.cols,
                col + total <= self.cols,
                total == cells.len(),
                col <= at,
                at == col + expand(all.take(i as int)).len(),
                at <= col + total,
                self@ == before.with_line(row as int, col as int, expand(all.take(i as int))),
            decreases items.len() - i,
        {
            let ghost done = expand(all.take(i as int));
            let ghost unit = CellV { text: all[i as int].text, hl: all[i as int].hl };
            proof {
                lemma_expand_step(all, i as int);
                lemma_expand_grows(all, i + 1);
            }
            let count: u64 = items[i].repeat;
            let mut j: u64 = 0;
            proof {
                assert(done + run_of(unit, 0) =~= done);
            }
            while j <= count
                invariant
                    j <= count + 1,
                    count == items[i as int].repeat,
                    i < items.len(),
                    self.wf(),
                    before.wf(),
                    row < self.rows,
                    self@.rows == before.rows,
                    self@.cols == before.cols,
                    unit == (CellV { text: items[i as int].text@, hl: items[i as int].hl }),
                    at + (count + 1 - j) <= col + total,
                    col + total <= self.cols,
                    at == col + done.len() + j,
                    self@ == before.with_line(row as int, col as int, done + run_of(unit, j as int)),
                decreases count + 1 - j,
            {
                let cell = Cell { text: copy_bytes(&items[i].text), hl: items[i].hl };
                self.put(row, at, cell);
                proof {
                    let so_far = done + run_of(unit, j as int);
                    let next = done + run_of(unit, j + 1);
                    let target = before.with_line(row as int, col as int, next);
                    assert(next.len() == so_far.len() + 1);
                    assert(self@.lines[row as int] =~= target.lines[row as int]) by {
                        assert forall|c: int| 0 <= c < self@.cols implies self@.lines[row as int][c]
                            == target.lines[row as int][c] by {
                            if c == at {
                                assert(next[c - col] == unit);
                            } else if col <= c < col + so_far.len() {
                                assert(next[c - col] == so_far[c - col]);
                            }
                        }
                    }
                    assert(self@.lines =~= target.lines);
                }
                at = at + 1;
                j = j + 1;
            }
            i = i + 1;
        }
        proof {
            assert(all.take(i as int) =~= all);
        }
        true
    }

    /// Replaces the columns `left` to `right` of line `dst` by those of
    /// line `src`.
    fn copy_segment(&mut self, dst: usize, src: usize, left: usize, right: usize)
        requires
            old(self).wf(),
            dst < old(self)@.rows,
            src < old(self)@.rows,
            dst != src,
            left <= right <= old(self)@.cols,
        ensures
            final(self).wf(),
            final(self)@ == old(self)@.with_segment(
                dst as int,
                left as int,
                right as int,
                old(self)@.lines[src as int],
            ),
    {
        let ghost before = self@;
        let ghost from = before.lines[src as int];
        let mut c: usize = left;
        proof {
            let target = before.with_segment(dst as int, left as int, left as int, from);
            assert(target.lines[dst as int] =~= before.lines[dst as int]);
            assert(target.lines =~= before.lines);
        }
        while c < right
            invariant
                left <= c <= right,
                self.wf(),
                before.wf(),
                before == old(self)@,
                from == before.lines[src as int],
                dst < self.rows,
                src < self.rows,
                dst != src,
                right <= self.cols,
                self@ == before.with_segment(dst as int, left as int, c as int, from),
            decreases right - c,
        {
            let cell = self.lines[src][c].clone();
            proof {
                assert(self@.lines[src as int] == from);
                assert(cell@ == from[c as int]);
            }
            self.put(dst, c, cell);
            proof {
                let target = before.with_segment(dst as int, left as int, c + 1, from);
                assert(self@.lines[dst as int] =~= target.lines[dst as int]);
                assert(self@.lines =~= target.lines);
            }
            c = c + 1;
        }
    }

    /// Makes the columns `left` to `right` of line `row` blank.
    fn blank_segment(&mut self, row: usize, left: usize, right: usize)
        requires
            old(self).wf(),
            row < old(self)@.rows,
            left <= right <= old(self)@.cols,
        ensures
            final(self).wf(),
            final(self)@ == old(self)@.with_segment(
                row as int,
                left as int,
                right as int,
                Seq::new(old(self)@.cols as nat, |c: int| blank()),
            ),
    {
        let ghost before = self@;
        let ghost from = Seq::new(before.cols as nat, |c: int| blank());
        let mut c: usize = left;
        proof {
            let target = before.with_segment(row as int, left as int, left as int, from);
            assert(target.lines[row as int] =~= before.lines[row as int]);
            assert(target.lines =~= before.lines);
        }
        while c < right
            invariant
                left <= c <= right,
                self.wf(),
                before.wf(),
                before == old(self)@,
                from == Seq::new(before.cols as nat, |c: int| blank()),
                row < self.rows,
                right <= self.cols,
                self@ == before.with_segment(row as int, left as int, c as int, from),
            decreases right - c,
        {
            self.put(row, c, Cell::blank());
            proof {
                let target = before.with_segment(row as int, left as int, c + 1, from);
                assert(self@.lines[row as int] =~= target.lines[row as int]);
                assert(self@.lines =~= target.lines);
            }
            c = c + 1;
        }
    }

    /// Gives line `r` of the region what a scroll by `by` gives it.
    fn scroll_line(&mut self, r: usize, top: usize, bot: usize, left: usize, right: usize, by: i64)
        requires
            old(self).wf(),
            top <= r < bot <= old(self)@.rows,
            left <= right <= old(self)@.cols,
            by != 0,
        ensures
            final(self).wf(),
            final(self)@.rows == old(self)@.rows,
            final(self)@.cols == old(self)@.cols,
            final(self)@.lines == old(self)@.lines.update(
                r as int,
                old(self)@.scrolled(top as int, bot as int, left as int, right as int, by as int).lines[r as int],
            ),
    {
        let ghost before = self@;
        let ghost target = before.scrolled(top as int, bot as int, left as int, right as int, by as int);
        proof {
            old(self).lemma_wf();
        }
        let mut src: Option<usize> = None;
        if by > 0 {
            if (by as u64) < (bot - r) as u64 {
                src = Some(r + by as usize);
            }
        } else {
            let up: u64 = if by == i64::MIN {
                0x8000_0000_0000_0000
            } else {
                (-by) as u64
            };
            if up <= (r - top) as u64 {
                src = Some(r - up as usize);
            }
        }
        match src {
            Some(s) => {
                assert(s == r + by && top <= s < bot);
                self.copy_segment(r, s, left, right);
            },
            None => {
                self.blank_segment(r, left, right);
            },
        }
        proof {
            assert(self@.lines[r as int] =~= target.lines[r as int]);
            assert(self@.lines =~= before.lines.update(r as int, target.lines[r as int]));
        }
    }

    /// Scrolls the region of the lines `top` to `bot` and the columns
    /// `left` to `right` (`bot` and `right` not included) by `by` lines:
    /// the content moves up where `by` is positive, down where it is
    /// negative, and the lines that it leaves become blank.
    ///
    /// Returns whether the region lies within the grid. Where it does
    /// not, nothing changes.
    pub fn scroll(&mut self, top: usize, bot: usize, left: usize, right: usize, by: i64) -> (ok:
        bool)
        requires
            old(self).wf(),
        ensures
            final(self).wf(),
            ok == old(self)@.region_ok(top as int, bot as int, left as int, right as int),
            ok ==> final(self)@ == old(self)@.scrolled(
                top as int,
                bot as int,
                left as int,
                right as int,
                by as int,
            ),
            !ok ==> final(self)@ == old(self)@,
    {
        if !(top <= bot && bot <= self.rows && left <= right && right <= self.cols) {
            return false;
        }
        let ghost before = self@;
        let ghost target = before.scrolled(top as int, bot as int, left as int, right as int, by as int);
        proof {
            old(self).lemma_wf();
        }
        if by == 0 {
            proof {
                lemma_scroll_by_nothing(before, top as int, bot as int, left as int, right as int);
            }
            return true;
        }
        if by > 0 {
            let mut r: usize = top;
            while r < bot
                invariant
                    top <= r <= bot,
                    bot <= self.rows,
                    left <= right <= self.cols,
                    by > 0,
                    self.wf(),
                    before.wf(),
                    before == old(self)@,
                    target == before.scrolled(top as int, bot as int, left as int, right as int, by as int),
                    self@.rows == before.rows,
                    self@.cols == before.cols,
                    self@.lines.len() == before.rows,
                    forall|k: int| 0 <= k < before.rows ==> #[trigger] self@.lines[k] == (if top <= k < r {
                        target.lines[k]
                    } else {
                        before.lines[k]
                    }),
                decreases bot - r,
            {
                let ghost now = self@;
                self.scroll_line(r, top, bot, left, right, by);
                proof {
                    let mine = now.scrolled(top as int, bot as int, left as int, right as int, by as int).lines[r as int];
                    assert(mine =~= target.lines[r as int]) by {
                        assert forall|c: int| 0 <= c < before.cols implies mine[c] == target.lines[r as int][c] by {
                            if top <= r + by < bot {
                                assert(now.lines[r + by] == before.lines[r + by]);
                            }
                        }
                    }
                }
                r = r + 1;
            }
        } else {
            let mut r: usize = bot;
            while r > top
                invariant
                    top <= r <= bot,
                    bot <= self.rows,
                    left <= right <= self.cols,
                    by < 0,
                    self.wf(),
                    before.wf(),
                    before == old(self)@,
                    target == before.scrolled(top as int, bot as int, left as int, right as int, by as int),
                    self@.rows == before.rows,
                    self@.cols == before.cols,
                    self@.lines.len() == before.rows,
                    forall|k: int| 0 <= k < before.rows ==> #[trigger] self@.lines[k] == (if r <= k < bot {
                        target.lines[k]
                    } else {
                        before.lines[k]
                    }),
                decreases r - top,
            {
                r = r - 1;
                let ghost now = self@;
                self.scroll_line(r, top, bot, left, right, by);
                proof {
                    let mine = now.scrolled(top as int, bot as int, left as int, right as int, by as int).lines[r as int];
                    assert(mine =~= target.lines[r as int]) by {
                        assert forall|c: int| 0 <= c < before.cols implies mine[c] == target.lines[r as int][c] by {
                            if top <= r + by < bot {
                                assert(now.lines[r + by] == before.lines[r + by]);
                            }
                        }
                    }
                }
            }
        }
        proof {
            assert forall|k: int| 0 <= k < before.rows implies #[trigger] self@.lines[k] =~= target.lines[k] by {
                if !(top <= k < bot) {
                    assert(self@.lines[k] == before.lines[k]);
                }
            }
            assert(self@.lines =~= target.lines);
        }
        true
    }
}

/// A line of blank cells.
fn blank_line(cols: usize) -> (line: Vec<Cell>)
    ensures
        row_view(line@) == Seq::new(cols as nat, |c: int| blank()),
{
    let mut line: Vec<Cell> = Vec::new();
    let mut c: usize = 0;
    while c < cols
        invariant
            c <= cols,
            line@.len() == c,
            forall|k: int| 0 <= k < c ==> (#[trigger] line@[k])@ == blank(),
        decreases cols - c,
    {
        line.push(Cell::blank());
        c = c + 1;
    }
    proof {
        assert(row_view(line@) =~= Seq::new(cols as nat, |c: int| blank()));
    }
    line
}

} // verus!
