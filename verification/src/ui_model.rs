//! The display state that the editor drives: grids of cells, the table
//! of highlights, the cursor and the mode.

use vstd::prelude::*;
use std::collections::HashMap;
use crate::grid::{expand, line_views, run_of, Cell, CellV, Grid, GridV, LineCell, LineCellV};
use crate::lookup::{lemma_position, position};
use crate::text::{is_named, named};
use crate::value::copy_bytes;

verus! {

broadcast use vstd::std_specs::hash::group_hash_axioms;

/// How cells of one highlight are drawn. A colour is an RGB number.
#[derive(Debug, Clone, Copy, PartialEq, Eq)]
pub struct Style {
    pub foreground: Option<u64>,
    pub background: Option<u64>,
    pub special: Option<u64>,
    pub bold: bool,
    pub italic: bool,
    pub underline: bool,
}

/// The form of the cursor.
#[derive(Debug, Clone, Copy, PartialEq, Eq)]
pub enum CursorShape {
    Block,
    Horizontal,
    Vertical,
}

/// How the cursor looks in one mode.
#[derive(Debug, Clone, Copy, PartialEq, Eq)]
pub struct CursorStyle {
    pub shape: CursorShape,
    pub blink: bool,
}

/// The kind of mode that the editor is in.
#[derive(Debug, Clone, Copy, PartialEq, Eq)]
pub enum ModeLabel {
    Normal,
    Insert,
    Replace,
    Visual,
    Cmdline,
    OperatorPending,
    Terminal,
    /// A mode of a name that tells none of the kinds above.
    Other,
}

/// Where the cursor stands.
#[derive(Debug, Clone, Copy, PartialEq, Eq)]
pub struct Position {
    pub grid: u64,
    pub row: u64,
    pub col: u64,
}

/// The cursor: where it stands and how it looks.
#[derive(Debug, Clone, Copy, PartialEq, Eq)]
pub struct Cursor {
    pub grid: u64,
    pub row: u64,
    pub col: u64,
    pub shape: CursorShape,
    pub blink: bool,
}

/// What a redraw event did.
#[derive(Debug, Clone, Copy, PartialEq, Eq)]
pub enum Applied {
    /// The event was applied.
    Done,
    /// The event names a grid that does not exist. Nothing changed.
    UnknownGrid,
    /// The event reaches outside its grid. Nothing changed.
    OutOfBounds,
    /// The event asks for a grid larger than the machine can address.
    /// Nothing changed.
    TooLarge,
}

/// A redraw event as a mathematical object.
#[allow(inconsistent_fields)]
pub enum RedrawEventV {
    GridResize { grid: u64, cols: u64, rows: u64 },
    GridClear { grid: u64 },
    GridLine { grid: u64, row: u64, col_start: u64, cells: Seq<LineCellV> },
    GridScroll { grid: u64, top: u64, bot: u64, left: u64, right: u64, rows: i64 },
    GridCursorGoto { grid: u64, row: u64, col: u64 },
    HlAttrDefine { id: u64, style: Style },
    ModeInfoSet { styles: Seq<CursorStyle> },
    ModeChange { name: Seq<u8>, index: u64 },
    Flush,
}

/// One event of a redraw batch.
#[derive(Debug, PartialEq, Eq)]
#[allow(inconsistent_fields)]
pub enum RedrawEvent {
    /// The grid gets these dimensions, and blank cells.
    GridResize { grid: u64, cols: u64, rows: u64 },
    /// Every cell of the grid becomes blank.
    GridClear { grid: u64 },
    /// Cells of one line are overwritten from `col_start` on.
    GridLine { grid: u64, row: u64, col_start: u64, cells: Vec<LineCell> },
    /// A region scrolls by `rows` lines; its content moves up where
    /// `rows` is positive.
    GridScroll { grid: u64, top: u64, bot: u64, left: u64, right: u64, rows: i64 },
    /// The cursor moves.
    GridCursorGoto { grid: u64, row: u64, col: u64 },
    /// A highlight is defined, or defined anew.
    HlAttrDefine { id: u64, style: Style },
    /// The look of the cursor in each mode, by the index of the mode.
    ModeInfoSet { styles: Vec<CursorStyle> },
    /// The editor is in another mode.
    ModeChange { name: Vec<u8>, index: u64 },
    /// The end of a batch: what came before may now be shown.
    Flush,
}

impl View for RedrawEvent {
    type V = RedrawEventV;

    open spec fn view(&self) -> RedrawEventV {
        match self {
            RedrawEvent::GridResize { grid, cols, rows } => RedrawEventV::GridResize {
                grid: *grid,
                cols: *cols,
                rows: *rows,
            },
            RedrawEvent::GridClear { grid } => RedrawEventV::GridClear { grid: *grid },
            RedrawEvent::GridLine { grid, row, col_start, cells } => RedrawEventV::GridLine {
                grid: *grid,
                row: *row,
                col_start: *col_start,
                cells: line_views(cells@),
            },
            RedrawEvent::GridScroll { grid, top, bot, left, right, rows } => RedrawEventV::GridScroll {
                grid: *grid,
                top: *top,
                bot: *bot,
                left: *left,
                right: *right,
                rows: *rows,
            },
            RedrawEvent::GridCursorGoto { grid, row, col } => RedrawEventV::GridCursorGoto {
                grid: *grid,
                row: *row,
                col: *col,
            },
            RedrawEvent::HlAttrDefine { id, style } => RedrawEventV::HlAttrDefine {
                id: *id,
                style: *style,
            },
            RedrawEvent::ModeInfoSet { styles } => RedrawEventV::ModeInfoSet { styles: styles@ },
            RedrawEvent::ModeChange { name, index } => RedrawEventV::ModeChange {
                name: name@,
                index: *index,
            },
            RedrawEvent::Flush => RedrawEventV::Flush,
        }
    }
}

/// The mode as a mathematical object.
pub struct ModeV {
    pub name: Seq<u8>,
    pub index: u64,
    pub styles: Seq<CursorStyle>,
}

/// The display state as a mathematical object.
pub struct UiV {
    /// The grids with their ids, in the order in which they came to be.
    pub grids: Seq<(u64, GridV)>,
    /// The highlights that were defined.
    pub highlights: Map<u64, Style>,
    /// Where the cursor stands, once it was placed.
    pub cursor: Option<Position>,
    pub mode: ModeV,
}

/// The kind of mode that a mode's name tells. The modes of the command
/// line are `cmdline_normal`, `cmdline_insert` and `cmdline_replace`;
/// the mode in which an operator waits for its motion is `operator`.
pub open spec fn label_of(name: Seq<u8>) -> ModeLabel {
    if named(name, "normal") {
        ModeLabel::Normal
    } else if named(name, "insert") {
        ModeLabel::Insert
    } else if named(name, "replace") {
        ModeLabel::Replace
    } else if named(name, "visual") || named(name, "visual_select") {
        ModeLabel::Visual
    } else if named(name, "cmdline_normal") || named(name, "cmdline_insert") || named(
        name,
        "cmdline_replace",
    ) {
        ModeLabel::Cmdline
    } else if named(name, "operator") {
        ModeLabel::OperatorPending
    } else if named(name, "terminal") {
        ModeLabel::Terminal
    } else {
        ModeLabel::Other
    }
}

/// The cursor of a mode for which no look was given: a steady block.
pub open spec fn plain_cursor() -> CursorStyle {
    CursorStyle { shape: CursorShape::Block, blink: false }
}

/// A grid of these dimensions can be held: each dimension and the number
/// of cells can be addressed.
pub open spec fn fits(cols: u64, rows: u64) -> bool {
    cols <= usize::MAX && rows <= usize::MAX && cols * rows <= usize::MAX
}

/// Each entry has the default highlight or one of `known`.
pub open spec fn highlights_known(cells: Seq<LineCellV>, known: Set<u64>) -> bool {
    forall|i: int| 0 <= i < cells.len() ==> {
        let hl = (#[trigger] cells[i]).hl;
        hl == 0 || known.contains(hl)
    }
}

/// The style without colours and without marks.
pub open spec fn plain_style() -> Style {
    Style {
        foreground: None,
        background: None,
        special: None,
        bold: false,
        italic: false,
        underline: false,
    }
}

/// The id of the grid that the attach handshake brings.
pub open spec fn first_grid() -> u64 {
    0
}

/// The table of highlights after the entries of a line update from
/// index `i` on were seen: a highlight that an entry uses and that was
/// not defined is entered with the plain style, to be defined later.
pub open spec fn learned_from(cells: Seq<LineCellV>, i: int, known: Map<u64, Style>) -> Map<
    u64,
    Style,
>
    decreases cells.len() - i,
{
    if i < 0 || i >= cells.len() {
        known
    } else {
        let hl = cells[i].hl;
        learned_from(
            cells,
            i + 1,
            if hl != 0 && !known.contains_key(hl) {
                known.insert(hl, plain_style())
            } else {
                known
            },
        )
    }
}

/// The table of highlights after a line update was seen.
pub open spec fn learned(cells: Seq<LineCellV>, known: Map<u64, Style>) -> Map<u64, Style> {
    learned_from(cells, 0, known)
}

/// Seeing a line update removes no highlight and changes none, and
/// leaves every highlight that the update uses in the table.
pub proof fn lemma_learned(cells: Seq<LineCellV>, i: int, known: Map<u64, Style>)
    requires
        0 <= i <= cells.len(),
    ensures
        forall|id: u64| #[trigger]
            known.contains_key(id) ==> learned_from(cells, i, known).contains_key(id)
                && learned_from(cells, i, known)[id] == known[id],
        forall|k: int|
            i <= k < cells.len() ==> (#[trigger] cells[k]).hl == 0 || learned_from(
                cells,
                i,
                known,
            ).contains_key(cells[k].hl),
    decreases cells.len() - i,
{
    if i < cells.len() {
        let hl = cells[i].hl;
        let step = if hl != 0 && !known.contains_key(hl) {
            known.insert(hl, plain_style())
        } else {
            known
        };
        lemma_learned(cells, i + 1, step);
        assert forall|id: u64| #[trigger] known.contains_key(id) implies learned_from(
            cells,
            i,
            known,
        ).contains_key(id) && learned_from(cells, i, known)[id] == known[id] by {
            assert(step.contains_key(id));
            assert(step[id] == known[id]);
        }
        assert(cells[i].hl == 0 || step.contains_key(cells[i].hl));
    }
}

impl ModeV {
    /// How the cursor looks in this mode.
    pub open spec fn cursor_style(self) -> CursorStyle {
        if self.index < self.styles.len() {
            self.styles[self.index as int]
        } else {
            plain_cursor()
        }
    }
}

impl UiV {
    /// The state at the start of a session: no grid, no highlight, no
    /// cursor.
    pub open spec fn empty() -> UiV {
        UiV {
            grids: Seq::empty(),
            highlights: Map::empty(),
            cursor: None,
            mode: ModeV { name: Seq::empty(), index: 0, styles: Seq::empty() },
        }
    }

    /// The grid with this id.
    pub open spec fn grid(self, id: u64) -> Option<GridV> {
        match position(self.grids, id) {
            Some(i) => Some(self.grids[i].1),
            None => None,
        }
    }

    /// The cursor: where it stands, and how the mode makes it look.
    pub open spec fn cursor(self) -> Option<Cursor> {
        match self.cursor {
            Some(p) => Some(
                Cursor {
                    grid: p.grid,
                    row: p.row,
                    col: p.col,
                    shape: self.mode.cursor_style().shape,
                    blink: self.mode.cursor_style().blink,
                },
            ),
            None => None,
        }
    }

    /// The state is valid: no two grids share an id; every grid holds a
    /// cell at each position within its dimensions and at no other; the
    /// highlight of every cell is the default or was defined; and the
    /// cursor stands on a grid that exists.
    pub open spec fn wf(self) -> bool {
        &&& forall|i: int, j: int|
            0 <= i < j < self.grids.len() ==> self.grids[i].0 != self.grids[j].0
        &&& forall|i: int|
            0 <= i < self.grids.len() ==> (#[trigger] self.grids[i]).1.wf() && self.grids[i].1.uses_only(
                self.highlights.dom(),
            )
        &&& self.cursor matches Some(p) ==> position(self.grids, p.grid) is Some
    }

    /// The state with the grid at index `i` replaced.
    pub open spec fn with_grid(self, i: int, g: GridV) -> UiV {
        UiV { grids: self.grids.update(i, (self.grids[i].0, g)), ..self }
    }
}

/// What a redraw event does to the display state, and how it ended.
///
/// An event that cannot be applied changes nothing: one that names a
/// grid that does not exist, one that reaches outside its grid, and a
/// resize to dimensions that cannot be held. A line that uses a
/// highlight that was not defined enters it with the plain style.
pub open spec fn apply(ui: UiV, ev: RedrawEventV) -> (UiV, Applied) {
    match ev {
        RedrawEventV::GridResize { grid, cols, rows } => if !fits(cols, rows) {
            (ui, Applied::TooLarge)
        } else {
            let g = GridV::blank(rows as int, cols as int);
            match position(ui.grids, grid) {
                Some(i) => (ui.with_grid(i, g), Applied::Done),
                None => (UiV { grids: ui.grids.push((grid, g)), ..ui }, Applied::Done),
            }
        },
        RedrawEventV::GridClear { grid } => match position(ui.grids, grid) {
            Some(i) => (
                ui.with_grid(i, GridV::blank(ui.grids[i].1.rows, ui.grids[i].1.cols)),
                Applied::Done,
            ),
            None => (ui, Applied::UnknownGrid),
        },
        RedrawEventV::GridLine { grid, row, col_start, cells } => match position(ui.grids, grid) {
            Some(i) => {
                let g = ui.grids[i].1;
                if !g.line_fits(row as int, col_start as int, expand(cells).len() as int) {
                    (ui, Applied::OutOfBounds)
                } else {
                    (
                        UiV { highlights: learned(cells, ui.highlights), ..ui }.with_grid(
                            i,
                            g.with_line(row as int, col_start as int, expand(cells)),
                        ),
                        Applied::Done,
                    )
                }
            },
            None => (ui, Applied::UnknownGrid),
        },
        RedrawEventV::GridScroll { grid, top, bot, left, right, rows } => match position(
            ui.grids,
            grid,
        ) {
            Some(i) => {
                let g = ui.grids[i].1;
                if !g.region_ok(top as int, bot as int, left as int, right as int) {
                    (ui, Applied::OutOfBounds)
                } else {
                    (
                        ui.with_grid(
                            i,
                            g.scrolled(top as int, bot as int, left as int, right as int, rows as int),
                        ),
                        Applied::Done,
                    )
                }
            },
            None => (ui, Applied::UnknownGrid),
        },
        RedrawEventV::GridCursorGoto { grid, row, col } => match position(ui.grids, grid) {
            Some(_) => (UiV { cursor: Some(Position { grid, row, col }), ..ui }, Applied::Done),
            None => (ui, Applied::UnknownGrid),
        },
        RedrawEventV::HlAttrDefine { id, style } => (
            UiV { highlights: ui.highlights.insert(id, style), ..ui },
            Applied::Done,
        ),
        RedrawEventV::ModeInfoSet { styles } => (
            UiV { mode: ModeV { styles, ..ui.mode }, ..ui },
            Applied::Done,
        ),
        RedrawEventV::ModeChange { name, index } => (
            UiV { mode: ModeV { name, index, ..ui.mode }, ..ui },
            Applied::Done,
        ),
        RedrawEventV::Flush => (ui, Applied::Done),
    }
}

/// What a run of redraw events does, event by event.
pub open spec fn apply_all(ui: UiV, events: Seq<RedrawEventV>) -> UiV
    decreases events.len(),
{
    if events.len() == 0 {
        ui
    } else {
        apply_all(apply(ui, events[0]).0, events.drop_first())
    }
}

/// How each event of a run ended, event by event.
pub open spec fn outcomes(ui: UiV, events: Seq<RedrawEventV>) -> Seq<Applied>
    decreases events.len(),
{
    if events.len() == 0 {
        Seq::empty()
    } else {
        seq![apply(ui, events[0]).1] + outcomes(apply(ui, events[0]).0, events.drop_first())
    }
}

/// The events, one by one, as mathematical objects.
pub open spec fn redraw_views(events: Seq<RedrawEvent>) -> Seq<RedrawEventV> {
    Seq::new(events.len(), |i: int| events[i]@)
}

/// Every cell that a line update stands for has the highlight of one of
/// its entries.
pub proof fn lemma_expand_highlights(cells: Seq<LineCellV>, known: Set<u64>)
    requires
        highlights_known(cells, known),
    ensures
        forall|k: int| 0 <= k < expand(cells).len() ==> {
            let hl = (#[trigger] expand(cells)[k]).hl;
            hl == 0 || known.contains(hl)
        },
    decreases cells.len(),
{
    if cells.len() > 0 {
        let front = cells.drop_last();
        assert forall|i: int| 0 <= i < front.len() implies {
            let hl = (#[trigger] front[i]).hl;
            hl == 0 || known.contains(hl)
        } by {
            assert(front[i] == cells[i]);
        }
        lemma_expand_highlights(front, known);
        let last = cells[cells.len() - 1];
        assert(cells.last() == last);
        let tail = run_of(CellV { text: last.text, hl: last.hl }, 1 + last.repeat);
        assert(expand(cells) == expand(front) + tail);
        assert forall|k: int| 0 <= k < expand(cells).len() implies {
            let hl = (#[trigger] expand(cells)[k]).hl;
            hl == 0 || known.contains(hl)
        } by {
            if k < expand(front).len() {
                assert(expand(cells)[k] == expand(front)[k]);
            } else {
                assert(expand(cells)[k] == tail[k - expand(front).len()]);
            }
        }
    }
}

proof fn lemma_with_grid_wf(ui: UiV, i: int, g: GridV)
    requires
        ui.wf(),
        0 <= i < ui.grids.len(),
        g.wf(),
        g.uses_only(ui.highlights.dom()),
    ensures
        ui.with_grid(i, g).wf(),
        forall|id: u64| position(ui.with_grid(i, g).grids, id) == position(ui.grids, id),
{
    let after = ui.with_grid(i, g);
    assert forall|id: u64| position(after.grids, id) == position(ui.grids, id) by {
        lemma_position(after.grids, id);
        lemma_position(ui.grids, id);
        match position(ui.grids, id) {
            Some(a) => {
                assert(after.grids[a].0 == id);
                match position(after.grids, id) {
                    Some(b) => {
                        assert(after.grids[b].0 == ui.grids[b].0);
                        if b < a {
                            assert(ui.grids[b].0 != id);
                        }
                        if a < b {
                            assert(after.grids[a].0 != id);
                        }
                    },
                    None => {},
                }
            },
            None => {
                match position(after.grids, id) {
                    Some(b) => {
                        assert(ui.grids[b].0 == id);
                    },
                    None => {},
                }
            },
        }
    }
}

/// A valid display state stays valid under every redraw event: no cell
/// comes to lie outside the dimensions of its grid, and the highlight of
/// every cell is the default or is defined.
pub proof fn lemma_apply_keeps_valid(ui: UiV, ev: RedrawEventV)
    requires
        ui.wf(),
    ensures
        apply(ui, ev).0.wf(),
{
    let after = apply(ui, ev).0;
    match ev {
        RedrawEventV::GridResize { grid, cols, rows } => {
            if fits(cols, rows) {
                let g = GridV::blank(rows as int, cols as int);
                lemma_position(ui.grids, grid);
                match position(ui.grids, grid) {
                    Some(i) => {
                        lemma_with_grid_wf(ui, i, g);
                    },
                    None => {
                        assert forall|id: u64| position(ui.grids, id) is Some implies position(
                            after.grids,
                            id,
                        ) is Some by {
                            lemma_position(ui.grids, id);
                            lemma_position(after.grids, id);
                            let a = position(ui.grids, id)->0;
                            assert(after.grids[a].0 == id);
                        }
                        assert forall|i: int, j: int|
                            0 <= i < j < after.grids.len() implies after.grids[i].0
                            != after.grids[j].0 by {
                            if j == ui.grids.len() {
                                assert(ui.grids[i].0 != grid);
                            }
                        }
                    },
                }
            }
        },
        RedrawEventV::GridClear { grid } => {
            lemma_position(ui.grids, grid);
            match position(ui.grids, grid) {
                Some(i) => {
                    lemma_with_grid_wf(
                        ui,
                        i,
                        GridV::blank(ui.grids[i].1.rows, ui.grids[i].1.cols),
                    );
                },
                None => {},
            }
        },
        RedrawEventV::GridLine { grid, row, col_start, cells } => {
            lemma_position(ui.grids, grid);
            match position(ui.grids, grid) {
                Some(i) => {
                    let g = ui.grids[i].1;
                    let run = expand(cells);
                    if g.line_fits(row as int, col_start as int, run.len() as int) {
                        let table = learned(cells, ui.highlights);
                        let wider = UiV { highlights: table, ..ui };
                        lemma_learned(cells, 0, ui.highlights);
                        assert(highlights_known(cells, table.dom()));
                        lemma_expand_highlights(cells, table.dom());
                        assert forall|k: int| 0 <= k < wider.grids.len() implies (
                        #[trigger] wider.grids[k]).1.uses_only(table.dom()) by {
                            assert(ui.grids[k].1.uses_only(ui.highlights.dom()));
                        }
                        let h = g.with_line(row as int, col_start as int, run);
                        assert(h.uses_only(table.dom())) by {
                            assert forall|r: int, c: int|
                                0 <= r < h.rows && 0 <= c < h.cols implies {
                                let hl = (#[trigger] h.lines[r][c]).hl;
                                hl == 0 || table.dom().contains(hl)
                            } by {
                                if r == row && col_start <= c < col_start + run.len() {
                                    assert(h.lines[r][c] == run[c - col_start]);
                                } else {
                                    assert(h.lines[r][c] == g.lines[r][c]);
                                }
                            }
                        }
                        lemma_with_grid_wf(wider, i, h);
                    }
                },
                None => {},
            }
        },
        RedrawEventV::GridScroll { grid, top, bot, left, right, rows } => {
            lemma_position(ui.grids, grid);
            match position(ui.grids, grid) {
                Some(i) => {
                    let g = ui.grids[i].1;
                    if g.region_ok(top as int, bot as int, left as int, right as int) {
                        let h = g.scrolled(
                            top as int,
                            bot as int,
                            left as int,
                            right as int,
                            rows as int,
                        );
                        assert(h.uses_only(ui.highlights.dom())) by {
                            assert forall|r: int, c: int|
                                0 <= r < h.rows && 0 <= c < h.cols implies {
                                let hl = (#[trigger] h.lines[r][c]).hl;
                                hl == 0 || ui.highlights.dom().contains(hl)
                            } by {
                                if top <= r < bot && left <= c < right && top <= r + rows < bot {
                                    assert(h.lines[r][c] == g.lines[r + rows][c]);
                                }
                            }
                        }
                        lemma_with_grid_wf(ui, i, h);
                    }
                },
                None => {},
            }
        },
        RedrawEventV::HlAttrDefine { id, style } => {
            assert forall|i: int| 0 <= i < after.grids.len() implies (
            #[trigger] after.grids[i]).1.uses_only(after.highlights.dom()) by {
                assert(ui.grids[i].1.uses_only(ui.highlights.dom()));
            }
        },
        _ => {},
    }
}

/// No redraw event removes a highlight from the table: what was defined
/// stays defined.
pub proof fn lemma_highlights_stay(ui: UiV, ev: RedrawEventV, id: u64)
    requires
        ui.highlights.contains_key(id),
    ensures
        apply(ui, ev).0.highlights.contains_key(id),
{
    match ev {
        RedrawEventV::GridLine { grid, row, col_start, cells } => {
            lemma_learned(cells, 0, ui.highlights);
        },
        _ => {},
    }
}

/// No redraw event removes a grid: a grid that exists keeps existing.
pub proof fn lemma_grids_stay(ui: UiV, ev: RedrawEventV, id: u64)
    requires
        ui.wf(),
        position(ui.grids, id) is Some,
    ensures
        position(apply(ui, ev).0.grids, id) is Some,
{
    let after = apply(ui, ev).0;
    lemma_position(ui.grids, id);
    lemma_position(after.grids, id);
    let at = position(ui.grids, id)->0;
    match ev {
        RedrawEventV::GridResize { grid, .. } => {
            lemma_position(ui.grids, grid);
        },
        RedrawEventV::GridClear { grid } => {
            lemma_position(ui.grids, grid);
        },
        RedrawEventV::GridLine { grid, .. } => {
            lemma_position(ui.grids, grid);
        },
        RedrawEventV::GridScroll { grid, .. } => {
            lemma_position(ui.grids, grid);
        },
        _ => {},
    }
    assert(after.grids.len() >= ui.grids.len());
    assert(after.grids[at].0 == id);
}

/// The display state at the start of a session is valid.
pub proof fn lemma_empty_is_valid()
    ensures
        UiV::empty().wf(),
{
    assert(position(UiV::empty().grids, 0) is None);
}

/// Whatever redraw events a session brings, in whatever order, the
/// display state is valid after them: no cell lies outside the
/// dimensions of its grid, and the highlight of every cell is the
/// default or stands in the table.
pub proof fn lemma_valid_from_the_start(events: Seq<RedrawEventV>)
    ensures
        apply_all(UiV::empty(), events).wf(),
{
    lemma_empty_is_valid();
    lemma_apply_all_keeps_valid(UiV::empty(), events);
}

/// A valid display state stays valid under every run of redraw events.
pub proof fn lemma_apply_all_keeps_valid(ui: UiV, events: Seq<RedrawEventV>)
    requires
        ui.wf(),
    ensures
        apply_all(ui, events).wf(),
    decreases events.len(),
{
    if events.len() > 0 {
        lemma_apply_keeps_valid(ui, events[0]);
        lemma_apply_all_keeps_valid(apply(ui, events[0]).0, events.drop_first());
    }
}


/// The display state.
pub struct UiModel {
    grids: Vec<(u64, Grid)>,
    highlights: HashMap<u64, Style>,
    cursor: Option<Position>,
    mode_name: Vec<u8>,
    mode_index: u64,
    styles: Vec<CursorStyle>,
}

impl View for UiModel {
    type V = UiV;

    closed spec fn view(&self) -> UiV {
        UiV {
            grids: Seq::new(self.grids@.len(), |i: int| (self.grids@[i].0, self.grids@[i].1@)),
            highlights: self.highlights@,
            cursor: self.cursor,
            mode: ModeV { name: self.mode_name@, index: self.mode_index, styles: self.styles@ },
        }
    }
}

impl UiModel {
    /// The state is valid: see `UiV::wf`.
    pub closed spec fn wf(&self) -> bool {
        &&& forall|i: int| 0 <= i < self.grids@.len() ==> (#[trigger] self.grids@[i]).1.wf()
        &&& self@.wf()
    }

    /// A valid display state shows as one.
    pub proof fn lemma_wf(&self)
        requires
            self.wf(),
        ensures
            self@.wf(),
    {
    }

    /// The display state at the start of a session.
    pub fn new() -> (ui: Self)
        ensures
            ui.wf(),
            ui@ == UiV::empty(),
    {
        let ui = UiModel {
            grids: Vec::new(),
            highlights: HashMap::new(),
            cursor: None,
            mode_name: Vec::new(),
            mode_index: 0,
            styles: Vec::new(),
        };
        proof {
            assert(ui@.grids =~= Seq::<(u64, GridV)>::empty());
            assert(ui@.highlights =~= Map::<u64, Style>::empty());
        }
        ui
    }

    /// Index of the grid with this id.
    fn find(&self, id: u64) -> (r: Option<usize>)
        ensures
            match r {
                Some(i) => position(self@.grids, id) == Some(i as int) && i < self.grids@.len(),
                None => position(self@.grids, id) is None,
            },
    {
        let mut i: usize = 0;
        while i < self.grids.len()
            invariant
                i <= self.grids.len(),
                forall|k: int| 0 <= k < i ==> (#[trigger] self@.grids[k]).0 != id,
            decreases self.grids.len() - i,
        {
            if self.grids[i].0 == id {
                proof {
                    lemma_position(self@.grids, id);
                    assert(self@.grids[i as int].0 == id);
                }
                return Some(i);
            }
            proof {
                assert(self@.grids[i as int].0 != id);
            }
            i = i + 1;
        }
        proof {
            lemma_position(self@.grids, id);
        }
        None
    }

    /// The grid with this id.
    pub fn grid(&self, id: u64) -> (r: Option<&Grid>)
        requires
            self.wf(),
        ensures
            match r {
                Some(g) => self@.grid(id) == Some(g@) && g.wf(),
                None => self@.grid(id) is None,
            },
    {
        match self.find(id) {
            Some(i) => Some(&self.grids[i].1),
            None => None,
        }
    }

    /// The cell at a position of a grid, if the grid exists and the
    /// position lies within it.
    pub fn cell(&self, grid: u64, row: usize, col: usize) -> (r: Option<&Cell>)
        requires
            self.wf(),
        ensures
            match r {
                Some(cell) => self@.grid(grid) matches Some(g) && row < g.rows && col < g.cols
                    && cell@ == g.lines[row as int][col as int],
                None => !(self@.grid(grid) matches Some(g) && row < g.rows && col < g.cols),
            },
    {
        match self.grid(grid) {
            Some(g) => g.cell(row, col),
            None => None,
        }
    }

    /// The style of a highlight, if it was defined.
    pub fn highlight(&self, id: u64) -> (r: Option<Style>)
        ensures
            match r {
                Some(style) => self@.highlights.contains_key(id) && self@.highlights[id] == style,
                None => !self@.highlights.contains_key(id),
            },
    {
        match self.highlights.get(&id) {
            Some(style) => Some(*style),
            None => None,
        }
    }

    /// How the cursor looks in the present mode.
    fn cursor_style(&self) -> (r: CursorStyle)
        ensures
            r == self@.mode.cursor_style(),
    {
        if self.mode_index < self.styles.len() as u64 {
            self.styles[self.mode_index as usize]
        } else {
            CursorStyle { shape: CursorShape::Block, blink: false }
        }
    }

    /// The cursor, once it was placed.
    pub fn cursor(&self) -> (r: Option<Cursor>)
        ensures
            r == self@.cursor(),
    {
        let style = self.cursor_style();
        match self.cursor {
            Some(p) => Some(
                Cursor { grid: p.grid, row: p.row, col: p.col, shape: style.shape, blink: style.blink },
            ),
            None => None,
        }
    }

    /// The name of the present mode.
    pub fn mode_name(&self) -> (r: &Vec<u8>)
        ensures
            r@ == self@.mode.name,
    {
        &self.mode_name
    }

    /// The kind of the present mode.
    pub fn mode_label(&self) -> (r: ModeLabel)
        ensures
            r == label_of(self@.mode.name),
    {
        let name = &self.mode_name;
        if is_named(name, "normal") {
            ModeLabel::Normal
        } else if is_named(name, "insert") {
            ModeLabel::Insert
        } else if is_named(name, "replace") {
            ModeLabel::Replace
        } else if is_named(name, "visual") || is_named(name, "visual_select") {
            ModeLabel::Visual
        } else if is_named(name, "cmdline_normal") || is_named(name, "cmdline_insert")
            || is_named(name, "cmdline_replace") {
            ModeLabel::Cmdline
        } else if is_named(name, "operator") {
            ModeLabel::OperatorPending
        } else if is_named(name, "terminal") {
            ModeLabel::Terminal
        } else {
            ModeLabel::Other
        }
    }

    /// The index of the present mode.
    pub fn mode_index(&self) -> (r: u64)
        ensures
            r == self@.mode.index,
    {
        self.mode_index
    }

    /// Enters the highlights that a line update uses and that were not
    /// defined.
    fn learn(&mut self, cells: &Vec<LineCell>)
        requires
            old(self).wf(),
        ensures
            final(self).wf(),
            final(self)@ == (UiV {
                highlights: learned(line_views(cells@), old(self)@.highlights),
                ..old(self)@
            }),
            final(self).grids == old(self).grids,
    {
        let ghost all = line_views(cells@);
        let mut i: usize = 0;
        while i < cells.len()
            invariant
                i <= cells.len(),
                all == line_views(cells@),
                self.wf(),
                self.grids == old(self).grids,
                self.cursor == old(self).cursor,
                self.mode_name == old(self).mode_name,
                self.mode_index == old(self).mode_index,
                self.styles == old(self).styles,
                learned(all, old(self)@.highlights) == learned_from(
                    all,
                    i as int,
                    self@.highlights,
                ),
            decreases cells.len() - i,
        {
            let hl: u64 = cells[i].hl;
            proof {
                assert(all[i as int].hl == hl);
            }
            if hl != 0 && !self.highlights.contains_key(&hl) {
                let ghost before = self@;
                self.highlights.insert(
                    hl,
                    Style {
                        foreground: None,
                        background: None,
                        special: None,
                        bold: false,
                        italic: false,
                        underline: false,
                    },
                );
                proof {
                    assert(self@.grids =~= before.grids);
                    assert forall|k: int| 0 <= k < self@.grids.len() implies (
                    #[trigger] self@.grids[k]).1.uses_only(self@.highlights.dom()) by {
                        assert(before.grids[k].1.uses_only(before.highlights.dom()));
                    }
                }
            }
            i = i + 1;
        }
    }

    /// Puts `g` in the place of the grid at index `i`.
    fn set_grid(&mut self, i: usize, g: Grid)
        requires
            old(self).wf(),
            i < old(self)@.grids.len(),
            g.wf(),
            g@.wf(),
            g@.uses_only(old(self)@.highlights.dom()),
        ensures
            final(self).wf(),
            final(self)@ == old(self)@.with_grid(i as int, g@),
    {
        let id: u64 = self.grids[i].0;
        self.grids[i] = (id, g);
        proof {
            assert(self@.grids =~= old(self)@.with_grid(i as int, g@).grids);
            lemma_with_grid_wf(old(self)@, i as int, g@);
            assert forall|k: int| 0 <= k < self.grids@.len() implies (#[trigger] self.grids@[k]).1.wf() by {
                if k != i {
                    assert(self.grids@[k] == old(self).grids@[k]);
                }
            }
        }
    }

    /// Takes the grid at index `i` out, leaving an empty grid there for
    /// the moment.
    fn take_grid(&mut self, i: usize) -> (g: Grid)
        requires
            i < old(self).grids@.len(),
        ensures
            g == old(self).grids@[i as int].1,
            final(self).grids@ == old(self).grids@.update(
                i as int,
                (old(self).grids@[i as int].0, final(self).grids@[i as int].1),
            ),
            final(self).grids@[i as int].1.wf(),
            final(self).highlights == old(self).highlights,
            final(self).cursor == old(self).cursor,
            final(self).mode_name == old(self).mode_name,
            final(self).mode_index == old(self).mode_index,
            final(self).styles == old(self).styles,
    {
        let mut g = Grid::new(0, 0);
        std::mem::swap(&mut self.grids[i].1, &mut g);
        g
    }

    /// Applies one redraw event.
    ///
    /// An event that cannot be applied changes nothing; the result says
    /// why it could not.
    pub fn apply(&mut self, ev: &RedrawEvent) -> (r: Applied)
        requires
            old(self).wf(),
        ensures
            final(self).wf(),
            (final(self)@, r) == apply(old(self)@, ev@),
    {
        proof {
            lemma_apply_keeps_valid(self@, ev@);
        }
        match ev {
            RedrawEvent::GridResize { grid, cols, rows } => {
                let limit: u64 = usize::MAX as u64;
                if *cols > limit || *rows > limit {
                    return Applied::TooLarge;
                }
                match cols.checked_mul(*rows) {
                    None => {
                        return Applied::TooLarge;
                    },
                    Some(cells) => {
                        if cells > limit {
                            return Applied::TooLarge;
                        }
                    },
                }
                let g = Grid::new(*rows as usize, *cols as usize);
                match self.find(*grid) {
                    Some(i) => {
                        self.set_grid(i, g);
                    },
                    None => {
                        self.grids.push((*grid, g));
                        proof {
                            assert(self@.grids =~= old(self)@.grids.push((*grid, g@)));
                            assert forall|k: int| 0 <= k < self.grids@.len() implies (
                            #[trigger] self.grids@[k]).1.wf() by {
                                if k < old(self).grids@.len() {
                                    assert(self.grids@[k] == old(self).grids@[k]);
                                }
                            }
                        }
                    },
                }
                Applied::Done
            },
            RedrawEvent::GridClear { grid } => match self.find(*grid) {
                Some(i) => {
                    let rows: usize = self.grids[i].1.rows();
                    let cols: usize = self.grids[i].1.cols();
                    let g = Grid::new(rows, cols);
                    self.set_grid(i, g);
                    Applied::Done
                },
                None => Applied::UnknownGrid,
            },
            RedrawEvent::GridLine { grid, row, col_start, cells } => match self.find(*grid) {
                Some(i) => {
                    let limit: u64 = usize::MAX as u64;
                    proof {
                        self.grids[i as int].1.lemma_dims();
                    }
                    if *row > limit || *col_start > limit {
                        return Applied::OutOfBounds;
                    }
                    if !self.grids[i].1.fits_line(*row as usize, *col_start as usize, cells) {
                        return Applied::OutOfBounds;
                    }
                    self.learn(cells);
                    let ghost wider = self@;
                    let mut g = self.take_grid(i);
                    g.write_line(*row as usize, *col_start as usize, cells);
                    proof {
                        assert(apply(old(self)@, ev@).0 == wider.with_grid(i as int, g@));
                    }
                    self.put_back(i, g, Ghost(wider), Ghost(apply(old(self)@, ev@).0));
                    Applied::Done
                },
                None => Applied::UnknownGrid,
            },
            RedrawEvent::GridScroll { grid, top, bot, left, right, rows } => match self.find(
                *grid,
            ) {
                Some(i) => {
                    let limit: u64 = usize::MAX as u64;
                    proof {
                        self.grids[i as int].1.lemma_dims();
                    }
                    if *top > limit || *bot > limit || *left > limit || *right > limit {
                        return Applied::OutOfBounds;
                    }
                    proof {
                        let before = old(self)@;
                        assert(before.with_grid(i as int, before.grids[i as int].1).grids
                            =~= before.grids);
                    }
                    let mut g = self.take_grid(i);
                    let ok = g.scroll(
                        *top as usize,
                        *bot as usize,
                        *left as usize,
                        *right as usize,
                        *rows,
                    );
                    self.put_back(i, g, Ghost(old(self)@), Ghost(apply(old(self)@, ev@).0));
                    if ok {
                        Applied::Done
                    } else {
                        Applied::OutOfBounds
                    }
                },
                None => Applied::UnknownGrid,
            },
            RedrawEvent::GridCursorGoto { grid, row, col } => match self.find(*grid) {
                Some(_) => {
                    self.cursor = Some(Position { grid: *grid, row: *row, col: *col });
                    Applied::Done
                },
                None => Applied::UnknownGrid,
            },
            RedrawEvent::HlAttrDefine { id, style } => {
                self.highlights.insert(*id, *style);
                Applied::Done
            },
            RedrawEvent::ModeInfoSet { styles } => {
                let mut copy: Vec<CursorStyle> = Vec::new();
                let mut i: usize = 0;
                while i < styles.len()
                    invariant
                        i <= styles.len(),
                        copy@ == styles@.take(i as int),
                    decreases styles.len() - i,
                {
                    copy.push(styles[i]);
                    proof {
                        assert(copy@ =~= styles@.take(i + 1));
                    }
                    i = i + 1;
                }
                proof {
                    assert(styles@.take(i as int) =~= styles@);
                }
                self.styles = copy;
                Applied::Done
            },
            RedrawEvent::ModeChange { name, index } => {
                self.mode_name = copy_bytes(name);
                self.mode_index = *index;
                Applied::Done
            },
            RedrawEvent::Flush => Applied::Done,
        }
    }

    /// Brings the grid that the attach handshake declares: the first
    /// grid, blank, of the declared size.
    pub fn attach(&mut self, cols: u64, rows: u64) -> (r: Applied)
        requires
            old(self).wf(),
        ensures
            final(self).wf(),
            (final(self)@, r) == apply(
                old(self)@,
                RedrawEventV::GridResize { grid: first_grid(), cols, rows },
            ),
    {
        let ev = RedrawEvent::GridResize { grid: 0, cols, rows };
        self.apply(&ev)
    }

    /// Applies the events of one frame, in order: what a flush makes
    /// visible at once. Returns how each event ended.
    pub fn apply_frame(&mut self, frame: &Vec<RedrawEvent>) -> (r: Vec<Applied>)
        requires
            old(self).wf(),
        ensures
            final(self).wf(),
            final(self)@ == apply_all(old(self)@, redraw_views(frame@)),
            r@ == outcomes(old(self)@, redraw_views(frame@)),
    {
        let ghost all = redraw_views(frame@);
        let mut out: Vec<Applied> = Vec::new();
        let mut i: usize = 0;
        proof {
            assert(all.skip(0) =~= all);
            assert(out@ + outcomes(self@, all) =~= outcomes(self@, all));
        }
        while i < frame.len()
            invariant
                i <= frame.len(),
                self.wf(),
                all == redraw_views(frame@),
                apply_all(old(self)@, all) == apply_all(self@, all.skip(i as int)),
                outcomes(old(self)@, all) == out@ + outcomes(self@, all.skip(i as int)),
            decreases frame.len() - i,
        {
            let ghost rest = all.skip(i as int);
            let how = self.apply(&frame[i]);
            proof {
                assert(rest[0] == frame[i as int]@);
                assert(rest.drop_first() =~= all.skip(i + 1));
                assert(out@.push(how) + outcomes(self@, all.skip(i + 1)) =~= out@ + (seq![how]
                    + outcomes(self@, all.skip(i + 1))));
            }
            out.push(how);
            i = i + 1;
        }
        proof {
            assert(out@ + Seq::<Applied>::empty() =~= out@);
        }
        out
    }

    /// Puts back a grid that was taken out to be written to.
    fn put_back(&mut self, i: usize, g: Grid, Ghost(before): Ghost<UiV>, Ghost(target): Ghost<UiV>)
        requires
            i < old(self).grids@.len(),
            g.wf(),
            target.wf(),
            0 <= i < before.grids.len(),
            target == before.with_grid(i as int, g@),
            old(self).highlights@ == before.highlights,
            old(self).cursor == before.cursor,
            old(self).mode_name@ == before.mode.name,
            old(self).mode_index == before.mode.index,
            old(self).styles@ == before.mode.styles,
            old(self).grids@.len() == before.grids.len(),
            forall|k: int|
                0 <= k < before.grids.len() ==> (#[trigger] old(self).grids@[k]).0
                    == before.grids[k].0,
            forall|k: int|
                0 <= k < before.grids.len() && k != i ==> (#[trigger] old(self).grids@[k]).1@
                    == before.grids[k].1 && old(self).grids@[k].1.wf(),
        ensures
            final(self).wf(),
            final(self)@ == before.with_grid(i as int, g@),
    {
        let id: u64 = self.grids[i].0;
        self.grids[i] = (id, g);
        proof {
            assert(self@.grids =~= before.with_grid(i as int, g@).grids);
            assert(self@.highlights == before.highlights);
            assert forall|k: int| 0 <= k < self.grids@.len() implies (#[trigger] self.grids@[k]).1.wf() by {
                if k != i {
                    assert(self.grids@[k] == old(self).grids@[k]);
                }
            }
        }
    }
}

} // verus!
