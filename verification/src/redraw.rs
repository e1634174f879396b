//! Reading redraw events out of protocol values.
//!
//! A redraw batch is a notification whose parameters are the events, one
//! array each: the name of the event and then its arguments. Arguments
//! beyond those that an event is known to have are ignored.

use vstd::prelude::*;
use crate::grid::{line_views, LineCell, LineCellV};
use crate::message::{as_id, id_of};
use crate::text::{is_named, named};
use crate::ui_model::{plain_style, CursorShape, CursorStyle, RedrawEvent, RedrawEventV, Style};
use crate::value::{copy_bytes, lemma_pair_views, lemma_views, pair_views, views, Val, Value};

verus! {

/// Whether a notification of this method carries a redraw batch.
pub fn is_redraw(method: &Vec<u8>) -> (r: bool)
    ensures
        r == named(method@, "redraw"),
{
    is_named(method, "redraw")
}

/// The unsigned integer at index `i`.
pub open spec fn uint_at(items: Seq<Val>, i: int) -> Option<u64> {
    if 0 <= i < items.len() {
        id_of(items[i])
    } else {
        None
    }
}

/// The signed integer at index `i`.
pub open spec fn int_at(items: Seq<Val>, i: int) -> Option<i64> {
    if 0 <= i < items.len() {
        match items[i] {
            Val::Int(n) => if i64::MIN <= n <= i64::MAX {
                Some(n as i64)
            } else {
                None
            },
            _ => None,
        }
    } else {
        None
    }
}

/// The string at index `i`.
pub open spec fn str_at(items: Seq<Val>, i: int) -> Option<Seq<u8>> {
    if 0 <= i < items.len() {
        match items[i] {
            Val::Str(b) => Some(b),
            _ => None,
        }
    } else {
        None
    }
}

/// The array at index `i`.
pub open spec fn array_at(items: Seq<Val>, i: int) -> Option<Seq<Val>> {
    if 0 <= i < items.len() {
        match items[i] {
            Val::Array(a) => Some(a),
            _ => None,
        }
    } else {
        None
    }
}

/// The mapping at index `i`.
pub open spec fn mapping_at(items: Seq<Val>, i: int) -> Option<Seq<(Val, Val)>> {
    if 0 <= i < items.len() {
        match items[i] {
            Val::Mapping(m) => Some(m),
            _ => None,
        }
    } else {
        None
    }
}

/// The truth value at index `i`.
pub open spec fn bool_at(items: Seq<Val>, i: int) -> Option<bool> {
    if 0 <= i < items.len() {
        match items[i] {
            Val::Bool(b) => Some(b),
            _ => None,
        }
    } else {
        None
    }
}

fn get_uint(items: &Vec<Value>, i: usize) -> (r: Option<u64>)
    ensures
        r == uint_at(views(items@), i as int),
{
    proof {
        lemma_views(items@);
    }
    if i < items.len() {
        as_id(&items[i])
    } else {
        None
    }
}

fn get_int(items: &Vec<Value>, i: usize) -> (r: Option<i64>)
    ensures
        r == int_at(views(items@), i as int),
{
    proof {
        lemma_views(items@);
    }
    if i < items.len() {
        match &items[i] {
            Value::Int(n) => Some(*n),
            Value::UInt(n) => if *n <= i64::MAX as u64 {
                Some(*n as i64)
            } else {
                None
            },
            _ => None,
        }
    } else {
        None
    }
}

fn get_str(items: &Vec<Value>, i: usize) -> (r: Option<&Vec<u8>>)
    ensures
        match r {
            Some(b) => str_at(views(items@), i as int) == Some(b@),
            None => str_at(views(items@), i as int) is None,
        },
{
    proof {
        lemma_views(items@);
    }
    if i < items.len() {
        match &items[i] {
            Value::Str(b) => Some(b),
            _ => None,
        }
    } else {
        None
    }
}

fn get_array(items: &Vec<Value>, i: usize) -> (r: Option<&Vec<Value>>)
    ensures
        match r {
            Some(a) => array_at(views(items@), i as int) == Some(views(a@)),
            None => array_at(views(items@), i as int) is None,
        },
{
    proof {
        lemma_views(items@);
    }
    if i < items.len() {
        match &items[i] {
            Value::Array(a) => Some(a),
            _ => None,
        }
    } else {
        None
    }
}

fn get_mapping(items: &Vec<Value>, i: usize) -> (r: Option<&Vec<(Value, Value)>>)
    ensures
        match r {
            Some(m) => mapping_at(views(items@), i as int) == Some(pair_views(m@)),
            None => mapping_at(views(items@), i as int) is None,
        },
{
    proof {
        lemma_views(items@);
    }
    if i < items.len() {
        match &items[i] {
            Value::Mapping(m) => Some(m),
            _ => None,
        }
    } else {
        None
    }
}

fn get_bool(items: &Vec<Value>, i: usize) -> (r: Option<bool>)
    ensures
        r == bool_at(views(items@), i as int),
{
    proof {
        lemma_views(items@);
    }
    if i < items.len() {
        match &items[i] {
            Value::Bool(b) => Some(*b),
            _ => None,
        }
    } else {
        None
    }
}

/// One entry of a line update: `[text]`, `[text, highlight]` or
/// `[text, highlight, repeat]`. An entry without a highlight has that of
/// the entry before it, `prev`; the first entry must state one. An entry
/// without a repeat count stands for its cell alone.
pub open spec fn line_cell_of(v: Val, prev: Option<u64>) -> Option<LineCellV> {
    match v {
        Val::Array(parts) => match str_at(parts, 0) {
            Some(text) => if parts.len() == 1 {
                match prev {
                    Some(hl) => Some(LineCellV { text, hl, repeat: 0 }),
                    None => None,
                }
            } else {
                match uint_at(parts, 1) {
                    Some(hl) => if parts.len() == 2 {
                        Some(LineCellV { text, hl, repeat: 0 })
                    } else {
                        match uint_at(parts, 2) {
                            Some(repeat) => Some(LineCellV { text, hl, repeat }),
                            None => None,
                        }
                    },
                    None => None,
                }
            },
            None => None,
        },
        _ => None,
    }
}

/// The entries of a line update from index `i` on, after `done`, where
/// the entry before them had the highlight `prev`.
pub open spec fn line_cells_from(
    items: Seq<Val>,
    i: int,
    prev: Option<u64>,
    done: Seq<LineCellV>,
) -> Option<Seq<LineCellV>>
    decreases items.len() - i,
{
    if i < 0 || i >= items.len() {
        Some(done)
    } else {
        match line_cell_of(items[i], prev) {
            Some(cell) => line_cells_from(items, i + 1, Some(cell.hl), done.push(cell)),
            None => None,
        }
    }
}

/// The entries of a line update.
pub open spec fn line_cells_of(items: Seq<Val>) -> Option<Seq<LineCellV>> {
    line_cells_from(items, 0, None, Seq::empty())
}

/// `style` with what one attribute says. The colours `foreground`,
/// `background` and `special` are integers, the marks `bold`, `italic`
/// and `underline` are truth values; attributes of other names are
/// passed over.
pub open spec fn with_attribute(style: Style, key: Val, value: Val) -> Option<Style> {
    match key {
        Val::Str(name) => if named(name, "foreground") {
            match id_of(value) {
                Some(c) => Some(Style { foreground: Some(c), ..style }),
                None => None,
            }
        } else if named(name, "background") {
            match id_of(value) {
                Some(c) => Some(Style { background: Some(c), ..style }),
                None => None,
            }
        } else if named(name, "special") {
            match id_of(value) {
                Some(c) => Some(Style { special: Some(c), ..style }),
                None => None,
            }
        } else if named(name, "bold") {
            match value {
                Val::Bool(b) => Some(Style { bold: b, ..style }),
                _ => None,
            }
        } else if named(name, "italic") {
            match value {
                Val::Bool(b) => Some(Style { italic: b, ..style }),
                _ => None,
            }
        } else if named(name, "underline") {
            match value {
                Val::Bool(b) => Some(Style { underline: b, ..style }),
                _ => None,
            }
        } else {
            Some(style)
        },
        _ => None,
    }
}

/// `style` with what the attributes from index `i` on say, in order.
pub open spec fn style_from(attrs: Seq<(Val, Val)>, i: int, style: Style) -> Option<Style>
    decreases attrs.len() - i,
{
    if i < 0 || i >= attrs.len() {
        Some(style)
    } else {
        match with_attribute(style, attrs[i].0, attrs[i].1) {
            Some(next) => style_from(attrs, i + 1, next),
            None => None,
        }
    }
}

/// The style that a mapping of attributes describes.
pub open spec fn style_of(attrs: Seq<(Val, Val)>) -> Option<Style> {
    style_from(attrs, 0, plain_style())
}

/// `look` with what one property of a mode says: `cursor_shape` is one of
/// `block`, `horizontal` and `vertical`; `blinkon` is an integer, and the
/// cursor blinks where it is not 0. Properties of other names are passed
/// over.
pub open spec fn with_property(look: CursorStyle, key: Val, value: Val) -> Option<CursorStyle> {
    match key {
        Val::Str(name) => if named(name, "cursor_shape") {
            match value {
                Val::Str(shape) => if named(shape, "block") {
                    Some(CursorStyle { shape: CursorShape::Block, ..look })
                } else if named(shape, "horizontal") {
                    Some(CursorStyle { shape: CursorShape::Horizontal, ..look })
                } else if named(shape, "vertical") {
                    Some(CursorStyle { shape: CursorShape::Vertical, ..look })
                } else {
                    None
                },
                _ => None,
            }
        } else if named(name, "blinkon") {
            match id_of(value) {
                Some(n) => Some(CursorStyle { blink: n != 0, ..look }),
                None => None,
            }
        } else {
            Some(look)
        },
        _ => None,
    }
}

/// `look` with what the properties from index `i` on say, in order.
pub open spec fn look_from(props: Seq<(Val, Val)>, i: int, look: CursorStyle) -> Option<
    CursorStyle,
>
    decreases props.len() - i,
{
    if i < 0 || i >= props.len() {
        Some(look)
    } else {
        match with_property(look, props[i].0, props[i].1) {
            Some(next) => look_from(props, i + 1, next),
            None => None,
        }
    }
}

/// The look of the cursor that one mode's properties describe.
pub open spec fn look_of(v: Val) -> Option<CursorStyle> {
    match v {
        Val::Mapping(props) => look_from(
            props,
            0,
            CursorStyle { shape: CursorShape::Block, blink: false },
        ),
        _ => None,
    }
}

/// The looks of the modes from index `i` on, after `done`.
pub open spec fn looks_from(modes: Seq<Val>, i: int, done: Seq<CursorStyle>) -> Option<
    Seq<CursorStyle>,
>
    decreases modes.len() - i,
{
    if i < 0 || i >= modes.len() {
        Some(done)
    } else {
        match look_of(modes[i]) {
            Some(look) => looks_from(modes, i + 1, done.push(look)),
            None => None,
        }
    }
}

/// What one item of a redraw batch is.
pub enum SubEventV {
    /// An event that is understood.
    Known(RedrawEventV),
    /// An event of a name that is not understood. It is passed over.
    Unknown(Seq<u8>),
    /// No event: no array that begins with a name, or a known event
    /// whose arguments are not of the shape that the event has.
    Malformed,
}

/// What one item of a redraw batch is.
#[derive(Debug, PartialEq, Eq)]
pub enum SubEvent {
    /// An event that is understood.
    Known(RedrawEvent),
    /// An event of a name that is not understood. It is passed over.
    Unknown(Vec<u8>),
    /// No event: no array that begins with a name, or a known event
    /// whose arguments are not of the shape that the event has.
    Malformed,
}

impl View for SubEvent {
    type V = SubEventV;

    open spec fn view(&self) -> SubEventV {
        match self {
            SubEvent::Known(ev) => SubEventV::Known(ev@),
            SubEvent::Unknown(name) => SubEventV::Unknown(name@),
            SubEvent::Malformed => SubEventV::Malformed,
        }
    }
}

/// `Known(ev)` where the arguments gave an event, `Malformed` where they
/// did not.
pub open spec fn known(ev: Option<RedrawEventV>) -> SubEventV {
    match ev {
        Some(ev) => SubEventV::Known(ev),
        None => SubEventV::Malformed,
    }
}

/// `grid_resize`: the grid, its columns and its rows.
pub open spec fn grid_resize_of(items: Seq<Val>) -> Option<RedrawEventV> {
    match (uint_at(items, 1), uint_at(items, 2), uint_at(items, 3)) {
        (Some(grid), Some(cols), Some(rows)) => Some(RedrawEventV::GridResize { grid, cols, rows }),
        _ => None,
    }
}

/// `grid_clear`: the grid.
pub open spec fn grid_clear_of(items: Seq<Val>) -> Option<RedrawEventV> {
    match uint_at(items, 1) {
        Some(grid) => Some(RedrawEventV::GridClear { grid }),
        None => None,
    }
}

/// `grid_line`: the grid, the row, the first column and the entries.
pub open spec fn grid_line_of(items: Seq<Val>) -> Option<RedrawEventV> {
    match (uint_at(items, 1), uint_at(items, 2), uint_at(items, 3), array_at(items, 4)) {
        (Some(grid), Some(row), Some(col_start), Some(cells)) => match line_cells_of(cells) {
            Some(cells) => Some(RedrawEventV::GridLine { grid, row, col_start, cells }),
            None => None,
        },
        _ => None,
    }
}

/// `grid_scroll`: the grid, the region as top, bottom, left and right,
/// and the number of lines to scroll by.
pub open spec fn grid_scroll_of(items: Seq<Val>) -> Option<RedrawEventV> {
    match (
        uint_at(items, 1),
        uint_at(items, 2),
        uint_at(items, 3),
        uint_at(items, 4),
        uint_at(items, 5),
        int_at(items, 6),
    ) {
        (Some(grid), Some(top), Some(bot), Some(left), Some(right), Some(rows)) => Some(
            RedrawEventV::GridScroll { grid, top, bot, left, right, rows },
        ),
        _ => None,
    }
}

/// `grid_cursor_goto`: the grid, the row and the column.
pub open spec fn grid_cursor_goto_of(items: Seq<Val>) -> Option<RedrawEventV> {
    match (uint_at(items, 1), uint_at(items, 2), uint_at(items, 3)) {
        (Some(grid), Some(row), Some(col)) => Some(RedrawEventV::GridCursorGoto { grid, row, col }),
        _ => None,
    }
}

/// `hl_attr_define`: the id of the highlight and its attributes.
pub open spec fn hl_attr_define_of(items: Seq<Val>) -> Option<RedrawEventV> {
    match (uint_at(items, 1), mapping_at(items, 2)) {
        (Some(id), Some(attrs)) => match style_of(attrs) {
            Some(style) => Some(RedrawEventV::HlAttrDefine { id, style }),
            None => None,
        },
        _ => None,
    }
}

/// The first argument says whether the looks are meant to be used; where
/// it says no, none is given.
pub open spec fn mode_info_set_of(items: Seq<Val>) -> Option<RedrawEventV> {
    match (bool_at(items, 1), array_at(items, 2)) {
        (Some(enabled), Some(modes)) => match looks_from(modes, 0, Seq::empty()) {
            Some(styles) => Some(
                RedrawEventV::ModeInfoSet {
                    styles: if enabled {
                        styles
                    } else {
                        Seq::empty()
                    },
                },
            ),
            None => None,
        },
        _ => None,
    }
}

/// `mode_change`: the name of the mode and its index.
pub open spec fn mode_change_of(items: Seq<Val>) -> Option<RedrawEventV> {
    match (str_at(items, 1), uint_at(items, 2)) {
        (Some(name), Some(index)) => Some(RedrawEventV::ModeChange { name, index }),
        _ => None,
    }
}

/// What an item of a redraw batch is.
pub open spec fn sub_event_of(v: Val) -> SubEventV {
    match v {
        Val::Array(items) => match str_at(items, 0) {
            Some(name) => if named(name, "grid_resize") {
                known(grid_resize_of(items))
            } else if named(name, "grid_clear") {
                known(grid_clear_of(items))
            } else if named(name, "grid_line") {
                known(grid_line_of(items))
            } else if named(name, "grid_scroll") {
                known(grid_scroll_of(items))
            } else if named(name, "grid_cursor_goto") {
                known(grid_cursor_goto_of(items))
            } else if named(name, "hl_attr_define") {
                known(hl_attr_define_of(items))
            } else if named(name, "mode_info_set") {
                known(mode_info_set_of(items))
            } else if named(name, "mode_change") {
                known(mode_change_of(items))
            } else if named(name, "flush") {
                SubEventV::Known(RedrawEventV::Flush)
            } else {
                SubEventV::Unknown(name)
            },
            None => SubEventV::Malformed,
        },
        _ => SubEventV::Malformed,
    }
}

/// `r` is the event that `ev` describes, or no event where `ev` is none.
pub open spec fn is_event(r: Option<RedrawEvent>, ev: Option<RedrawEventV>) -> bool {
    match ev {
        Some(ev) => r matches Some(x) && x@ == ev,
        None => r is None,
    }
}

fn read_line_cell(v: &Value, prev: Option<u64>) -> (r: Option<LineCell>)
    ensures
        match line_cell_of(v@, prev) {
            Some(cell) => r matches Some(x) && x@ == cell,
            None => r is None,
        },
{
    match v {
        Value::Array(parts) => {
            proof {
                lemma_views(parts@);
            }
            match get_str(parts, 0) {
                Some(text) => {
                    if parts.len() == 1 {
                        match prev {
                            Some(hl) => Some(LineCell { text: copy_bytes(text), hl, repeat: 0 }),
                            None => None,
                        }
                    } else {
                        match get_uint(parts, 1) {
                            Some(hl) => {
                                if parts.len() == 2 {
                                    Some(LineCell { text: copy_bytes(text), hl, repeat: 0 })
                                } else {
                                    match get_uint(parts, 2) {
                                        Some(repeat) => Some(
                                            LineCell { text: copy_bytes(text), hl, repeat },
                                        ),
                                        None => None,
                                    }
                                }
                            },
                            None => None,
                        }
                    }
                },
                None => None,
            }
        },
        _ => None,
    }
}

fn read_line_cells(items: &Vec<Value>) -> (r: Option<Vec<LineCell>>)
    ensures
        match line_cells_of(views(items@)) {
            Some(cells) => r matches Some(x) && line_views(x@) == cells,
            None => r is None,
        },
{
    let ghost all = views(items@);
    proof {
        lemma_views(items@);
    }
    let mut out: Vec<LineCell> = Vec::new();
    let mut prev: Option<u64> = None;
    let mut i: usize = 0;
    proof {
        assert(line_views(out@) =~= Seq::<LineCellV>::empty());
    }
    while i < items.len()
        invariant
            i <= items.len(),
            all == views(items@),
            all.len() == items.len(),
            forall|k: int| 0 <= k < items.len() ==> (#[trigger] all[k]) == items[k]@,
            line_cells_of(all) == line_cells_from(all, i as int, prev, line_views(out@)),
        decreases items.len() - i,
    {
        match read_line_cell(&items[i], prev) {
            Some(cell) => {
                prev = Some(cell.hl);
                proof {
                    assert(line_views(out@.push(cell)) =~= line_views(out@).push(cell@));
                }
                out.push(cell);
            },
            None => {
                return None;
            },
        }
        i = i + 1;
    }
    Some(out)
}

fn read_attribute(style: Style, key: &Value, value: &Value) -> (r: Option<Style>)
    ensures
        r == with_attribute(style, key@, value@),
{
    match key {
        Value::Str(name) => {
            if is_named(name, "foreground") {
                match as_id(value) {
                    Some(c) => Some(Style { foreground: Some(c), ..style }),
                    None => None,
                }
            } else if is_named(name, "background") {
                match as_id(value) {
                    Some(c) => Some(Style { background: Some(c), ..style }),
                    None => None,
                }
            } else if is_named(name, "special") {
                match as_id(value) {
                    Some(c) => Some(Style { special: Some(c), ..style }),
                    None => None,
                }
            } else if is_named(name, "bold") {
                match value {
                    Value::Bool(b) => Some(Style { bold: *b, ..style }),
                    _ => None,
                }
            } else if is_named(name, "italic") {
                match value {
                    Value::Bool(b) => Some(Style { italic: *b, ..style }),
                    _ => None,
                }
            } else if is_named(name, "underline") {
                match value {
                    Value::Bool(b) => Some(Style { underline: *b, ..style }),
                    _ => None,
                }
            } else {
                Some(style)
            }
        },
        _ => None,
    }
}

fn read_style(attrs: &Vec<(Value, Value)>) -> (r: Option<Style>)
    ensures
        r == style_of(pair_views(attrs@)),
{
    let ghost all = pair_views(attrs@);
    proof {
        lemma_pair_views(attrs@);
    }
    let mut style = Style {
        foreground: None,
        background: None,
        special: None,
        bold: false,
        italic: false,
        underline: false,
    };
    let mut i: usize = 0;
    while i < attrs.len()
        invariant
            i <= attrs.len(),
            all == pair_views(attrs@),
            all.len() == attrs.len(),
            forall|k: int|
                0 <= k < attrs.len() ==> (#[trigger] all[k]) == (attrs[k].0@, attrs[k].1@),
            style_of(all) == style_from(all, i as int, style),
        decreases attrs.len() - i,
    {
        match read_attribute(style, &attrs[i].0, &attrs[i].1) {
            Some(next) => {
                style = next;
            },
            None => {
                return None;
            },
        }
        i = i + 1;
    }
    Some(style)
}

fn read_property(look: CursorStyle, key: &Value, value: &Value) -> (r: Option<CursorStyle>)
    ensures
        r == with_property(look, key@, value@),
{
    match key {
        Value::Str(name) => {
            if is_named(name, "cursor_shape") {
                match value {
                    Value::Str(shape) => {
                        if is_named(shape, "block") {
                            Some(CursorStyle { shape: CursorShape::Block, ..look })
                        } else if is_named(shape, "horizontal") {
                            Some(CursorStyle { shape: CursorShape::Horizontal, ..look })
                        } else if is_named(shape, "vertical") {
                            Some(CursorStyle { shape: CursorShape::Vertical, ..look })
                        } else {
                            None
                        }
                    },
                    _ => None,
                }
            } else if is_named(name, "blinkon") {
                match as_id(value) {
                    Some(n) => Some(CursorStyle { blink: n != 0, ..look }),
                    None => None,
                }
            } else {
                Some(look)
            }
        },
        _ => None,
    }
}

fn read_look(v: &Value) -> (r: Option<CursorStyle>)
    ensures
        r == look_of(v@),
{
    match v {
        Value::Mapping(props) => {
            let ghost all = pair_views(props@);
            proof {
                lemma_pair_views(props@);
            }
            let mut look = CursorStyle { shape: CursorShape::Block, blink: false };
            let mut i: usize = 0;
            while i < props.len()
                invariant
                    i <= props.len(),
                    all == pair_views(props@),
                    all.len() == props.len(),
                    forall|k: int|
                        0 <= k < props.len() ==> (#[trigger] all[k]) == (props[k].0@, props[k].1@),
                    v@ == Val::Mapping(all),
                    look_of(Val::Mapping(all)) == look_from(all, i as int, look),
                decreases props.len() - i,
            {
                match read_property(look, &props[i].0, &props[i].1) {
                    Some(next) => {
                        look = next;
                    },
                    None => {
                        return None;
                    },
                }
                i = i + 1;
            }
            Some(look)
        },
        _ => None,
    }
}

fn read_looks(modes: &Vec<Value>) -> (r: Option<Vec<CursorStyle>>)
    ensures
        match looks_from(views(modes@), 0, Seq::empty()) {
            Some(styles) => r matches Some(x) && x@ == styles,
            None => r is None,
        },
{
    let ghost all = views(modes@);
    proof {
        lemma_views(modes@);
    }
    let mut out: Vec<CursorStyle> = Vec::new();
    let mut i: usize = 0;
    while i < modes.len()
        invariant
            i <= modes.len(),
            all == views(modes@),
            all.len() == modes.len(),
            forall|k: int| 0 <= k < modes.len() ==> (#[trigger] all[k]) == modes[k]@,
            looks_from(all, 0, Seq::empty()) == looks_from(all, i as int, out@),
        decreases modes.len() - i,
    {
        match read_look(&modes[i]) {
            Some(look) => {
                out.push(look);
            },
            None => {
                return None;
            },
        }
        i = i + 1;
    }
    Some(out)
}

fn read_grid_resize(items: &Vec<Value>) -> (r: Option<RedrawEvent>)
    ensures
        is_event(r, grid_resize_of(views(items@))),
{
    match (get_uint(items, 1), get_uint(items, 2), get_uint(items, 3)) {
        (Some(grid), Some(cols), Some(rows)) => Some(RedrawEvent::GridResize { grid, cols, rows }),
        _ => None,
    }
}

fn read_grid_clear(items: &Vec<Value>) -> (r: Option<RedrawEvent>)
    ensures
        is_event(r, grid_clear_of(views(items@))),
{
    match get_uint(items, 1) {
        Some(grid) => Some(RedrawEvent::GridClear { grid }),
        None => None,
    }
}

fn read_grid_line(items: &Vec<Value>) -> (r: Option<RedrawEvent>)
    ensures
        is_event(r, grid_line_of(views(items@))),
{
    match (get_uint(items, 1), get_uint(items, 2), get_uint(items, 3), get_array(items, 4)) {
        (Some(grid), Some(row), Some(col_start), Some(cells)) => match read_line_cells(cells) {
            Some(cells) => Some(RedrawEvent::GridLine { grid, row, col_start, cells }),
            None => None,
        },
        _ => None,
    }
}

fn read_grid_scroll(items: &Vec<Value>) -> (r: Option<RedrawEvent>)
    ensures
        is_event(r, grid_scroll_of(views(items@))),
{
    match (
        get_uint(items, 1),
        get_uint(items, 2),
        get_uint(items, 3),
        get_uint(items, 4),
        get_uint(items, 5),
        get_int(items, 6),
    ) {
        (Some(grid), Some(top), Some(bot), Some(left), Some(right), Some(rows)) => Some(
            RedrawEvent::GridScroll { grid, top, bot, left, right, rows },
        ),
        _ => None,
    }
}

fn read_grid_cursor_goto(items: &Vec<Value>) -> (r: Option<RedrawEvent>)
    ensures
        is_event(r, grid_cursor_goto_of(views(items@))),
{
    match (get_uint(items, 1), get_uint(items, 2), get_uint(items, 3)) {
        (Some(grid), Some(row), Some(col)) => Some(RedrawEvent::GridCursorGoto { grid, row, col }),
        _ => None,
    }
}

fn read_hl_attr_define(items: &Vec<Value>) -> (r: Option<RedrawEvent>)
    ensures
        is_event(r, hl_attr_define_of(views(items@))),
{
    match (get_uint(items, 1), get_mapping(items, 2)) {
        (Some(id), Some(attrs)) => match read_style(attrs) {
            Some(style) => Some(RedrawEvent::HlAttrDefine { id, style }),
            None => None,
        },
        _ => None,
    }
}

fn read_mode_info_set(items: &Vec<Value>) -> (r: Option<RedrawEvent>)
    ensures
        is_event(r, mode_info_set_of(views(items@))),
{
    match (get_bool(items, 1), get_array(items, 2)) {
        (Some(enabled), Some(modes)) => match read_looks(modes) {
            Some(styles) => Some(
                RedrawEvent::ModeInfoSet {
                    styles: if enabled {
                        styles
                    } else {
                        Vec::new()
                    },
                },
            ),
            None => None,
        },
        _ => None,
    }
}

fn read_mode_change(items: &Vec<Value>) -> (r: Option<RedrawEvent>)
    ensures
        is_event(r, mode_change_of(views(items@))),
{
    match (get_str(items, 1), get_uint(items, 2)) {
        (Some(name), Some(index)) => Some(
            RedrawEvent::ModeChange { name: copy_bytes(name), index },
        ),
        _ => None,
    }
}

fn as_known(ev: Option<RedrawEvent>, Ghost(spec_ev): Ghost<Option<RedrawEventV>>) -> (r: SubEvent)
    requires
        is_event(ev, spec_ev),
    ensures
        r@ == known(spec_ev),
{
    match ev {
        Some(ev) => SubEvent::Known(ev),
        None => SubEvent::Malformed,
    }
}

/// Reads one item of a redraw batch.
pub fn read_sub_event(v: &Value) -> (r: SubEvent)
    ensures
        r@ == sub_event_of(v@),
{
    match v {
        Value::Array(items) => {
            let ghost all = views(items@);
            match get_str(items, 0) {
                Some(name) => {
                    if is_named(name, "grid_resize") {
                        as_known(read_grid_resize(items), Ghost(grid_resize_of(all)))
                    } else if is_named(name, "grid_clear") {
                        as_known(read_grid_clear(items), Ghost(grid_clear_of(all)))
                    } else if is_named(name, "grid_line") {
                        as_known(read_grid_line(items), Ghost(grid_line_of(all)))
                    } else if is_named(name, "grid_scroll") {
                        as_known(read_grid_scroll(items), Ghost(grid_scroll_of(all)))
                    } else if is_named(name, "grid_cursor_goto") {
                        as_known(read_grid_cursor_goto(items), Ghost(grid_cursor_goto_of(all)))
                    } else if is_named(name, "hl_attr_define") {
                        as_known(read_hl_attr_define(items), Ghost(hl_attr_define_of(all)))
                    } else if is_named(name, "mode_info_set") {
                        as_known(read_mode_info_set(items), Ghost(mode_info_set_of(all)))
                    } else if is_named(name, "mode_change") {
                        as_known(read_mode_change(items), Ghost(mode_change_of(all)))
                    } else if is_named(name, "flush") {
                        SubEvent::Known(RedrawEvent::Flush)
                    } else {
                        SubEvent::Unknown(copy_bytes(name))
                    }
                },
                None => SubEvent::Malformed,
            }
        },
        _ => SubEvent::Malformed,
    }
}

} // verus!
