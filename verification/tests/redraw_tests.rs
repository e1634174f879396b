use nvim_bridge::grid::LineCell;
use nvim_bridge::reconciler::{ungroup, Absorbed, Note, Reconciler};
use nvim_bridge::redraw::{is_redraw, read_sub_event, SubEvent};
use nvim_bridge::text::is_named;
use nvim_bridge::ui_model::{CursorShape, CursorStyle, RedrawEvent, Style};
use nvim_bridge::value::Value;

fn rd_text(s: &str) -> Value {
    Value::Str(s.as_bytes().to_vec())
}

fn rd_event(name: &str, args: Vec<Value>) -> Value {
    let mut items = vec![rd_text(name)];
    items.extend(args);
    Value::Array(items)
}

fn rd_uints(items: &[u64]) -> Vec<Value> {
    items.iter().map(|n| Value::UInt(*n)).collect()
}

fn rd_item(text: &str, hl: u64, repeat: u64) -> LineCell {
    LineCell { text: text.as_bytes().to_vec(), hl, repeat }
}

fn rd_plain() -> Style {
    Style {
        foreground: None,
        background: None,
        special: None,
        bold: false,
        italic: false,
        underline: false,
    }
}

#[test]
fn names_are_compared_byte_by_byte() {
    assert!(is_named(&b"flush".to_vec(), "flush"));
    assert!(!is_named(&b"flus".to_vec(), "flush"));
    assert!(!is_named(&b"flusH".to_vec(), "flush"));
    assert!(!is_named(&b"flush ".to_vec(), "flush"));
    assert!(is_named(&vec![], ""));
    assert!(is_redraw(&b"redraw".to_vec()));
    assert!(!is_redraw(&b"Redraw".to_vec()));
}

#[test]
fn the_grid_events_are_read() {
    assert_eq!(
        read_sub_event(&rd_event("grid_resize", rd_uints(&[1, 10, 5]))),
        SubEvent::Known(RedrawEvent::GridResize { grid: 1, cols: 10, rows: 5 })
    );
    assert_eq!(
        read_sub_event(&rd_event("grid_clear", rd_uints(&[2]))),
        SubEvent::Known(RedrawEvent::GridClear { grid: 2 })
    );
    assert_eq!(
        read_sub_event(&rd_event("grid_cursor_goto", rd_uints(&[1, 3, 4]))),
        SubEvent::Known(RedrawEvent::GridCursorGoto { grid: 1, row: 3, col: 4 })
    );
    let mut scroll = rd_uints(&[1, 0, 5, 0, 10]);
    scroll.push(Value::Int(-2));
    assert_eq!(
        read_sub_event(&rd_event("grid_scroll", scroll)),
        SubEvent::Known(RedrawEvent::GridScroll {
            grid: 1,
            top: 0,
            bot: 5,
            left: 0,
            right: 10,
            rows: -2
        })
    );
    assert_eq!(read_sub_event(&rd_event("flush", vec![])), SubEvent::Known(RedrawEvent::Flush));
}

#[test]
fn a_line_is_read_with_its_run_lengths() {
    let cells = Value::Array(vec![
        Value::Array(vec![rd_text("H"), Value::UInt(1)]),
        Value::Array(vec![rd_text("i")]),
        Value::Array(vec![rd_text(" "), Value::UInt(0), Value::UInt(7)]),
        Value::Array(vec![rd_text("!")]),
    ]);
    let mut args = rd_uints(&[1, 2, 3]);
    args.push(cells);
    assert_eq!(
        read_sub_event(&rd_event("grid_line", args)),
        SubEvent::Known(RedrawEvent::GridLine {
            grid: 1,
            row: 2,
            col_start: 3,
            cells: vec![
                rd_item("H", 1, 0),
                rd_item("i", 1, 0),
                rd_item(" ", 0, 7),
                rd_item("!", 0, 0)
            ],
        })
    );
}

#[test]
fn a_line_whose_first_cell_states_no_highlight_is_malformed() {
    let mut args = rd_uints(&[1, 0, 0]);
    args.push(Value::Array(vec![Value::Array(vec![rd_text("H")])]));
    assert_eq!(read_sub_event(&rd_event("grid_line", args)), SubEvent::Malformed);
}

#[test]
fn a_line_with_a_cell_of_another_shape_is_malformed() {
    let bad_cells = vec![
        Value::Array(vec![]),
        Value::Array(vec![Value::UInt(1), Value::UInt(1)]),
        Value::Array(vec![rd_text("a"), rd_text("1")]),
        Value::Array(vec![rd_text("a"), Value::UInt(1), Value::Int(-1)]),
        Value::Array(vec![rd_text("a"), Value::Int(-1)]),
        rd_text("a"),
    ];
    for bad in bad_cells {
        let mut args = rd_uints(&[1, 0, 0]);
        args.push(Value::Array(vec![Value::Array(vec![rd_text("ok"), Value::UInt(1)]), bad]));
        assert_eq!(read_sub_event(&rd_event("grid_line", args)), SubEvent::Malformed);
    }
    let mut args = rd_uints(&[1, 0, 0]);
    args.push(Value::Array(vec![]));
    assert_eq!(
        read_sub_event(&rd_event("grid_line", args)),
        SubEvent::Known(RedrawEvent::GridLine { grid: 1, row: 0, col_start: 0, cells: vec![] })
    );
}

#[test]
fn arguments_beyond_the_known_ones_are_ignored() {
    assert_eq!(
        read_sub_event(&rd_event("grid_resize", rd_uints(&[1, 10, 5, 77]))),
        SubEvent::Known(RedrawEvent::GridResize { grid: 1, cols: 10, rows: 5 })
    );
    let mut scroll = rd_uints(&[1, 0, 5, 0, 10, 2, 0]);
    scroll.push(Value::Nil);
    assert_eq!(
        read_sub_event(&rd_event("grid_scroll", scroll)),
        SubEvent::Known(RedrawEvent::GridScroll { grid: 1, top: 0, bot: 5, left: 0, right: 10, rows: 2 })
    );
    assert_eq!(
        read_sub_event(&rd_event("flush", vec![Value::Nil])),
        SubEvent::Known(RedrawEvent::Flush)
    );
}

#[test]
fn an_event_with_arguments_of_another_shape_is_malformed() {
    assert_eq!(read_sub_event(&rd_event("grid_resize", rd_uints(&[1, 10]))), SubEvent::Malformed);
    assert_eq!(read_sub_event(&rd_event("grid_clear", vec![])), SubEvent::Malformed);
    assert_eq!(read_sub_event(&rd_event("grid_clear", vec![Value::Int(-1)])), SubEvent::Malformed);
    assert_eq!(read_sub_event(&rd_event("grid_clear", vec![rd_text("1")])), SubEvent::Malformed);
    assert_eq!(
        read_sub_event(&rd_event("grid_cursor_goto", vec![Value::UInt(1), Value::F64(0), Value::UInt(1)])),
        SubEvent::Malformed
    );
    assert_eq!(read_sub_event(&rd_event("grid_scroll", rd_uints(&[1, 0, 5, 0, 10]))), SubEvent::Malformed);
    let mut scroll = rd_uints(&[1, 0, 5, 0, 10]);
    scroll.push(Value::UInt(u64::MAX));
    assert_eq!(read_sub_event(&rd_event("grid_scroll", scroll)), SubEvent::Malformed);
    assert_eq!(read_sub_event(&rd_event("grid_line", rd_uints(&[1, 0, 0, 0]))), SubEvent::Malformed);
    assert_eq!(read_sub_event(&rd_event("mode_change", rd_uints(&[1, 1]))), SubEvent::Malformed);
    assert_eq!(read_sub_event(&rd_event("hl_attr_define", rd_uints(&[1]))), SubEvent::Malformed);
}

#[test]
fn what_is_no_array_that_begins_with_a_name_is_malformed() {
    assert_eq!(read_sub_event(&Value::Nil), SubEvent::Malformed);
    assert_eq!(read_sub_event(&rd_text("flush")), SubEvent::Malformed);
    assert_eq!(read_sub_event(&Value::Array(vec![])), SubEvent::Malformed);
    assert_eq!(read_sub_event(&Value::Array(vec![Value::UInt(1)])), SubEvent::Malformed);
    assert_eq!(
        read_sub_event(&Value::Array(vec![Value::Bin(b"flush".to_vec())])),
        SubEvent::Malformed
    );
}

#[test]
fn an_event_of_an_unknown_name_is_passed_over() {
    assert_eq!(
        read_sub_event(&rd_event("win_viewport", rd_uints(&[1, 2, 3]))),
        SubEvent::Unknown(b"win_viewport".to_vec())
    );
    assert_eq!(read_sub_event(&rd_event("", vec![])), SubEvent::Unknown(vec![]));
    assert_eq!(read_sub_event(&rd_event("Flush", vec![])), SubEvent::Unknown(b"Flush".to_vec()));
}

#[test]
fn a_highlight_is_read_from_its_attributes() {
    let attrs = Value::Mapping(vec![
        (rd_text("foreground"), Value::UInt(0xff0000)),
        (rd_text("background"), Value::UInt(0x00ff00)),
        (rd_text("special"), Value::UInt(0x0000ff)),
        (rd_text("bold"), Value::Bool(true)),
        (rd_text("italic"), Value::Bool(true)),
        (rd_text("underline"), Value::Bool(true)),
        (rd_text("blend"), Value::UInt(20)),
    ]);
    assert_eq!(
        read_sub_event(&rd_event("hl_attr_define", vec![Value::UInt(5), attrs, Value::Mapping(vec![]), Value::Array(vec![])])),
        SubEvent::Known(RedrawEvent::HlAttrDefine {
            id: 5,
            style: Style {
                foreground: Some(0xff0000),
                background: Some(0x00ff00),
                special: Some(0x0000ff),
                bold: true,
                italic: true,
                underline: true,
            },
        })
    );
    assert_eq!(
        read_sub_event(&rd_event("hl_attr_define", vec![Value::UInt(6), Value::Mapping(vec![])])),
        SubEvent::Known(RedrawEvent::HlAttrDefine { id: 6, style: rd_plain() })
    );
}

#[test]
fn a_later_attribute_of_the_same_name_decides() {
    let attrs = Value::Mapping(vec![
        (rd_text("bold"), Value::Bool(true)),
        (rd_text("foreground"), Value::UInt(1)),
        (rd_text("bold"), Value::Bool(false)),
        (rd_text("foreground"), Value::UInt(2)),
    ]);
    assert_eq!(
        read_sub_event(&rd_event("hl_attr_define", vec![Value::UInt(5), attrs])),
        SubEvent::Known(RedrawEvent::HlAttrDefine {
            id: 5,
            style: Style { foreground: Some(2), ..rd_plain() },
        })
    );
}

#[test]
fn an_attribute_of_another_type_is_malformed() {
    let bad = vec![
        (rd_text("bold"), Value::UInt(1)),
        (rd_text("foreground"), Value::Bool(true)),
        (rd_text("background"), Value::Int(-1)),
        (rd_text("special"), rd_text("red")),
        (rd_text("italic"), Value::Nil),
        (rd_text("underline"), rd_text("yes")),
        (Value::UInt(1), Value::UInt(1)),
    ];
    for pair in bad {
        let attrs = Value::Mapping(vec![(rd_text("bold"), Value::Bool(true)), pair]);
        assert_eq!(
            read_sub_event(&rd_event("hl_attr_define", vec![Value::UInt(5), attrs])),
            SubEvent::Malformed
        );
    }
}

#[test]
fn the_mode_events_are_read() {
    assert_eq!(
        read_sub_event(&rd_event("mode_change", vec![rd_text("insert"), Value::UInt(1)])),
        SubEvent::Known(RedrawEvent::ModeChange { name: b"insert".to_vec(), index: 1 })
    );
    let modes = Value::Array(vec![
        Value::Mapping(vec![
            (rd_text("name"), rd_text("normal")),
            (rd_text("cursor_shape"), rd_text("block")),
            (rd_text("blinkon"), Value::UInt(0)),
        ]),
        Value::Mapping(vec![
            (rd_text("cursor_shape"), rd_text("vertical")),
            (rd_text("blinkon"), Value::UInt(500)),
        ]),
        Value::Mapping(vec![(rd_text("cursor_shape"), rd_text("horizontal"))]),
        Value::Mapping(vec![]),
    ]);
    let expected = vec![
        CursorStyle { shape: CursorShape::Block, blink: false },
        CursorStyle { shape: CursorShape::Vertical, blink: true },
        CursorStyle { shape: CursorShape::Horizontal, blink: false },
        CursorStyle { shape: CursorShape::Block, blink: false },
    ];
    assert_eq!(
        read_sub_event(&rd_event("mode_info_set", vec![Value::Bool(true), modes.clone()])),
        SubEvent::Known(RedrawEvent::ModeInfoSet { styles: expected })
    );
    assert_eq!(
        read_sub_event(&rd_event("mode_info_set", vec![Value::Bool(false), modes])),
        SubEvent::Known(RedrawEvent::ModeInfoSet { styles: vec![] })
    );
    let odd = Value::Array(vec![Value::Mapping(vec![(rd_text("cursor_shape"), rd_text("round"))])]);
    assert_eq!(
        read_sub_event(&rd_event("mode_info_set", vec![Value::Bool(true), odd])),
        SubEvent::Malformed
    );
}

#[test]
fn nothing_is_handed_out_before_the_flush() {
    let mut r = Reconciler::new();
    assert_eq!(r.accept(RedrawEvent::GridClear { grid: 1 }), None);
    assert_eq!(r.accept(RedrawEvent::GridResize { grid: 1, cols: 2, rows: 2 }), None);
    assert_eq!(r.waiting(), 2);
    assert_eq!(
        r.accept(RedrawEvent::Flush),
        Some(vec![
            RedrawEvent::GridClear { grid: 1 },
            RedrawEvent::GridResize { grid: 1, cols: 2, rows: 2 }
        ])
    );
    assert_eq!(r.waiting(), 0);
    assert_eq!(r.accept(RedrawEvent::Flush), Some(vec![]));
}

#[test]
fn a_batch_without_a_flush_gives_no_frame() {
    let mut r = Reconciler::new();
    let batch = vec![
        rd_event("grid_resize", rd_uints(&[1, 4, 4])),
        rd_event("grid_clear", rd_uints(&[1])),
    ];
    assert_eq!(r.absorb(&batch), Absorbed { frames: vec![], notes: vec![] });
    assert_eq!(r.waiting(), 2);
    let next = vec![rd_event("grid_cursor_goto", rd_uints(&[1, 0, 0])), rd_event("flush", vec![])];
    assert_eq!(
        r.absorb(&next),
        Absorbed {
            frames: vec![vec![
                RedrawEvent::GridResize { grid: 1, cols: 4, rows: 4 },
                RedrawEvent::GridClear { grid: 1 },
                RedrawEvent::GridCursorGoto { grid: 1, row: 0, col: 0 },
            ]],
            notes: vec![],
        }
    );
    assert_eq!(r.waiting(), 0);
}

#[test]
fn a_batch_gives_one_frame_for_each_flush() {
    let mut r = Reconciler::new();
    let batch = vec![
        rd_event("grid_clear", rd_uints(&[1])),
        rd_event("flush", vec![]),
        rd_event("flush", vec![]),
        rd_event("popupmenu_hide", vec![]),
        rd_event("grid_clear", rd_uints(&[2])),
        Value::UInt(5),
        rd_event("grid_clear", vec![]),
        rd_event("flush", vec![]),
        rd_event("grid_clear", rd_uints(&[3])),
    ];
    assert_eq!(
        r.absorb(&batch),
        Absorbed {
            frames: vec![
                vec![RedrawEvent::GridClear { grid: 1 }],
                vec![],
                vec![RedrawEvent::GridClear { grid: 2 }],
            ],
            notes: vec![
                Note::UnknownEvent(b"popupmenu_hide".to_vec()),
                Note::MalformedEvent,
                Note::MalformedEvent,
            ],
        }
    );
    assert_eq!(r.waiting(), 1);
    assert_eq!(r.discard(), 1);
    assert_eq!(r.waiting(), 0);
}

#[test]
fn grouped_events_get_an_array_each() {
    let grouped = vec![
        Value::Array(vec![
            rd_text("grid_resize"),
            Value::Array(rd_uints(&[1, 10, 5])),
            Value::Array(rd_uints(&[2, 3, 4])),
        ]),
        Value::Array(vec![rd_text("flush"), Value::Array(vec![])]),
        rd_event("grid_clear", rd_uints(&[1])),
        rd_event("flush", vec![]),
        Value::UInt(7),
        Value::Array(vec![Value::UInt(1), Value::Array(vec![])]),
        Value::Array(vec![rd_text("x"), Value::Array(vec![]), Value::UInt(1)]),
    ];
    assert_eq!(
        ungroup(&grouped),
        vec![
            rd_event("grid_resize", rd_uints(&[1, 10, 5])),
            rd_event("grid_resize", rd_uints(&[2, 3, 4])),
            rd_event("flush", vec![]),
            rd_event("grid_clear", rd_uints(&[1])),
            rd_event("flush", vec![]),
            Value::UInt(7),
            Value::Array(vec![Value::UInt(1), Value::Array(vec![])]),
            Value::Array(vec![rd_text("x"), Value::Array(vec![]), Value::UInt(1)]),
        ]
    );
    assert_eq!(ungroup(&vec![]), vec![]);
}
