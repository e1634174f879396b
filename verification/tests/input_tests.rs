use nvim_bridge::input::{
    notation, notation_of_char, special_key, translate, ButtonAction, InputEvent,
    KeyPress, Modifiers, MouseButton, MouseInput, MouseKind, Outgoing, WheelDirection,
};
use nvim_bridge::text::text_of;
use nvim_bridge::value::Value;

const NONE: Modifiers = Modifiers { shift: false, ctrl: false, alt: false };
const SHIFT: Modifiers = Modifiers { shift: true, ctrl: false, alt: false };
const CTRL: Modifiers = Modifiers { shift: false, ctrl: true, alt: false };
const ALT: Modifiers = Modifiers { shift: false, ctrl: false, alt: true };
const ALL: Modifiers = Modifiers { shift: true, ctrl: true, alt: true };

fn in_text(s: &str) -> Value {
    Value::Str(s.as_bytes().to_vec())
}

fn in_press(name: &str, unicode: Option<char>, mods: Modifiers) -> KeyPress {
    KeyPress { name: name.as_bytes().to_vec(), unicode, mods }
}

fn in_keys(name: &str, unicode: Option<char>, mods: Modifiers) -> Option<String> {
    notation(&in_press(name, unicode, mods)).map(|b| String::from_utf8(b).unwrap())
}

fn in_char(c: char, mods: Modifiers) -> String {
    String::from_utf8(notation_of_char(c, mods)).unwrap()
}

#[test]
fn a_plain_character_is_its_own_notation() {
    assert_eq!(in_char('a', NONE), "a");
    assert_eq!(in_char('Z', NONE), "Z");
    assert_eq!(in_char('5', NONE), "5");
    assert_eq!(in_char(' ', NONE), " ");
    assert_eq!(in_char('>', NONE), ">");
}

#[test]
fn a_character_is_written_as_utf8() {
    assert_eq!(in_char('é', NONE), "é");
    assert_eq!(in_char('ж', NONE), "ж");
    assert_eq!(in_char('字', NONE), "字");
    assert_eq!(in_char('😀', NONE), "😀");
    assert_eq!(in_char('\u{7f}', NONE), "\u{7f}");
    assert_eq!(in_char('\u{80}', NONE), "\u{80}");
    assert_eq!(in_char('\u{7ff}', NONE), "\u{7ff}");
    assert_eq!(in_char('\u{800}', NONE), "\u{800}");
    assert_eq!(in_char('\u{ffff}', NONE), "\u{ffff}");
    assert_eq!(in_char('\u{10000}', NONE), "\u{10000}");
    assert_eq!(in_char('\u{10ffff}', NONE), "\u{10ffff}");
    assert_eq!(in_char('é', CTRL), "<C-é>");
}

#[test]
fn the_less_than_sign_is_written_by_name() {
    assert_eq!(in_char('<', NONE), "<lt>");
    assert_eq!(in_char('<', SHIFT), "<lt>");
    assert_eq!(in_char('<', CTRL), "<C-lt>");
    assert_eq!(in_char('<', ALL), "<C-A-lt>");
}

#[test]
fn modifiers_come_in_the_order_shift_control_alt() {
    assert_eq!(in_char('a', CTRL), "<C-a>");
    assert_eq!(in_char('a', ALT), "<A-a>");
    assert_eq!(in_char('A', SHIFT), "<S-A>");
    assert_eq!(in_char('a', ALL), "<S-C-A-a>");
    assert_eq!(in_char('x', Modifiers { shift: false, ctrl: true, alt: true }), "<C-A-x>");
    assert_eq!(in_char('x', Modifiers { shift: true, ctrl: false, alt: true }), "<S-A-x>");
    assert_eq!(in_char('7', SHIFT), "<S-7>");
    assert_eq!(in_char('é', SHIFT), "<S-é>");
}

#[test]
fn shift_does_not_count_for_an_ascii_sign() {
    assert_eq!(in_char('!', SHIFT), "!");
    assert_eq!(in_char('_', SHIFT), "_");
    assert_eq!(in_char(' ', SHIFT), " ");
    assert_eq!(in_char('!', ALL), "<C-A-!>");
    assert_eq!(in_char('?', Modifiers { shift: true, ctrl: true, alt: false }), "<C-?>");
}

#[test]
fn control_six_and_control_two_stand_for_caret_and_at() {
    assert_eq!(in_char('6', CTRL), "<C-^>");
    assert_eq!(in_char('2', CTRL), "<C-@>");
    assert_eq!(in_char('6', Modifiers { shift: true, ctrl: true, alt: false }), "<S-C-6>");
    assert_eq!(in_char('2', Modifiers { shift: false, ctrl: true, alt: true }), "<C-A-2>");
    assert_eq!(in_char('6', NONE), "6");
    assert_eq!(in_char('3', CTRL), "<C-3>");
}

#[test]
fn keys_with_a_name_go_by_their_name() {
    assert_eq!(in_keys("Return", Some('\r'), NONE), Some("<CR>".to_string()));
    assert_eq!(in_keys("Enter", None, NONE), Some("<CR>".to_string()));
    assert_eq!(in_keys("Escape", Some('\u{1b}'), NONE), Some("<Esc>".to_string()));
    assert_eq!(in_keys("BackSpace", Some('\u{8}'), NONE), Some("<BS>".to_string()));
    assert_eq!(in_keys("Delete", Some('\u{7f}'), NONE), Some("<Del>".to_string()));
    assert_eq!(in_keys("Tab", Some('\t'), NONE), Some("<Tab>".to_string()));
    assert_eq!(in_keys("ISO_Left_Tab", None, SHIFT), Some("<S-Tab>".to_string()));
    assert_eq!(in_keys("Page_Up", None, NONE), Some("<PageUp>".to_string()));
    assert_eq!(in_keys("Page_Down", None, CTRL), Some("<C-PageDown>".to_string()));
    assert_eq!(in_keys("Insert", None, NONE), Some("<Insert>".to_string()));
    assert_eq!(in_keys("Home", None, NONE), Some("<Home>".to_string()));
    assert_eq!(in_keys("End", None, NONE), Some("<End>".to_string()));
    assert_eq!(in_keys("Left", None, ALT), Some("<A-Left>".to_string()));
    assert_eq!(in_keys("Right", None, NONE), Some("<Right>".to_string()));
    assert_eq!(in_keys("Up", None, NONE), Some("<Up>".to_string()));
    assert_eq!(in_keys("Down", None, ALL), Some("<S-C-A-Down>".to_string()));
    for n in 1..=12 {
        let name = format!("F{}", n);
        assert_eq!(in_keys(&name, None, NONE), Some(format!("<F{}>", n)));
    }
    assert_eq!(in_keys("F5", None, Modifiers { shift: true, ctrl: true, alt: false }), Some("<S-C-F5>".to_string()));
}

#[test]
fn a_key_without_a_name_goes_by_its_character() {
    assert_eq!(in_keys("a", Some('a'), NONE), Some("a".to_string()));
    assert_eq!(in_keys("less", Some('<'), NONE), Some("<lt>".to_string()));
    assert_eq!(in_keys("F13", Some('x'), CTRL), Some("<C-x>".to_string()));
    assert_eq!(in_keys("return", Some('y'), NONE), Some("y".to_string()));
}

#[test]
fn a_key_without_name_and_character_has_no_notation() {
    assert_eq!(in_keys("Shift_L", None, SHIFT), None);
    assert_eq!(in_keys("Caps_Lock", None, NONE), None);
    assert_eq!(in_keys("", None, ALL), None);
    assert_eq!(in_keys("F13", None, NONE), None);
    assert_eq!(special_key(&b"F0".to_vec()), None);
    assert_eq!(special_key(&b"Return".to_vec()), Some(b"CR".to_vec()));
    assert_eq!(translate(&InputEvent::Key(in_press("Shift_L", None, SHIFT))), None);
}

#[test]
fn a_key_press_is_sent_as_input() {
    assert_eq!(
        translate(&InputEvent::Key(in_press("Return", Some('\r'), CTRL))),
        Some(Outgoing::Notify { method: b"nvim_input".to_vec(), params: vec![in_text("<C-CR>")] })
    );
    assert_eq!(
        translate(&InputEvent::Key(in_press("i", Some('i'), NONE))),
        Some(Outgoing::Notify { method: b"nvim_input".to_vec(), params: vec![in_text("i")] })
    );
}

#[test]
fn a_mouse_event_is_sent_with_its_cell() {
    let press = MouseInput {
        kind: MouseKind::Button(MouseButton::Left, ButtonAction::Press),
        mods: NONE,
        grid: 1,
        row: 2,
        col: 3,
    };
    assert_eq!(
        translate(&InputEvent::Mouse(press)),
        Some(Outgoing::Notify {
            method: b"nvim_input_mouse".to_vec(),
            params: vec![
                in_text("left"),
                in_text("press"),
                in_text(""),
                Value::UInt(1),
                Value::UInt(2),
                Value::UInt(3)
            ],
        })
    );
    let cases = [
        (MouseKind::Button(MouseButton::Right, ButtonAction::Drag), "right", "drag"),
        (MouseKind::Button(MouseButton::Middle, ButtonAction::Release), "middle", "release"),
        (MouseKind::Wheel(WheelDirection::Up), "wheel", "up"),
        (MouseKind::Wheel(WheelDirection::Down), "wheel", "down"),
        (MouseKind::Wheel(WheelDirection::Left), "wheel", "left"),
        (MouseKind::Wheel(WheelDirection::Right), "wheel", "right"),
    ];
    for (kind, button, action) in cases {
        let m = MouseInput { kind, mods: ALL, grid: 0, row: u64::MAX, col: 0 };
        assert_eq!(
            translate(&InputEvent::Mouse(m)),
            Some(Outgoing::Notify {
                method: b"nvim_input_mouse".to_vec(),
                params: vec![
                    in_text(button),
                    in_text(action),
                    in_text("SCA"),
                    Value::UInt(0),
                    Value::UInt(u64::MAX),
                    Value::UInt(0)
                ],
            })
        );
    }
}

#[test]
fn pasted_text_is_sent_as_a_call() {
    assert_eq!(
        translate(&InputEvent::Paste("two\nlines".as_bytes().to_vec())),
        Some(Outgoing::Call {
            method: b"nvim_paste".to_vec(),
            params: vec![in_text("two\nlines"), Value::Bool(true), Value::Int(-1)],
        })
    );
}

#[test]
fn text_of_gives_the_bytes_of_a_literal() {
    assert_eq!(text_of("nvim_input"), b"nvim_input".to_vec());
    assert_eq!(text_of(""), Vec::<u8>::new());
    assert_eq!(text_of("é"), vec![0xc3, 0xa9]);
}
