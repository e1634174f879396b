//! Turning local input into what is sent to the editor.
//!
//! A key press becomes a notification of `nvim_input` with the key in
//! the editor's key notation, a mouse event a notification of
//! `nvim_input_mouse`, and pasted text a call of `nvim_paste`, which is
//! answered. A key that has no notation is not sent at all.

use vstd::prelude::*;
use vstd::utf8::encode_scalar;
use crate::codec::append_bytes;
use crate::text::{is_named, named, text, text_of};
use crate::value::{copy_bytes, lemma_views, views, Val, Value};

verus! {

/// The modifier keys held down with a key or a mouse button.
#[derive(Debug, Clone, Copy, PartialEq, Eq)]
pub struct Modifiers {
    pub shift: bool,
    pub ctrl: bool,
    pub alt: bool,
}

/// A key press as the window system reports it: the symbolic name of the
/// key, the character that it produces if it produces one, and the
/// modifiers held down.
#[derive(Debug, PartialEq, Eq)]
pub struct KeyPress {
    pub name: Vec<u8>,
    pub unicode: Option<char>,
    pub mods: Modifiers,
}

/// A button of the mouse.
#[derive(Debug, Clone, Copy, PartialEq, Eq)]
pub enum MouseButton {
    Left,
    Right,
    Middle,
}

/// What was done with a button of the mouse.
#[derive(Debug, Clone, Copy, PartialEq, Eq)]
pub enum ButtonAction {
    Press,
    Drag,
    Release,
}

/// The direction in which the wheel was turned.
#[derive(Debug, Clone, Copy, PartialEq, Eq)]
pub enum WheelDirection {
    Up,
    Down,
    Left,
    Right,
}

/// What the mouse did.
#[derive(Debug, Clone, Copy, PartialEq, Eq)]
pub enum MouseKind {
    Button(MouseButton, ButtonAction),
    Wheel(WheelDirection),
}

/// A mouse event at a cell of a grid.
#[derive(Debug, Clone, Copy, PartialEq, Eq)]
pub struct MouseInput {
    pub kind: MouseKind,
    pub mods: Modifiers,
    pub grid: u64,
    pub row: u64,
    pub col: u64,
}

/// A local input event.
#[derive(Debug, PartialEq, Eq)]
pub enum InputEvent {
    Key(KeyPress),
    Mouse(MouseInput),
    /// Text to paste, as UTF-8.
    Paste(Vec<u8>),
}

/// A local input event as a mathematical object.
pub enum InputEventV {
    Key { name: Seq<u8>, unicode: Option<char>, mods: Modifiers },
    Mouse(MouseInput),
    Paste(Seq<u8>),
}

impl View for InputEvent {
    type V = InputEventV;

    open spec fn view(&self) -> InputEventV {
        match self {
            InputEvent::Key(press) => InputEventV::Key {
                name: press.name@,
                unicode: press.unicode,
                mods: press.mods,
            },
            InputEvent::Mouse(m) => InputEventV::Mouse(*m),
            InputEvent::Paste(text) => InputEventV::Paste(text@),
        }
    }
}

/// What is to be sent, as a mathematical object.
pub enum OutgoingV {
    Notify { method: Seq<u8>, params: Seq<Val> },
    Call { method: Seq<u8>, params: Seq<Val> },
}

/// What is to be sent to the editor.
#[derive(Debug, PartialEq)]
pub enum Outgoing {
    /// A notification: nothing comes back.
    Notify { method: Vec<u8>, params: Vec<Value> },
    /// A call: it is answered.
    Call { method: Vec<u8>, params: Vec<Value> },
}

impl View for Outgoing {
    type V = OutgoingV;

    open spec fn view(&self) -> OutgoingV {
        match self {
            Outgoing::Notify { method, params } => OutgoingV::Notify {
                method: method@,
                params: views(params@),
            },
            Outgoing::Call { method, params } => OutgoingV::Call {
                method: method@,
                params: views(params@),
            },
        }
    }
}

/// The notation of a key with a symbolic name that the editor has a
/// name for: function keys, arrows and the editing keys.
pub open spec fn special_of(name: Seq<u8>) -> Option<Seq<u8>> {
    if named(name, "Return") || named(name, "Enter") {
        Some(text("CR"))
    } else if named(name, "BackSpace") {
        Some(text("BS"))
    } else if named(name, "Escape") {
        Some(text("Esc"))
    } else if named(name, "Delete") {
        Some(text("Del"))
    } else if named(name, "Tab") || named(name, "ISO_Left_Tab") {
        Some(text("Tab"))
    } else if named(name, "Page_Up") {
        Some(text("PageUp"))
    } else if named(name, "Page_Down") {
        Some(text("PageDown"))
    } else if named(name, "Insert") || named(name, "Home") || named(name, "End") || named(
        name,
        "Left",
    ) || named(name, "Right") || named(name, "Up") || named(name, "Down") {
        Some(name)
    } else if named(name, "F1") || named(name, "F2") || named(name, "F3") || named(name, "F4")
        || named(name, "F5") || named(name, "F6") || named(name, "F7") || named(name, "F8")
        || named(name, "F9") || named(name, "F10") || named(name, "F11") || named(name, "F12") {
        Some(name)
    } else {
        None
    }
}

/// The notation of a key with a symbolic name that the editor has a
/// name for.
pub fn special_key(name: &Vec<u8>) -> (r: Option<Vec<u8>>)
    ensures
        match special_of(name@) {
            Some(n) => r matches Some(x) && x@ == n,
            None => r is None,
        },
{
    if is_named(name, "Return") || is_named(name, "Enter") {
        Some(text_of("CR"))
    } else if is_named(name, "BackSpace") {
        Some(text_of("BS"))
    } else if is_named(name, "Escape") {
        Some(text_of("Esc"))
    } else if is_named(name, "Delete") {
        Some(text_of("Del"))
    } else if is_named(name, "Tab") || is_named(name, "ISO_Left_Tab") {
        Some(text_of("Tab"))
    } else if is_named(name, "Page_Up") {
        Some(text_of("PageUp"))
    } else if is_named(name, "Page_Down") {
        Some(text_of("PageDown"))
    } else if is_named(name, "Insert") || is_named(name, "Home") || is_named(name, "End")
        || is_named(name, "Left") || is_named(name, "Right") || is_named(name, "Up") || is_named(
        name,
        "Down",
    ) {
        Some(copy_bytes(name))
    } else if is_named(name, "F1") || is_named(name, "F2") || is_named(name, "F3") || is_named(
        name,
        "F4",
    ) || is_named(name, "F5") || is_named(name, "F6") || is_named(name, "F7") || is_named(
        name,
        "F8",
    ) || is_named(name, "F9") || is_named(name, "F10") || is_named(name, "F11") || is_named(
        name,
        "F12",
    ) {
        Some(copy_bytes(name))
    } else {
        None
    }
}

/// An ASCII letter or digit.
pub open spec fn is_ascii_alphanumeric(c: char) -> bool {
    ('0' <= c && c <= '9') || ('a' <= c && c <= 'z') || ('A' <= c && c <= 'Z')
}

/// The modifiers in key notation: `S-` for shift, `C-` for control and
/// `A-` for alt, in this order.
pub open spec fn prefix_of(mods: Modifiers) -> Seq<u8> {
    (if mods.shift {
        text("S-")
    } else {
        Seq::empty()
    }) + (if mods.ctrl {
        text("C-")
    } else {
        Seq::empty()
    }) + (if mods.alt {
        text("A-")
    } else {
        Seq::empty()
    })
}

/// `inner` between angle brackets.
pub open spec fn bracketed(inner: Seq<u8>) -> Seq<u8> {
    text("<") + inner + text(">")
}

/// The character that a key stands for to the editor: with control
/// alone, `6` stands for `^` and `2` for `@`.
pub open spec fn effective_char(c: char, mods: Modifiers) -> char {
    if mods.ctrl && !mods.shift && !mods.alt {
        if c == '6' {
            '^'
        } else if c == '2' {
            '@'
        } else {
            c
        }
    } else {
        c
    }
}

/// The modifiers that count for a character: shift does not count for
/// an ASCII character that is no letter and no digit, since the
/// character already tells that shift was held.
pub open spec fn effective_mods(c: char, mods: Modifiers) -> Modifiers {
    Modifiers {
        shift: mods.shift && !(c as u32 <= 0x7f && !is_ascii_alphanumeric(c)),
        ..mods
    }
}

/// The notation of a key that produces the character `c`: the character
/// itself, or, where modifiers count or the character is `<`, the
/// modifiers and the character (`lt` for `<`) between angle brackets.
pub open spec fn char_notation(c: char, mods: Modifiers) -> Seq<u8> {
    let e = effective_char(c, mods);
    let m = effective_mods(c, mods);
    let plain = !m.shift && !m.ctrl && !m.alt;
    if e == '<' {
        bracketed(prefix_of(m) + text("lt"))
    } else if plain {
        encode_scalar(e as u32)
    } else {
        bracketed(prefix_of(m) + encode_scalar(e as u32))
    }
}

/// The notation of a key press, if it has one. A key with a name that
/// the editor knows goes by that name, whatever character it produces;
/// another key goes by its character; a key without either has none.
pub open spec fn key_notation(name: Seq<u8>, unicode: Option<char>, mods: Modifiers) -> Option<
    Seq<u8>,
> {
    match special_of(name) {
        Some(n) => Some(bracketed(prefix_of(mods) + n)),
        None => match unicode {
            Some(c) => Some(char_notation(c, mods)),
            None => None,
        },
    }
}

/// The modifiers as the editor wants them with a mouse event: one
/// letter each.
pub open spec fn mouse_mods(mods: Modifiers) -> Seq<u8> {
    (if mods.shift {
        text("S")
    } else {
        Seq::empty()
    }) + (if mods.ctrl {
        text("C")
    } else {
        Seq::empty()
    }) + (if mods.alt {
        text("A")
    } else {
        Seq::empty()
    })
}

/// The name by which the editor knows the button; the wheel counts as
/// one.
pub open spec fn button_name(kind: MouseKind) -> Seq<u8> {
    match kind {
        MouseKind::Button(MouseButton::Left, _) => text("left"),
        MouseKind::Button(MouseButton::Right, _) => text("right"),
        MouseKind::Button(MouseButton::Middle, _) => text("middle"),
        MouseKind::Wheel(_) => text("wheel"),
    }
}

/// The name by which the editor knows what was done: with a button, or
/// the direction of the wheel.
pub open spec fn action_name(kind: MouseKind) -> Seq<u8> {
    match kind {
        MouseKind::Button(_, ButtonAction::Press) => text("press"),
        MouseKind::Button(_, ButtonAction::Drag) => text("drag"),
        MouseKind::Button(_, ButtonAction::Release) => text("release"),
        MouseKind::Wheel(WheelDirection::Up) => text("up"),
        MouseKind::Wheel(WheelDirection::Down) => text("down"),
        MouseKind::Wheel(WheelDirection::Left) => text("left"),
        MouseKind::Wheel(WheelDirection::Right) => text("right"),
    }
}

/// What an input event is sent as, if it is sent.
pub open spec fn translated(ev: InputEventV) -> Option<OutgoingV> {
    match ev {
        InputEventV::Key { name, unicode, mods } => match key_notation(name, unicode, mods) {
            Some(keys) => Some(
                OutgoingV::Notify { method: text("nvim_input"), params: seq![Val::Str(keys)] },
            ),
            None => None,
        },
        InputEventV::Mouse(m) => Some(
            OutgoingV::Notify {
                method: text("nvim_input_mouse"),
                params: seq![
                    Val::Str(button_name(m.kind)),
                    Val::Str(action_name(m.kind)),
                    Val::Str(mouse_mods(m.mods)),
                    Val::Int(m.grid as int),
                    Val::Int(m.row as int),
                    Val::Int(m.col as int),
                ],
            },
        ),
        InputEventV::Paste(data) => Some(
            OutgoingV::Call {
                method: text("nvim_paste"),
                params: seq![Val::Str(data), Val::Bool(true), Val::Int(-1)],
            },
        ),
    }
}

/// The number of modifiers held.
spec fn count_of(mods: Modifiers) -> int {
    (if mods.shift {
        1int
    } else {
        0
    }) + (if mods.ctrl {
        1int
    } else {
        0
    }) + (if mods.alt {
        1int
    } else {
        0
    })
}

/// The letter of the first modifier held.
spec fn first_letter(mods: Modifiers) -> u8 {
    if mods.shift {
        0x53
    } else if mods.ctrl {
        0x43
    } else {
        0x41
    }
}

/// The letter of the second modifier held.
spec fn second_letter(mods: Modifiers) -> u8 {
    if mods.shift && mods.ctrl {
        0x43
    } else {
        0x41
    }
}

/// Modifiers are told apart: two sets of modifiers with the same
/// notation are the same set.
pub proof fn lemma_modifiers_are_told_apart(a: Modifiers, b: Modifiers)
    requires
        prefix_of(a) == prefix_of(b),
    ensures
        a == b,
{
    reveal_strlit("S-");
    reveal_strlit("C-");
    reveal_strlit("A-");
    vstd::string::is_ascii_spec_bytes("S-");
    vstd::string::is_ascii_spec_bytes("C-");
    vstd::string::is_ascii_spec_bytes("A-");
    let s = text("S-");
    let c = text("C-");
    let m = text("A-");
    assert(s.len() == 2 && s[0] == 0x53);
    assert(c.len() == 2 && c[0] == 0x43);
    assert(m.len() == 2 && m[0] == 0x41);
    let pa = prefix_of(a);
    let pb = prefix_of(b);
    assert(pa.len() == pb.len());
    // The notations have the same length, so as many modifiers are held
    // in the one set as in the other; the first letter tells the first
    // of them, and the second letter, where there are more than one,
    // tells whether control is the second.
    assert(pa.len() == count_of(a) * 2);
    assert(pb.len() == count_of(b) * 2);
    if pa.len() > 0 {
        assert(pa[0] == pb[0]);
        assert(pa[0] == first_letter(a));
        assert(pb[0] == first_letter(b));
    }
    if pa.len() > 2 {
        assert(pa[2] == pb[2]);
        assert(pa[2] == second_letter(a));
        assert(pb[2] == second_letter(b));
    }
}

/// Appends the UTF-8 bytes of `c`.
fn push_char(out: &mut Vec<u8>, c: char)
    ensures
        final(out)@ == old(out)@ + encode_scalar(c as u32),
{
    let v: u32 = c as u32;
    if v <= 0x7F {
        out.push((v & 0x7F) as u8);
    } else if v <= 0x7FF {
        out.push(0xC0 | ((v >> 6) & 0x1F) as u8);
        out.push(0x80 | (v & 0x3F) as u8);
    } else if v <= 0xFFFF {
        out.push(0xE0 | ((v >> 12) & 0x0F) as u8);
        out.push(0x80 | ((v >> 6) & 0x3F) as u8);
        out.push(0x80 | (v & 0x3F) as u8);
    } else {
        out.push(0xF0 | ((v >> 18) & 0x7) as u8);
        out.push(0x80 | ((v >> 12) & 0x3F) as u8);
        out.push(0x80 | ((v >> 6) & 0x3F) as u8);
        out.push(0x80 | (v & 0x3F) as u8);
    }
    proof {
        vstd::utf8::char_is_scalar(c);
        assert(out@ =~= old(out)@ + encode_scalar(v));
    }
}

/// Appends the modifiers in key notation.
fn push_prefix(out: &mut Vec<u8>, mods: Modifiers)
    ensures
        final(out)@ == old(out)@ + prefix_of(mods),
{
    if mods.shift {
        append_bytes(out, "S-".as_bytes());
    }
    if mods.ctrl {
        append_bytes(out, "C-".as_bytes());
    }
    if mods.alt {
        append_bytes(out, "A-".as_bytes());
    }
    proof {
        assert(out@ =~= old(out)@ + prefix_of(mods));
    }
}

fn is_alphanumeric(c: char) -> (r: bool)
    ensures
        r == is_ascii_alphanumeric(c),
{
    (c >= '0' && c <= '9') || (c >= 'a' && c <= 'z') || (c >= 'A' && c <= 'Z')
}

/// The notation of a key that produces the character `c`.
pub fn notation_of_char(c: char, mods: Modifiers) -> (r: Vec<u8>)
    ensures
        r@ == char_notation(c, mods),
{
    let e: char = if mods.ctrl && !mods.shift && !mods.alt {
        if c == '6' {
            '^'
        } else if c == '2' {
            '@'
        } else {
            c
        }
    } else {
        c
    };
    let m = Modifiers {
        shift: mods.shift && !(c as u32 <= 0x7f && !is_alphanumeric(c)),
        ctrl: mods.ctrl,
        alt: mods.alt,
    };
    let plain: bool = !m.shift && !m.ctrl && !m.alt;
    let mut out: Vec<u8> = Vec::new();
    if e == '<' {
        append_bytes(&mut out, "<".as_bytes());
        push_prefix(&mut out, m);
        append_bytes(&mut out, "lt".as_bytes());
        append_bytes(&mut out, ">".as_bytes());
        proof {
            assert(out@ =~= bracketed(prefix_of(m) + text("lt")));
        }
    } else if plain {
        push_char(&mut out, e);
        proof {
            assert(out@ =~= encode_scalar(e as u32));
        }
    } else {
        append_bytes(&mut out, "<".as_bytes());
        push_prefix(&mut out, m);
        push_char(&mut out, e);
        append_bytes(&mut out, ">".as_bytes());
        proof {
            assert(out@ =~= bracketed(prefix_of(m) + encode_scalar(e as u32)));
        }
    }
    out
}

/// The notation of a key press, if it has one.
pub fn notation(press: &KeyPress) -> (r: Option<Vec<u8>>)
    ensures
        match key_notation(press.name@, press.unicode, press.mods) {
            Some(keys) => r matches Some(x) && x@ == keys,
            None => r is None,
        },
{
    match special_key(&press.name) {
        Some(n) => {
            let mut out: Vec<u8> = Vec::new();
            append_bytes(&mut out, "<".as_bytes());
            push_prefix(&mut out, press.mods);
            append_bytes(&mut out, n.as_slice());
            append_bytes(&mut out, ">".as_bytes());
            proof {
                assert(out@ =~= bracketed(prefix_of(press.mods) + n@));
            }
            Some(out)
        },
        None => match press.unicode {
            Some(c) => Some(notation_of_char(c, press.mods)),
            None => None,
        },
    }
}

fn mouse_modifiers(mods: Modifiers) -> (r: Vec<u8>)
    ensures
        r@ == mouse_mods(mods),
{
    let mut out: Vec<u8> = Vec::new();
    if mods.shift {
        append_bytes(&mut out, "S".as_bytes());
    }
    if mods.ctrl {
        append_bytes(&mut out, "C".as_bytes());
    }
    if mods.alt {
        append_bytes(&mut out, "A".as_bytes());
    }
    proof {
        assert(out@ =~= mouse_mods(mods));
    }
    out
}

fn name_of_button(kind: MouseKind) -> (r: Vec<u8>)
    ensures
        r@ == button_name(kind),
{
    match kind {
        MouseKind::Button(MouseButton::Left, _) => text_of("left"),
        MouseKind::Button(MouseButton::Right, _) => text_of("right"),
        MouseKind::Button(MouseButton::Middle, _) => text_of("middle"),
        MouseKind::Wheel(_) => text_of("wheel"),
    }
}

fn name_of_action(kind: MouseKind) -> (r: Vec<u8>)
    ensures
        r@ == action_name(kind),
{
    match kind {
        MouseKind::Button(_, ButtonAction::Press) => text_of("press"),
        MouseKind::Button(_, ButtonAction::Drag) => text_of("drag"),
        MouseKind::Button(_, ButtonAction::Release) => text_of("release"),
        MouseKind::Wheel(WheelDirection::Up) => text_of("up"),
        MouseKind::Wheel(WheelDirection::Down) => text_of("down"),
        MouseKind::Wheel(WheelDirection::Left) => text_of("left"),
        MouseKind::Wheel(WheelDirection::Right) => text_of("right"),
    }
}

/// What an input event is sent as, if it is sent: a key press that has
/// no notation is dropped.
pub fn translate(ev: &InputEvent) -> (r: Option<Outgoing>)
    ensures
        match translated(ev@) {
            Some(out) => r matches Some(x) && x@ == out,
            None => r is None,
        },
{
    match ev {
        InputEvent::Key(press) => match notation(press) {
            Some(keys) => {
                let mut params: Vec<Value> = Vec::new();
                params.push(Value::Str(keys));
                proof {
                    lemma_views(params@);
                    assert(views(params@) =~= seq![Val::Str(keys@)]);
                }
                Some(Outgoing::Notify { method: text_of("nvim_input"), params })
            },
            None => None,
        },
        InputEvent::Mouse(m) => {
            let mut params: Vec<Value> = Vec::new();
            params.push(Value::Str(name_of_button(m.kind)));
            params.push(Value::Str(name_of_action(m.kind)));
            params.push(Value::Str(mouse_modifiers(m.mods)));
            params.push(Value::UInt(m.grid));
            params.push(Value::UInt(m.row));
            params.push(Value::UInt(m.col));
            proof {
                lemma_views(params@);
                assert(views(params@) =~= seq![
                    Val::Str(button_name(m.kind)),
                    Val::Str(action_name(m.kind)),
                    Val::Str(mouse_mods(m.mods)),
                    Val::Int(m.grid as int),
                    Val::Int(m.row as int),
                    Val::Int(m.col as int),
                ]);
            }
            Some(Outgoing::Notify { method: text_of("nvim_input_mouse"), params })
        },
        InputEvent::Paste(data) => {
            let mut params: Vec<Value> = Vec::new();
            params.push(Value::Str(copy_bytes(data)));
            params.push(Value::Bool(true));
            params.push(Value::Int(-1));
            proof {
                lemma_views(params@);
                assert(views(params@) =~= seq![Val::Str(data@), Val::Bool(true), Val::Int(-1)]);
            }
            Some(Outgoing::Call { method: text_of("nvim_paste"), params })
        },
    }
}

} // verus!
