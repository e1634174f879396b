//! The life of a session, as a state machine.
//!
//! The caller spawns the editor, runs the timers and moves the bytes; it
//! reports what happened as events and does what the session answers
//! with. The session decides: the attach handshake goes out once, when
//! the surface is ready; input is forwarded only once the editor has
//! accepted it; a change of the surface's size is passed on; closing asks
//! the editor to quit and, if it has not gone when the grace period ends,
//! has it killed.

use vstd::prelude::*;
use crate::input::{translate, translated, InputEvent, InputEventV, Outgoing, OutgoingV};
use crate::text::{text, text_of};
use crate::value::{lemma_pair_views, lemma_views, pair_views, views, Val, Value};

verus! {

/// Where a session stands.
#[derive(Debug, Clone, Copy, PartialEq, Eq)]
pub enum Phase {
    /// The editor was started; nothing was sent yet.
    Created,
    /// The attach handshake went out and is not answered yet.
    Attaching,
    /// The editor accepted the attach: the session is in use.
    Attached,
    /// The editor was asked to quit.
    Closing,
    /// The editor is being killed.
    Killing,
    /// The session is over.
    Ended,
}

/// The capabilities that the attach handshake declares.
#[derive(Debug, Clone, Copy, PartialEq, Eq)]
pub struct UiOptions {
    /// True colour.
    pub rgb: bool,
    /// The popup menu is drawn by the front-end.
    pub ext_popupmenu: bool,
    /// The tab line is drawn by the front-end.
    pub ext_tabline: bool,
}

/// Why a session did not come to be.
#[derive(Debug, Clone, Copy, PartialEq, Eq)]
pub enum StartupFailure {
    /// The editor could not be started.
    SpawnFailed,
    /// The editor refused the attach handshake.
    Refused,
    /// The handshake took longer than the start-up timeout allows.
    TimedOut,
    /// The editor exited before the handshake was done.
    Exited(i32),
    /// The connection broke before the handshake was done.
    ConnectionFailed,
}

/// How a session ended.
#[derive(Debug, Clone, Copy, PartialEq, Eq)]
pub enum Ending {
    /// The editor quit when asked to.
    Graceful,
    /// The editor had to be killed.
    Killed,
    /// The editor exited on its own.
    Unexpected,
}

/// A session: its phase, the size that the editor was told, and the
/// size that the surface has.
#[derive(Debug, Clone, Copy, PartialEq, Eq)]
pub struct Session {
    pub phase: Phase,
    pub declared: (u64, u64),
    pub surface: (u64, u64),
}

/// What happened, as a mathematical object.
pub enum SessionEventV {
    SpawnFailed,
    SurfaceReady { cols: u64, rows: u64, options: UiOptions },
    AttachAnswered { accepted: bool },
    StartupTimedOut,
    SurfaceResized { cols: u64, rows: u64 },
    Input(InputEventV),
    CloseRequested,
    GraceElapsed,
    ProcessExited { status: i32 },
    ConnectionFailed,
}

/// What happened.
#[derive(Debug, PartialEq, Eq)]
pub enum SessionEvent {
    /// The editor could not be started.
    SpawnFailed,
    /// The surface is up, with this many columns and rows of cells.
    SurfaceReady { cols: u64, rows: u64, options: UiOptions },
    /// The editor answered the attach handshake.
    AttachAnswered { accepted: bool },
    /// The start-up timeout ran out.
    StartupTimedOut,
    /// The surface has another size.
    SurfaceResized { cols: u64, rows: u64 },
    /// The user did something.
    Input(InputEvent),
    /// The session is to end.
    CloseRequested,
    /// The grace period after the request to quit ran out.
    GraceElapsed,
    /// The editor exited.
    ProcessExited { status: i32 },
    /// Reading from the editor or writing to it failed.
    ConnectionFailed,
}

impl View for SessionEvent {
    type V = SessionEventV;

    open spec fn view(&self) -> SessionEventV {
        match self {
            SessionEvent::SpawnFailed => SessionEventV::SpawnFailed,
            SessionEvent::SurfaceReady { cols, rows, options } => SessionEventV::SurfaceReady {
                cols: *cols,
                rows: *rows,
                options: *options,
            },
            SessionEvent::AttachAnswered { accepted } => SessionEventV::AttachAnswered {
                accepted: *accepted,
            },
            SessionEvent::StartupTimedOut => SessionEventV::StartupTimedOut,
            SessionEvent::SurfaceResized { cols, rows } => SessionEventV::SurfaceResized {
                cols: *cols,
                rows: *rows,
            },
            SessionEvent::Input(ev) => SessionEventV::Input(ev@),
            SessionEvent::CloseRequested => SessionEventV::CloseRequested,
            SessionEvent::GraceElapsed => SessionEventV::GraceElapsed,
            SessionEvent::ProcessExited { status } => SessionEventV::ProcessExited {
                status: *status,
            },
            SessionEvent::ConnectionFailed => SessionEventV::ConnectionFailed,
        }
    }
}

/// What is to be done, as a mathematical object.
pub enum ActionV {
    Nothing,
    Send(OutgoingV),
    AbortStartup(StartupFailure),
    Kill,
    Finish { status: i32, how: Ending },
}

/// What is to be done.
#[derive(Debug, PartialEq)]
pub enum Action {
    Nothing,
    /// Send this to the editor.
    Send(Outgoing),
    /// Give the session up before it came to be: kill the editor if it
    /// runs, and report why.
    AbortStartup(StartupFailure),
    /// Kill the editor.
    Kill,
    /// The session is over: cancel the calls that wait, drop the redraw
    /// events that wait, and pass on the editor's exit status.
    Finish { status: i32, how: Ending },
}

impl View for Action {
    type V = ActionV;

    open spec fn view(&self) -> ActionV {
        match self {
            Action::Nothing => ActionV::Nothing,
            Action::Send(out) => ActionV::Send(out@),
            Action::AbortStartup(why) => ActionV::AbortStartup(*why),
            Action::Kill => ActionV::Kill,
            Action::Finish { status, how } => ActionV::Finish { status: *status, how: *how },
        }
    }
}

/// The attach handshake: the size of the grid and the capabilities. The
/// grid is always asked for as lines of cells.
pub open spec fn attach_call(cols: u64, rows: u64, options: UiOptions) -> OutgoingV {
    OutgoingV::Call {
        method: text("nvim_ui_attach"),
        params: seq![
            Val::Int(cols as int),
            Val::Int(rows as int),
            Val::Mapping(
                seq![
                    (Val::Str(text("rgb")), Val::Bool(options.rgb)),
                    (Val::Str(text("ext_linegrid")), Val::Bool(true)),
                    (Val::Str(text("ext_popupmenu")), Val::Bool(options.ext_popupmenu)),
                    (Val::Str(text("ext_tabline")), Val::Bool(options.ext_tabline)),
                ],
            ),
        ],
    }
}

/// The call that tells the editor the size of the surface.
pub open spec fn resize_call(cols: u64, rows: u64) -> OutgoingV {
    OutgoingV::Call {
        method: text("nvim_ui_try_resize"),
        params: seq![Val::Int(cols as int), Val::Int(rows as int)],
    }
}

/// The request to quit.
pub open spec fn quit_request() -> OutgoingV {
    OutgoingV::Notify { method: text("nvim_command"), params: seq![Val::Str(text("qa!"))] }
}

/// The session before anything happened.
pub open spec fn created() -> Session {
    Session { phase: Phase::Created, declared: (0, 0), surface: (0, 0) }
}

/// What an event does to a session, and what is to be done.
pub open spec fn next(s: Session, ev: SessionEventV) -> (Session, ActionV) {
    let ended = Session { phase: Phase::Ended, ..s };
    let starting = s.phase is Created || s.phase is Attaching;
    match ev {
        SessionEventV::SpawnFailed => if s.phase is Created {
            (ended, ActionV::AbortStartup(StartupFailure::SpawnFailed))
        } else {
            (s, ActionV::Nothing)
        },
        SessionEventV::SurfaceReady { cols, rows, options } => if s.phase is Created {
            (
                Session { phase: Phase::Attaching, declared: (cols, rows), surface: (cols, rows) },
                ActionV::Send(attach_call(cols, rows, options)),
            )
        } else {
            (s, ActionV::Nothing)
        },
        SessionEventV::AttachAnswered { accepted } => if s.phase is Attaching {
            if !accepted {
                (ended, ActionV::AbortStartup(StartupFailure::Refused))
            } else if s.surface != s.declared {
                (
                    Session { phase: Phase::Attached, declared: s.surface, ..s },
                    ActionV::Send(resize_call(s.surface.0, s.surface.1)),
                )
            } else {
                (Session { phase: Phase::Attached, ..s }, ActionV::Nothing)
            }
        } else {
            (s, ActionV::Nothing)
        },
        SessionEventV::StartupTimedOut => if starting {
            (ended, ActionV::AbortStartup(StartupFailure::TimedOut))
        } else {
            (s, ActionV::Nothing)
        },
        SessionEventV::SurfaceResized { cols, rows } => if s.phase is Attached {
            if (cols, rows) != s.declared {
                (
                    Session { declared: (cols, rows), surface: (cols, rows), ..s },
                    ActionV::Send(resize_call(cols, rows)),
                )
            } else {
                (Session { surface: (cols, rows), ..s }, ActionV::Nothing)
            }
        } else if s.phase is Attaching {
            (Session { surface: (cols, rows), ..s }, ActionV::Nothing)
        } else {
            (s, ActionV::Nothing)
        },
        SessionEventV::Input(input) => if s.phase is Attached {
            match translated(input) {
                Some(out) => (s, ActionV::Send(out)),
                None => (s, ActionV::Nothing),
            }
        } else {
            (s, ActionV::Nothing)
        },
        SessionEventV::CloseRequested => if starting || s.phase is Attached {
            (Session { phase: Phase::Closing, ..s }, ActionV::Send(quit_request()))
        } else {
            (s, ActionV::Nothing)
        },
        SessionEventV::GraceElapsed => if s.phase is Closing {
            (Session { phase: Phase::Killing, ..s }, ActionV::Kill)
        } else {
            (s, ActionV::Nothing)
        },
        SessionEventV::ProcessExited { status } => if starting {
            (ended, ActionV::AbortStartup(StartupFailure::Exited(status)))
        } else if s.phase is Attached {
            (ended, ActionV::Finish { status, how: Ending::Unexpected })
        } else if s.phase is Closing {
            (ended, ActionV::Finish { status, how: Ending::Graceful })
        } else if s.phase is Killing {
            (ended, ActionV::Finish { status, how: Ending::Killed })
        } else {
            (s, ActionV::Nothing)
        },
        SessionEventV::ConnectionFailed => if starting {
            (ended, ActionV::AbortStartup(StartupFailure::ConnectionFailed))
        } else if s.phase is Attached || s.phase is Closing {
            (Session { phase: Phase::Killing, ..s }, ActionV::Kill)
        } else {
            (s, ActionV::Nothing)
        },
    }
}

/// The attach handshake goes out only from the first phase of a session,
/// which the session leaves with it and to which no session comes back:
/// it goes out at most once.
pub proof fn lemma_attach_once(
    s: Session,
    ev: SessionEventV,
    cols: u64,
    rows: u64,
    options: UiOptions,
)
    ensures
        next(s, ev).1 == ActionV::Send(attach_call(cols, rows, options)) ==> s.phase is Created
            && next(s, ev).0.phase is Attaching,
        next(s, ev).0.phase is Created ==> s.phase is Created,
{
    let a = attach_call(cols, rows, options);
    match ev {
        SessionEventV::AttachAnswered { accepted } => {
            assert(resize_call(s.surface.0, s.surface.1)->Call_params.len() == 2);
            assert(a->Call_params.len() == 3);
        },
        SessionEventV::SurfaceResized { cols: c, rows: r } => {
            assert(resize_call(c, r)->Call_params.len() == 2);
            assert(a->Call_params.len() == 3);
        },
        SessionEventV::Input(input) => {
            assert(a->Call_params[0] is Int);
            match input {
                InputEventV::Paste(data) => {
                    assert(translated(input)->0->Call_params[0] is Str);
                },
                _ => {},
            }
        },
        _ => {},
    }
}

/// Before the editor has accepted the attach handshake, and after the
/// session began to end, no input is forwarded.
pub proof fn lemma_input_needs_attach(s: Session, input: InputEventV)
    requires
        !(s.phase is Attached),
    ensures
        next(s, SessionEventV::Input(input)) == (s, ActionV::Nothing),
{
}

fn uints(a: u64, b: u64) -> (r: Vec<Value>)
    ensures
        views(r@) == seq![Val::Int(a as int), Val::Int(b as int)],
{
    let mut params: Vec<Value> = Vec::new();
    params.push(Value::UInt(a));
    params.push(Value::UInt(b));
    proof {
        lemma_views(params@);
        assert(views(params@) =~= seq![Val::Int(a as int), Val::Int(b as int)]);
    }
    params
}

fn make_attach(cols: u64, rows: u64, options: UiOptions) -> (r: Outgoing)
    ensures
        r@ == attach_call(cols, rows, options),
{
    let mut pairs: Vec<(Value, Value)> = Vec::new();
    pairs.push((Value::Str(text_of("rgb")), Value::Bool(options.rgb)));
    pairs.push((Value::Str(text_of("ext_linegrid")), Value::Bool(true)));
    pairs.push((Value::Str(text_of("ext_popupmenu")), Value::Bool(options.ext_popupmenu)));
    pairs.push((Value::Str(text_of("ext_tabline")), Value::Bool(options.ext_tabline)));
    let ghost wanted = seq![
        (Val::Str(text("rgb")), Val::Bool(options.rgb)),
        (Val::Str(text("ext_linegrid")), Val::Bool(true)),
        (Val::Str(text("ext_popupmenu")), Val::Bool(options.ext_popupmenu)),
        (Val::Str(text("ext_tabline")), Val::Bool(options.ext_tabline)),
    ];
    proof {
        lemma_pair_views(pairs@);
        assert(pair_views(pairs@) =~= wanted);
    }
    let mut params: Vec<Value> = Vec::new();
    params.push(Value::UInt(cols));
    params.push(Value::UInt(rows));
    params.push(Value::Mapping(pairs));
    proof {
        lemma_views(params@);
        assert(views(params@) =~= seq![
            Val::Int(cols as int),
            Val::Int(rows as int),
            Val::Mapping(wanted),
        ]);
    }
    Outgoing::Call { method: text_of("nvim_ui_attach"), params }
}

fn make_resize(cols: u64, rows: u64) -> (r: Outgoing)
    ensures
        r@ == resize_call(cols, rows),
{
    Outgoing::Call { method: text_of("nvim_ui_try_resize"), params: uints(cols, rows) }
}

fn make_quit() -> (r: Outgoing)
    ensures
        r@ == quit_request(),
{
    let mut params: Vec<Value> = Vec::new();
    params.push(Value::Str(text_of("qa!")));
    proof {
        lemma_views(params@);
        assert(views(params@) =~= seq![Val::Str(text("qa!"))]);
    }
    Outgoing::Notify { method: text_of("nvim_command"), params }
}

impl Session {
    /// The session before anything happened.
    pub fn new() -> (s: Session)
        ensures
            s == created(),
    {
        Session { phase: Phase::Created, declared: (0, 0), surface: (0, 0) }
    }

    /// Takes note of what happened and says what is to be done.
    pub fn step(&mut self, ev: SessionEvent) -> (action: Action)
        ensures
            (*final(self), action@) == next(*old(self), ev@),
    {
        let starting: bool = match self.phase {
            Phase::Created => true,
            Phase::Attaching => true,
            _ => false,
        };
        match ev {
            SessionEvent::SpawnFailed => match self.phase {
                Phase::Created => {
                    self.phase = Phase::Ended;
                    Action::AbortStartup(StartupFailure::SpawnFailed)
                },
                _ => Action::Nothing,
            },
            SessionEvent::SurfaceReady { cols, rows, options } => match self.phase {
                Phase::Created => {
                    self.phase = Phase::Attaching;
                    self.declared = (cols, rows);
                    self.surface = (cols, rows);
                    Action::Send(make_attach(cols, rows, options))
                },
                _ => Action::Nothing,
            },
            SessionEvent::AttachAnswered { accepted } => match self.phase {
                Phase::Attaching => {
                    if !accepted {
                        self.phase = Phase::Ended;
                        Action::AbortStartup(StartupFailure::Refused)
                    } else if self.surface.0 != self.declared.0 || self.surface.1
                        != self.declared.1 {
                        self.phase = Phase::Attached;
                        self.declared = self.surface;
                        Action::Send(make_resize(self.surface.0, self.surface.1))
                    } else {
                        self.phase = Phase::Attached;
                        Action::Nothing
                    }
                },
                _ => Action::Nothing,
            },
            SessionEvent::StartupTimedOut => {
                if starting {
                    self.phase = Phase::Ended;
                    Action::AbortStartup(StartupFailure::TimedOut)
                } else {
                    Action::Nothing
                }
            },
            SessionEvent::SurfaceResized { cols, rows } => match self.phase {
                Phase::Attached => {
                    self.surface = (cols, rows);
                    if cols != self.declared.0 || rows != self.declared.1 {
                        self.declared = (cols, rows);
                        Action::Send(make_resize(cols, rows))
                    } else {
                        Action::Nothing
                    }
                },
                Phase::Attaching => {
                    self.surface = (cols, rows);
                    Action::Nothing
                },
                _ => Action::Nothing,
            },
            SessionEvent::Input(input) => match self.phase {
                Phase::Attached => match translate(&input) {
                    Some(out) => Action::Send(out),
                    None => Action::Nothing,
                },
                _ => Action::Nothing,
            },
            SessionEvent::CloseRequested => match self.phase {
                Phase::Created | Phase::Attaching | Phase::Attached => {
                    self.phase = Phase::Closing;
                    Action::Send(make_quit())
                },
                _ => Action::Nothing,
            },
            SessionEvent::GraceElapsed => match self.phase {
                Phase::Closing => {
                    self.phase = Phase::Killing;
                    Action::Kill
                },
                _ => Action::Nothing,
            },
            SessionEvent::ProcessExited { status } => match self.phase {
                Phase::Created | Phase::Attaching => {
                    self.phase = Phase::Ended;
                    Action::AbortStartup(StartupFailure::Exited(status))
                },
                Phase::Attached => {
                    self.phase = Phase::Ended;
                    Action::Finish { status, how: Ending::Unexpected }
                },
                Phase::Closing => {
                    self.phase = Phase::Ended;
                    Action::Finish { status, how: Ending::Graceful }
                },
                Phase::Killing => {
                    self.phase = Phase::Ended;
                    Action::Finish { status, how: Ending::Killed }
                },
                Phase::Ended => Action::Nothing,
            },
            SessionEvent::ConnectionFailed => match self.phase {
                Phase::Created | Phase::Attaching => {
                    self.phase = Phase::Ended;
                    Action::AbortStartup(StartupFailure::ConnectionFailed)
                },
                Phase::Attached | Phase::Closing => {
                    self.phase = Phase::Killing;
                    Action::Kill
                },
                _ => Action::Nothing,
            },
        }
    }
}

} // verus!
