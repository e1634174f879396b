use nvim_bridge::input::{InputEvent, KeyPress, Modifiers, Outgoing};
use nvim_bridge::session::{
    Action, Ending, Phase, Session, SessionEvent, StartupFailure, UiOptions,
};
use nvim_bridge::value::Value;

fn ses_text(s: &str) -> Value {
    Value::Str(s.as_bytes().to_vec())
}

fn ses_options() -> UiOptions {
    UiOptions { rgb: true, ext_popupmenu: true, ext_tabline: false }
}

fn ses_key(c: char) -> SessionEvent {
    SessionEvent::Input(InputEvent::Key(KeyPress {
        name: vec![],
        unicode: Some(c),
        mods: Modifiers { shift: false, ctrl: false, alt: false },
    }))
}

fn ses_resize(cols: u64, rows: u64) -> Action {
    Action::Send(Outgoing::Call {
        method: b"nvim_ui_try_resize".to_vec(),
        params: vec![Value::UInt(cols), Value::UInt(rows)],
    })
}

fn ses_attached() -> Session {
    let mut s = Session::new();
    s.step(SessionEvent::SurfaceReady { cols: 80, rows: 24, options: ses_options() });
    assert_eq!(s.step(SessionEvent::AttachAnswered { accepted: true }), Action::Nothing);
    assert_eq!(s.phase, Phase::Attached);
    s
}

#[test]
fn a_session_begins_in_its_first_phase() {
    let s = Session::new();
    assert_eq!(s, Session { phase: Phase::Created, declared: (0, 0), surface: (0, 0) });
}

#[test]
fn the_attach_handshake_declares_size_and_capabilities() {
    let mut s = Session::new();
    let action = s.step(SessionEvent::SurfaceReady { cols: 80, rows: 24, options: ses_options() });
    assert_eq!(
        action,
        Action::Send(Outgoing::Call {
            method: b"nvim_ui_attach".to_vec(),
            params: vec![
                Value::UInt(80),
                Value::UInt(24),
                Value::Mapping(vec![
                    (ses_text("rgb"), Value::Bool(true)),
                    (ses_text("ext_linegrid"), Value::Bool(true)),
                    (ses_text("ext_popupmenu"), Value::Bool(true)),
                    (ses_text("ext_tabline"), Value::Bool(false)),
                ]),
            ],
        })
    );
    assert_eq!(s, Session { phase: Phase::Attaching, declared: (80, 24), surface: (80, 24) });
}

#[test]
fn the_attach_handshake_goes_out_once() {
    let mut s = Session::new();
    let ready = || SessionEvent::SurfaceReady { cols: 80, rows: 24, options: ses_options() };
    assert!(matches!(s.step(ready()), Action::Send(_)));
    assert_eq!(s.step(ready()), Action::Nothing);
    s.step(SessionEvent::AttachAnswered { accepted: true });
    assert_eq!(s.step(ready()), Action::Nothing);
    s.step(SessionEvent::CloseRequested);
    assert_eq!(s.step(ready()), Action::Nothing);
    s.step(SessionEvent::ProcessExited { status: 0 });
    assert_eq!(s.step(ready()), Action::Nothing);
    assert_eq!(s.phase, Phase::Ended);
}

#[test]
fn no_input_is_forwarded_before_the_editor_accepted_the_attach() {
    let mut s = Session::new();
    assert_eq!(s.step(ses_key('i')), Action::Nothing);
    s.step(SessionEvent::SurfaceReady { cols: 80, rows: 24, options: ses_options() });
    assert_eq!(s.step(ses_key('i')), Action::Nothing);
    s.step(SessionEvent::AttachAnswered { accepted: true });
    assert_eq!(
        s.step(ses_key('i')),
        Action::Send(Outgoing::Notify {
            method: b"nvim_input".to_vec(),
            params: vec![ses_text("i")]
        })
    );
}

#[test]
fn a_key_without_notation_is_dropped() {
    let mut s = ses_attached();
    let dead = SessionEvent::Input(InputEvent::Key(KeyPress {
        name: b"Shift_L".to_vec(),
        unicode: None,
        mods: Modifiers { shift: true, ctrl: false, alt: false },
    }));
    assert_eq!(s.step(dead), Action::Nothing);
    assert_eq!(s.phase, Phase::Attached);
}

#[test]
fn no_input_is_forwarded_once_the_session_is_closing() {
    let mut s = ses_attached();
    s.step(SessionEvent::CloseRequested);
    assert_eq!(s.step(ses_key('i')), Action::Nothing);
    s.step(SessionEvent::GraceElapsed);
    assert_eq!(s.step(ses_key('i')), Action::Nothing);
    s.step(SessionEvent::ProcessExited { status: 0 });
    assert_eq!(s.step(ses_key('i')), Action::Nothing);
}

#[test]
fn a_change_of_the_surface_is_passed_on() {
    let mut s = ses_attached();
    assert_eq!(s.step(SessionEvent::SurfaceResized { cols: 100, rows: 30 }), ses_resize(100, 30));
    assert_eq!(s.declared, (100, 30));
    assert_eq!(s.step(SessionEvent::SurfaceResized { cols: 100, rows: 30 }), Action::Nothing);
    assert_eq!(s.step(SessionEvent::SurfaceResized { cols: 100, rows: 31 }), ses_resize(100, 31));
    assert_eq!(s.step(SessionEvent::SurfaceResized { cols: 80, rows: 31 }), ses_resize(80, 31));
}

#[test]
fn a_change_of_the_surface_during_the_handshake_is_passed_on_after_it() {
    let mut s = Session::new();
    assert_eq!(s.step(SessionEvent::SurfaceResized { cols: 1, rows: 1 }), Action::Nothing);
    s.step(SessionEvent::SurfaceReady { cols: 80, rows: 24, options: ses_options() });
    assert_eq!(s.step(SessionEvent::SurfaceResized { cols: 90, rows: 24 }), Action::Nothing);
    assert_eq!(s.step(SessionEvent::SurfaceResized { cols: 90, rows: 25 }), Action::Nothing);
    assert_eq!(s.step(SessionEvent::AttachAnswered { accepted: true }), ses_resize(90, 25));
    assert_eq!(s, Session { phase: Phase::Attached, declared: (90, 25), surface: (90, 25) });
}

#[test]
fn a_refused_handshake_aborts_the_startup() {
    let mut s = Session::new();
    s.step(SessionEvent::SurfaceReady { cols: 80, rows: 24, options: ses_options() });
    assert_eq!(
        s.step(SessionEvent::AttachAnswered { accepted: false }),
        Action::AbortStartup(StartupFailure::Refused)
    );
    assert_eq!(s.phase, Phase::Ended);
}

#[test]
fn the_startup_timeout_aborts_only_the_startup() {
    let mut s = Session::new();
    assert_eq!(
        s.step(SessionEvent::StartupTimedOut),
        Action::AbortStartup(StartupFailure::TimedOut)
    );
    let mut s = Session::new();
    s.step(SessionEvent::SurfaceReady { cols: 80, rows: 24, options: ses_options() });
    assert_eq!(
        s.step(SessionEvent::StartupTimedOut),
        Action::AbortStartup(StartupFailure::TimedOut)
    );
    assert_eq!(s.phase, Phase::Ended);
    let mut s = ses_attached();
    assert_eq!(s.step(SessionEvent::StartupTimedOut), Action::Nothing);
    assert_eq!(s.phase, Phase::Attached);
}

#[test]
fn a_failure_to_start_the_editor_aborts_the_startup() {
    let mut s = Session::new();
    assert_eq!(
        s.step(SessionEvent::SpawnFailed),
        Action::AbortStartup(StartupFailure::SpawnFailed)
    );
    assert_eq!(s.phase, Phase::Ended);
    let mut s = ses_attached();
    assert_eq!(s.step(SessionEvent::SpawnFailed), Action::Nothing);
}

#[test]
fn closing_asks_the_editor_to_quit_and_kills_it_after_the_grace_period() {
    let mut s = ses_attached();
    assert_eq!(
        s.step(SessionEvent::CloseRequested),
        Action::Send(Outgoing::Notify {
            method: b"nvim_command".to_vec(),
            params: vec![ses_text("qa!")]
        })
    );
    assert_eq!(s.phase, Phase::Closing);
    assert_eq!(s.step(SessionEvent::CloseRequested), Action::Nothing);
    assert_eq!(s.step(SessionEvent::GraceElapsed), Action::Kill);
    assert_eq!(s.phase, Phase::Killing);
    assert_eq!(s.step(SessionEvent::GraceElapsed), Action::Nothing);
    assert_eq!(
        s.step(SessionEvent::ProcessExited { status: 137 }),
        Action::Finish { status: 137, how: Ending::Killed }
    );
    assert_eq!(s.phase, Phase::Ended);
    assert_eq!(s.step(SessionEvent::ProcessExited { status: 1 }), Action::Nothing);
}

#[test]
fn an_editor_that_quits_in_time_ends_the_session_gracefully() {
    let mut s = ses_attached();
    s.step(SessionEvent::CloseRequested);
    assert_eq!(
        s.step(SessionEvent::ProcessExited { status: 0 }),
        Action::Finish { status: 0, how: Ending::Graceful }
    );
    assert_eq!(s.step(SessionEvent::GraceElapsed), Action::Nothing);
    assert_eq!(s.phase, Phase::Ended);
}

#[test]
fn the_exit_status_of_the_editor_is_passed_on() {
    let mut s = ses_attached();
    assert_eq!(
        s.step(SessionEvent::ProcessExited { status: 3 }),
        Action::Finish { status: 3, how: Ending::Unexpected }
    );
    let mut s = Session::new();
    assert_eq!(
        s.step(SessionEvent::ProcessExited { status: 127 }),
        Action::AbortStartup(StartupFailure::Exited(127))
    );
}

#[test]
fn a_broken_connection_has_the_editor_killed() {
    let mut s = ses_attached();
    assert_eq!(s.step(SessionEvent::ConnectionFailed), Action::Kill);
    assert_eq!(s.phase, Phase::Killing);
    assert_eq!(s.step(SessionEvent::ConnectionFailed), Action::Nothing);
    let mut s = Session::new();
    s.step(SessionEvent::SurfaceReady { cols: 80, rows: 24, options: ses_options() });
    assert_eq!(
        s.step(SessionEvent::ConnectionFailed),
        Action::AbortStartup(StartupFailure::ConnectionFailed)
    );
    let mut s = ses_attached();
    s.step(SessionEvent::CloseRequested);
    assert_eq!(s.step(SessionEvent::ConnectionFailed), Action::Kill);
}

#[test]
fn grace_elapsing_outside_a_close_does_nothing() {
    let mut s = Session::new();
    assert_eq!(s.step(SessionEvent::GraceElapsed), Action::Nothing);
    let mut s = ses_attached();
    assert_eq!(s.step(SessionEvent::GraceElapsed), Action::Nothing);
    assert_eq!(s.phase, Phase::Attached);
}
