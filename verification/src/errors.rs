//! The kinds of failure, and which of them end a session.

use vstd::prelude::*;
use crate::reconciler::{Note, NoteV};
use crate::rpc::{Event, EventV};
use crate::ui_model::Applied;

verus! {

/// A kind of failure.
#[derive(Debug, Clone, Copy, PartialEq, Eq)]
pub enum ErrorKind {
    /// The stream failed or the editor is gone. The session ends.
    Transport,
    /// What arrived is not what the protocol says. It is dropped.
    Protocol,
    /// The editor answered a call with an error. The caller gets it.
    Remote,
    /// What arrived fits nothing that is there. It is dropped.
    Anomaly,
}

/// Whether a failure of this kind ends the session.
pub open spec fn fatal(kind: ErrorKind) -> bool {
    kind is Transport
}

/// The kind of failure that an event of the inbound stream tells of, if
/// it tells of one.
pub open spec fn kind_of_event<T>(ev: EventV<T>) -> Option<ErrorKind> {
    match ev {
        EventV::Completed { outcome, .. } => if outcome is Err {
            Some(ErrorKind::Remote)
        } else {
            None
        },
        EventV::Unmatched { .. } => Some(ErrorKind::Anomaly),
        EventV::Malformed => Some(ErrorKind::Protocol),
        EventV::Lost { .. } => Some(ErrorKind::Transport),
        _ => None,
    }
}

/// The kind of failure that the end of a redraw event tells of, if it
/// tells of one.
pub open spec fn kind_of_applied(how: Applied) -> Option<ErrorKind> {
    match how {
        Applied::Done => None,
        _ => Some(ErrorKind::Anomaly),
    }
}

/// The kind of failure that a note on a redraw batch tells of.
pub open spec fn kind_of_note(note: NoteV) -> ErrorKind {
    match note {
        NoteV::UnknownEvent(_) => ErrorKind::Anomaly,
        NoteV::MalformedEvent => ErrorKind::Protocol,
    }
}

/// Whether a failure of this kind ends the session.
pub fn is_fatal(kind: ErrorKind) -> (r: bool)
    ensures
        r == fatal(kind),
{
    match kind {
        ErrorKind::Transport => true,
        _ => false,
    }
}

/// The kind of failure that an event of the inbound stream tells of, if
/// it tells of one.
pub fn of_event<T>(ev: &Event<T>) -> (r: Option<ErrorKind>)
    ensures
        r == kind_of_event(ev@),
{
    match ev {
        Event::Completed { outcome, .. } => match outcome {
            Err(_) => Some(ErrorKind::Remote),
            Ok(_) => None,
        },
        Event::Unmatched { .. } => Some(ErrorKind::Anomaly),
        Event::Malformed => Some(ErrorKind::Protocol),
        Event::Lost { .. } => Some(ErrorKind::Transport),
        _ => None,
    }
}

/// The kind of failure that the end of a redraw event tells of, if it
/// tells of one.
pub fn of_applied(how: Applied) -> (r: Option<ErrorKind>)
    ensures
        r == kind_of_applied(how),
{
    match how {
        Applied::Done => None,
        _ => Some(ErrorKind::Anomaly),
    }
}

/// The kind of failure that a note on a redraw batch tells of.
pub fn of_note(note: &Note) -> (r: ErrorKind)
    ensures
        r == kind_of_note(note@),
{
    match note {
        Note::UnknownEvent(_) => ErrorKind::Anomaly,
        Note::MalformedEvent => ErrorKind::Protocol,
    }
}

/// Only a failure of the transport ends a session: a malformed frame, an
/// error of the editor and an anomaly leave it running.
pub proof fn lemma_only_transport_is_fatal(kind: ErrorKind)
    ensures
        fatal(kind) <==> kind == ErrorKind::Transport,
{
}

} // verus!
