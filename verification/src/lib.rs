//! The protocol core of a Neovim front-end.
//!
//! The library performs no I/O. Its caller starts the editor, moves the
//! bytes and draws; the library says what the bytes mean, what the
//! display holds, and what is to be sent.
//!
//! - `value`, `wire`, `wire_laws`, `codec`: protocol values and their
//!   bytes.
//! - `message`, `stream`, `rpc`: messages, the inbound stream cut into
//!   messages, and the calls that wait for their answer.
//! - `grid`, `ui_model`, `redraw`, `reconciler`: the display state, the
//!   redraw events that change it, and the frames that a flush completes.
//! - `input`, `session`, `subscriptions`: what is sent to the editor, and
//!   when.
//! - `handoff`: the bounded queue between the reading and the showing
//!   thread.
//! - `errors`: the kinds of failure.
//! - `args`: switches read from the command line.
//! - `lookup`, `text`: helpers.

pub mod args;
pub mod codec;
pub mod errors;
pub mod grid;
pub mod handoff;
pub mod input;
pub mod lookup;
pub mod message;
pub mod reconciler;
pub mod redraw;
pub mod rpc;
pub mod session;
pub mod stream;
pub mod subscriptions;
pub mod text;
pub mod ui_model;
pub mod value;
pub mod wire;
pub mod wire_laws;
