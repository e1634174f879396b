//! Request and response correlation.
//!
//! The client owns the table of calls that wait for their answer. It
//! makes the bytes of outgoing requests and notifications, and it turns
//! the inbound byte stream into events, in arrival order. It performs no
//! I/O: the caller writes the bytes it is given and hands in the bytes it
//! has read.

use vstd::prelude::*;
use crate::lookup::{lemma_position, position};
use crate::message::{encode_message, sendable, wire_bytes, Message, Msg};
use crate::stream::{frames, incoming_views, lemma_frames_split, Decoder, Incoming};
use crate::value::{views, Val, Value};

verus! {

/// What the inbound stream brought, as a mathematical object.
pub enum EventV<T> {
    Completed { id: u64, token: T, outcome: Result<Val, Val> },
    Notification { method: Seq<u8>, params: Seq<Val> },
    Request { id: u64, method: Seq<u8>, params: Seq<Val> },
    Unmatched { id: u64 },
    Malformed,
    Lost { cancelled: Seq<(u64, T)> },
}

/// What the inbound stream brought.
#[derive(Debug, PartialEq)]
pub enum Event<T> {
    /// The answer to a call that waited for it: the call's token, and the
    /// result or the error payload of the peer.
    Completed { id: u64, token: T, outcome: Result<Value, Value> },
    /// A notification, for the one handler of notifications.
    Notification { method: Vec<u8>, params: Vec<Value> },
    /// A request of the peer, which expects a response with this id.
    Request { id: u64, method: Vec<u8>, params: Vec<Value> },
    /// A response that no waiting call matches. It is dropped.
    Unmatched { id: u64 },
    /// A frame that was no message. It is dropped.
    Malformed,
    /// Malformed frames came in a row beyond the tolerance: the
    /// connection counts as lost, and these calls will get no answer.
    Lost { cancelled: Vec<(u64, T)> },
}

impl<T> View for Event<T> {
    type V = EventV<T>;

    open spec fn view(&self) -> EventV<T> {
        match self {
            Event::Completed { id, token, outcome } => EventV::Completed {
                id: *id,
                token: *token,
                outcome: match outcome {
                    Ok(v) => Ok(v@),
                    Err(e) => Err(e@),
                },
            },
            Event::Notification { method, params } => EventV::Notification {
                method: method@,
                params: views(params@),
            },
            Event::Request { id, method, params } => EventV::Request {
                id: *id,
                method: method@,
                params: views(params@),
            },
            Event::Unmatched { id } => EventV::Unmatched { id: *id },
            Event::Malformed => EventV::Malformed,
            Event::Lost { cancelled } => EventV::Lost { cancelled: cancelled@ },
        }
    }
}

/// The events, one by one, as mathematical objects.
pub open spec fn event_views<T>(events: Seq<Event<T>>) -> Seq<EventV<T>> {
    Seq::new(events.len(), |i: int| events[i]@)
}

/// The state of the correlation: the calls that wait, oldest first, each
/// with its token; the number of malformed frames that came in a row;
/// and whether the connection counts as lost.
pub struct Table<T> {
    pub pending: Seq<(u64, T)>,
    pub strikes: nat,
    pub lost: bool,
}

/// The ids of the waiting calls rise strictly and lie below `next_id`:
/// no id waits twice, and the next id is fresh.
pub open spec fn ids_in_order<T>(pending: Seq<(u64, T)>, next_id: u64) -> bool {
    &&& forall|i: int, j: int| 0 <= i < j < pending.len() ==> pending[i].0 < pending[j].0
    &&& forall|i: int| 0 <= i < pending.len() ==> (#[trigger] pending[i]).0 < next_id
}

/// What one message does to the waiting calls, and the event it gives.
pub open spec fn dispatch<T>(pending: Seq<(u64, T)>, m: Msg) -> (Seq<(u64, T)>, EventV<T>) {
    match m {
        Msg::Response { id, outcome } => match position(pending, id) {
            Some(i) => (pending.remove(i), EventV::Completed { id, token: pending[i].1, outcome }),
            None => (pending, EventV::Unmatched { id }),
        },
        Msg::Notification { method, params } => (pending, EventV::Notification { method, params }),
        Msg::Request { id, method, params } => (pending, EventV::Request { id, method, params }),
    }
}

/// What one frame of the inbound stream does, and the events it gives.
///
/// A message resets the count of malformed frames. A malformed frame
/// raises it; once more than `tolerance` came in a row the connection
/// counts as lost and every waiting call is cancelled. A lost connection
/// gives no further events.
pub open spec fn step<T>(t: Table<T>, tolerance: nat, item: Option<Msg>) -> (
    Table<T>,
    Seq<EventV<T>>,
) {
    if t.lost {
        (t, Seq::empty())
    } else {
        match item {
            Some(m) => {
                let d = dispatch(t.pending, m);
                (Table { pending: d.0, strikes: 0, lost: false }, seq![d.1])
            },
            None => if t.strikes >= tolerance {
                (
                    Table { pending: Seq::empty(), strikes: t.strikes, lost: true },
                    seq![EventV::Malformed, EventV::Lost { cancelled: t.pending }],
                )
            } else {
                (
                    Table { pending: t.pending, strikes: t.strikes + 1, lost: false },
                    seq![EventV::Malformed],
                )
            },
        }
    }
}

/// What a run of frames does, frame by frame, and the events it gives in
/// the order of the frames.
pub open spec fn run<T>(t: Table<T>, tolerance: nat, items: Seq<Option<Msg>>) -> (
    Table<T>,
    Seq<EventV<T>>,
)
    decreases items.len(),
{
    if items.len() == 0 {
        (t, Seq::empty())
    } else {
        let first = step(t, tolerance, items[0]);
        let later = run(first.0, tolerance, items.drop_first());
        (later.0, first.1 + later.1)
    }
}

/// What declaring the connection lost does: every waiting call is
/// cancelled.
pub open spec fn lose<T>(t: Table<T>) -> (Table<T>, Seq<(u64, T)>) {
    (Table { pending: Seq::empty(), strikes: t.strikes, lost: true }, t.pending)
}

/// What a chunk of the inbound stream does to a client whose decoder
/// held `kept`: the state after it, the events it gives, and the bytes
/// that the decoder then holds.
pub open spec fn received<T>(t: Table<T>, tolerance: nat, kept: Seq<u8>, chunk: Seq<u8>) -> (
    Table<T>,
    Seq<EventV<T>>,
    Seq<u8>,
) {
    let f = frames(kept + chunk);
    let r = run(t, tolerance, f.0);
    (r.0, r.1, f.1)
}

/// The events answer the call `id`: one of them completes it, or one
/// declares the connection lost and lists it as cancelled.
pub open spec fn resolves<T>(events: Seq<EventV<T>>, id: u64) -> bool {
    exists|k: int|
        0 <= k < events.len() && match #[trigger] events[k] {
            EventV::Completed { id: done, .. } => done == id,
            EventV::Lost { cancelled } => position(cancelled, id) is Some,
            _ => false,
        }
}

proof fn lemma_position_first<T>(pending: Seq<(u64, T)>, id: u64, i: int)
    requires
        0 <= i < pending.len(),
        pending[i].0 == id,
        forall|k: int| 0 <= k < i ==> (#[trigger] pending[k]).0 != id,
    ensures
        position(pending, id) == Some(i),
{
    lemma_position(pending, id);
}

proof fn lemma_position_none<T>(pending: Seq<(u64, T)>, id: u64)
    requires
        forall|k: int| 0 <= k < pending.len() ==> (#[trigger] pending[k]).0 != id,
    ensures
        position(pending, id) is None,
{
    lemma_position(pending, id);
}

/// A run over frames in two parts is the run over the first part
/// followed by the run over the second.
pub proof fn lemma_run_concat<T>(
    t: Table<T>,
    tolerance: nat,
    xs: Seq<Option<Msg>>,
    ys: Seq<Option<Msg>>,
)
    ensures
        run(t, tolerance, xs + ys) == (
            run(run(t, tolerance, xs).0, tolerance, ys).0,
            run(t, tolerance, xs).1 + run(run(t, tolerance, xs).0, tolerance, ys).1,
        ),
    decreases xs.len(),
{
    if xs.len() == 0 {
        assert(xs + ys =~= ys);
        assert(Seq::<EventV<T>>::empty() + run(t, tolerance, ys).1 =~= run(t, tolerance, ys).1);
    } else {
        let first = step(t, tolerance, xs[0]);
        assert((xs + ys)[0] == xs[0]);
        assert((xs + ys).drop_first() =~= xs.drop_first() + ys);
        lemma_run_concat(first.0, tolerance, xs.drop_first(), ys);
        let mid = run(first.0, tolerance, xs.drop_first());
        let end = run(mid.0, tolerance, ys);
        assert(first.1 + (mid.1 + end.1) =~= (first.1 + mid.1) + end.1);
    }
}

/// What a client does with the inbound stream does not depend on where
/// the stream is cut: taking `a` and then `b` leaves the state, gives the
/// events and keeps the bytes that taking `a` followed by `b` at once
/// does.
pub proof fn lemma_receive_split<T>(
    t: Table<T>,
    tolerance: nat,
    kept: Seq<u8>,
    a: Seq<u8>,
    b: Seq<u8>,
)
    ensures
        received(t, tolerance, kept, a + b) == ({
            let first = received(t, tolerance, kept, a);
            let second = received(first.0, tolerance, first.2, b);
            (second.0, first.1 + second.1, second.2)
        }),
{
    assert(kept + (a + b) =~= (kept + a) + b);
    lemma_frames_split(kept + a, b);
    lemma_run_concat(t, tolerance, frames(kept + a).0, frames(frames(kept + a).1 + b).0);
}

/// A call that waits is answered exactly when it stops waiting: after a
/// frame it still waits, unless the frame's events complete it or cancel
/// it with the connection. No call is dropped in silence.
pub proof fn lemma_call_waits_until_resolved<T>(
    t: Table<T>,
    next_id: u64,
    tolerance: nat,
    item: Option<Msg>,
    id: u64,
)
    requires
        ids_in_order(t.pending, next_id),
        position(t.pending, id) is Some,
        !t.lost,
    ensures
        (position(step(t, tolerance, item).0.pending, id) is Some) == !resolves(
            step(t, tolerance, item).1,
            id,
        ),
{
    let after = step(t, tolerance, item);
    let i = position(t.pending, id)->0;
    lemma_position(t.pending, id);
    lemma_position(after.0.pending, id);
    match item {
        None => {
            if t.strikes >= tolerance {
                assert(after.1[1] == EventV::Lost { cancelled: t.pending });
            } else {
                assert(after.0.pending[i].0 == id);
            }
        },
        Some(m) => {
            match m {
                Msg::Response { id: done, outcome } => {
                    lemma_position(t.pending, done);
                    match position(t.pending, done) {
                        Some(j) => {
                            if done == id {
                                assert(i == j);
                                assert(after.1[0] is Completed);
                                assert forall|k: int|
                                    0 <= k < after.0.pending.len() implies (
                                #[trigger] after.0.pending[k]).0 != id by {
                                    let k0 = if k < j {
                                        k
                                    } else {
                                        k + 1
                                    };
                                    assert(after.0.pending[k] == t.pending[k0]);
                                }
                            } else {
                                let i1 = if i < j {
                                    i
                                } else {
                                    i - 1
                                };
                                assert(after.0.pending[i1] == t.pending[i]);
                            }
                        },
                        None => {
                            assert(after.0.pending[i].0 == id);
                        },
                    }
                },
                _ => {
                    assert(after.0.pending[i].0 == id);
                },
            }
        },
    }
}

/// A call that waits when the connection is declared lost is handed back
/// as cancelled, and nothing waits afterwards.
pub proof fn lemma_lost_connection_cancels<T>(t: Table<T>, id: u64)
    requires
        position(t.pending, id) is Some,
    ensures
        position(lose(t).1, id) is Some,
        lose(t).0.pending.len() == 0,
        lose(t).0.lost,
{
}

/// The same items in the opposite order.
fn reversed<A>(v: Vec<A>) -> (r: Vec<A>)
    ensures
        r@ == v@.reverse(),
{
    let ghost all = v@;
    let mut v = v;
    let mut r: Vec<A> = Vec::new();
    while v.len() > 0
        invariant
            v@ == all.take(v.len() as int),
            v.len() <= all.len(),
            r@ == all.skip(v.len() as int).reverse(),
        decreases v.len(),
    {
        let ghost n = v.len() as int;
        let x = v.pop().unwrap();
        r.push(x);
        proof {
            assert(v@ =~= all.take(n - 1));
            assert(r@ =~= all.skip(n - 1).reverse());
        }
    }
    proof {
        assert(all.skip(0) =~= all);
    }
    r
}

/// Why a call or a notification was not made.
#[derive(Debug, Clone, Copy, PartialEq, Eq, Structural)]
pub enum CallError {
    /// The connection counts as lost.
    ConnectionLost,
    /// No id is left to give to a request.
    IdsExhausted,
    /// The message cannot be written: a length in it exceeds 32 bits, or
    /// it nests arrays and mappings too deep.
    TooLarge,
}

/// The client end of a connection.
///
/// `T` is what the caller keeps for each call that waits: it comes back
/// with the answer, or when the call is cancelled.
pub struct Client<T> {
    decoder: Decoder,
    next_id: u64,
    pending: Vec<(u64, T)>,
    strikes: u32,
    tolerance: u32,
    lost: bool,
}

impl<T> Client<T> {
    /// The state of the correlation.
    pub closed spec fn table(&self) -> Table<T> {
        Table { pending: self.pending@, strikes: self.strikes as nat, lost: self.lost }
    }

    /// The id that the next call gets.
    pub closed spec fn next_id(&self) -> u64 {
        self.next_id
    }

    /// How many malformed frames in a row the connection survives.
    pub closed spec fn tolerance(&self) -> nat {
        self.tolerance as nat
    }

    /// The inbound bytes that wait for the rest of their frame.
    pub closed spec fn kept(&self) -> Seq<u8> {
        self.decoder.kept()
    }

    /// No id waits twice, and the next id is fresh.
    pub closed spec fn wf(&self) -> bool {
        ids_in_order(self.pending@, self.next_id)
    }

    /// A client of a fresh connection: no call waits, ids start at 0.
    pub fn new(tolerance: u32) -> (c: Self)
        ensures
            c.wf(),
            c.table() == (Table::<T> { pending: Seq::empty(), strikes: 0, lost: false }),
            c.next_id() == 0,
            c.tolerance() == tolerance,
            c.kept() == Seq::<u8>::empty(),
    {
        Client::starting_at(tolerance, 0)
    }

    /// A client of a fresh connection whose ids start at `first_id`.
    pub fn starting_at(tolerance: u32, first_id: u64) -> (c: Self)
        ensures
            c.wf(),
            c.table() == (Table::<T> { pending: Seq::empty(), strikes: 0, lost: false }),
            c.next_id() == first_id,
            c.tolerance() == tolerance,
            c.kept() == Seq::<u8>::empty(),
    {
        Client {
            decoder: Decoder::new(),
            next_id: first_id,
            pending: Vec::new(),
            strikes: 0,
            tolerance,
            lost: false,
        }
    }

    /// Whether the connection counts as lost.
    pub fn is_lost(&self) -> (r: bool)
        ensures
            r == self.table().lost,
    {
        self.lost
    }

    /// The number of calls that wait for their answer.
    pub fn waiting(&self) -> (n: usize)
        ensures
            n == self.table().pending.len(),
    {
        self.pending.len()
    }

    /// Whether a call with this id waits for its answer.
    pub fn is_waiting(&self, id: u64) -> (r: bool)
        ensures
            r == (position(self.table().pending, id) is Some),
    {
        self.find(id).is_some()
    }

    fn find(&self, id: u64) -> (r: Option<usize>)
        ensures
            match r {
                Some(i) => position(self.pending@, id) == Some(i as int) && i < self.pending.len(),
                None => position(self.pending@, id) is None,
            },
    {
        let mut i: usize = 0;
        while i < self.pending.len()
            invariant
                i <= self.pending.len(),
                forall|k: int| 0 <= k < i ==> (#[trigger] self.pending@[k]).0 != id,
            decreases self.pending.len() - i,
        {
            if self.pending[i].0 == id {
                proof {
                    lemma_position_first(self.pending@, id, i as int);
                }
                return Some(i);
            }
            i = i + 1;
        }
        proof {
            lemma_position_none(self.pending@, id);
        }
        None
    }

    /// Begins a call: gives the request an id that no waiting call has,
    /// notes that it waits, and returns the id with the bytes to write.
    ///
    /// The call is refused, and `token` handed back, when the connection
    /// counts as lost, when no id is left, or when the request cannot be
    /// written. Nothing changes then.
    pub fn call(&mut self, method: Vec<u8>, params: Vec<Value>, token: T) -> (r: Result<
        (u64, Vec<u8>),
        (CallError, T),
    >)
        requires
            old(self).wf(),
        ensures
            final(self).wf(),
            final(self).tolerance() == old(self).tolerance(),
            final(self).kept() == old(self).kept(),
            match r {
                Ok((id, bytes)) => {
                    &&& !old(self).table().lost
                    &&& position(old(self).table().pending, id) is None
                    &&& id == old(self).next_id()
                    &&& final(self).next_id() == id + 1
                    &&& sendable(Msg::Request { id, method: method@, params: views(params@) })
                    &&& bytes@ == wire_bytes(
                        Msg::Request { id, method: method@, params: views(params@) },
                    )
                    &&& final(self).table() == (Table {
                        pending: old(self).table().pending.push((id, token)),
                        ..old(self).table()
                    })
                },
                Err((why, back)) => {
                    &&& back == token
                    &&& final(self).table() == old(self).table()
                    &&& final(self).next_id() == old(self).next_id()
                    &&& why == if old(self).table().lost {
                        CallError::ConnectionLost
                    } else if old(self).next_id() == u64::MAX {
                        CallError::IdsExhausted
                    } else {
                        CallError::TooLarge
                    }
                    &&& why == CallError::TooLarge ==> !sendable(
                        Msg::Request {
                            id: old(self).next_id(),
                            method: method@,
                            params: views(params@),
                        },
                    )
                },
            },
    {
        if self.lost {
            return Err((CallError::ConnectionLost, token));
        }
        if self.next_id == u64::MAX {
            return Err((CallError::IdsExhausted, token));
        }
        let id: u64 = self.next_id;
        proof {
            lemma_position(self.pending@, id);
        }
        let msg = Message::Request { id, method, params };
        match encode_message(&msg) {
            None => Err((CallError::TooLarge, token)),
            Some(bytes) => {
                self.next_id = id + 1;
                self.pending.push((id, token));
                Ok((id, bytes))
            },
        }
    }

    /// The bytes of a notification to write. Nothing waits for an answer.
    pub fn notify(&self, method: Vec<u8>, params: Vec<Value>) -> (r: Result<Vec<u8>, CallError>)
        ensures
            match r {
                Ok(bytes) => {
                    &&& !self.table().lost
                    &&& sendable(Msg::Notification { method: method@, params: views(params@) })
                    &&& bytes@ == wire_bytes(
                        Msg::Notification { method: method@, params: views(params@) },
                    )
                },
                Err(why) => if self.table().lost {
                    why == CallError::ConnectionLost
                } else {
                    why == CallError::TooLarge && !sendable(
                        Msg::Notification { method: method@, params: views(params@) },
                    )
                },
            },
    {
        if self.lost {
            return Err(CallError::ConnectionLost);
        }
        let msg = Message::Notification { method, params };
        match encode_message(&msg) {
            None => Err(CallError::TooLarge),
            Some(bytes) => Ok(bytes),
        }
    }

    /// Takes one frame of the inbound stream.
    pub fn handle(&mut self, item: Incoming) -> (events: Vec<Event<T>>)
        requires
            old(self).wf(),
        ensures
            final(self).wf(),
            final(self).next_id() == old(self).next_id(),
            final(self).tolerance() == old(self).tolerance(),
            final(self).kept() == old(self).kept(),
            (final(self).table(), event_views(events@)) == step(
                old(self).table(),
                old(self).tolerance(),
                item@,
            ),
    {
        let mut events: Vec<Event<T>> = Vec::new();
        if self.lost {
            proof {
                assert(event_views(events@) =~= Seq::<EventV<T>>::empty());
            }
            return events;
        }
        match item {
            Incoming::Malformed => {
                events.push(Event::Malformed);
                if self.strikes >= self.tolerance {
                    let mut cancelled: Vec<(u64, T)> = Vec::new();
                    std::mem::swap(&mut self.pending, &mut cancelled);
                    self.lost = true;
                    proof {
                        assert(self.pending@ =~= Seq::<(u64, T)>::empty());
                    }
                    let ghost lost = EventV::Lost { cancelled: cancelled@ };
                    events.push(Event::Lost { cancelled });
                    proof {
                        assert(event_views(events@) =~= seq![EventV::Malformed, lost]);
                    }
                } else {
                    self.strikes = self.strikes + 1;
                    proof {
                        assert(event_views(events@) =~= seq![EventV::<T>::Malformed]);
                    }
                }
            },
            Incoming::Message(msg) => {
                let ghost m = msg@;
                self.strikes = 0;
                let event = match msg {
                    Message::Response { id, outcome } => match self.find(id) {
                        Some(i) => {
                            let ghost before = self.pending@;
                            let entry = self.pending.remove(i);
                            proof {
                                assert forall|a: int, b: int|
                                    0 <= a < b < self.pending@.len() implies self.pending@[a].0
                                    < self.pending@[b].0 by {
                                    let a0 = if a < i { a } else { a + 1 };
                                    let b0 = if b < i { b } else { b + 1 };
                                    assert(self.pending@[a] == before[a0]);
                                    assert(self.pending@[b] == before[b0]);
                                }
                                assert forall|a: int| 0 <= a < self.pending@.len() implies (
                                #[trigger] self.pending@[a]).0 < self.next_id by {
                                    let a0 = if a < i { a } else { a + 1 };
                                    assert(self.pending@[a] == before[a0]);
                                }
                            }
                            Event::Completed { id, token: entry.1, outcome }
                        },
                        None => Event::Unmatched { id },
                    },
                    Message::Notification { method, params } => Event::Notification {
                        method,
                        params,
                    },
                    Message::Request { id, method, params } => Event::Request {
                        id,
                        method,
                        params,
                    },
                };
                let ghost e = event@;
                events.push(event);
                proof {
                    assert(event_views(events@) =~= seq![e]);
                    assert(e == dispatch(old(self).table().pending, m).1);
                }
            },
        }
        events
    }

    /// Takes the next chunk of the inbound stream and returns what it
    /// brought: one event for each message that is now there in full, in
    /// the order of arrival, with the notes on dropped frames in between.
    pub fn receive(&mut self, chunk: &[u8]) -> (events: Vec<Event<T>>)
        requires
            old(self).wf(),
        ensures
            final(self).wf(),
            final(self).next_id() == old(self).next_id(),
            final(self).tolerance() == old(self).tolerance(),
            (final(self).table(), event_views(events@), final(self).kept()) == received(
                old(self).table(),
                old(self).tolerance(),
                old(self).kept(),
                chunk@,
            ),
    {
        let items = self.decoder.feed(chunk);
        let ghost all = incoming_views(items@);
        let ghost start = self.table();
        let mut rest: Vec<Incoming> = reversed(items);
        let mut events: Vec<Event<T>> = Vec::new();
        proof {
            assert(incoming_views(rest@.reverse()) =~= all);
            assert(event_views(events@) + run(start, self.tolerance(), all).1 =~= run(
                start,
                self.tolerance(),
                all,
            ).1);
        }
        while rest.len() > 0
            invariant
                self.wf(),
                self.next_id() == old(self).next_id(),
                self.tolerance() == old(self).tolerance(),
                self.kept() == frames(old(self).kept() + chunk@).1,
                run(start, self.tolerance(), all).0 == run(
                    self.table(),
                    self.tolerance(),
                    incoming_views(rest@.reverse()),
                ).0,
                run(start, self.tolerance(), all).1 == event_views(events@) + run(
                    self.table(),
                    self.tolerance(),
                    incoming_views(rest@.reverse()),
                ).1,
            decreases rest.len(),
        {
            let ghost todo = incoming_views(rest@.reverse());
            let ghost done = event_views(events@);
            let item = rest.pop().unwrap();
            proof {
                assert(todo[0] == item@);
                assert(incoming_views(rest@.reverse()) =~= todo.drop_first());
            }
            let mut more = self.handle(item);
            let ghost fresh = event_views(more@);
            events.append(&mut more);
            proof {
                assert(event_views(events@) =~= done + fresh);
                let later = run(self.table(), self.tolerance(), todo.drop_first());
                assert(done + (fresh + later.1) =~= (done + fresh) + later.1);
            }
        }
        proof {
            assert(incoming_views(rest@.reverse()) =~= Seq::<Option<Msg>>::empty());
            assert(event_views(events@) + Seq::<EventV<T>>::empty() =~= event_views(events@));
        }
        events
    }

    /// Declares the connection lost, as after a failed read or write or
    /// the exit of the peer: every waiting call is cancelled and handed
    /// back, oldest first.
    pub fn connection_lost(&mut self) -> (cancelled: Vec<(u64, T)>)
        requires
            old(self).wf(),
        ensures
            final(self).wf(),
            final(self).next_id() == old(self).next_id(),
            final(self).tolerance() == old(self).tolerance(),
            final(self).kept() == old(self).kept(),
            (final(self).table(), cancelled@) == lose(old(self).table()),
    {
        let mut cancelled: Vec<(u64, T)> = Vec::new();
        std::mem::swap(&mut self.pending, &mut cancelled);
        self.lost = true;
        proof {
            assert(self.pending@ =~= Seq::<(u64, T)>::empty());
        }
        cancelled
    }
}

} // verus!
