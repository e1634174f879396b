//! Gathering redraw events into frames.
//!
//! Events change the display only together, when a flush ends them: the
//! reconciler holds what came since the last flush and hands it out as
//! one frame when the flush arrives. The frame is then applied to the
//! display state in one go, and only then is there something to repaint.

use vstd::prelude::*;
use crate::redraw::{read_sub_event, sub_event_of, SubEvent, SubEventV};
use crate::ui_model::{redraw_views, RedrawEvent, RedrawEventV};
use crate::value::{duplicate, lemma_views, lemma_views_push, views, Val, Value};

verus! {

/// What was passed over while a batch was read.
pub enum NoteV {
    UnknownEvent(Seq<u8>),
    MalformedEvent,
}

/// What was passed over while a batch was read.
#[derive(Debug, PartialEq, Eq)]
pub enum Note {
    /// An event of a name that is not understood.
    UnknownEvent(Vec<u8>),
    /// An item that is no event.
    MalformedEvent,
}

impl View for Note {
    type V = NoteV;

    open spec fn view(&self) -> NoteV {
        match self {
            Note::UnknownEvent(name) => NoteV::UnknownEvent(name@),
            Note::MalformedEvent => NoteV::MalformedEvent,
        }
    }
}

/// What a batch gave, as a mathematical object.
pub struct AbsorbedV {
    pub frames: Seq<Seq<RedrawEventV>>,
    pub notes: Seq<NoteV>,
}

/// What a batch gave: the frames that its flushes completed, in order,
/// and notes on the items that were passed over, in order.
#[derive(Debug, PartialEq, Eq)]
pub struct Absorbed {
    pub frames: Vec<Vec<RedrawEvent>>,
    pub notes: Vec<Note>,
}

impl View for Absorbed {
    type V = AbsorbedV;

    open spec fn view(&self) -> AbsorbedV {
        AbsorbedV {
            frames: Seq::new(self.frames@.len(), |i: int| redraw_views(self.frames@[i]@)),
            notes: Seq::new(self.notes@.len(), |i: int| self.notes@[i]@),
        }
    }
}

/// What one event does to the events that wait: a flush hands them all
/// out as a frame and leaves none waiting; any other event joins them,
/// and no frame comes out.
pub open spec fn accepted(pending: Seq<RedrawEventV>, ev: RedrawEventV) -> (
    Seq<RedrawEventV>,
    Option<Seq<RedrawEventV>>,
) {
    if ev is Flush {
        (Seq::empty(), Some(pending))
    } else {
        (pending.push(ev), None)
    }
}

/// What the items of a batch from index `i` on do, after `done`: the
/// events that wait afterwards, and what the batch gave.
pub open spec fn absorbed_from(
    items: Seq<Val>,
    i: int,
    pending: Seq<RedrawEventV>,
    done: AbsorbedV,
) -> (Seq<RedrawEventV>, AbsorbedV)
    decreases items.len() - i,
{
    if i < 0 || i >= items.len() {
        (pending, done)
    } else {
        match sub_event_of(items[i]) {
            SubEventV::Known(ev) => {
                let a = accepted(pending, ev);
                match a.1 {
                    Some(frame) => absorbed_from(
                        items,
                        i + 1,
                        a.0,
                        AbsorbedV { frames: done.frames.push(frame), ..done },
                    ),
                    None => absorbed_from(items, i + 1, a.0, done),
                }
            },
            SubEventV::Unknown(name) => absorbed_from(
                items,
                i + 1,
                pending,
                AbsorbedV { notes: done.notes.push(NoteV::UnknownEvent(name)), ..done },
            ),
            SubEventV::Malformed => absorbed_from(
                items,
                i + 1,
                pending,
                AbsorbedV { notes: done.notes.push(NoteV::MalformedEvent), ..done },
            ),
        }
    }
}

/// What a batch does to the events that wait, and what it gives.
pub open spec fn absorbed(pending: Seq<RedrawEventV>, items: Seq<Val>) -> (
    Seq<RedrawEventV>,
    AbsorbedV,
) {
    absorbed_from(items, 0, pending, AbsorbedV { frames: Seq::empty(), notes: Seq::empty() })
}

/// The number of flushes among the items from index `i` on.
pub open spec fn flushes_from(items: Seq<Val>, i: int) -> nat
    decreases items.len() - i,
{
    if i < 0 || i >= items.len() {
        0
    } else if sub_event_of(items[i]) == SubEventV::Known(RedrawEventV::Flush) {
        1 + flushes_from(items, i + 1)
    } else {
        flushes_from(items, i + 1)
    }
}

/// A frame comes out when a flush arrives, and at no other event; it
/// holds every event that waited, and none waits after it.
pub proof fn lemma_frame_only_on_flush(pending: Seq<RedrawEventV>, ev: RedrawEventV)
    ensures
        accepted(pending, ev).1 is Some <==> ev is Flush,
        ev is Flush ==> accepted(pending, ev) == (Seq::<RedrawEventV>::empty(), Some(pending)),
        !(ev is Flush) ==> accepted(pending, ev).0 == pending.push(ev),
{
}

/// A batch gives as many frames as it holds flushes: between two events
/// of a batch nothing is handed out to be shown.
pub proof fn lemma_frames_count(
    items: Seq<Val>,
    i: int,
    pending: Seq<RedrawEventV>,
    done: AbsorbedV,
)
    requires
        0 <= i <= items.len(),
    ensures
        absorbed_from(items, i, pending, done).1.frames.len() == done.frames.len() + flushes_from(
            items,
            i,
        ),
    decreases items.len() - i,
{
    if i < items.len() {
        match sub_event_of(items[i]) {
            SubEventV::Known(ev) => {
                let a = accepted(pending, ev);
                match a.1 {
                    Some(frame) => {
                        lemma_frames_count(
                            items,
                            i + 1,
                            a.0,
                            AbsorbedV { frames: done.frames.push(frame), ..done },
                        );
                    },
                    None => {
                        lemma_frames_count(items, i + 1, a.0, done);
                    },
                }
            },
            SubEventV::Unknown(name) => {
                lemma_frames_count(
                    items,
                    i + 1,
                    pending,
                    AbsorbedV { notes: done.notes.push(NoteV::UnknownEvent(name)), ..done },
                );
            },
            SubEventV::Malformed => {
                lemma_frames_count(
                    items,
                    i + 1,
                    pending,
                    AbsorbedV { notes: done.notes.push(NoteV::MalformedEvent), ..done },
                );
            },
        }
    }
}

/// The frames laid end to end.
pub open spec fn laid_out(frames: Seq<Seq<RedrawEventV>>) -> Seq<RedrawEventV>
    decreases frames.len(),
{
    if frames.len() == 0 {
        Seq::empty()
    } else {
        laid_out(frames.drop_last()) + frames.last()
    }
}

/// The events among the items from index `i` on that are understood and
/// are no flush, in order.
pub open spec fn shown_from(items: Seq<Val>, i: int) -> Seq<RedrawEventV>
    decreases items.len() - i,
{
    if i < 0 || i >= items.len() {
        Seq::empty()
    } else {
        match sub_event_of(items[i]) {
            SubEventV::Known(ev) => if ev is Flush {
                shown_from(items, i + 1)
            } else {
                seq![ev] + shown_from(items, i + 1)
            },
            _ => shown_from(items, i + 1),
        }
    }
}

/// No event is lost and none changes its place: the frames that a batch
/// gives, laid end to end and followed by the events that wait after it,
/// are the events that waited before it followed by the events of the
/// batch, in their order.
pub proof fn lemma_nothing_lost(
    items: Seq<Val>,
    i: int,
    pending: Seq<RedrawEventV>,
    done: AbsorbedV,
)
    requires
        0 <= i <= items.len(),
    ensures
        laid_out(absorbed_from(items, i, pending, done).1.frames) + absorbed_from(
            items,
            i,
            pending,
            done,
        ).0 == laid_out(done.frames) + pending + shown_from(items, i),
    decreases items.len() - i,
{
    let target = laid_out(done.frames) + pending + shown_from(items, i);
    if i >= items.len() {
        assert(laid_out(done.frames) + pending =~= target);
    } else {
        match sub_event_of(items[i]) {
            SubEventV::Known(ev) => {
                if ev is Flush {
                    let next = AbsorbedV { frames: done.frames.push(pending), ..done };
                    lemma_nothing_lost(items, i + 1, Seq::empty(), next);
                    assert(next.frames.drop_last() =~= done.frames);
                    assert(laid_out(next.frames) + Seq::<RedrawEventV>::empty() + shown_from(
                        items,
                        i + 1,
                    ) =~= target);
                } else {
                    lemma_nothing_lost(items, i + 1, pending.push(ev), done);
                    assert(laid_out(done.frames) + pending.push(ev) + shown_from(items, i + 1)
                        =~= target);
                }
            },
            SubEventV::Unknown(name) => {
                lemma_nothing_lost(
                    items,
                    i + 1,
                    pending,
                    AbsorbedV { notes: done.notes.push(NoteV::UnknownEvent(name)), ..done },
                );
            },
            SubEventV::Malformed => {
                lemma_nothing_lost(
                    items,
                    i + 1,
                    pending,
                    AbsorbedV { notes: done.notes.push(NoteV::MalformedEvent), ..done },
                );
            },
        }
    }
}

/// The items of a batch are grouped by name: `[name, args, args, ...]`
/// with at least one group of arguments, each an array.
pub open spec fn is_group(v: Val) -> bool {
    v matches Val::Array(items) && items.len() >= 2 && items[0] is Str && forall|k: int|
        1 <= k < items.len() ==> (#[trigger] items[k]) is Array
}

/// The events of one item: `[name, ...args]` for each group of arguments
/// of a grouped item, and the item itself where it is not grouped.
pub open spec fn ungrouped_one(v: Val) -> Seq<Val> {
    if is_group(v) {
        let items = v->Array_0;
        Seq::new(
            (items.len() - 1) as nat,
            |k: int| Val::Array(seq![items[0]] + items[k + 1]->Array_0),
        )
    } else {
        seq![v]
    }
}

/// The events of a batch whose items may be grouped by name, one array
/// for each event.
pub open spec fn ungrouped(batch: Seq<Val>) -> Seq<Val>
    decreases batch.len(),
{
    if batch.len() == 0 {
        Seq::empty()
    } else {
        ungrouped(batch.drop_last()) + ungrouped_one(batch.last())
    }
}

/// Whether an item is grouped by name.
fn grouped(v: &Value) -> (r: bool)
    ensures
        r == is_group(v@),
{
    match v {
        Value::Array(items) => {
            proof {
                lemma_views(items@);
            }
            if items.len() < 2 {
                return false;
            }
            match &items[0] {
                Value::Str(_) => {},
                _ => {
                    return false;
                },
            }
            let mut k: usize = 1;
            while k < items.len()
                invariant
                    1 <= k <= items.len(),
                    v@ == Val::Array(views(items@)),
                    views(items@).len() == items.len(),
                    forall|j: int| 0 <= j < items.len() ==> (#[trigger] views(items@)[j]) == items[j]@,
                    forall|j: int| 1 <= j < k ==> (#[trigger] views(items@)[j]) is Array,
                decreases items.len() - k,
            {
                match &items[k] {
                    Value::Array(_) => {},
                    _ => {
                        proof {
                            assert(!(views(items@)[k as int] is Array));
                        }
                        return false;
                    },
                }
                k = k + 1;
            }
            true
        },
        _ => false,
    }
}

/// `[name, ...args]`: the name, then the arguments.
fn joined(name: &Value, args: &Vec<Value>) -> (r: Value)
    ensures
        r@ == Val::Array(seq![name@] + views(args@)),
{
    let mut out: Vec<Value> = Vec::new();
    out.push(duplicate(name));
    proof {
        lemma_views_push(Seq::<Value>::empty(), out@[0]);
        assert(out@ =~= Seq::<Value>::empty().push(out@[0]));
        assert(views(out@) =~= seq![name@] + views(args@.take(0)));
    }
    let mut i: usize = 0;
    while i < args.len()
        invariant
            i <= args.len(),
            views(out@) == seq![name@] + views(args@.take(i as int)),
        decreases args.len() - i,
    {
        let item = duplicate(&args[i]);
        proof {
            lemma_views_push(out@, item);
            lemma_views_push(args@.take(i as int), args@[i as int]);
            assert(args@.take(i + 1) =~= args@.take(i as int).push(args@[i as int]));
            assert((seq![name@] + views(args@.take(i as int))).push(item@) =~= seq![name@] + views(
                args@.take(i as int),
            ).push(item@));
        }
        out.push(item);
        i = i + 1;
    }
    proof {
        assert(args@.take(i as int) =~= args@);
    }
    Value::Array(out)
}

/// Gives each event of a batch an array of its own, where the items of
/// the batch are grouped by name.
pub fn ungroup(batch: &Vec<Value>) -> (r: Vec<Value>)
    ensures
        views(r@) == ungrouped(views(batch@)),
{
    let ghost all = views(batch@);
    proof {
        lemma_views(batch@);
    }
    let mut out: Vec<Value> = Vec::new();
    let mut i: usize = 0;
    proof {
        assert(all.take(0) =~= Seq::<Val>::empty());
    }
    while i < batch.len()
        invariant
            i <= batch.len(),
            all == views(batch@),
            all.len() == batch.len(),
            forall|k: int| 0 <= k < batch.len() ==> (#[trigger] all[k]) == batch[k]@,
            views(out@) == ungrouped(all.take(i as int)),
        decreases batch.len() - i,
    {
        let ghost before = views(out@);
        proof {
            assert(all.take(i + 1).drop_last() =~= all.take(i as int));
            assert(all.take(i + 1).last() == batch[i as int]@);
        }
        if grouped(&batch[i]) {
            match &batch[i] {
                Value::Array(items) => {
                    proof {
                        lemma_views(items@);
                    }
                    let ghost target = ungrouped_one(batch[i as int]@);
                    let mut k: usize = 1;
                    proof {
                        assert(before + target.take(0) =~= before);
                    }
                    while k < items.len()
                        invariant
                            1 <= k <= items.len(),
                            items.len() >= 2,
                            is_group(Val::Array(views(items@))),
                            target == ungrouped_one(Val::Array(views(items@))),
                            views(items@).len() == items.len(),
                            forall|j: int|
                                0 <= j < items.len() ==> (#[trigger] views(items@)[j]) == items[j]@,
                            views(out@) == before + target.take(k - 1),
                        decreases items.len() - k,
                    {
                        match &items[k] {
                            Value::Array(args) => {
                                let event = joined(&items[0], args);
                                proof {
                                    lemma_views_push(out@, event);
                                    assert(views(items@)[k as int] is Array);
                                    assert(target[k - 1] == event@);
                                    assert((before + target.take(k - 1)).push(event@) =~= before
                                        + target.take(k as int));
                                }
                                out.push(event);
                            },
                            _ => {
                                proof {
                                    assert(views(items@)[k as int] is Array);
                                    assert(false);
                                }
                            },
                        }
                        k = k + 1;
                    }
                    proof {
                        assert(target.take(k - 1) =~= target);
                    }
                },
                _ => {
                    proof {
                        assert(false);
                    }
                },
            }
        } else {
            let item = duplicate(&batch[i]);
            proof {
                lemma_views_push(out@, item);
                assert(before.push(item@) =~= before + seq![item@]);
            }
            out.push(item);
        }
        i = i + 1;
    }
    proof {
        assert(all.take(i as int) =~= all);
    }
    out
}

/// The events that wait for their flush.
pub struct Reconciler {
    pending: Vec<RedrawEvent>,
}

impl Reconciler {
    /// The events that came since the last flush, in order.
    pub closed spec fn pending(&self) -> Seq<RedrawEventV> {
        redraw_views(self.pending@)
    }

    /// A reconciler with nothing waiting.
    pub fn new() -> (r: Self)
        ensures
            r.pending() == Seq::<RedrawEventV>::empty(),
    {
        let r = Reconciler { pending: Vec::new() };
        proof {
            assert(r.pending() =~= Seq::<RedrawEventV>::empty());
        }
        r
    }

    /// The number of events that wait for their flush.
    pub fn waiting(&self) -> (n: usize)
        ensures
            n == self.pending().len(),
    {
        self.pending.len()
    }

    /// Takes one event. A flush hands out, as one frame, every event that
    /// waited; any other event waits, and nothing is handed out.
    pub fn accept(&mut self, ev: RedrawEvent) -> (frame: Option<Vec<RedrawEvent>>)
        ensures
            final(self).pending() == accepted(old(self).pending(), ev@).0,
            match accepted(old(self).pending(), ev@).1 {
                Some(events) => frame matches Some(f) && redraw_views(f@) == events,
                None => frame is None,
            },
    {
        match ev {
            RedrawEvent::Flush => {
                let mut frame: Vec<RedrawEvent> = Vec::new();
                std::mem::swap(&mut self.pending, &mut frame);
                proof {
                    assert(self.pending() =~= Seq::<RedrawEventV>::empty());
                }
                Some(frame)
            },
            _ => {
                proof {
                    assert(redraw_views(self.pending@.push(ev)) =~= redraw_views(
                        self.pending@,
                    ).push(ev@));
                }
                self.pending.push(ev);
                None
            },
        }
    }

    /// Takes the items of one batch, in order.
    pub fn absorb(&mut self, batch: &Vec<Value>) -> (r: Absorbed)
        ensures
            (final(self).pending(), r@) == absorbed(old(self).pending(), views(batch@)),
    {
        let ghost all = views(batch@);
        proof {
            lemma_views(batch@);
        }
        let mut out = Absorbed { frames: Vec::new(), notes: Vec::new() };
        let mut i: usize = 0;
        proof {
            assert(out@.frames =~= Seq::<Seq<RedrawEventV>>::empty());
            assert(out@.notes =~= Seq::<NoteV>::empty());
        }
        while i < batch.len()
            invariant
                i <= batch.len(),
                all == views(batch@),
                all.len() == batch.len(),
                forall|k: int| 0 <= k < batch.len() ==> (#[trigger] all[k]) == batch[k]@,
                absorbed(old(self).pending(), all) == absorbed_from(
                    all,
                    i as int,
                    self.pending(),
                    out@,
                ),
            decreases batch.len() - i,
        {
            let ghost before = out@;
            match read_sub_event(&batch[i]) {
                SubEvent::Known(ev) => {
                    match self.accept(ev) {
                        Some(frame) => {
                            let ghost f = redraw_views(frame@);
                            out.frames.push(frame);
                            proof {
                                assert(out@.frames =~= before.frames.push(f));
                                assert(out@.notes =~= before.notes);
                            }
                        },
                        None => {},
                    }
                },
                SubEvent::Unknown(name) => {
                    let ghost n = NoteV::UnknownEvent(name@);
                    out.notes.push(Note::UnknownEvent(name));
                    proof {
                        assert(out@.notes =~= before.notes.push(n));
                        assert(out@.frames =~= before.frames);
                    }
                },
                SubEvent::Malformed => {
                    out.notes.push(Note::MalformedEvent);
                    proof {
                        assert(out@.notes =~= before.notes.push(NoteV::MalformedEvent));
                        assert(out@.frames =~= before.frames);
                    }
                },
            }
            i = i + 1;
        }
        out
    }

    /// Drops the events that wait, as when the session ends: they will
    /// never be shown. Returns how many there were.
    pub fn discard(&mut self) -> (n: usize)
        ensures
            n == old(self).pending().len(),
            final(self).pending() == Seq::<RedrawEventV>::empty(),
    {
        let n: usize = self.pending.len();
        self.pending = Vec::new();
        proof {
            assert(self.pending() =~= Seq::<RedrawEventV>::empty());
        }
        n
    }
}

} // verus!
