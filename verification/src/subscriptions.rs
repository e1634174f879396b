//! Subscriptions to events of the editor.
//!
//! A subscription asks the editor to evaluate some expressions whenever
//! one of its events fires, and to send the results as a notification.
//! The subscriptions are entered before the session starts; once it is
//! attached, one command for each is sent to the editor, and the
//! notifications that come back are routed to the subscription that
//! asked for them by its index.

use vstd::prelude::*;
use crate::codec::append_bytes;
use crate::input::{Outgoing, OutgoingV};
use crate::message::as_id;
use crate::redraw::uint_at;
use crate::text::{is_named, named, text, text_of};
use crate::value::{copy_bytes, lemma_views, views, Val, Value};

verus! {

/// A subscription as a mathematical object.
pub struct SubscriptionV {
    pub event: Seq<u8>,
    pub pattern: Seq<u8>,
    pub args: Seq<Seq<u8>>,
}

/// A subscription: the name of the editor's event, the pattern of the
/// buffers it is meant for, and the expressions to evaluate when it
/// fires.
#[derive(Debug, PartialEq, Eq)]
pub struct Subscription {
    pub event: Vec<u8>,
    pub pattern: Vec<u8>,
    pub args: Vec<Vec<u8>>,
}

/// The byte strings, one by one, as sequences.
pub open spec fn texts(items: Seq<Vec<u8>>) -> Seq<Seq<u8>> {
    Seq::new(items.len(), |i: int| items[i]@)
}

impl View for Subscription {
    type V = SubscriptionV;

    open spec fn view(&self) -> SubscriptionV {
        SubscriptionV { event: self.event@, pattern: self.pattern@, args: texts(self.args@) }
    }
}

/// The subscriptions, one by one, as mathematical objects.
pub open spec fn subscription_views(items: Seq<Subscription>) -> Seq<SubscriptionV> {
    Seq::new(items.len(), |i: int| items[i]@)
}

/// The number `n` in decimal digits.
pub open spec fn decimal_text(n: nat) -> Seq<u8>
    decreases n,
{
    if n < 10 {
        seq![(0x30 + n) as u8]
    } else {
        decimal_text(n / 10).push((0x30 + n % 10) as u8)
    }
}

/// `acc`, then each of the expressions from index `i` on after a comma.
pub open spec fn with_args(args: Seq<Seq<u8>>, i: int, acc: Seq<u8>) -> Seq<u8>
    decreases args.len() - i,
{
    if i < 0 || i >= args.len() {
        acc
    } else {
        with_args(args, i + 1, acc + text(", ") + args[i])
    }
}

/// The command that enters a subscription with the editor: when the
/// event fires for a buffer that the pattern matches, the editor sends
/// to channel `channel` a notification `subscription` with the index of
/// the subscription and the values of its expressions.
pub open spec fn autocmd_text(sub: SubscriptionV, index: nat, channel: nat) -> Seq<u8> {
    with_args(
        sub.args,
        0,
        text("autocmd ") + sub.event + text(" ") + sub.pattern + text(" call rpcnotify(")
            + decimal_text(channel) + text(", 'subscription', ") + decimal_text(index),
    ) + text(")")
}

/// The request that enters the subscription of index `index`.
pub open spec fn autocmd_request(sub: SubscriptionV, index: nat, channel: nat) -> OutgoingV {
    OutgoingV::Notify {
        method: text("nvim_command"),
        params: seq![Val::Str(autocmd_text(sub, index, channel))],
    }
}

/// The byte strings from index `i` on, after `done`, if each of the
/// values is a string.
pub open spec fn strings_from(items: Seq<Val>, i: int, done: Seq<Seq<u8>>) -> Option<
    Seq<Seq<u8>>,
>
    decreases items.len() - i,
{
    if i < 0 || i >= items.len() {
        Some(done)
    } else {
        match items[i] {
            Val::Str(b) => strings_from(items, i + 1, done.push(b)),
            _ => None,
        }
    }
}

/// Where a notification `subscription` goes: its first parameter is the
/// index of one of `count` subscriptions, the others are the values of
/// its expressions, all strings. A notification of another shape goes
/// nowhere.
pub open spec fn routed(params: Seq<Val>, count: nat) -> Option<(u64, Seq<Seq<u8>>)> {
    match uint_at(params, 0) {
        Some(index) => if index < count {
            match strings_from(params, 1, Seq::empty()) {
                Some(values) => Some((index, values)),
                None => None,
            }
        } else {
            None
        },
        None => None,
    }
}

/// The number `n` in decimal digits.
pub fn decimal(n: u64) -> (r: Vec<u8>)
    ensures
        r@ == decimal_text(n as nat),
    decreases n,
{
    if n < 10 {
        let mut out: Vec<u8> = Vec::new();
        out.push(0x30 + n as u8);
        proof {
            assert(out@ =~= decimal_text(n as nat));
        }
        out
    } else {
        let mut out = decimal(n / 10);
        out.push(0x30 + (n % 10) as u8);
        out
    }
}

/// Whether a notification of this method answers a subscription.
pub fn is_subscription(method: &Vec<u8>) -> (r: bool)
    ensures
        r == named(method@, "subscription"),
{
    is_named(method, "subscription")
}

/// The subscriptions of a session.
pub struct Subscriptions {
    entries: Vec<Subscription>,
}

impl View for Subscriptions {
    type V = Seq<SubscriptionV>;

    closed spec fn view(&self) -> Seq<SubscriptionV> {
        subscription_views(self.entries@)
    }
}

impl Subscriptions {
    /// No subscriptions.
    pub fn new() -> (r: Self)
        ensures
            r@ == Seq::<SubscriptionV>::empty(),
    {
        let r = Subscriptions { entries: Vec::new() };
        proof {
            assert(r@ =~= Seq::<SubscriptionV>::empty());
        }
        r
    }

    /// The number of subscriptions.
    pub fn count(&self) -> (n: usize)
        ensures
            n == self@.len(),
    {
        self.entries.len()
    }

    /// Enters a subscription and returns its index.
    pub fn subscribe(&mut self, sub: Subscription) -> (index: usize)
        ensures
            index == old(self)@.len(),
            final(self)@ == old(self)@.push(sub@),
    {
        let index: usize = self.entries.len();
        proof {
            assert(subscription_views(self.entries@.push(sub)) =~= subscription_views(
                self.entries@,
            ).push(sub@));
        }
        self.entries.push(sub);
        index
    }

    /// The command that enters the subscription of index `index` with the
    /// editor, if there is such a subscription.
    pub fn autocmd(&self, index: usize, channel: u64) -> (r: Option<Outgoing>)
        ensures
            match r {
                Some(out) => index < self@.len() && out@ == autocmd_request(
                    self@[index as int],
                    index as nat,
                    channel as nat,
                ),
                None => index >= self@.len(),
            },
    {
        if index >= self.entries.len() {
            return None;
        }
        let sub = &self.entries[index];
        let ghost args = texts(sub.args@);
        let mut command: Vec<u8> = Vec::new();
        append_bytes(&mut command, "autocmd ".as_bytes());
        append_bytes(&mut command, sub.event.as_slice());
        append_bytes(&mut command, " ".as_bytes());
        append_bytes(&mut command, sub.pattern.as_slice());
        append_bytes(&mut command, " call rpcnotify(".as_bytes());
        append_bytes(&mut command, decimal(channel).as_slice());
        append_bytes(&mut command, ", 'subscription', ".as_bytes());
        append_bytes(&mut command, decimal(index as u64).as_slice());
        let ghost start = command@;
        proof {
            assert(start =~= text("autocmd ") + sub.event@ + text(" ") + sub.pattern@ + text(
                " call rpcnotify(",
            ) + decimal_text(channel as nat) + text(", 'subscription', ") + decimal_text(
                index as nat,
            ));
        }
        let mut i: usize = 0;
        while i < sub.args.len()
            invariant
                i <= sub.args.len(),
                args == texts(sub.args@),
                with_args(args, 0, start) == with_args(args, i as int, command@),
            decreases sub.args.len() - i,
        {
            let ghost before = command@;
            append_bytes(&mut command, ", ".as_bytes());
            append_bytes(&mut command, sub.args[i].as_slice());
            proof {
                assert(command@ =~= before + text(", ") + args[i as int]);
            }
            i = i + 1;
        }
        append_bytes(&mut command, ")".as_bytes());
        let mut params: Vec<Value> = Vec::new();
        params.push(Value::Str(command));
        proof {
            lemma_views(params@);
            assert(views(params@) =~= seq![
                Val::Str(autocmd_text(self@[index as int], index as nat, channel as nat)),
            ]);
        }
        Some(Outgoing::Notify { method: text_of("nvim_command"), params })
    }

    /// Where a notification `subscription` with these parameters goes:
    /// the index of the subscription and the values for it, or nowhere.
    pub fn route(&self, params: &Vec<Value>) -> (r: Option<(usize, Vec<Vec<u8>>)>)
        ensures
            match routed(views(params@), self@.len()) {
                Some((index, values)) => r matches Some((i, v)) && i == index && texts(v@)
                    == values,
                None => r is None,
            },
    {
        let ghost all = views(params@);
        proof {
            lemma_views(params@);
        }
        if params.len() == 0 {
            return None;
        }
        let index: u64 = match as_id(&params[0]) {
            Some(index) => index,
            None => {
                return None;
            },
        };
        if index >= self.entries.len() as u64 {
            return None;
        }
        let mut values: Vec<Vec<u8>> = Vec::new();
        let mut i: usize = 1;
        proof {
            assert(texts(values@) =~= Seq::<Seq<u8>>::empty());
        }
        while i < params.len()
            invariant
                1 <= i <= params.len(),
                all == views(params@),
                all.len() == params.len(),
                forall|k: int| 0 <= k < params.len() ==> (#[trigger] all[k]) == params[k]@,
                strings_from(all, 1, Seq::empty()) == strings_from(all, i as int, texts(values@)),
            decreases params.len() - i,
        {
            match &params[i] {
                Value::Str(b) => {
                    let copy = copy_bytes(b);
                    proof {
                        assert(texts(values@.push(copy)) =~= texts(values@).push(b@));
                    }
                    values.push(copy);
                },
                _ => {
                    return None;
                },
            }
            i = i + 1;
        }
        Some((index as usize, values))
    }
}

} // verus!
