//! Cutting an inbound byte stream into messages.
//!
//! Bytes arrive in chunks of any size. The decoder keeps what it has not
//! yet been able to read and hands out every message as soon as its last
//! byte is there.

use vstd::prelude::*;
use vstd::slice::{slice_subrange, slice_to_vec};
use crate::codec::append_bytes;
use crate::message::{decode, frame, Decoded, Frame, Message, Msg};
use crate::wire::lemma_parse_consumed;
use crate::wire_laws::lemma_parse_extend;

verus! {

/// One frame of the inbound stream: a message, or the note that a frame
/// was dropped because it was none.
#[derive(Debug, PartialEq)]
pub enum Incoming {
    Message(Message),
    Malformed,
}

impl View for Incoming {
    type V = Option<Msg>;

    open spec fn view(&self) -> Option<Msg> {
        match self {
            Incoming::Message(m) => Some(m@),
            Incoming::Malformed => None,
        }
    }
}

/// The frames, item by item, as mathematical objects: `None` stands for
/// a dropped frame.
pub open spec fn incoming_views(items: Seq<Incoming>) -> Seq<Option<Msg>> {
    Seq::new(items.len(), |i: int| items[i]@)
}

/// The frames that `s` holds in full, in order, and the bytes after the
/// last of them.
pub open spec fn frames(s: Seq<u8>) -> (Seq<Option<Msg>>, Seq<u8>)
    decreases s.len(),
{
    match frame(s) {
        Frame::NeedMoreData => (Seq::empty(), s),
        Frame::Message(m, k) => if 0 < k <= s.len() {
            let later = frames(s.skip(k));
            (seq![Some(m)] + later.0, later.1)
        } else {
            (Seq::empty(), s)
        },
        Frame::Malformed(k) => if 0 < k <= s.len() {
            let later = frames(s.skip(k));
            (seq![None] + later.0, later.1)
        } else {
            (Seq::empty(), s)
        },
    }
}

/// All chunks, one after the other, as one byte sequence.
pub open spec fn joined(chunks: Seq<Seq<u8>>) -> Seq<u8>
    decreases chunks.len(),
{
    if chunks.len() == 0 {
        Seq::empty()
    } else {
        joined(chunks.drop_last()) + chunks.last()
    }
}

/// What a decoder that held `kept` hands out while it is fed `chunks`
/// one by one, and what it holds afterwards.
pub open spec fn fed(kept: Seq<u8>, chunks: Seq<Seq<u8>>) -> (Seq<Option<Msg>>, Seq<u8>)
    decreases chunks.len(),
{
    if chunks.len() == 0 {
        (Seq::empty(), kept)
    } else {
        let before = fed(kept, chunks.drop_last());
        let now = frames(before.1 + chunks.last());
        (before.0 + now.0, now.1)
    }
}

/// A frame takes at least one byte and no more than there are.
pub proof fn lemma_frame_consumed(s: Seq<u8>)
    ensures
        frame(s) matches Frame::Message(_, k) ==> 0 < k <= s.len(),
        frame(s) matches Frame::Malformed(k) ==> 0 < k <= s.len(),
{
    lemma_parse_consumed(s);
}

/// A frame that is there in full stays what it is when more bytes follow.
pub proof fn lemma_frame_extend(a: Seq<u8>, b: Seq<u8>)
    requires
        !(frame(a) is NeedMoreData),
    ensures
        frame(a + b) == frame(a),
{
    lemma_parse_extend(a, b);
}

/// What is left after the frames begins with no whole frame.
pub proof fn lemma_frames_rest(s: Seq<u8>)
    ensures
        frame(frames(s).1) is NeedMoreData,
        frames(frames(s).1) == (Seq::<Option<Msg>>::empty(), frames(s).1),
    decreases s.len(),
{
    lemma_frame_consumed(s);
    match frame(s) {
        Frame::NeedMoreData => {},
        Frame::Message(m, k) => {
            lemma_frames_rest(s.skip(k));
        },
        Frame::Malformed(k) => {
            lemma_frames_rest(s.skip(k));
        },
    }
}

/// Framing does not depend on where the stream is cut: reading `a`,
/// keeping what is left and reading on when `b` arrives gives the frames
/// of `a` followed by `b`, and leaves the same bytes.
pub proof fn lemma_frames_split(a: Seq<u8>, b: Seq<u8>)
    ensures
        frames(a + b) == (
            frames(a).0 + frames(frames(a).1 + b).0,
            frames(frames(a).1 + b).1,
        ),
    decreases a.len(),
{
    lemma_frame_consumed(a);
    match frame(a) {
        Frame::NeedMoreData => {
            assert(Seq::<Option<Msg>>::empty() + frames(a + b).0 =~= frames(a + b).0);
        },
        Frame::Message(m, k) => {
            lemma_frame_extend(a, b);
            assert((a + b).skip(k) =~= a.skip(k) + b);
            lemma_frames_split(a.skip(k), b);
            let later = frames(a.skip(k));
            let cont = frames(later.1 + b);
            assert(seq![Some(m)] + (later.0 + cont.0) =~= (seq![Some(m)] + later.0) + cont.0);
        },
        Frame::Malformed(k) => {
            lemma_frame_extend(a, b);
            assert((a + b).skip(k) =~= a.skip(k) + b);
            lemma_frames_split(a.skip(k), b);
            let later = frames(a.skip(k));
            let cont = frames(later.1 + b);
            assert(seq![None::<Msg>] + (later.0 + cont.0) =~= (seq![None::<Msg>] + later.0)
                + cont.0);
        },
    }
}

/// However a stream is cut into chunks, a decoder that starts empty and
/// is fed the chunks one by one hands out the frames of the whole stream,
/// and is left with what the whole stream leaves.
pub proof fn lemma_chunks_do_not_matter(chunks: Seq<Seq<u8>>)
    ensures
        fed(Seq::empty(), chunks) == frames(joined(chunks)),
    decreases chunks.len(),
{
    if chunks.len() == 0 {
        assert(frame(Seq::<u8>::empty()) is NeedMoreData);
    } else {
        lemma_chunks_do_not_matter(chunks.drop_last());
        lemma_frames_split(joined(chunks.drop_last()), chunks.last());
    }
}

/// The reading end of a byte stream.
pub struct Decoder {
    buf: Vec<u8>,
}

impl Decoder {
    /// The bytes that arrived and belong to no frame handed out so far.
    pub closed spec fn kept(&self) -> Seq<u8> {
        self.buf@
    }

    /// A decoder that has seen no bytes.
    pub fn new() -> (d: Self)
        ensures
            d.kept() == Seq::<u8>::empty(),
    {
        Decoder { buf: Vec::new() }
    }

    /// The number of bytes that wait for the rest of their frame.
    pub fn kept_len(&self) -> (n: usize)
        ensures
            n == self.kept().len(),
    {
        self.buf.len()
    }

    /// Takes the next chunk of the stream and hands out, in order, every
    /// frame that is now there in full.
    pub fn feed(&mut self, chunk: &[u8]) -> (out: Vec<Incoming>)
        ensures
            incoming_views(out@) == frames(old(self).kept() + chunk@).0,
            final(self).kept() == frames(old(self).kept() + chunk@).1,
    {
        append_bytes(&mut self.buf, chunk);
        let ghost total = self.buf@;
        let mut out: Vec<Incoming> = Vec::new();
        let mut pos: usize = 0;
        let mut more: bool = true;
        proof {
            assert(total.skip(0) =~= total);
            assert(incoming_views(out@) + frames(total).0 =~= frames(total).0);
        }
        while more
            invariant
                pos <= self.buf.len(),
                self.buf@ == total,
                frames(total).0 == incoming_views(out@) + frames(total.skip(pos as int)).0,
                frames(total).1 == frames(total.skip(pos as int)).1,
                !more ==> frame(total.skip(pos as int)) is NeedMoreData,
            decreases
                    total.len() - pos + (if more {
                        1int
                    } else {
                        0int
                    }),
        {
            let ghost here = total.skip(pos as int);
            let ghost before = incoming_views(out@);
            proof {
                lemma_frame_consumed(here);
            }
            match decode(self.buf.as_slice(), pos) {
                Decoded::Message(m, next) => {
                    proof {
                        assert(here.skip(next - pos) =~= total.skip(next as int));
                        assert(incoming_views(out@.push(Incoming::Message(m))) =~= before.push(
                            Some(m@),
                        ));
                        assert(before.push(Some(m@)) + frames(total.skip(next as int)).0
                            =~= before + (seq![Some(m@)] + frames(total.skip(next as int)).0));
                    }
                    out.push(Incoming::Message(m));
                    pos = next;
                },
                Decoded::MalformedFrame(next) => {
                    proof {
                        assert(here.skip(next - pos) =~= total.skip(next as int));
                        assert(incoming_views(out@.push(Incoming::Malformed)) =~= before.push(
                            None::<Msg>,
                        ));
                        assert(before.push(None::<Msg>) + frames(total.skip(next as int)).0
                            =~= before + (seq![None::<Msg>] + frames(total.skip(next as int)).0));
                    }
                    out.push(Incoming::Malformed);
                    pos = next;
                },
                Decoded::NeedMoreData => {
                    more = false;
                },
            }
        }
        proof {
            assert(incoming_views(out@) + Seq::<Option<Msg>>::empty() =~= incoming_views(out@));
            assert(total.subrange(pos as int, total.len() as int) =~= total.skip(pos as int));
        }
        let rest: Vec<u8> = slice_to_vec(slice_subrange(self.buf.as_slice(), pos, self.buf.len()));
        self.buf = rest;
        out
    }
}

} // verus!
