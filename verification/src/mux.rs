//! The context multiplexer: one physical duplex channel of discrete byte
//! frames shared by many logical contexts, each named by a 32-bit handle.
//! A frame whose handle does not match the requested one is buffered for its
//! own handle instead of being dropped, so every context observes exactly
//! the frames addressed to it, in arrival order.

use vstd::prelude::*;
use crate::bytes::{be_bytes_to_u32, frame_of, push_be_bytes, read_be_prefix};
use crate::errors::{ReadStep, SerdeReadError};

verus! {

/// One item yielded by the physical inbound source: a whole discrete frame,
/// or a fault of the source itself.
pub enum PhysItem {
    /// A discrete byte frame.
    Frame(Vec<u8>),
    /// The source reported an error for this item.
    Fault,
}

/// The spec-level shape of a physical inbound item.
pub ghost enum PhysItemView {
    /// A discrete byte frame.
    Frame(Seq<u8>),
    /// A fault of the source.
    Fault,
}

impl View for PhysItem {
    type V = PhysItemView;

    open spec fn view(&self) -> PhysItemView {
        match self {
            PhysItem::Frame(d) => PhysItemView::Frame(d@),
            PhysItem::Fault => PhysItemView::Fault,
        }
    }
}

/// The mathematical state of the context multiplexer.
#[verifier::ext_equal]
pub ghost struct MuxView {
    /// Items the physical inbound source has delivered and the multiplexer
    /// has not yet consumed, oldest first.
    pub incoming: Seq<PhysItemView>,
    /// Whether the physical inbound source has ended.
    pub closed: bool,
    /// Frames handed to the physical outbound sink, oldest first.
    pub outgoing: Seq<Seq<u8>>,
    /// The out-of-order buffer: for each handle, the payloads already pulled
    /// off the physical source on its behalf, oldest first.
    pub buffers: Seq<(u32, Seq<Seq<u8>>)>,
    /// The next handle this endpoint will allocate.
    pub next_id: u32,
}

/// The payloads buffered for handle `h`: the contents of the first entry for
/// `h`, or nothing if no entry exists.
pub open spec fn buf_lookup(buffers: Seq<(u32, Seq<Seq<u8>>)>, h: u32) -> Seq<Seq<u8>>
    decreases buffers.len(),
{
    if buffers.len() == 0 {
        Seq::empty()
    } else if buffers[0].0 == h {
        buffers[0].1
    } else {
        buf_lookup(buffers.skip(1), h)
    }
}

/// Append payload `p` to the buffer of handle `h`, creating the entry if it
/// does not exist yet.
pub open spec fn buf_push(buffers: Seq<(u32, Seq<Seq<u8>>)>, h: u32, p: Seq<u8>) -> Seq<
    (u32, Seq<Seq<u8>>),
>
    decreases buffers.len(),
{
    if buffers.len() == 0 {
        seq![(h, seq![p])]
    } else if buffers[0].0 == h {
        seq![(h, buffers[0].1.push(p))] + buffers.skip(1)
    } else {
        seq![buffers[0]] + buf_push(buffers.skip(1), h, p)
    }
}

/// Drop the oldest payload buffered for handle `h`.
pub open spec fn buf_pop(buffers: Seq<(u32, Seq<Seq<u8>>)>, h: u32) -> Seq<(u32, Seq<Seq<u8>>)>
    decreases buffers.len(),
{
    if buffers.len() == 0 {
        Seq::empty()
    } else if buffers[0].0 == h {
        seq![(h, buffers[0].1.skip(1))] + buffers.skip(1)
    } else {
        seq![buffers[0]] + buf_pop(buffers.skip(1), h)
    }
}

/// Pushing for one handle leaves every other handle's buffer alone and
/// appends to that handle's own buffer.
pub proof fn lemma_buf_push_lookup(buffers: Seq<(u32, Seq<Seq<u8>>)>, h: u32, p: Seq<u8>, x: u32)
    ensures
        buf_lookup(buf_push(buffers, h, p), x) == if x == h {
            buf_lookup(buffers, x).push(p)
        } else {
            buf_lookup(buffers, x)
        },
    decreases buffers.len(),
{
    reveal_with_fuel(buf_lookup, 3);
    if buffers.len() == 0 {
        let single = seq![(h, seq![p])];
        assert(single.skip(1) =~= Seq::<(u32, Seq<Seq<u8>>)>::empty());
        if x == h {
            assert(buf_lookup(buffers, x).push(p) =~= seq![p]);
        }
    } else if buffers[0].0 == h {
        let updated = seq![(h, buffers[0].1.push(p))] + buffers.skip(1);
        assert(updated.skip(1) =~= buffers.skip(1));
    } else {
        lemma_buf_push_lookup(buffers.skip(1), h, p, x);
        let updated = seq![buffers[0]] + buf_push(buffers.skip(1), h, p);
        assert(updated.skip(1) =~= buf_push(buffers.skip(1), h, p));
    }
}

/// Popping for one handle leaves every other handle's buffer alone and drops
/// the head of that handle's own buffer.
pub proof fn lemma_buf_pop_lookup(buffers: Seq<(u32, Seq<Seq<u8>>)>, h: u32, x: u32)
    requires
        buf_lookup(buffers, h).len() > 0,
    ensures
        buf_lookup(buf_pop(buffers, h), x) == if x == h {
            buf_lookup(buffers, x).skip(1)
        } else {
            buf_lookup(buffers, x)
        },
    decreases buffers.len(),
{
    reveal_with_fuel(buf_lookup, 3);
    if buffers.len() == 0 {
    } else if buffers[0].0 == h {
        let updated = seq![(h, buffers[0].1.skip(1))] + buffers.skip(1);
        assert(updated.skip(1) =~= buffers.skip(1));
    } else {
        lemma_buf_pop_lookup(buffers.skip(1), h, x);
        let updated = seq![buffers[0]] + buf_pop(buffers.skip(1), h);
        assert(updated.skip(1) =~= buf_pop(buffers.skip(1), h));
    }
}

/// The payloads of the frames addressed to `h` among the inbound items
/// `items`, oldest first.
pub open spec fn payloads_for(h: u32, items: Seq<PhysItemView>) -> Seq<Seq<u8>>
    decreases items.len(),
{
    if items.len() == 0 {
        Seq::empty()
    } else {
        let rest = payloads_for(h, items.skip(1));
        match items[0] {
            PhysItemView::Frame(d) => {
                if d.len() >= 4 && be_bytes_to_u32(d) == h {
                    seq![d.skip(4)] + rest
                } else {
                    rest
                }
            },
            PhysItemView::Fault => rest,
        }
    }
}

/// Every payload the multiplexer can hand to a reader of handle `h` without
/// waiting for more inbound items: what is buffered for `h`, then what still
/// sits in the inbound queue addressed to `h`.
pub open spec fn avail(m: MuxView, h: u32) -> Seq<Seq<u8>> {
    buf_lookup(m.buffers, h) + payloads_for(h, m.incoming)
}

/// The spec-level outcome of one read attempt.
pub ghost enum ReadStepView {
    /// A payload was handed out.
    Ready(Seq<u8>),
    /// The reader must wait for more inbound items.
    Pending,
    /// The read failed.
    Fail(SerdeReadError),
}

/// Whether the executable read outcome `r` denotes the spec-level outcome `v`.
pub open spec fn read_step_matches(r: ReadStep<Vec<u8>>, v: ReadStepView) -> bool {
    match r {
        ReadStep::Ready(d) => v matches ReadStepView::Ready(s) && d@ == s,
        ReadStep::Pending => v is Pending,
        ReadStep::Fail(e1) => v matches ReadStepView::Fail(e2) && e1 == e2,
    }
}

/// One read attempt for handle `h`, as a function of the multiplexer state:
/// hand out the oldest buffered payload for `h` if there is one; otherwise
/// consume inbound items, routing frames for other handles into their
/// buffers, until a frame for `h`, a malformed item, a source fault, or the
/// end of the queue.
pub open spec fn read_spec(m: MuxView, h: u32) -> (MuxView, ReadStepView)
    decreases m.incoming.len(),
{
    if buf_lookup(m.buffers, h).len() > 0 {
        (
            MuxView { buffers: buf_pop(m.buffers, h), ..m },
            ReadStepView::Ready(buf_lookup(m.buffers, h)[0]),
        )
    } else if m.incoming.len() == 0 {
        (
            m,
            if m.closed {
                ReadStepView::Fail(SerdeReadError::Terminated)
            } else {
                ReadStepView::Pending
            },
        )
    } else {
        let tail = MuxView { incoming: m.incoming.skip(1), ..m };
        match m.incoming[0] {
            PhysItemView::Fault => (tail, ReadStepView::Fail(SerdeReadError::Stream)),
            PhysItemView::Frame(d) => {
                if d.len() < 4 {
                    (tail, ReadStepView::Fail(SerdeReadError::Insufficient))
                } else if be_bytes_to_u32(d) == h {
                    (tail, ReadStepView::Ready(d.skip(4)))
                } else {
                    read_spec(
                        MuxView {
                            incoming: m.incoming.skip(1),
                            buffers: buf_push(m.buffers, be_bytes_to_u32(d), d.skip(4)),
                            ..m
                        },
                        h,
                    )
                }
            },
        }
    }
}


/// Well-formed inbound traffic: every item is a whole frame carrying at
/// least the four-byte handle prefix.
pub open spec fn frames_wf(items: Seq<PhysItemView>) -> bool {
    forall|i: int|
        0 <= i < items.len() ==> (#[trigger] items[i] matches PhysItemView::Frame(d)
            && d.len() >= 4)
}

/// What one read attempt guarantees under well-formed inbound traffic: it
/// leaves every other handle's stock of payloads untouched, hands out the
/// oldest payload addressed to `h` if any is reachable, and reports
/// Terminated or Pending otherwise, depending on whether the source ended.
pub open spec fn read_step_facts(m: MuxView, h: u32) -> bool {
    let (m2, r) = read_spec(m, h);
    &&& m2.outgoing == m.outgoing
    &&& m2.closed == m.closed
    &&& m2.next_id == m.next_id
    &&& frames_wf(m2.incoming)
    &&& (avail(m, h).len() > 0 ==> r == ReadStepView::Ready(avail(m, h)[0]) && avail(m2, h)
        == avail(m, h).skip(1))
    &&& (avail(m, h).len() == 0 ==> r == (if m.closed {
        ReadStepView::Fail(SerdeReadError::Terminated)
    } else {
        ReadStepView::Pending
    }) && avail(m2, h).len() == 0)
    &&& (forall|g: u32| g != h ==> avail(m2, g) == avail(m, g))
}

/// One read attempt keeps the per-handle FIFO promise of `read_step_facts`.
pub proof fn lemma_read_spec_step(m: MuxView, h: u32)
    requires
        frames_wf(m.incoming),
    ensures
        read_step_facts(m, h),
    decreases m.incoming.len(),
{
    let (m2, r) = read_spec(m, h);
    let bl = buf_lookup(m.buffers, h);
    if bl.len() > 0 {
        assert forall|g: u32| true implies #[trigger] buf_lookup(m2.buffers, g) == if g == h {
            bl.skip(1)
        } else {
            buf_lookup(m.buffers, g)
        } by {
            lemma_buf_pop_lookup(m.buffers, h, g);
        }
        assert(avail(m, h)[0] == bl[0]);
        assert(avail(m2, h) =~= avail(m, h).skip(1));
        assert(forall|g: u32| g != h ==> avail(m2, g) =~= avail(m, g));
    } else if m.incoming.len() == 0 {
        assert(avail(m, h) =~= Seq::<Seq<u8>>::empty());
    } else {
        assert(m.incoming[0] matches PhysItemView::Frame(d) && d.len() >= 4);
        let d = m.incoming[0]->Frame_0;
        let rest = m.incoming.skip(1);
        assert(frames_wf(rest)) by {
            assert(forall|i: int|
                0 <= i < rest.len() ==> rest[i] == m.incoming[i + 1]);
        }
        if be_bytes_to_u32(d) == h {
            assert(avail(m, h) =~= seq![d.skip(4)] + payloads_for(h, rest));
            assert(avail(m2, h) =~= avail(m, h).skip(1));
            assert forall|g: u32| g != h implies avail(m2, g) == avail(m, g) by {
                assert(payloads_for(g, m.incoming) == payloads_for(g, rest));
            }
        } else {
            let g0 = be_bytes_to_u32(d);
            let p = d.skip(4);
            let mn = MuxView {
                incoming: rest,
                buffers: buf_push(m.buffers, g0, p),
                ..m
            };
            assert(read_spec(m, h) == read_spec(mn, h));
            lemma_read_spec_step(mn, h);
            assert forall|g: u32| true implies #[trigger] avail(mn, g) == avail(m, g) by {
                lemma_buf_push_lookup(m.buffers, g0, p, g);
                if g == g0 {
                    assert(payloads_for(g0, m.incoming) =~= seq![p] + payloads_for(g0, rest));
                    assert(avail(mn, g0) =~= avail(m, g0));
                } else {
                    assert(payloads_for(g, m.incoming) == payloads_for(g, rest));
                }
            }
        }
    }
}

/// The multiplexer state after `n` successive reads for handle `h`, paired
/// with the payloads those reads handed out, oldest first.
pub open spec fn read_many(m: MuxView, h: u32, n: nat) -> (MuxView, Seq<Seq<u8>>)
    decreases n,
{
    if n == 0 {
        (m, Seq::empty())
    } else {
        let (m1, r) = read_spec(m, h);
        let (m2, rest) = read_many(m1, h, (n - 1) as nat);
        (
            m2,
            match r {
                ReadStepView::Ready(p) => seq![p] + rest,
                ReadStepView::Pending => rest,
                ReadStepView::Fail(_) => rest,
            },
        )
    }
}

/// Per-handle FIFO: however frames for other handles are interleaved in the
/// inbound traffic, `n` successive reads for handle `h` observe exactly the
/// first `n` payloads addressed to `h`, in the order they arrived, and no
/// other handle's stock of payloads changes.
pub proof fn lemma_per_handle_fifo(m: MuxView, h: u32, n: nat)
    requires
        frames_wf(m.incoming),
        n <= avail(m, h).len(),
    ensures
        ({
            let (m2, got) = read_many(m, h, n);
            &&& got == avail(m, h).take(n as int)
            &&& avail(m2, h) == avail(m, h).skip(n as int)
            &&& frames_wf(m2.incoming)
            &&& (forall|g: u32| g != h ==> avail(m2, g) == avail(m, g))
        }),
    decreases n,
{
    if n == 0 {
        assert(avail(m, h).take(0) =~= Seq::<Seq<u8>>::empty());
        assert(avail(m, h).skip(0) =~= avail(m, h));
    } else {
        lemma_read_spec_step(m, h);
        let (m1, r) = read_spec(m, h);
        lemma_per_handle_fifo(m1, h, (n - 1) as nat);
        let (m2, rest) = read_many(m1, h, (n - 1) as nat);
        assert(seq![avail(m, h)[0]] + avail(m, h).skip(1).take(n - 1) =~= avail(m, h).take(
            n as int,
        ));
        assert(avail(m, h).skip(1).skip(n - 1) =~= avail(m, h).skip(n as int));
    }
}

/// Early termination surfaces as an error: if the physical source has ended
/// and no frame for `h` is reachable, a read for `h` fails with Terminated
/// rather than suspending forever.
pub proof fn lemma_read_terminated(m: MuxView, h: u32)
    requires
        frames_wf(m.incoming),
        m.closed,
        avail(m, h).len() == 0,
    ensures
        read_spec(m, h).1 == ReadStepView::Fail(SerdeReadError::Terminated),
{
    lemma_read_spec_step(m, h);
}

/// A malformed inbound item surfaces at once: an item shorter than the
/// four-byte handle prefix fails the next read, whatever handle that read
/// asks for, as long as nothing is buffered for that handle.
pub proof fn lemma_read_insufficient(m: MuxView, h: u32)
    requires
        buf_lookup(m.buffers, h).len() == 0,
        m.incoming.len() > 0,
        m.incoming[0] matches PhysItemView::Frame(d) && d.len() < 4,
    ensures
        read_spec(m, h).1 == ReadStepView::Fail(SerdeReadError::Insufficient),
{
}


/// Looking a handle up finds the first entry that carries it.
proof fn lemma_buf_lookup_at(buffers: Seq<(u32, Seq<Seq<u8>>)>, h: u32, i: int)
    requires
        0 <= i < buffers.len(),
        buffers[i].0 == h,
        forall|j: int| 0 <= j < i ==> buffers[j].0 != h,
    ensures
        buf_lookup(buffers, h) == buffers[i].1,
    decreases i,
{
    if i > 0 {
        lemma_buf_lookup_at(buffers.skip(1), h, i - 1);
    }
}

/// Looking up a handle with no entry yields nothing.
proof fn lemma_buf_lookup_absent(buffers: Seq<(u32, Seq<Seq<u8>>)>, h: u32)
    requires
        forall|j: int| 0 <= j < buffers.len() ==> buffers[j].0 != h,
    ensures
        buf_lookup(buffers, h).len() == 0,
    decreases buffers.len(),
{
    if buffers.len() > 0 {
        lemma_buf_lookup_absent(buffers.skip(1), h);
    }
}

/// Popping rewrites exactly the first entry that carries the handle.
proof fn lemma_buf_pop_at(buffers: Seq<(u32, Seq<Seq<u8>>)>, h: u32, i: int)
    requires
        0 <= i < buffers.len(),
        buffers[i].0 == h,
        forall|j: int| 0 <= j < i ==> buffers[j].0 != h,
    ensures
        buf_pop(buffers, h) == buffers.update(i, (h, buffers[i].1.skip(1))),
    decreases i,
{
    if i == 0 {
        assert(seq![(h, buffers[0].1.skip(1))] + buffers.skip(1) =~= buffers.update(
            0,
            (h, buffers[0].1.skip(1)),
        ));
    } else {
        lemma_buf_pop_at(buffers.skip(1), h, i - 1);
        assert(seq![buffers[0]] + buffers.skip(1).update(i - 1, (h, buffers[i].1.skip(1)))
            =~= buffers.update(i, (h, buffers[i].1.skip(1))));
    }
}

/// Pushing rewrites exactly the first entry that carries the handle.
proof fn lemma_buf_push_at(buffers: Seq<(u32, Seq<Seq<u8>>)>, h: u32, p: Seq<u8>, i: int)
    requires
        0 <= i < buffers.len(),
        buffers[i].0 == h,
        forall|j: int| 0 <= j < i ==> buffers[j].0 != h,
    ensures
        buf_push(buffers, h, p) == buffers.update(i, (h, buffers[i].1.push(p))),
    decreases i,
{
    if i == 0 {
        assert(seq![(h, buffers[0].1.push(p))] + buffers.skip(1) =~= buffers.update(
            0,
            (h, buffers[0].1.push(p)),
        ));
    } else {
        lemma_buf_push_at(buffers.skip(1), h, p, i - 1);
        assert(seq![buffers[0]] + buffers.skip(1).update(i - 1, (h, buffers[i].1.push(p)))
            =~= buffers.update(i, (h, buffers[i].1.push(p))));
    }
}

/// Pushing for a handle with no entry appends a fresh entry at the end.
proof fn lemma_buf_push_absent(buffers: Seq<(u32, Seq<Seq<u8>>)>, h: u32, p: Seq<u8>)
    requires
        forall|j: int| 0 <= j < buffers.len() ==> buffers[j].0 != h,
    ensures
        buf_push(buffers, h, p) == buffers.push((h, seq![p])),
    decreases buffers.len(),
{
    if buffers.len() == 0 {
        assert(seq![(h, seq![p])] =~= buffers.push((h, seq![p])));
    } else {
        lemma_buf_push_absent(buffers.skip(1), h, p);
        assert(seq![buffers[0]] + buffers.skip(1).push((h, seq![p])) =~= buffers.push(
            (h, seq![p]),
        ));
    }
}

/// One per-handle queue of the out-of-order buffer.
pub struct HandleQueue {
    /// The handle the payloads are addressed to.
    pub handle: u32,
    /// The buffered payloads, oldest first.
    pub items: Vec<Vec<u8>>,
}

impl HandleQueue {
    /// The spec-level shape of this entry.
    pub open spec fn entry(self) -> (u32, Seq<Seq<u8>>) {
        (self.handle, self.items@.map_values(|v: Vec<u8>| v@))
    }
}

/// The context multiplexer. It owns the queues of the one physical duplex
/// channel, the out-of-order buffer keyed by handle, and the next-handle
/// counter of this endpoint role.
pub struct TransportInner {
    /// Items the physical inbound source has delivered and no read has
    /// consumed yet, oldest first.
    pub incoming: Vec<PhysItem>,
    /// Whether the physical inbound source has ended.
    pub closed: bool,
    /// Frames awaiting the physical outbound sink, oldest first.
    pub outgoing: Vec<Vec<u8>>,
    /// The out-of-order buffer: frames that arrived for handles nobody was
    /// reading at the time.
    pub buffer: Vec<HandleQueue>,
    /// The next handle this endpoint will allocate.
    pub next_id: u32,
}

impl View for TransportInner {
    type V = MuxView;

    open spec fn view(&self) -> MuxView {
        MuxView {
            incoming: self.incoming@.map_values(|p: PhysItem| p@),
            closed: self.closed,
            outgoing: self.outgoing@.map_values(|v: Vec<u8>| v@),
            buffers: self.buffer@.map_values(|q: HandleQueue| q.entry()),
            next_id: self.next_id,
        }
    }
}

impl TransportInner {
    /// A fresh multiplexer for one endpoint role; the role fixes the first
    /// handle the endpoint will allocate, and with it the parity of all of
    /// them.
    pub fn new(first_id: u32) -> (s: Self)
        ensures
            s@ == (MuxView {
                incoming: Seq::<PhysItemView>::empty(),
                closed: false,
                outgoing: Seq::<Seq<u8>>::empty(),
                buffers: Seq::<(u32, Seq<Seq<u8>>)>::empty(),
                next_id: first_id,
            }),
    {
        let s = TransportInner {
            incoming: Vec::new(),
            closed: false,
            outgoing: Vec::new(),
            buffer: Vec::new(),
            next_id: first_id,
        };
        proof {
            assert(s@ =~= MuxView {
                incoming: Seq::<PhysItemView>::empty(),
                closed: false,
                outgoing: Seq::<Seq<u8>>::empty(),
                buffers: Seq::<(u32, Seq<Seq<u8>>)>::empty(),
                next_id: first_id,
            });
        }
        s
    }

    /// Deliver one item of the physical inbound source to the multiplexer.
    pub fn push_incoming(&mut self, item: PhysItem)
        ensures
            final(self)@ == (MuxView { incoming: old(self)@.incoming.push(item@), ..old(self)@ }),
    {
        self.incoming.push(item);
        proof {
            assert(self@.incoming =~= old(self)@.incoming.push(item@));
            assert(self@ =~= MuxView { incoming: old(self)@.incoming.push(item@), ..old(self)@ });
        }
    }

    /// Record that the physical inbound source has ended.
    pub fn close_incoming(&mut self)
        ensures
            final(self)@ == (MuxView { closed: true, ..old(self)@ }),
    {
        self.closed = true;
        proof {
            assert(self@ =~= MuxView { closed: true, ..old(self)@ });
        }
    }

    /// Allocate the next handle: hand out the counter, then advance it by
    /// two, so that this endpoint keeps its parity and the remote endpoint,
    /// advancing by two from the other parity, can never produce the same
    /// handle.
    pub fn next_id(&mut self) -> (r: u32)
        requires
            old(self)@.next_id + 2 <= u32::MAX,
        ensures
            r == old(self)@.next_id,
            final(self)@ == (MuxView { next_id: (old(self)@.next_id + 2) as u32, ..old(self)@ }),
    {
        let handle = self.next_id;
        self.next_id = self.next_id + 2;
        proof {
            assert(self@ =~= MuxView { next_id: (old(self)@.next_id + 2) as u32, ..old(self)@ });
        }
        handle
    }

    /// Enqueue the frame carrying `payload` for handle `h` on the physical
    /// outbound sink.
    pub fn send(&mut self, h: u32, payload: Vec<u8>)
        ensures
            final(self)@ == (MuxView {
                outgoing: old(self)@.outgoing.push(frame_of(h, payload@)),
                ..old(self)@
            }),
    {
        let mut frame: Vec<u8> = Vec::new();
        push_be_bytes(&mut frame, h);
        let mut p = payload;
        frame.append(&mut p);
        self.outgoing.push(frame);
        proof {
            assert(self@.outgoing =~= old(self)@.outgoing.push(frame_of(h, payload@)));
            assert(self@ =~= MuxView {
                outgoing: old(self)@.outgoing.push(frame_of(h, payload@)),
                ..old(self)@
            });
        }
    }

    /// Hand the queued outbound frames over, oldest first, leaving the queue
    /// empty; the caller forwards them to the physical sink.
    pub fn take_outgoing(&mut self) -> (r: Vec<Vec<u8>>)
        ensures
            r@.map_values(|v: Vec<u8>| v@) == old(self)@.outgoing,
            final(self)@ == (MuxView { outgoing: Seq::<Seq<u8>>::empty(), ..old(self)@ }),
    {
        let mut out: Vec<Vec<u8>> = Vec::new();
        core::mem::swap(&mut out, &mut self.outgoing);
        proof {
            assert(self@.outgoing =~= Seq::<Seq<u8>>::empty());
            assert(self@ =~= MuxView { outgoing: Seq::<Seq<u8>>::empty(), ..old(self)@ });
        }
        out
    }

    /// The position of the buffer entry for handle `h`, if one exists; the
    /// scan takes the first, and the operations keep at most one per handle.
    fn find_entry(&self, h: u32) -> (r: Option<usize>)
        ensures
            match r {
                Some(i) => {
                    &&& i < self.buffer@.len()
                    &&& self.buffer@[i as int].handle == h
                    &&& forall|j: int| 0 <= j < i ==> self.buffer@[j].handle != h
                },
                None => forall|j: int|
                    0 <= j < self.buffer@.len() ==> self.buffer@[j].handle != h,
            },
    {
        let mut i: usize = 0;
        while i < self.buffer.len()
            invariant
                i <= self.buffer@.len(),
                forall|j: int| 0 <= j < i ==> self.buffer@[j].handle != h,
            decreases self.buffer@.len() - i,
        {
            if self.buffer[i].handle == h {
                return Some(i);
            }
            i += 1;
        }
        None
    }

    /// Pop the oldest payload buffered for handle `h`, if any.
    fn buffer_pop(&mut self, h: u32) -> (r: Option<Vec<u8>>)
        ensures
            match r {
                Some(p) => {
                    &&& buf_lookup(old(self)@.buffers, h).len() > 0
                    &&& p@ == buf_lookup(old(self)@.buffers, h)[0]
                    &&& final(self)@ == (MuxView {
                        buffers: buf_pop(old(self)@.buffers, h),
                        ..old(self)@
                    })
                },
                None => {
                    &&& buf_lookup(old(self)@.buffers, h).len() == 0
                    &&& *final(self) == *old(self)
                },
            },
    {
        match self.find_entry(h) {
            None => {
                proof {
                    lemma_buf_lookup_absent(self@.buffers, h);
                }
                None
            },
            Some(i) => {
                proof {
                    lemma_buf_lookup_at(self@.buffers, h, i as int);
                }
                if self.buffer[i].items.len() == 0 {
                    return None;
                }
                proof {
                    lemma_buf_pop_at(self@.buffers, h, i as int);
                }
                let mut q = self.buffer.remove(i);
                let p = q.items.remove(0);
                proof {
                    q_items_shift(&q, p@, old(self).buffer@[i as int]);
                }
                self.buffer.insert(i, q);
                proof {
                    assert(self.buffer@ =~= old(self).buffer@.update(
                        i as int,
                        self.buffer@[i as int],
                    ));
                    assert(self@.buffers =~= buf_pop(old(self)@.buffers, h));
                    assert(self@ =~= MuxView {
                        buffers: buf_pop(old(self)@.buffers, h),
                        ..old(self)@
                    });
                }
                Some(p)
            },
        }
    }
}

/// The entry that results from dropping the oldest payload of `before`.
proof fn q_items_shift(q: &HandleQueue, p: Seq<u8>, before: HandleQueue)
    requires
        q.handle == before.handle,
        before.items@.len() > 0,
        q.items@ == before.items@.remove(0),
        p == before.items@[0]@,
    ensures
        q.entry() == (before.handle, before.entry().1.skip(1)),
        p == before.entry().1[0],
{
    assert(q.items@.map_values(|v: Vec<u8>| v@) =~= before.items@.map_values(
        |v: Vec<u8>| v@,
    ).skip(1));
}


impl TransportInner {
    /// Buffer `payload` for handle `h`: frames for a context nobody is
    /// reading right now must not be dropped, and must keep their order.
    fn buffer_push(&mut self, h: u32, payload: Vec<u8>)
        ensures
            final(self)@ == (MuxView {
                buffers: buf_push(old(self)@.buffers, h, payload@),
                ..old(self)@
            }),
    {
        let ghost pv = payload@;
        match self.find_entry(h) {
            Some(i) => {
                proof {
                    lemma_buf_push_at(self@.buffers, h, pv, i as int);
                }
                let mut q = self.buffer.remove(i);
                q.items.push(payload);
                proof {
                    assert(q.items@.map_values(|v: Vec<u8>| v@) =~= old(self).buffer@[
                        i as int
                    ].entry().1.push(pv));
                }
                self.buffer.insert(i, q);
                proof {
                    assert(self.buffer@ =~= old(self).buffer@.update(
                        i as int,
                        self.buffer@[i as int],
                    ));
                    assert(self@.buffers =~= buf_push(old(self)@.buffers, h, pv));
                    assert(self@ =~= MuxView {
                        buffers: buf_push(old(self)@.buffers, h, pv),
                        ..old(self)@
                    });
                }
            },
            None => {
                proof {
                    lemma_buf_push_absent(self@.buffers, h, pv);
                }
                let mut items: Vec<Vec<u8>> = Vec::new();
                items.push(payload);
                self.buffer.push(HandleQueue { handle: h, items });
                proof {
                    assert(self.buffer@.last().entry() == (h, seq![pv]));
                    assert(self@.buffers =~= buf_push(old(self)@.buffers, h, pv));
                    assert(self@ =~= MuxView {
                        buffers: buf_push(old(self)@.buffers, h, pv),
                        ..old(self)@
                    });
                }
            },
        }
    }

    /// One read attempt for handle `h`. Hand out the oldest buffered payload
    /// for `h` if one is waiting; otherwise pull items off the physical
    /// inbound queue, routing frames for other handles into their buffers,
    /// until a frame for `h` arrives, an item is malformed, the source
    /// faults, or the queue is exhausted. Exhaustion is a suspension while
    /// the source is open and Terminated once it has closed.
    pub fn read(&mut self, h: u32) -> (r: ReadStep<Vec<u8>>)
        ensures
            final(self)@ == read_spec(old(self)@, h).0,
            read_step_matches(r, read_spec(old(self)@, h).1),
    {
        if let Some(p) = self.buffer_pop(h) {
            return ReadStep::Ready(p);
        }
        loop
            invariant
                buf_lookup(self@.buffers, h).len() == 0,
                read_spec(old(self)@, h) == read_spec(self@, h),
            decreases self@.incoming.len(),
        {
            let ghost m0 = self@;
            if self.incoming.len() == 0 {
                if self.closed {
                    return ReadStep::Fail(SerdeReadError::Terminated);
                }
                return ReadStep::Pending;
            }
            let item = self.incoming.remove(0);
            proof {
                assert(self@.incoming =~= m0.incoming.skip(1));
                assert(self@ =~= MuxView { incoming: m0.incoming.skip(1), ..m0 });
            }
            match item {
                PhysItem::Fault => {
                    return ReadStep::Fail(SerdeReadError::Stream);
                },
                PhysItem::Frame(data) => {
                    if data.len() < 4 {
                        return ReadStep::Fail(SerdeReadError::Insufficient);
                    }
                    let target = read_be_prefix(&data);
                    let mut frame = data;
                    let payload = frame.split_off(4);
                    proof {
                        assert(payload@ =~= m0.incoming[0]->Frame_0.skip(4));
                    }
                    if target == h {
                        return ReadStep::Ready(payload);
                    }
                    let ghost mn = MuxView {
                        incoming: m0.incoming.skip(1),
                        buffers: buf_push(m0.buffers, target, payload@),
                        ..m0
                    };
                    self.buffer_push(target, payload);
                    proof {
                        assert(self@ =~= mn);
                        assert(read_spec(m0, h) == read_spec(mn, h));
                        lemma_buf_push_lookup(m0.buffers, target, payload@, h);
                    }
                },
            }
        }
    }
}


/// The inbound items that a batch of whole frames becomes.
pub open spec fn frames_as_items(fs: Seq<Vec<u8>>) -> Seq<PhysItemView> {
    fs.map_values(|f: Vec<u8>| PhysItemView::Frame(f@))
}

/// Payloads distribute over splitting the inbound queue.
pub proof fn lemma_payloads_for_concat(h: u32, a: Seq<PhysItemView>, b: Seq<PhysItemView>)
    ensures
        payloads_for(h, a + b) == payloads_for(h, a) + payloads_for(h, b),
    decreases a.len(),
{
    if a.len() == 0 {
        assert(a + b =~= b);
        assert(payloads_for(h, a) + payloads_for(h, b) =~= payloads_for(h, b));
    } else {
        lemma_payloads_for_concat(h, a.skip(1), b);
        assert((a + b).skip(1) =~= a.skip(1) + b);
        match a[0] {
            PhysItemView::Frame(d) => {
                if d.len() >= 4 && be_bytes_to_u32(d) == h {
                    assert(seq![d.skip(4)] + (payloads_for(h, a.skip(1)) + payloads_for(h, b))
                        =~= (seq![d.skip(4)] + payloads_for(h, a.skip(1))) + payloads_for(h, b));
                }
            },
            PhysItemView::Fault => {},
        }
    }
}

/// A run of frames all addressed to `h` contributes exactly its payloads to
/// `h`, nothing to any other handle, and is well formed.
pub proof fn lemma_payloads_for_frames(h: u32, ps: Seq<Seq<u8>>, g: u32)
    ensures
        payloads_for(g, ps.map_values(|p: Seq<u8>| PhysItemView::Frame(crate::bytes::frame_of(h, p))))
            == if g == h {
            ps
        } else {
            Seq::<Seq<u8>>::empty()
        },
        frames_wf(ps.map_values(|p: Seq<u8>| PhysItemView::Frame(crate::bytes::frame_of(h, p)))),
    decreases ps.len(),
{
    let items = ps.map_values(|p: Seq<u8>| PhysItemView::Frame(crate::bytes::frame_of(h, p)));
    if ps.len() == 0 {
    } else {
        crate::bytes::lemma_frame_of(h, ps[0]);
        lemma_payloads_for_frames(h, ps.skip(1), g);
        assert(items.skip(1) =~= ps.skip(1).map_values(
            |p: Seq<u8>| PhysItemView::Frame(crate::bytes::frame_of(h, p)),
        ));
        if g == h {
            assert(seq![ps[0]] + ps.skip(1) =~= ps);
        }
    }
}

} // verus!
