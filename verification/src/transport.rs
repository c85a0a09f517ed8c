//! The multiplexer-facing handle layer: per-context reads and writes, forking
//! and joining of logical contexts, and the finalization scheduler that lets
//! a forked context's work proceed after the value that forked it is done.

use vstd::prelude::*;
use crate::bytes::frame_of;
use crate::codec::{
    decode_str, decode_u32, encode_str, encode_u32, le_bytes_to_u32, wire_str, wire_u32,
};
use crate::errors::{ReadStep, SerdeReadError, SerdeWriteError, Step};
use crate::mux::{buf_lookup, buf_push, read_spec, MuxView, ReadStepView, TransportInner};

verus! {

/// The name of one logical context: an opaque 32-bit number. Handle 0 is the
/// root exchange on both endpoints; each endpoint allocates further handles
/// from its own parity so the two never collide.
#[derive(Hash, PartialEq, Eq, Structural, Clone, Copy, Debug)]
pub struct ContextHandle(pub u32);

impl ContextHandle {
    /// The root context, reserved on both endpoints.
    pub fn root() -> (r: ContextHandle)
        ensures
            r.0 == 0,
    {
        ContextHandle(0)
    }
}

/// A unit of background protocol work bound to one logical context; the
/// polymorphic forms the transport can defer are its tagged variants.
pub enum Work {
    /// Write each string, in order, to the bound context.
    StreamItems {
        /// The items still to be written, oldest first.
        items: Vec<String>,
    },
}

/// Background work together with the context it must run against.
pub struct Contextualized {
    /// The context the work reads and writes.
    pub handle: ContextHandle,
    /// The work itself.
    pub fut: Work,
}

/// The frames that completing `c` writes onto the physical sink, in order.
pub open spec fn work_frames(c: Contextualized) -> Seq<Seq<u8>> {
    match c.fut {
        Work::StreamItems { items } => items@.map_values(
            |s: String| frame_of(c.handle.0, wire_str(s@)),
        ),
    }
}

/// The frames that completing every unit of `p`, in launch order, writes
/// onto the physical sink.
pub open spec fn pending_frames(p: Seq<Contextualized>) -> Seq<Seq<u8>>
    decreases p.len(),
{
    if p.len() == 0 {
        Seq::empty()
    } else {
        work_frames(p[0]) + pending_frames(p.skip(1))
    }
}

/// One endpoint's transport: the multiplexer, owned exactly once, plus the
/// queue of background work handed to the finalization scheduler. Logical
/// contexts address it by handle; nothing reaches the physical channel
/// except through it.
pub struct Transport {
    /// The context multiplexer.
    pub inner: TransportInner,
    /// Background work scheduled and not yet run, in launch order.
    pub pending: Vec<Contextualized>,
}

/// How a protocol step may change a transport: the inbound queue is only
/// consumed from the front, outbound frames are only appended, the physical
/// source's closed mark is untouched, and the handle counter only advances,
/// keeping the parity of its endpoint role.
pub open spec fn evolves(a: MuxView, b: MuxView) -> bool {
    &&& b.closed == a.closed
    &&& a.outgoing.is_prefix_of(b.outgoing)
    &&& b.incoming.is_suffix_of(a.incoming)
    &&& b.next_id >= a.next_id
    &&& b.next_id % 2 == a.next_id % 2
}

/// A transport evolves to itself.
pub proof fn lemma_evolves_refl(a: MuxView)
    ensures
        evolves(a, a),
{
    assert(a.outgoing.is_prefix_of(a.outgoing));
    assert(a.incoming.skip(0) =~= a.incoming);
    assert(a.incoming.is_suffix_of(a.incoming));
}

/// Evolution composes: two protocol steps in a row are one evolution.
pub proof fn lemma_evolves_trans(a: MuxView, b: MuxView, c: MuxView)
    requires
        evolves(a, b),
        evolves(b, c),
    ensures
        evolves(a, c),
{
    assert(a.outgoing =~= c.outgoing.subrange(0, a.outgoing.len() as int)) by {
        assert(a.outgoing =~= b.outgoing.subrange(0, a.outgoing.len() as int));
        assert(b.outgoing =~= c.outgoing.subrange(0, b.outgoing.len() as int));
    }
    let i = a.incoming.len() - b.incoming.len();
    let j = b.incoming.len() - c.incoming.len();
    assert(b.incoming =~= a.incoming.skip(i));
    assert(c.incoming =~= b.incoming.skip(j));
    assert(c.incoming =~= a.incoming.skip(i + j));
    assert(c.incoming.is_suffix_of(a.incoming));
}

/// The `k`-th handle an endpoint allocates when its counter starts at
/// `first`: the counter advances by two for every fork.
pub open spec fn allocated_handle(first: int, k: int) -> int {
    first + 2 * k
}

/// Handle non-collision: two endpoints whose counters start with different
/// parities never allocate the same handle, however many forks each
/// performs on its own.
pub proof fn lemma_handle_non_collision(a: int, b: int, i: int, j: int)
    requires
        a % 2 != b % 2,
        i >= 0,
        j >= 0,
    ensures
        allocated_handle(a, i) != allocated_handle(b, j),
{
    assert((a + 2 * i) % 2 == a % 2) by (nonlinear_arith);
    assert((b + 2 * j) % 2 == b % 2) by (nonlinear_arith);
}

/// The two concrete roles: the serializing endpoint allocates the odd
/// handles, the reconstructing endpoint the even handles starting at two,
/// and neither ever allocates the root handle.
pub proof fn lemma_roles_never_collide(i: int, j: int)
    requires
        i >= 0,
        j >= 0,
    ensures
        allocated_handle(1, i) != allocated_handle(2, j),
        allocated_handle(1, i) != 0,
        allocated_handle(2, j) != 0,
{
    lemma_handle_non_collision(1, 2, i, j);
    assert((1 + 2 * i) % 2 == 1) by (nonlinear_arith);
    assert((2 + 2 * j) % 2 == 0) by (nonlinear_arith);
}

impl Transport {
    /// A transport for one endpoint role: `first_id` fixes the parity of
    /// every handle this endpoint will allocate.
    pub fn new(first_id: u32) -> (s: Self)
        ensures
            s.inner@ == (MuxView {
                incoming: Seq::<crate::mux::PhysItemView>::empty(),
                closed: false,
                outgoing: Seq::<Seq<u8>>::empty(),
                buffers: Seq::<(u32, Seq<Seq<u8>>)>::empty(),
                next_id: first_id,
            }),
            s.pending@ == Seq::<Contextualized>::empty(),
    {
        Transport { inner: TransportInner::new(first_id), pending: Vec::new() }
    }

    /// One read attempt on the logical context `h`: the oldest payload
    /// addressed to `h`, a suspension, or a fault, exactly as the
    /// multiplexer model prescribes.
    pub fn read(&mut self, h: ContextHandle) -> (r: ReadStep<Vec<u8>>)
        ensures
            final(self).inner@ == read_spec(old(self).inner@, h.0).0,
            crate::mux::read_step_matches(r, read_spec(old(self).inner@, h.0).1),
            final(self).pending == old(self).pending,
    {
        self.inner.read(h.0)
    }

    /// Write an already-encoded payload to the logical context `h`: the
    /// frame carrying it is appended to the physical sink queue.
    pub fn write(&mut self, h: ContextHandle, payload: Vec<u8>)
        ensures
            final(self).inner@ == (MuxView {
                outgoing: old(self).inner@.outgoing.push(frame_of(h.0, payload@)),
                ..old(self).inner@
            }),
            final(self).pending == old(self).pending,
    {
        self.inner.send(h.0, payload);
    }

    /// Write a 32-bit value to the logical context `h`.
    pub fn write_u32(&mut self, h: ContextHandle, v: u32)
        ensures
            final(self).inner@ == (MuxView {
                outgoing: old(self).inner@.outgoing.push(frame_of(h.0, wire_u32(v))),
                ..old(self).inner@
            }),
            final(self).pending == old(self).pending,
    {
        let payload = encode_u32(v);
        self.inner.send(h.0, payload);
    }

    /// Write a string to the logical context `h`.
    pub fn write_str(&mut self, h: ContextHandle, s: &String)
        ensures
            final(self).inner@ == (MuxView {
                outgoing: old(self).inner@.outgoing.push(frame_of(h.0, wire_str(s@))),
                ..old(self).inner@
            }),
            final(self).pending == old(self).pending,
    {
        let payload = encode_str(s);
        self.inner.send(h.0, payload);
    }

    /// Read a 32-bit value from the logical context `h`: one read attempt,
    /// then a decode; a payload of fewer than four bytes is a decode fault.
    pub fn read_u32(&mut self, h: ContextHandle) -> (r: ReadStep<u32>)
        ensures
            final(self).inner@ == read_spec(old(self).inner@, h.0).0,
            final(self).pending == old(self).pending,
            ({
                let rv = read_spec(old(self).inner@, h.0).1;
                match r {
                    ReadStep::Ready(v) => (rv matches ReadStepView::Ready(p) && p.len() >= 4 && v
                        == le_bytes_to_u32(p)),
                    ReadStep::Pending => rv is Pending,
                    ReadStep::Fail(e) => (rv matches ReadStepView::Fail(e2) && e == e2) || (
                    rv matches ReadStepView::Ready(p) && p.len() < 4 && e
                        == SerdeReadError::Serde),
                }
            }),
    {
        match self.inner.read(h.0) {
            ReadStep::Ready(payload) => match decode_u32(&payload) {
                Ok(v) => ReadStep::Ready(v),
                Err(e) => ReadStep::Fail(e),
            },
            ReadStep::Pending => ReadStep::Pending,
            ReadStep::Fail(e) => ReadStep::Fail(e),
        }
    }

    /// Read a string from the logical context `h`: one read attempt, then a
    /// decode; a payload that is the serialized form of some string decodes
    /// to exactly that string.
    pub fn read_str(&mut self, h: ContextHandle) -> (r: ReadStep<String>)
        ensures
            final(self).inner@ == read_spec(old(self).inner@, h.0).0,
            final(self).pending == old(self).pending,
            ({
                let rv = read_spec(old(self).inner@, h.0).1;
                match r {
                    ReadStep::Ready(v) => (rv matches ReadStepView::Ready(p) && (forall|
                        s: Seq<char>,
                    | p == #[trigger] wire_str(s) ==> v@ == s)),
                    ReadStep::Pending => rv is Pending,
                    ReadStep::Fail(e) => (rv matches ReadStepView::Fail(e2) && e == e2) || (
                    rv matches ReadStepView::Ready(p) && e == SerdeReadError::Serde && (forall|
                        s: Seq<char>,
                    | p != #[trigger] wire_str(s))),
                }
            }),
    {
        match self.inner.read(h.0) {
            ReadStep::Ready(payload) => match decode_str(&payload) {
                Ok(v) => ReadStep::Ready(v),
                Err(_) => ReadStep::Fail(SerdeReadError::Serde),
            },
            ReadStep::Pending => ReadStep::Pending,
            ReadStep::Fail(e) => ReadStep::Fail(e),
        }
    }

    /// Fork an owned logical context: allocate a fresh handle and hand back
    /// both the handle and the number to transmit so the remote endpoint can
    /// join the same context. The caller owns the new context alone.
    pub fn fork_owned(&mut self) -> (r: (ContextHandle, u32))
        requires
            old(self).inner@.next_id + 2 <= u32::MAX,
        ensures
            r.0.0 == old(self).inner@.next_id,
            r.1 == old(self).inner@.next_id,
            final(self).inner@ == (MuxView {
                next_id: (old(self).inner@.next_id + 2) as u32,
                ..old(self).inner@
            }),
            final(self).pending == old(self).pending,
    {
        let id = self.inner.next_id();
        (ContextHandle(id), id)
    }

    /// Join an owned logical context: bind the handle number received from
    /// the remote endpoint, without allocating.
    pub fn join_owned(&mut self, id: u32) -> (r: ContextHandle)
        ensures
            r.0 == id,
            *final(self) == *old(self),
    {
        ContextHandle(id)
    }

    /// Fork a shared logical context: the same allocation as an owned fork;
    /// only the ownership discipline imposed on the caller differs, and many
    /// holders may address the resulting context.
    pub fn fork_shared(&mut self) -> (r: (ContextHandle, u32))
        requires
            old(self).inner@.next_id + 2 <= u32::MAX,
        ensures
            r.0.0 == old(self).inner@.next_id,
            r.1 == old(self).inner@.next_id,
            final(self).inner@ == (MuxView {
                next_id: (old(self).inner@.next_id + 2) as u32,
                ..old(self).inner@
            }),
            final(self).pending == old(self).pending,
    {
        let id = self.inner.next_id();
        (ContextHandle(id), id)
    }

    /// Join a shared logical context: as an owned join, with the shared
    /// ownership discipline.
    pub fn join_shared(&mut self, id: u32) -> (r: ContextHandle)
        ensures
            r.0 == id,
            *final(self) == *old(self),
    {
        ContextHandle(id)
    }

    /// Fork a by-reference logical context: the same allocation again; the
    /// caller lends the context out instead of transferring it.
    pub fn fork_ref(&mut self) -> (r: (ContextHandle, u32))
        requires
            old(self).inner@.next_id + 2 <= u32::MAX,
        ensures
            r.0.0 == old(self).inner@.next_id,
            r.1 == old(self).inner@.next_id,
            final(self).inner@ == (MuxView {
                next_id: (old(self).inner@.next_id + 2) as u32,
                ..old(self).inner@
            }),
            final(self).pending == old(self).pending,
    {
        let id = self.inner.next_id();
        (ContextHandle(id), id)
    }

    /// Join a by-reference logical context.
    pub fn join_ref(&mut self, id: u32) -> (r: ContextHandle)
        ensures
            r.0 == id,
            *final(self) == *old(self),
    {
        ContextHandle(id)
    }

    /// Hand a unit of background work to the finalization scheduler: it is
    /// queued and will run independently of the caller; its own faults are
    /// never surfaced to the caller.
    pub fn finalize(&mut self, fut: Contextualized) -> (r: Step<()>)
        ensures
            r == Step::<()>::Ready(()),
            final(self).pending@ == old(self).pending@.push(fut),
            final(self).inner@ == old(self).inner@,
    {
        self.pending.push(fut);
        Step::Ready(())
    }

    /// Schedule background work without waiting on anything: the immediate
    /// flavor of the scheduler, distinguished only by returning a plain
    /// result.
    pub fn finalize_immediate(&mut self, fut: Contextualized) -> (r: Result<(), ()>)
        ensures
            r == Ok::<(), ()>(()),
            final(self).pending@ == old(self).pending@.push(fut),
            final(self).inner@ == old(self).inner@,
    {
        self.pending.push(fut);
        Ok(())
    }

    /// Run every scheduled unit of background work to completion, in launch
    /// order: what each writes lands on the physical sink after everything
    /// written before it.
    pub fn run_pending(&mut self)
        ensures
            final(self).pending@ == Seq::<Contextualized>::empty(),
            final(self).inner@ == (MuxView {
                outgoing: old(self).inner@.outgoing + pending_frames(old(self).pending@),
                ..old(self).inner@
            }),
    {
        loop
            invariant
                self.inner@.incoming == old(self).inner@.incoming,
                self.inner@.closed == old(self).inner@.closed,
                self.inner@.buffers == old(self).inner@.buffers,
                self.inner@.next_id == old(self).inner@.next_id,
                self.inner@.outgoing + pending_frames(self.pending@) == old(self).inner@.outgoing
                    + pending_frames(old(self).pending@),
            decreases self.pending@.len(),
        {
            if self.pending.len() == 0 {
                proof {
                    assert(self.inner@.outgoing + pending_frames(self.pending@)
                        =~= self.inner@.outgoing);
                    assert(self.inner@ =~= MuxView {
                        outgoing: old(self).inner@.outgoing + pending_frames(old(self).pending@),
                        ..old(self).inner@
                    });
                }
                return ;
            }
            let ghost pre = self.pending@;
            let ghost preout = self.inner@.outgoing;
            let c = self.pending.remove(0);
            proof {
                assert(self.pending@ =~= pre.skip(1));
            }
            c.poll(&mut self.inner);
            proof {
                assert(self.inner@.outgoing + pending_frames(self.pending@) =~= preout
                    + pending_frames(pre));
            }
        }
    }
}

impl Contextualized {
    /// Drive the bound work to completion against the multiplexer: in this
    /// model a write never suspends, so the work finishes in one poll,
    /// leaving exactly its frames on the physical sink queue.
    pub fn poll(self, inner: &mut TransportInner) -> (r: Step<()>)
        ensures
            r == Step::<()>::Ready(()),
            final(inner)@ == (MuxView {
                outgoing: old(inner)@.outgoing + work_frames(self),
                ..old(inner)@
            }),
    {
        let ghost c = self;
        let Contextualized { handle, fut } = self;
        match fut {
            Work::StreamItems { items } => {
                let mut i: usize = 0;
                while i < items.len()
                    invariant
                        i <= items@.len(),
                        inner@ == (MuxView {
                            outgoing: old(inner)@.outgoing + items@.take(i as int).map_values(
                                |s: String| frame_of(c.handle.0, wire_str(s@)),
                            ),
                            ..old(inner)@
                        }),
                        c.handle == handle,
                        c.fut == (Work::StreamItems { items }),
                    decreases items@.len() - i,
                {
                    let payload = encode_str(&items[i]);
                    inner.send(handle.0, payload);
                    proof {
                        assert(items@.take(i + 1).map_values(
                            |s: String| frame_of(c.handle.0, wire_str(s@)),
                        ) =~= items@.take(i as int).map_values(
                            |s: String| frame_of(c.handle.0, wire_str(s@)),
                        ).push(frame_of(c.handle.0, wire_str(items@[i as int]@))));
                        assert(inner@ =~= MuxView {
                            outgoing: old(inner)@.outgoing + items@.take(i + 1).map_values(
                                |s: String| frame_of(c.handle.0, wire_str(s@)),
                            ),
                            ..old(inner)@
                        });
                    }
                    i += 1;
                }
                proof {
                    assert(items@.take(items@.len() as int) =~= items@);
                    assert(work_frames(c) == items@.map_values(
                        |s: String| frame_of(c.handle.0, wire_str(s@)),
                    ));
                }
                Step::Ready(())
            },
        }
    }
}


/// A transparent wrapper marking a value as forked in the shared,
/// broadcast-style flavor: wrapping and unwrapping run through the same
/// fork and join machinery as any other value, so a notification follows
/// the same handle-allocation discipline.
pub struct Notification<P>(pub P);

impl Transport {
    /// Wrap a value for notification-style forking.
    pub fn wrap<P>(&mut self, item: P) -> (r: Notification<P>)
        ensures
            r.0 == item,
            *final(self) == *old(self),
    {
        Notification(item)
    }

    /// Unwrap a received notification back into its value.
    pub fn unwrap<P>(&mut self, notification: Notification<P>) -> (r: P)
        ensures
            r == notification.0,
            *final(self) == *old(self),
    {
        notification.0
    }
}


impl Transport {
    /// Deliver a batch of inbound frames, oldest first: what the paired
    /// endpoint's sink emitted becomes this endpoint's inbound traffic.
    pub fn feed_frames(&mut self, frames: Vec<Vec<u8>>)
        ensures
            final(self).inner@ == (MuxView {
                incoming: old(self).inner@.incoming + crate::mux::frames_as_items(frames@),
                ..old(self).inner@
            }),
            final(self).pending == old(self).pending,
    {
        let ghost all = frames@;
        let mut rest = frames;
        while rest.len() > 0
            invariant
                self.pending == old(self).pending,
                rest@.is_suffix_of(all),
                self.inner@ == (MuxView {
                    incoming: old(self).inner@.incoming + crate::mux::frames_as_items(
                        all.take(all.len() - rest@.len()),
                    ),
                    ..old(self).inner@
                }),
            decreases rest@.len(),
        {
            let ghost k = all.len() - rest@.len();
            let f = rest.remove(0);
            proof {
                assert(rest@ =~= all.skip(k + 1));
                assert(f@ == all[k]@);
            }
            self.inner.push_incoming(crate::mux::PhysItem::Frame(f));
            proof {
                assert(crate::mux::frames_as_items(all.take(k + 1)) =~= crate::mux::frames_as_items(
                    all.take(k),
                ).push(crate::mux::PhysItemView::Frame(all[k]@)));
                assert(self.inner@ =~= MuxView {
                    incoming: old(self).inner@.incoming + crate::mux::frames_as_items(
                        all.take(k + 1),
                    ),
                    ..old(self).inner@
                });
            }
        }
        proof {
            assert(all.take(all.len() as int) =~= all);
        }
    }

    /// Record that the physical inbound source has ended: reads that find
    /// nothing more fail with Terminated instead of suspending.
    pub fn close(&mut self)
        ensures
            final(self).inner@ == (MuxView { closed: true, ..old(self).inner@ }),
            final(self).pending == old(self).pending,
    {
        self.inner.close_incoming();
    }

    /// Hand over everything queued for the physical sink, oldest first.
    pub fn take_outgoing(&mut self) -> (r: Vec<Vec<u8>>)
        ensures
            r@.map_values(|v: Vec<u8>| v@) == old(self).inner@.outgoing,
            final(self).inner@ == (MuxView {
                outgoing: Seq::<Seq<u8>>::empty(),
                ..old(self).inner@
            }),
            final(self).pending == old(self).pending,
    {
        self.inner.take_outgoing()
    }
}


/// Appending outbound frames alone is an evolution.
pub proof fn lemma_evolves_writes(a: MuxView, b: MuxView, added: Seq<Seq<u8>>)
    requires
        b == (MuxView { outgoing: a.outgoing + added, ..a }),
    ensures
        evolves(a, b),
{
    assert(a.outgoing =~= (a.outgoing + added).subrange(0, a.outgoing.len() as int));
    assert(a.incoming.skip(0) =~= a.incoming);
}

/// One read attempt is an evolution: it only consumes inbound items and
/// moves payloads into the out-of-order buffer.
pub proof fn lemma_read_spec_evolves(m: MuxView, h: u32)
    ensures
        evolves(m, read_spec(m, h).0),
    decreases m.incoming.len(),
{
    let m2 = read_spec(m, h).0;
    if buf_lookup(m.buffers, h).len() > 0 {
        lemma_evolves_refl(m);
        assert(m2.incoming.is_suffix_of(m.incoming));
        assert(m.outgoing.is_prefix_of(m2.outgoing));
    } else if m.incoming.len() == 0 {
        lemma_evolves_refl(m);
    } else {
        let tail = m.incoming.skip(1);
        match m.incoming[0] {
            crate::mux::PhysItemView::Fault => {
                assert(m.outgoing =~= m2.outgoing.subrange(0, m.outgoing.len() as int));
            },
            crate::mux::PhysItemView::Frame(d) => {
                if d.len() < 4 || crate::bytes::be_bytes_to_u32(d) == h {
                    assert(m.outgoing =~= m2.outgoing.subrange(0, m.outgoing.len() as int));
                } else {
                    let mn = MuxView {
                        incoming: tail,
                        buffers: buf_push(
                            m.buffers,
                            crate::bytes::be_bytes_to_u32(d),
                            d.skip(4),
                        ),
                        ..m
                    };
                    lemma_read_spec_evolves(mn, h);
                    assert(mn.incoming.is_suffix_of(m.incoming));
                    assert(m.outgoing.is_prefix_of(mn.outgoing)) by {
                        assert(m.outgoing =~= mn.outgoing.subrange(0, m.outgoing.len() as int));
                    }
                    lemma_evolves_trans(m, mn, m2);
                }
            },
        }
    }
}


impl Transport {
    /// Whether the physical sink can accept another frame. The in-memory
    /// sink queue always can; an adapter around a real sink surfaces its
    /// backpressure by delaying the feed instead.
    pub fn poll_ready(&mut self) -> (r: Result<(), SerdeWriteError>)
        ensures
            r == Ok::<(), SerdeWriteError>(()),
            *final(self) == *old(self),
    {
        Ok(())
    }

    /// Whether everything handed to the physical sink has drained. The
    /// in-memory sink queue holds frames until they are taken, so there is
    /// nothing to wait for here; a real sink's flush lives in its adapter.
    pub fn poll_flush(&mut self) -> (r: Result<(), SerdeWriteError>)
        ensures
            r == Ok::<(), SerdeWriteError>(()),
            *final(self) == *old(self),
    {
        Ok(())
    }
}

} // verus!
