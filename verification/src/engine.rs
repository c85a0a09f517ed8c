//! The two symmetric drivers. An Unravel engine pushes a root value's
//! two-phase decomposition (target, then finalize) to completion against the
//! root context; a Coalesce engine pulls a root value's reconstruction
//! future to completion. Both are generic over the value-protocol contract:
//! a value type says how it decomposes into reads, writes and forks, and the
//! engines promise exactly what that contract promises, step for step.

use vstd::prelude::*;
use crate::errors::Step;
use crate::mux::MuxView;
use crate::transport::{evolves, ContextHandle, Contextualized, Notification, Transport};

verus! {

/// The value-protocol contract the engines consume. A value type supplies a
/// decomposition state machine (`Target` then `Finalize`) and a
/// reconstruction state machine (`Future`), each driven step by step against
/// a transport and a logical context. The three step relations are the
/// type's own exact statement of what one step does; every implementation
/// proves its steps against them.
pub trait Protocol: Sized {
    /// The state of the first decomposition phase.
    type Target;

    /// The state of the cleanup phase run after the target phase completes.
    type Finalize;

    /// The state of the reconstruction.
    type Future;

    /// The freshly started decomposition of `self`.
    spec fn unravel_spec(self) -> Self::Target;

    /// The freshly started reconstruction.
    spec fn coalesce_spec() -> Self::Future;

    /// What one more target step needs of the transport.
    spec fn target_pre(t: Self::Target, m: MuxView) -> bool;

    /// What one more finalize step needs of the transport.
    spec fn finalize_pre(f: Self::Finalize, m: MuxView) -> bool;

    /// What one more reconstruction step needs of the transport.
    spec fn future_pre(f: Self::Future, m: MuxView) -> bool;

    /// What one target step driven at `ctx` does: how the state and the
    /// transport change, and which outcome comes back.
    spec fn target_step(
        ctx: ContextHandle,
        pre: (Self::Target, Transport),
        post: (Self::Target, Transport),
        r: Step<Self::Finalize>,
    ) -> bool;

    /// What one finalize step driven at `ctx` does.
    spec fn finalize_step(
        ctx: ContextHandle,
        pre: (Self::Finalize, Transport),
        post: (Self::Finalize, Transport),
        r: Step<()>,
    ) -> bool;

    /// What one reconstruction step driven at `ctx` does.
    spec fn future_step(
        ctx: ContextHandle,
        pre: (Self::Future, Transport),
        post: (Self::Future, Transport),
        r: Step<Self>,
    ) -> bool;

    /// Begin decomposing `self`.
    fn unravel(self) -> (t: Self::Target)
        ensures
            t == self.unravel_spec(),
    ;

    /// Begin a reconstruction.
    fn coalesce() -> (f: Self::Future)
        ensures
            f == Self::coalesce_spec(),
    ;

    /// Drive the target phase one step against context `ctx`.
    fn poll_target(t: &mut Self::Target, tr: &mut Transport, ctx: ContextHandle) -> (r: Step<
        Self::Finalize,
    >)
        requires
            Self::target_pre(*old(t), old(tr).inner@),
        ensures
            evolves(old(tr).inner@, final(tr).inner@),
            old(tr).pending@.is_prefix_of(final(tr).pending@),
            !(r is Ready) ==> Self::target_pre(*final(t), final(tr).inner@),
            (r matches Step::Ready(f) ==> Self::finalize_pre(f, final(tr).inner@)),
            Self::target_step(ctx, (*old(t), *old(tr)), (*final(t), *final(tr)), r),
    ;

    /// Drive the finalize phase one step against context `ctx`.
    fn poll_finalize(f: &mut Self::Finalize, tr: &mut Transport, ctx: ContextHandle) -> (r: Step<
        (),
    >)
        requires
            Self::finalize_pre(*old(f), old(tr).inner@),
        ensures
            evolves(old(tr).inner@, final(tr).inner@),
            old(tr).pending@.is_prefix_of(final(tr).pending@),
            !(r is Ready) ==> Self::finalize_pre(*final(f), final(tr).inner@),
            Self::finalize_step(ctx, (*old(f), *old(tr)), (*final(f), *final(tr)), r),
    ;

    /// Drive the reconstruction one step against context `ctx`.
    fn poll_future(f: &mut Self::Future, tr: &mut Transport, ctx: ContextHandle) -> (r: Step<Self>)
        requires
            Self::future_pre(*old(f), old(tr).inner@),
        ensures
            evolves(old(tr).inner@, final(tr).inner@),
            old(tr).pending@.is_prefix_of(final(tr).pending@),
            !(r is Ready) ==> Self::future_pre(*final(f), final(tr).inner@),
            Self::future_step(ctx, (*old(f), *old(tr)), (*final(f), *final(tr)), r),
    ;
}

/// The same suspension or fault at another payload type; meaningful only for
/// outcomes that carry no value.
pub open spec fn step_cast<A, B>(r: Step<A>) -> Step<B>
    recommends
        !(r is Ready),
{
    match r {
        Step::Ready(_) => Step::Pending,
        Step::Pending => Step::Pending,
        Step::Fail(e) => Step::Fail(e),
    }
}

/// The two-phase decomposition state: the target phase, then exactly one
/// finalize phase. The transition is one-way and terminal: an engine never
/// returns from the finalize phase to the target phase, and never leaves
/// completion.
pub enum UnravelState<T, U> {
    /// Producing the wire representation.
    Target(T),
    /// Cleaning up after the wire representation is produced.
    Finalize(U),
    /// Both phases are done.
    Complete,
}

/// The serializing endpoint: drives a root value's decomposition against
/// the root context, allocating odd handles for whatever it forks.
pub struct Unravel<P: Protocol> {
    /// Where the decomposition stands.
    pub fut: UnravelState<P::Target, P::Finalize>,
    /// The transport everything runs against.
    pub transport: Transport,
}

/// What driving a finalize state `f0` on transport `tr` can leave behind:
/// either the engine is still in the finalize phase and one finalize step
/// relates the states, or the step completed and so did the engine.
pub open spec fn finalize_outcome<P: Protocol>(
    f0: P::Finalize,
    tr: Transport,
    r: Step<()>,
    post: Unravel<P>,
) -> bool {
    ||| (!(r is Ready) && (post.fut matches UnravelState::Finalize(f1) && P::finalize_step(
        ContextHandle(0),
        (f0, tr),
        (f1, post.transport),
        r,
    )))
    ||| (r == Step::<()>::Ready(()) && post.fut is Complete && (exists|f1: P::Finalize|
        P::finalize_step(ContextHandle(0), (f0, tr), (f1, post.transport), Step::Ready(()))))
}

impl<P: Protocol> Unravel<P> {
    /// Whether the engine can take one more step.
    pub open spec fn ready_to_poll(self) -> bool {
        match self.fut {
            UnravelState::Target(t) => P::target_pre(t, self.transport.inner@),
            UnravelState::Finalize(f) => P::finalize_pre(f, self.transport.inner@),
            UnravelState::Complete => true,
        }
    }

    /// A serializing endpoint for the root value `item`: root context 0, a
    /// fresh transport whose handle counter starts at 1 so every handle this
    /// endpoint allocates is odd.
    pub fn new(item: P) -> (s: Self)
        ensures
            s.transport.inner@ == (MuxView {
                incoming: Seq::<crate::mux::PhysItemView>::empty(),
                closed: false,
                outgoing: Seq::<Seq<u8>>::empty(),
                buffers: Seq::<(u32, Seq<Seq<u8>>)>::empty(),
                next_id: 1u32,
            }),
            s.transport.pending@ == Seq::<Contextualized>::empty(),
            s.fut == UnravelState::<P::Target, P::Finalize>::Target(item.unravel_spec()),
    {
        Unravel { fut: UnravelState::Target(P::unravel(item)), transport: Transport::new(1) }
    }

    /// Drive the decomposition. The target phase runs first; the step that
    /// completes it hands over a finalize state, which is driven next, as
    /// one continuous motion. A fault ends the engine at once and the
    /// finalize phase is not entered on a target-phase fault. The engine
    /// reports Ready exactly when both phases have completed.
    pub fn poll(&mut self) -> (r: Step<()>)
        requires
            old(self).ready_to_poll(),
        ensures
            final(self).ready_to_poll(),
            evolves(old(self).transport.inner@, final(self).transport.inner@),
            old(self).transport.pending@.is_prefix_of(final(self).transport.pending@),
            (r == Step::<()>::Ready(()) <==> final(self).fut is Complete),
            (old(self).fut is Complete ==> *final(self) == *old(self)),
            !(old(self).fut is Target) ==> !(final(self).fut is Target),
            (old(self).fut matches UnravelState::Target(t0) ==> {
                ||| (!(r is Ready) && (final(self).fut matches UnravelState::Target(t1)
                    && P::target_step(
                    ContextHandle(0),
                    (t0, old(self).transport),
                    (t1, final(self).transport),
                    step_cast(r),
                )))
                ||| (exists|t1: P::Target, f1: P::Finalize, mid: Transport|
                    P::target_step(
                        ContextHandle(0),
                        (t0, old(self).transport),
                        (t1, mid),
                        Step::Ready(f1),
                    ) && finalize_outcome::<P>(f1, mid, r, *final(self)))
            }),
            (old(self).fut matches UnravelState::Finalize(f0) ==> finalize_outcome::<P>(
                f0,
                old(self).transport,
                r,
                *final(self),
            )),
    {
        let root = ContextHandle(0);
        let mut state: UnravelState<P::Target, P::Finalize> = UnravelState::Complete;
        core::mem::swap(&mut state, &mut self.fut);
        match state {
            UnravelState::Complete => {
                proof {
                    crate::transport::lemma_evolves_refl(self.transport.inner@);
                    assert(self.transport.pending@ =~= self.transport.pending@.subrange(
                        0,
                        self.transport.pending@.len() as int,
                    ));
                }
                Step::Ready(())
            },
            UnravelState::Finalize(mut f) => {
                match P::poll_finalize(&mut f, &mut self.transport, root) {
                    Step::Ready(u) => {
                        self.fut = UnravelState::Complete;
                        Step::Ready(())
                    },
                    Step::Pending => {
                        self.fut = UnravelState::Finalize(f);
                        Step::Pending
                    },
                    Step::Fail(e) => {
                        self.fut = UnravelState::Finalize(f);
                        Step::Fail(e)
                    },
                }
            },
            UnravelState::Target(mut t) => {
                match P::poll_target(&mut t, &mut self.transport, root) {
                    Step::Pending => {
                        self.fut = UnravelState::Target(t);
                        Step::Pending
                    },
                    Step::Fail(e) => {
                        self.fut = UnravelState::Target(t);
                        Step::Fail(e)
                    },
                    Step::Ready(mut f) => {
                        let ghost mid = self.transport;
                        match P::poll_finalize(&mut f, &mut self.transport, root) {
                            Step::Ready(u) => {
                                self.fut = UnravelState::Complete;
                                proof {
                                    crate::transport::lemma_evolves_trans(
                                        old(self).transport.inner@,
                                        mid.inner@,
                                        self.transport.inner@,
                                    );
                                }
                                Step::Ready(())
                            },
                            Step::Pending => {
                                self.fut = UnravelState::Finalize(f);
                                proof {
                                    crate::transport::lemma_evolves_trans(
                                        old(self).transport.inner@,
                                        mid.inner@,
                                        self.transport.inner@,
                                    );
                                }
                                Step::Pending
                            },
                            Step::Fail(e) => {
                                self.fut = UnravelState::Finalize(f);
                                proof {
                                    crate::transport::lemma_evolves_trans(
                                        old(self).transport.inner@,
                                        mid.inner@,
                                        self.transport.inner@,
                                    );
                                }
                                Step::Fail(e)
                            },
                        }
                    },
                }
            },
        }
    }
}


/// The reconstruction state: the driven future, or completion once the root
/// value has been handed out.
pub enum CoalesceState<F> {
    /// Still reconstructing.
    Running(F),
    /// The value was handed out.
    Complete,
}

/// The deserializing endpoint: drives a root value's reconstruction against
/// the root context, allocating even handles for whatever it joins or forks.
pub struct Coalesce<P: Protocol> {
    /// Where the reconstruction stands.
    pub fut: CoalesceState<P::Future>,
    /// The transport everything runs against.
    pub transport: Transport,
}

impl<P: Protocol> Coalesce<P> {
    /// Whether the engine can take one more step.
    pub open spec fn ready_to_poll(self) -> bool {
        match self.fut {
            CoalesceState::Running(f) => P::future_pre(f, self.transport.inner@),
            CoalesceState::Complete => true,
        }
    }

    /// A reconstructing endpoint: root context 0, a fresh transport whose
    /// handle counter starts at 2 so every handle this endpoint allocates is
    /// even and never the root.
    pub fn new() -> (s: Self)
        ensures
            s.transport.inner@ == (MuxView {
                incoming: Seq::<crate::mux::PhysItemView>::empty(),
                closed: false,
                outgoing: Seq::<Seq<u8>>::empty(),
                buffers: Seq::<(u32, Seq<Seq<u8>>)>::empty(),
                next_id: 2u32,
            }),
            s.transport.pending@ == Seq::<Contextualized>::empty(),
            s.fut == CoalesceState::<P::Future>::Running(P::coalesce_spec()),
    {
        Coalesce { fut: CoalesceState::Running(P::coalesce()), transport: Transport::new(2) }
    }

    /// Drive the reconstruction. Ready hands the root value out, exactly
    /// once; after that the engine only suspends. A fault leaves the
    /// reconstruction where it stood.
    pub fn poll(&mut self) -> (r: Step<P>)
        requires
            old(self).ready_to_poll(),
        ensures
            final(self).ready_to_poll(),
            evolves(old(self).transport.inner@, final(self).transport.inner@),
            old(self).transport.pending@.is_prefix_of(final(self).transport.pending@),
            (r is Ready ==> final(self).fut is Complete),
            (old(self).fut is Complete ==> *final(self) == *old(self) && r is Pending),
            (old(self).fut matches CoalesceState::Running(f0) ==> {
                ||| (!(r is Ready) && (final(self).fut matches CoalesceState::Running(f1)
                    && P::future_step(
                    ContextHandle(0),
                    (f0, old(self).transport),
                    (f1, final(self).transport),
                    step_cast(r),
                )))
                ||| (r matches Step::Ready(v) && final(self).fut is Complete && (exists|
                    f1: P::Future,
                |
                    P::future_step(
                        ContextHandle(0),
                        (f0, old(self).transport),
                        (f1, final(self).transport),
                        Step::Ready(v),
                    )))
            }),
    {
        let root = ContextHandle(0);
        let mut state: CoalesceState<P::Future> = CoalesceState::Complete;
        core::mem::swap(&mut state, &mut self.fut);
        match state {
            CoalesceState::Complete => {
                proof {
                    crate::transport::lemma_evolves_refl(self.transport.inner@);
                    assert(self.transport.pending@ =~= self.transport.pending@.subrange(
                        0,
                        self.transport.pending@.len() as int,
                    ));
                }
                Step::Pending
            },
            CoalesceState::Running(mut f) => {
                match P::poll_future(&mut f, &mut self.transport, root) {
                    Step::Ready(v) => {
                        self.fut = CoalesceState::Complete;
                        Step::Ready(v)
                    },
                    Step::Pending => {
                        self.fut = CoalesceState::Running(f);
                        Step::Pending
                    },
                    Step::Fail(e) => {
                        self.fut = CoalesceState::Running(f);
                        Step::Fail(e)
                    },
                }
            },
        }
    }
}

impl Transport {
    /// Fork at the value level: start the nested value's decomposition. The
    /// contexts involved are agreed on separately, so nothing needs to be
    /// transmitted for the dispatch itself.
    pub fn fork<P: Protocol>(&mut self, item: P) -> (t: P::Target)
        ensures
            t == item.unravel_spec(),
            *final(self) == *old(self),
    {
        P::unravel(item)
    }

    /// Join at the value level: start reconstructing the nested value.
    pub fn join<P: Protocol>(&mut self) -> (f: P::Future)
        ensures
            f == P::coalesce_spec(),
            *final(self) == *old(self),
    {
        P::coalesce()
    }
}

/// The crate's construction surface: build a serializing or a deserializing
/// endpoint over the in-memory physical queues, for any value type that
/// supplies the protocol contract.
pub struct ProtocolMveTransport;

impl ProtocolMveTransport {
    /// Build a deserializing endpoint.
    pub fn coalesce<P: Protocol>() -> (r: Coalesce<P>)
        ensures
            r.transport.inner@.next_id == 2,
            r.transport.inner@.incoming == Seq::<crate::mux::PhysItemView>::empty(),
            r.transport.inner@.outgoing == Seq::<Seq<u8>>::empty(),
            r.fut == CoalesceState::<P::Future>::Running(P::coalesce_spec()),
    {
        Coalesce::new()
    }

    /// Build a serializing endpoint around the root value `item`.
    pub fn unravel<P: Protocol>(item: P) -> (r: Unravel<P>)
        ensures
            r.transport.inner@.next_id == 1,
            r.transport.inner@.incoming == Seq::<crate::mux::PhysItemView>::empty(),
            r.transport.inner@.outgoing == Seq::<Seq<u8>>::empty(),
            r.fut == UnravelState::<P::Target, P::Finalize>::Target(item.unravel_spec()),
    {
        Unravel::new(item)
    }
}

} // verus!
