//! Concrete value protocols shipped with the transport: a flat two-field
//! record, and a nested string stream that forks a context of its own. Both
//! instantiate the protocol contract with exact step relations, and the
//! round-trip statements of the library are proved over them.

use vstd::prelude::*;
use crate::bytes::frame_of;
use crate::codec::{le_bytes_to_u32, lemma_u32_codec_round_trip, wire_str, wire_u32};
use crate::engine::Protocol;
use crate::errors::{ProtocolError, ReadStep, SerdeReadError, Step};
use crate::mux::{avail, frames_wf, lemma_read_spec_step, read_spec, MuxView};
use crate::transport::{
    lemma_evolves_writes, lemma_read_spec_evolves, ContextHandle, Transport,
};

verus! {

/// A flat record: a tag and two data fields, sent as three payloads on its
/// context, in field order.
pub struct RecordValue {
    /// The discriminating tag.
    pub tag: String,
    /// The numeric field.
    pub item: u32,
    /// The second data field.
    pub other: String,
}

/// The spec-level shape of a record.
pub ghost struct RecordView {
    /// The tag's characters.
    pub tag: Seq<char>,
    /// The numeric field.
    pub item: u32,
    /// The second field's characters.
    pub other: Seq<char>,
}

impl View for RecordValue {
    type V = RecordView;

    open spec fn view(&self) -> RecordView {
        RecordView { tag: self.tag@, item: self.item, other: self.other@ }
    }
}

/// The payloads a record writes to its context, in field order.
pub open spec fn record_payloads(v: RecordView) -> Seq<Seq<u8>> {
    seq![wire_str(v.tag), wire_u32(v.item), wire_str(v.other)]
}

/// The frames a record writes, all addressed to context `ctx`.
pub open spec fn record_frames(ctx: u32, v: RecordView) -> Seq<Seq<u8>> {
    record_payloads(v).map_values(|p: Seq<u8>| frame_of(ctx, p))
}

/// The decomposition state of a record: the value, waiting to be written.
pub struct RecordTarget {
    /// The record to write.
    pub value: RecordValue,
}

/// The cleanup state of a record: nothing is left to do after the fields
/// are written.
pub struct RecordFinalize {}

/// The reconstruction state of a record: which fields have arrived so far.
pub enum RecordFuture {
    /// Nothing has arrived.
    AwaitTag,
    /// The tag has arrived.
    AwaitItem {
        /// The received tag.
        tag: String,
    },
    /// The tag and the numeric field have arrived.
    AwaitOther {
        /// The received tag.
        tag: String,
        /// The received numeric field.
        item: u32,
    },
}

impl Protocol for RecordValue {
    type Target = RecordTarget;

    type Finalize = RecordFinalize;

    type Future = RecordFuture;

    open spec fn unravel_spec(self) -> RecordTarget {
        RecordTarget { value: self }
    }

    open spec fn coalesce_spec() -> RecordFuture {
        RecordFuture::AwaitTag
    }

    open spec fn target_pre(t: RecordTarget, m: MuxView) -> bool {
        true
    }

    open spec fn finalize_pre(f: RecordFinalize, m: MuxView) -> bool {
        true
    }

    open spec fn future_pre(f: RecordFuture, m: MuxView) -> bool {
        true
    }

    open spec fn target_step(
        ctx: ContextHandle,
        pre: (RecordTarget, Transport),
        post: (RecordTarget, Transport),
        r: Step<RecordFinalize>,
    ) -> bool {
        &&& r is Ready
        &&& post.1.inner@ == (MuxView {
            outgoing: pre.1.inner@.outgoing + record_frames(ctx.0, pre.0.value@),
            ..pre.1.inner@
        })
        &&& post.1.pending == pre.1.pending
    }

    open spec fn finalize_step(
        ctx: ContextHandle,
        pre: (RecordFinalize, Transport),
        post: (RecordFinalize, Transport),
        r: Step<()>,
    ) -> bool {
        &&& r == Step::<()>::Ready(())
        &&& post.1 == pre.1
    }

    open spec fn future_step(
        ctx: ContextHandle,
        pre: (RecordFuture, Transport),
        post: (RecordFuture, Transport),
        r: Step<RecordValue>,
    ) -> bool {
        let m = pre.1.inner@;
        let a = avail(m, ctx.0);
        (frames_wf(m.incoming) && pre.0 is AwaitTag) ==> {
            &&& post.1.pending == pre.1.pending
            &&& post.1.inner@.outgoing == m.outgoing
            &&& post.1.inner@.next_id == m.next_id
            &&& post.1.inner@.closed == m.closed
            &&& frames_wf(post.1.inner@.incoming)
            &&& (forall|t: Seq<char>, i: u32, o: Seq<char>|
                (a.len() >= 3 && a[0] == #[trigger] wire_str(t) && a[1] == #[trigger] wire_u32(i)
                    && a[2] == #[trigger] wire_str(o)) ==> (r matches Step::Ready(w) && w@
                    == (RecordView { tag: t, item: i, other: o }) && avail(post.1.inner@, ctx.0)
                    == a.skip(3) && (forall|g: u32|
                    g != ctx.0 ==> avail(post.1.inner@, g) == avail(m, g))))
            &&& ((m.closed && a.len() == 0) ==> r == Step::<RecordValue>::Fail(
                ProtocolError::Read(SerdeReadError::Terminated),
            ))
        }
    }

    fn unravel(self) -> (t: RecordTarget) {
        RecordTarget { value: self }
    }

    fn coalesce() -> (f: RecordFuture) {
        RecordFuture::AwaitTag
    }

    fn poll_target(t: &mut RecordTarget, tr: &mut Transport, ctx: ContextHandle) -> (r: Step<
        RecordFinalize,
    >) {
        tr.write_str(ctx, &t.value.tag);
        tr.write_u32(ctx, t.value.item);
        tr.write_str(ctx, &t.value.other);
        proof {
            assert(tr.inner@.outgoing =~= old(tr).inner@.outgoing + record_frames(
                ctx.0,
                old(t).value@,
            ));
            assert(tr.inner@ =~= MuxView {
                outgoing: old(tr).inner@.outgoing + record_frames(ctx.0, old(t).value@),
                ..old(tr).inner@
            });
            lemma_evolves_writes(old(tr).inner@, tr.inner@, record_frames(ctx.0, old(t).value@));
            assert(tr.pending@ =~= tr.pending@.subrange(0, tr.pending@.len() as int));
        }
        Step::Ready(RecordFinalize {  })
    }

    fn poll_finalize(f: &mut RecordFinalize, tr: &mut Transport, ctx: ContextHandle) -> (r: Step<
        (),
    >) {
        proof {
            crate::transport::lemma_evolves_refl(tr.inner@);
            assert(tr.pending@ =~= tr.pending@.subrange(0, tr.pending@.len() as int));
        }
        Step::Ready(())
    }

    fn poll_future(f: &mut RecordFuture, tr: &mut Transport, ctx: ContextHandle) -> (r: Step<
        RecordValue,
    >) {
        let ghost m0 = tr.inner@;
        let ghost pre0 = *f;
        let mut st: RecordFuture = RecordFuture::AwaitTag;
        core::mem::swap(&mut st, f);
        let st = match st {
            RecordFuture::AwaitTag => {
                match tr.read_str(ctx) {
                    ReadStep::Pending => {
                        *f = RecordFuture::AwaitTag;
                        proof {
                            record_read_lemmas(m0, ctx.0);
                        }
                        return Step::Pending;
                    },
                    ReadStep::Fail(e) => {
                        *f = RecordFuture::AwaitTag;
                        proof {
                            record_read_lemmas(m0, ctx.0);
                        }
                        return Step::Fail(ProtocolError::Read(e));
                    },
                    ReadStep::Ready(tag) => RecordFuture::AwaitItem { tag },
                }
            },
            other => other,
        };
        let st = match st {
            RecordFuture::AwaitItem { tag } => {
                match tr.read_u32(ctx) {
                    ReadStep::Pending => {
                        *f = RecordFuture::AwaitItem { tag };
                        proof {
                            record_read_lemmas(m0, ctx.0);
                        }
                        return Step::Pending;
                    },
                    ReadStep::Fail(e) => {
                        *f = RecordFuture::AwaitItem { tag };
                        proof {
                            record_read_lemmas(m0, ctx.0);
                        }
                        return Step::Fail(ProtocolError::Read(e));
                    },
                    ReadStep::Ready(item) => RecordFuture::AwaitOther { tag, item },
                }
            },
            other => other,
        };
        match st {
            RecordFuture::AwaitOther { tag, item } => {
                match tr.read_str(ctx) {
                    ReadStep::Pending => {
                        *f = RecordFuture::AwaitOther { tag, item };
                        proof {
                            record_read_lemmas(m0, ctx.0);
                        }
                        return Step::Pending;
                    },
                    ReadStep::Fail(e) => {
                        *f = RecordFuture::AwaitOther { tag, item };
                        proof {
                            record_read_lemmas(m0, ctx.0);
                        }
                        return Step::Fail(ProtocolError::Read(e));
                    },
                    ReadStep::Ready(other) => {
                        *f = RecordFuture::AwaitTag;
                        proof {
                            record_read_lemmas(m0, ctx.0);
                        }
                        return Step::Ready(RecordValue { tag, item, other });
                    },
                }
            },
            RecordFuture::AwaitTag => {
                proof {
                    assert(false);
                }
                return Step::Pending;
            },
            RecordFuture::AwaitItem { .. } => {
                proof {
                    assert(false);
                }
                return Step::Pending;
            },
        }
    }
}

/// Everything three successive reads for context `ctx` can rely on: each
/// read is an evolution, and under well-formed inbound traffic each read
/// keeps the per-handle FIFO promise; decoding a 32-bit value inverts its
/// encoding, and skipping one payload three times skips three.
proof fn record_read_lemmas(m0: MuxView, h: u32)
    ensures
        ({
            let m1 = read_spec(m0, h).0;
            let m2 = read_spec(m1, h).0;
            let m3 = read_spec(m2, h).0;
            &&& crate::transport::evolves(m0, m1)
            &&& crate::transport::evolves(m0, m2)
            &&& crate::transport::evolves(m0, m3)
            &&& (frames_wf(m0.incoming) ==> crate::mux::read_step_facts(m0, h)
                && crate::mux::read_step_facts(m1, h) && crate::mux::read_step_facts(m2, h))
        }),
        forall|i: u32| le_bytes_to_u32(#[trigger] wire_u32(i)) == i,
        avail(m0, h).len() >= 3 ==> avail(m0, h).skip(1).skip(1).skip(1) == avail(m0, h).skip(3),
{
    let m1 = read_spec(m0, h).0;
    let m2 = read_spec(m1, h).0;
    let m3 = read_spec(m2, h).0;
    lemma_read_spec_evolves(m0, h);
    lemma_read_spec_evolves(m1, h);
    lemma_read_spec_evolves(m2, h);
    crate::transport::lemma_evolves_trans(m0, m1, m2);
    crate::transport::lemma_evolves_trans(m0, m2, m3);
    if frames_wf(m0.incoming) {
        lemma_read_spec_step(m0, h);
        lemma_read_spec_step(m1, h);
        lemma_read_spec_step(m2, h);
    }
    assert forall|i: u32| le_bytes_to_u32(#[trigger] wire_u32(i)) == i by {
        lemma_u32_codec_round_trip(i);
    }
    if avail(m0, h).len() >= 3 {
        assert(avail(m0, h).skip(1).skip(1).skip(1) =~= avail(m0, h).skip(3));
    }
}


/// A nested stream of strings. Over the wire the root exchange carries only
/// the forked context's handle; the items flow over that context. The
/// sending side hands the item writing to the finalization scheduler, so the
/// root completes without waiting; the receiving side completes the root
/// with the joined handle and drains the items from that context separately.
pub struct StringStream {
    /// The context the items flow over.
    pub handle: ContextHandle,
    /// On the sending side, the items to write; a received stream starts
    /// empty and is drained from its context instead.
    pub items: Vec<String>,
}

/// The decomposition state of a stream: the value, waiting to be forked.
pub struct StreamTarget {
    /// The stream to fork, until the fork happens.
    pub value: Option<StringStream>,
}

/// The cleanup state of a stream: the items were handed to the scheduler,
/// nothing is left for the root to do.
pub struct StreamFinalize {}

/// The reconstruction state of a stream: await the forked context's handle.
pub struct StreamFuture {}

impl Protocol for StringStream {
    type Target = StreamTarget;

    type Finalize = StreamFinalize;

    type Future = StreamFuture;

    open spec fn unravel_spec(self) -> StreamTarget {
        StreamTarget { value: Some(self) }
    }

    open spec fn coalesce_spec() -> StreamFuture {
        StreamFuture {  }
    }

    open spec fn target_pre(t: StreamTarget, m: MuxView) -> bool {
        t.value is Some ==> m.next_id + 2 <= u32::MAX
    }

    open spec fn finalize_pre(f: StreamFinalize, m: MuxView) -> bool {
        true
    }

    open spec fn future_pre(f: StreamFuture, m: MuxView) -> bool {
        true
    }

    open spec fn target_step(
        ctx: ContextHandle,
        pre: (StreamTarget, Transport),
        post: (StreamTarget, Transport),
        r: Step<StreamFinalize>,
    ) -> bool {
        &&& (pre.0.value matches Some(v) ==> {
            &&& r is Ready
            &&& post.1.inner@ == (MuxView {
                outgoing: pre.1.inner@.outgoing.push(
                    frame_of(ctx.0, wire_u32(pre.1.inner@.next_id)),
                ),
                next_id: (pre.1.inner@.next_id + 2) as u32,
                ..pre.1.inner@
            })
            &&& post.1.pending@ == pre.1.pending@.push(
                crate::transport::Contextualized {
                    handle: ContextHandle(pre.1.inner@.next_id),
                    fut: crate::transport::Work::StreamItems { items: v.items },
                },
            )
        })
        &&& (pre.0.value is None ==> r is Pending && post.1 == pre.1)
    }

    open spec fn finalize_step(
        ctx: ContextHandle,
        pre: (StreamFinalize, Transport),
        post: (StreamFinalize, Transport),
        r: Step<()>,
    ) -> bool {
        &&& r == Step::<()>::Ready(())
        &&& post.1 == pre.1
    }

    open spec fn future_step(
        ctx: ContextHandle,
        pre: (StreamFuture, Transport),
        post: (StreamFuture, Transport),
        r: Step<StringStream>,
    ) -> bool {
        let m = pre.1.inner@;
        let a = avail(m, ctx.0);
        frames_wf(m.incoming) ==> {
            &&& post.1.pending == pre.1.pending
            &&& post.1.inner@.outgoing == m.outgoing
            &&& post.1.inner@.next_id == m.next_id
            &&& post.1.inner@.closed == m.closed
            &&& frames_wf(post.1.inner@.incoming)
            &&& (forall|id: u32|
                (a.len() >= 1 && a[0] == #[trigger] wire_u32(id)) ==> (r matches Step::Ready(v)
                    && v.handle.0 == id && v.items@ == Seq::<String>::empty() && avail(
                    post.1.inner@,
                    ctx.0,
                ) == a.skip(1) && (forall|g: u32|
                    g != ctx.0 ==> avail(post.1.inner@, g) == avail(m, g))))
            &&& ((m.closed && a.len() == 0) ==> r == Step::<StringStream>::Fail(
                ProtocolError::Read(SerdeReadError::Terminated),
            ))
        }
    }

    fn unravel(self) -> (t: StreamTarget) {
        StreamTarget { value: Some(self) }
    }

    fn coalesce() -> (f: StreamFuture) {
        StreamFuture {  }
    }

    fn poll_target(t: &mut StreamTarget, tr: &mut Transport, ctx: ContextHandle) -> (r: Step<
        StreamFinalize,
    >) {
        match t.value.take() {
            None => {
                proof {
                    crate::transport::lemma_evolves_refl(tr.inner@);
                    assert(tr.pending@ =~= tr.pending@.subrange(0, tr.pending@.len() as int));
                }
                Step::Pending
            },
            Some(v) => {
                let (h, id) = tr.fork_owned();
                tr.write_u32(ctx, id);
                tr.finalize(
                    crate::transport::Contextualized {
                        handle: h,
                        fut: crate::transport::Work::StreamItems { items: v.items },
                    },
                );
                proof {
                    let n = old(tr).inner@.next_id;
                    assert((n + 2) as u32 % 2 == n % 2) by (bit_vector)
                        requires
                            n + 2 <= u32::MAX,
                    ;
                    assert(tr.inner@ =~= MuxView {
                        outgoing: old(tr).inner@.outgoing.push(frame_of(ctx.0, wire_u32(n))),
                        next_id: (n + 2) as u32,
                        ..old(tr).inner@
                    });
                    assert(old(tr).inner@.outgoing =~= tr.inner@.outgoing.subrange(
                        0,
                        old(tr).inner@.outgoing.len() as int,
                    ));
                    assert(tr.inner@.incoming.skip(0) =~= tr.inner@.incoming);
                    assert(old(tr).pending@ =~= tr.pending@.subrange(
                        0,
                        old(tr).pending@.len() as int,
                    ));
                }
                Step::Ready(StreamFinalize {  })
            },
        }
    }

    fn poll_finalize(f: &mut StreamFinalize, tr: &mut Transport, ctx: ContextHandle) -> (r: Step<
        (),
    >) {
        proof {
            crate::transport::lemma_evolves_refl(tr.inner@);
            assert(tr.pending@ =~= tr.pending@.subrange(0, tr.pending@.len() as int));
        }
        Step::Ready(())
    }

    fn poll_future(f: &mut StreamFuture, tr: &mut Transport, ctx: ContextHandle) -> (r: Step<
        StringStream,
    >) {
        let ghost m0 = tr.inner@;
        let res = match tr.read_u32(ctx) {
            ReadStep::Pending => Step::Pending,
            ReadStep::Fail(e) => Step::Fail(ProtocolError::Read(e)),
            ReadStep::Ready(id) => {
                let h = tr.join_owned(id);
                Step::Ready(StringStream { handle: h, items: Vec::new() })
            },
        };
        proof {
            record_read_lemmas(m0, ctx.0);
        }
        res
    }
}


/// The characters of each string, in order.
pub open spec fn str_views(ss: Seq<String>) -> Seq<Seq<char>> {
    ss.map_values(|s: String| s@)
}

/// Round trip of a record over a connected in-memory pair: serializing a
/// record with one endpoint and reconstructing from exactly the frames it
/// emitted yields an observably equal record, and leaves no payload
/// reachable for any handle on the receiving side afterwards.
pub fn record_round_trip(v: RecordValue) -> (r: (Option<RecordValue>, Transport))
    ensures
        r.0 matches Some(w) && w@ == v@,
        forall|g: u32| avail(r.1.inner@, g) == Seq::<Seq<u8>>::empty(),
{
    let ghost vv = v@;
    let mut a = crate::engine::Unravel::<RecordValue>::new(v);
    let ra = a.poll();
    proof {
        assert(ra == Step::<()>::Ready(()));
        assert(a.transport.inner@.outgoing =~= record_frames(0, vv));
    }
    let frames = a.transport.take_outgoing();
    let mut b = crate::engine::Coalesce::<RecordValue>::new();
    b.transport.feed_frames(frames);
    b.transport.close();
    let ghost pv = record_payloads(vv);
    let ghost bm0 = b.transport.inner@;
    proof {
        assert(frames@.len() == 3) by {
            assert(frames@.map_values(|v: Vec<u8>| v@).len() == frames@.len());
        }
        assert forall|k: int|
            0 <= k < frames@.len() implies crate::mux::frames_as_items(frames@)[k]
            == crate::mux::PhysItemView::Frame(frame_of(0, pv[k])) by {
            assert(frames@.map_values(|v: Vec<u8>| v@)[k] == frames@[k]@);
            assert(frames@[k]@ == record_frames(0, vv)[k]);
            assert(record_frames(0, vv)[k] == frame_of(0, pv[k]));
        }
        assert(bm0.incoming =~= pv.map_values(|p: Seq<u8>| crate::mux::PhysItemView::Frame(
            frame_of(0, p),
        )));
        crate::mux::lemma_payloads_for_frames(0, pv, 0);
        assert(avail(bm0, 0) =~= pv);
        assert(avail(bm0, 0)[0] == wire_str(vv.tag));
        assert(avail(bm0, 0)[1] == wire_u32(vv.item));
        assert(avail(bm0, 0)[2] == wire_str(vv.other));
        assert forall|g: u32| g != 0 implies avail(bm0, g) == Seq::<Seq<u8>>::empty() by {
            crate::mux::lemma_payloads_for_frames(0, pv, g);
            assert(avail(bm0, g) =~= Seq::<Seq<u8>>::empty());
        }
    }
    let rb = b.poll();
    proof {
        let am = b.transport.inner@;
        assert(rb matches Step::Ready(w) && w@ == vv);
        assert(avail(am, 0) =~= Seq::<Seq<u8>>::empty());
        assert forall|g: u32| avail(am, g) == Seq::<Seq<u8>>::empty() by {
            if g != 0 {
                assert(avail(am, g) == avail(bm0, g));
            }
        }
    }
    match rb {
        Step::Ready(w) => (Some(w), b.transport),
        Step::Pending => {
            proof {
                assert(false);
            }
            (None, b.transport)
        },
        Step::Fail(_) => {
            proof {
                assert(false);
            }
            (None, b.transport)
        },
    }
}


/// The forked-stream exchange over a connected in-memory pair: the sender's
/// root completes after transmitting only the forked context's handle and
/// hands the item writing to the finalization scheduler; once that scheduled
/// work has run, the receiver completes the root reconstruction first and
/// only then drains exactly the items, in order, from the forked context.
pub fn stream_round_trip(items: Vec<String>) -> (r: Option<Vec<String>>)
    ensures
        r matches Some(got) && str_views(got@) == str_views(items@),
{
    let ghost iv = items@;
    let count = items.len();
    let h0 = ContextHandle::root();
    let vs = StringStream { handle: h0, items };
    let ghost gvs = vs;
    let mut a = crate::engine::Unravel::<StringStream>::new(vs);
    let ra = a.poll();
    let ghost c = crate::transport::Contextualized {
        handle: ContextHandle(1u32),
        fut: crate::transport::Work::StreamItems { items: gvs.items },
    };
    proof {
        assert(ra == Step::<()>::Ready(()));
        assert(a.transport.inner@.outgoing =~= seq![frame_of(0u32, wire_u32(1u32))]);
        assert(a.transport.pending@ =~= seq![c]);
    }
    a.transport.run_pending();
    let ghost pays = iv.map_values(|s: String| wire_str(s@));
    proof {
        assert(seq![c].skip(1) =~= Seq::<crate::transport::Contextualized>::empty());
        assert(crate::transport::pending_frames(Seq::<crate::transport::Contextualized>::empty())
            == Seq::<Seq<u8>>::empty());
        assert(crate::transport::work_frames(c) + Seq::<Seq<u8>>::empty()
            =~= crate::transport::work_frames(c));
        assert(crate::transport::pending_frames(seq![c]) =~= crate::transport::work_frames(c));
        assert(crate::transport::work_frames(c) =~= pays.map_values(
            |p: Seq<u8>| frame_of(1u32, p),
        ));
        assert(a.transport.inner@.outgoing =~= seq![frame_of(0u32, wire_u32(1u32))]
            + pays.map_values(|p: Seq<u8>| frame_of(1u32, p)));
    }
    let frames = a.transport.take_outgoing();
    let mut b = crate::engine::Coalesce::<StringStream>::new();
    b.transport.feed_frames(frames);
    b.transport.close();
    let ghost pay0: Seq<Seq<u8>> = seq![wire_u32(1u32)];
    let ghost items_a = pay0.map_values(
        |p: Seq<u8>| crate::mux::PhysItemView::Frame(frame_of(0u32, p)),
    );
    let ghost items_b = pays.map_values(
        |p: Seq<u8>| crate::mux::PhysItemView::Frame(frame_of(1u32, p)),
    );
    let ghost bm0 = b.transport.inner@;
    proof {
        assert(frames@.len() == 1 + iv.len()) by {
            assert(frames@.map_values(|v: Vec<u8>| v@).len() == frames@.len());
        }
        assert forall|k: int|
            0 <= k < frames@.len() implies crate::mux::frames_as_items(frames@)[k] == (items_a
            + items_b)[k] by {
            assert(frames@.map_values(|v: Vec<u8>| v@)[k] == frames@[k]@);
            if k == 0 {
                assert(frames@[k]@ == frame_of(0u32, wire_u32(1u32)));
            } else {
                assert(frames@[k]@ == pays.map_values(|p: Seq<u8>| frame_of(1u32, p))[k - 1]);
                assert(frames@[k]@ == frame_of(1u32, pays[k - 1]));
                assert((items_a + items_b)[k] == items_b[k - 1]);
            }
        }
        assert(bm0.incoming =~= items_a + items_b);
        crate::mux::lemma_payloads_for_frames(0u32, pay0, 0u32);
        crate::mux::lemma_payloads_for_frames(1u32, pays, 0u32);
        crate::mux::lemma_payloads_for_concat(0u32, items_a, items_b);
        crate::mux::lemma_payloads_for_frames(0u32, pay0, 1u32);
        crate::mux::lemma_payloads_for_frames(1u32, pays, 1u32);
        crate::mux::lemma_payloads_for_concat(1u32, items_a, items_b);
        assert(frames_wf(bm0.incoming)) by {
            assert(frames_wf(items_a));
            assert(frames_wf(items_b));
            assert forall|k: int|
                0 <= k < bm0.incoming.len() implies (#[trigger] bm0.incoming[k] matches
                crate::mux::PhysItemView::Frame(d) && d.len() >= 4) by {
                if k < items_a.len() {
                    assert(items_a[k] matches crate::mux::PhysItemView::Frame(d) && d.len() >= 4);
                } else {
                    assert(items_b[k - items_a.len()] matches crate::mux::PhysItemView::Frame(d)
                        && d.len() >= 4);
                }
            }
        }
        assert(avail(bm0, 0) =~= pay0 + Seq::<Seq<u8>>::empty());
        assert(avail(bm0, 0) =~= pay0);
        assert(avail(bm0, 0)[0] == wire_u32(1u32));
        assert(avail(bm0, 1) =~= Seq::<Seq<u8>>::empty() + pays);
        assert(avail(bm0, 1) =~= pays);
    }
    let rb = b.poll();
    let v = match rb {
        Step::Ready(v) => v,
        Step::Pending => {
            proof {
                assert(false);
            }
            return None;
        },
        Step::Fail(_) => {
            proof {
                assert(false);
            }
            return None;
        },
    };
    proof {
        assert(v.handle.0 == 1);
        assert(avail(b.transport.inner@, 1) == pays);
        assert(frames_wf(b.transport.inner@.incoming));
        assert(pays.len() == count);
    }
    let mut got: Vec<String> = Vec::new();
    let mut k: usize = 0;
    while k < count
        invariant
            k <= count,
            got@.len() == k,
            count == iv.len(),
            pays == iv.map_values(|s: String| wire_str(s@)),
            v.handle.0 == 1,
            str_views(got@) == str_views(iv).take(k as int),
            avail(b.transport.inner@, 1) == pays.skip(k as int),
            frames_wf(b.transport.inner@.incoming),
        decreases count - k,
    {
        let ghost mpre = b.transport.inner@;
        match b.transport.read_str(v.handle) {
            ReadStep::Ready(s) => {
                proof {
                    lemma_read_spec_step(mpre, 1u32);
                    assert(avail(mpre, 1)[0] == pays[k as int]);
                    assert(pays[k as int] == wire_str(iv[k as int]@));
                    assert(s@ == iv[k as int]@);
                    assert(pays.skip(k as int).skip(1) =~= pays.skip(k + 1));
                    assert(str_views(got@.push(s)) =~= str_views(iv).take(k + 1));
                }
                got.push(s);
            },
            ReadStep::Pending => {
                proof {
                    lemma_read_spec_step(mpre, 1u32);
                    assert(false);
                }
                return None;
            },
            ReadStep::Fail(_) => {
                proof {
                    lemma_read_spec_step(mpre, 1u32);
                    assert(avail(mpre, 1)[0] == wire_str(iv[k as int]@));
                    assert(false);
                }
                return None;
            },
        }
        k += 1;
    }
    proof {
        assert(str_views(iv).take(count as int) =~= str_views(iv));
    }
    Some(got)
}

} // verus!
