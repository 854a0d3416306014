//! The per-connection liveness state machine and the fan-out registry
//! of outbound queues, one queue per live subscriber.

use vstd::prelude::*;

verus! {

/// How long a server-side session waits for any inbound message before
/// it considers the connection dead, in milliseconds.
pub const READ_TIMEOUT_MILLIS: i64 = 60_000;

/// A connection's lifecycle. `Closing` is terminal: the session is
/// removed from the registry and released exactly once.
#[derive(Clone, Copy, Debug, PartialEq, Eq, Structural)]
pub enum SessionState {
    Active,
    Closing,
}

/// What a live session can observe while it concurrently awaits the
/// inbound socket and its outbound queue.
#[derive(Clone, Copy, Debug, PartialEq, Eq, Structural)]
pub enum SessionEvent {
    /// An inbound message arrived: a pure liveness signal whose
    /// content is discarded.
    InboundMessage,
    /// The inbound read failed without closing the socket.
    InboundError,
    /// Nothing arrived within the read-timeout window.
    InboundTimeout,
    /// The socket closed.
    InboundClosed,
    /// A frame was dequeued from the outbound queue.
    OutboundFrame,
    /// The outbound queue closed.
    OutboundClosed,
    /// Writing a frame to the wire failed.
    WriteFailed,
}

/// What the session does in response to an event.
#[derive(Clone, Copy, Debug, PartialEq, Eq, Structural)]
pub enum SessionAction {
    /// Stay live and wait again, with the read timeout reset.
    KeepWaiting,
    /// Write the dequeued frame to the wire.
    WriteFrame,
    /// Tear the session down.
    Shutdown,
}

/// The full transition table. Any inbound message, heartbeat or not,
/// keeps the session alive; a timeout, a failed read, a closed
/// socket, a closed queue or a failed write closes it.
pub open spec fn session_step_spec(s: SessionState, e: SessionEvent) -> (
    SessionState,
    SessionAction,
) {
    match s {
        SessionState::Closing => (SessionState::Closing, SessionAction::Shutdown),
        SessionState::Active => match e {
            SessionEvent::InboundMessage => (SessionState::Active, SessionAction::KeepWaiting),
            SessionEvent::InboundError => (SessionState::Closing, SessionAction::Shutdown),
            SessionEvent::InboundTimeout => (SessionState::Closing, SessionAction::Shutdown),
            SessionEvent::InboundClosed => (SessionState::Closing, SessionAction::Shutdown),
            SessionEvent::OutboundFrame => (SessionState::Active, SessionAction::WriteFrame),
            SessionEvent::OutboundClosed => (SessionState::Closing, SessionAction::Shutdown),
            SessionEvent::WriteFailed => (SessionState::Closing, SessionAction::Shutdown),
        },
    }
}

/// One step of a session's life.
pub fn session_step(s: SessionState, e: SessionEvent) -> (r: (SessionState, SessionAction))
    ensures
        r == session_step_spec(s, e),
{
    match s {
        SessionState::Closing => (SessionState::Closing, SessionAction::Shutdown),
        SessionState::Active => match e {
            SessionEvent::InboundMessage => (SessionState::Active, SessionAction::KeepWaiting),
            SessionEvent::InboundError => (SessionState::Closing, SessionAction::Shutdown),
            SessionEvent::InboundTimeout => (SessionState::Closing, SessionAction::Shutdown),
            SessionEvent::InboundClosed => (SessionState::Closing, SessionAction::Shutdown),
            SessionEvent::OutboundFrame => (SessionState::Active, SessionAction::WriteFrame),
            SessionEvent::OutboundClosed => (SessionState::Closing, SessionAction::Shutdown),
            SessionEvent::WriteFailed => (SessionState::Closing, SessionAction::Shutdown),
        },
    }
}

/// A session that has started closing never comes back, whatever else
/// it observes: teardown happens along exactly one path.
pub proof fn lemma_closing_is_terminal(e: SessionEvent)
    ensures
        session_step_spec(SessionState::Closing, e).0 is Closing,
{
}

/// One connected subscriber: its registry id and its outbound queue
/// of pending frames, oldest first.
pub struct Subscriber {
    pub id: u64,
    pub queue: Vec<Vec<u8>>,
}

/// The frame sequences held by a sequence of subscribers.
pub open spec fn queues_of(s: Seq<Subscriber>) -> Seq<Seq<Seq<u8>>> {
    Seq::new(s.len(), |i: int| crate::paths::comps_view(s[i].queue@))
}

/// The registry ids, in registry order.
pub open spec fn ids_of(s: Seq<Subscriber>) -> Seq<u64> {
    Seq::new(s.len(), |i: int| s[i].id)
}

/// Every queue with one more frame at its back.
pub open spec fn fanout_queues(qs: Seq<Seq<Seq<u8>>>, f: Seq<u8>) -> Seq<Seq<Seq<u8>>> {
    qs.map_values(|q: Seq<Seq<u8>>| q.push(f))
}

/// The registry of live outbound queues, one per accepted connection.
pub struct Broadcaster {
    pub subs: Vec<Subscriber>,
    pub next_id: u64,
}

impl Broadcaster {
    /// Ids are unique, and below the next one to be handed out.
    pub open spec fn wf(&self) -> bool {
        forall|i: int, j: int|
            0 <= i < j < self.subs@.len() ==> (#[trigger] self.subs@[i]).id != (
            #[trigger] self.subs@[j]).id
    }

    /// An empty registry.
    pub fn new() -> (r: Broadcaster)
        ensures
            r.wf(),
            r.subs@.len() == 0,
            r.next_id == 0,
    {
        Broadcaster { subs: Vec::new(), next_id: 0 }
    }

    /// Admits a new connection: a fresh id with an empty queue.
    pub fn subscribe(&mut self) -> (id: u64)
        requires
            old(self).wf(),
            old(self).next_id < u64::MAX,
            forall|i: int|
                0 <= i < old(self).subs@.len()
                    ==> (#[trigger] old(self).subs@[i]).id < old(self).next_id,
        ensures
            final(self).wf(),
            id == old(self).next_id,
            final(self).next_id == old(self).next_id + 1,
            final(self).subs@.len() == old(self).subs@.len() + 1,
            final(self).subs@.last().id == id,
            final(self).subs@.last().queue@.len() == 0,
            forall|i: int|
                0 <= i < old(self).subs@.len() ==> final(self).subs@[i] == old(self).subs@[i],
            forall|i: int|
                0 <= i < final(self).subs@.len()
                    ==> (#[trigger] final(self).subs@[i]).id < final(self).next_id,
    {
        let id = self.next_id;
        self.subs.push(Subscriber { id, queue: Vec::new() });
        self.next_id = self.next_id + 1;
        id
    }

    /// Pushes one frame onto every live queue: delivery to each
    /// subscriber is unconditional, whatever any queue already holds,
    /// so one slow subscriber never blocks or starves another.
    pub fn broadcast(&mut self, frame: &Vec<u8>)
        requires
            old(self).wf(),
        ensures
            final(self).wf(),
            final(self).next_id == old(self).next_id,
            ids_of(final(self).subs@) == ids_of(old(self).subs@),
            queues_of(final(self).subs@) == fanout_queues(queues_of(old(self).subs@), frame@),
    {
        let ghost s0 = self.subs@;
        let mut updated: Vec<Subscriber> = Vec::new();
        let mut i: usize = 0;
        while i < self.subs.len()
            invariant
                s0 == old(self).subs@,
                self.subs@ == s0,
                0 <= i <= s0.len(),
                updated@.len() == i,
                forall|k: int| 0 <= k < i ==> (#[trigger] updated@[k]).id == s0[k].id,
                forall|k: int|
                    0 <= k < i ==> crate::paths::comps_view((#[trigger] updated@[k]).queue@)
                        == crate::paths::comps_view(s0[k].queue@).push(frame@),
            decreases s0.len() - i,
        {
            let mut q = crate::paths::copy_components(
                &self.subs[i].queue,
                self.subs[i].queue.len(),
            );
            let ghost qv = q@;
            proof {
                assert(crate::paths::comps_view(s0[i as int].queue@).subrange(
                    0,
                    s0[i as int].queue@.len() as int,
                ) =~= crate::paths::comps_view(s0[i as int].queue@));
            }
            let copy = crate::codec::subvec(frame, 0, frame.len());
            let ghost cv = copy@;
            q.push(copy);
            proof {
                assert(q@ == qv.push(q@.last()));
                assert(q@.last()@ == frame@);
                assert(crate::paths::comps_view(q@) =~= crate::paths::comps_view(qv).push(frame@));
            }
            let id = self.subs[i].id;
            updated.push(Subscriber { id, queue: q });
            i = i + 1;
        }
        self.subs = updated;
        proof {
            assert(ids_of(self.subs@) =~= ids_of(s0));
            assert(queues_of(self.subs@) =~= fanout_queues(queues_of(s0), frame@));
        }
    }

    /// Hands out everything queued for this subscriber, oldest first,
    /// leaving its queue empty; every other subscriber, and the
    /// registry order, stay untouched. An absent id yields nothing
    /// and changes nothing.
    pub fn take_queue(&mut self, id: u64) -> (r: Vec<Vec<u8>>)
        requires
            old(self).wf(),
        ensures
            final(self).wf(),
            final(self).next_id == old(self).next_id,
            final(self).subs@.len() == old(self).subs@.len(),
            ids_of(final(self).subs@) == ids_of(old(self).subs@),
            forall|j: int|
                0 <= j < old(self).subs@.len() && (#[trigger] old(self).subs@[j]).id != id
                    ==> final(self).subs@[j] == old(self).subs@[j],
            forall|j: int|
                0 <= j < old(self).subs@.len() && (#[trigger] old(self).subs@[j]).id == id
                    ==> final(self).subs@[j].id == id && final(self).subs@[j].queue@.len() == 0
                    && crate::paths::comps_view(r@) == crate::paths::comps_view(
                    old(self).subs@[j].queue@,
                ),
            !(exists|j: int|
                0 <= j < old(self).subs@.len() && (#[trigger] old(self).subs@[j]).id == id)
                ==> final(self).subs@ == old(self).subs@ && r@.len() == 0,
    {
        let ghost s0 = self.subs@;
        let mut i: usize = 0;
        while i < self.subs.len()
            invariant
                s0 == old(self).subs@,
                self.subs@ == s0,
                self.next_id == old(self).next_id,
                0 <= i <= s0.len(),
                forall|a: int, b: int|
                    0 <= a < b < s0.len() ==> (#[trigger] s0[a]).id != (#[trigger] s0[b]).id,
                forall|k: int| 0 <= k < i ==> (#[trigger] s0[k]).id != id,
            decreases s0.len() - i,
        {
            if self.subs[i].id == id {
                let taken = self.subs.remove(i);
                let ghost tq = taken.queue@;
                proof {
                    assert(taken == s0[i as int]);
                }
                self.subs.insert(i, Subscriber { id, queue: Vec::new() });
                proof {
                    assert forall|j: int| 0 <= j < s0.len() implies self.subs@[j] == s0.update(
                        i as int,
                        Subscriber { id, queue: self.subs@[i as int].queue },
                    )[j] by {}
                    assert(self.subs@[i as int].id == id);
                    assert(self.subs@[i as int].queue@.len() == 0);
                    assert forall|j: int| 0 <= j < s0.len() && (#[trigger] s0[j]).id != id implies
                        self.subs@[j] == s0[j] by {
                        assert(j != i);
                    }
                    assert forall|a: int, b: int| 0 <= a < b < self.subs@.len() implies (
                    #[trigger] self.subs@[a]).id != (#[trigger] self.subs@[b]).id by {
                        assert(self.subs@[a].id == s0[a].id && self.subs@[b].id == s0[b].id);
                    }
                    assert(ids_of(self.subs@) =~= ids_of(s0));
                    assert forall|j: int| 0 <= j < s0.len() && (#[trigger] s0[j]).id == id implies j
                        == i by {}
                }
                return taken.queue;
            }
            i = i + 1;
        }
        Vec::new()
    }

    /// Drops the subscriber with this id, if present; every other
    /// subscriber keeps its place and its queue.
    pub fn evict(&mut self, id: u64)
        requires
            old(self).wf(),
        ensures
            final(self).wf(),
            final(self).next_id == old(self).next_id,
            forall|j: int|
                0 <= j < final(self).subs@.len() ==> (#[trigger] final(self).subs@[j]).id != id,
            (exists|i: int| 0 <= i < old(self).subs@.len() && (#[trigger] old(self).subs@[i]).id == id)
                ==> final(self).subs@ == old(self).subs@.remove(
                choose|i: int|
                    0 <= i < old(self).subs@.len() && (#[trigger] old(self).subs@[i]).id == id,
            ),
            !(exists|i: int|
                0 <= i < old(self).subs@.len() && (#[trigger] old(self).subs@[i]).id == id)
                ==> final(self).subs@ == old(self).subs@,
    {
        let ghost s0 = self.subs@;
        let mut i: usize = 0;
        while i < self.subs.len()
            invariant
                s0 == old(self).subs@,
                self.subs@ == s0,
                self.next_id == old(self).next_id,
                0 <= i <= s0.len(),
                forall|a: int, b: int|
                    0 <= a < b < s0.len() ==> (#[trigger] s0[a]).id != (#[trigger] s0[b]).id,
                forall|k: int| 0 <= k < i ==> (#[trigger] s0[k]).id != id,
            decreases s0.len() - i,
        {
            if self.subs[i].id == id {
                self.subs.remove(i);
                proof {
                    let w = choose|w: int| 0 <= w < s0.len() && (#[trigger] s0[w]).id == id;
                    assert(w == i);
                    assert forall|j: int| 0 <= j < self.subs@.len() implies (
                    #[trigger] self.subs@[j]).id != id by {
                        if j < i {
                            assert(self.subs@[j] == s0[j]);
                        } else {
                            assert(self.subs@[j] == s0[j + 1]);
                        }
                    }
                    assert forall|a: int, b: int| 0 <= a < b < self.subs@.len() implies (
                    #[trigger] self.subs@[a]).id != (#[trigger] self.subs@[b]).id by {
                        let a0: int = if a < i { a } else { a + 1 };
                        let b0: int = if b < i { b } else { b + 1 };
                        assert(self.subs@[a] == s0[a0] && self.subs@[b] == s0[b0]);
                    }
                }
                return ;
            }
            i = i + 1;
        }
    }
}

/// The frame broadcast for one flushed emission: the file's current
/// bytes framed under its base name. A path with no components has no
/// base name, and nothing is sent for it.
pub fn emission_frame(path: &crate::paths::PathRep, contents: &Vec<u8>) -> (r: Option<Vec<u8>>)
    ensures
        path@.len() >= 1 ==> (r matches Some(f) && f@ == crate::codec::frame_bytes(
            path@.last(),
            contents@,
        )),
        path@.len() == 0 ==> r is None,
{
    match crate::paths::file_name(path) {
        None => None,
        Some(name) => Some(crate::codec::encode(&name, contents)),
    }
}

/// A subscriber that stops reading trips the read timeout and the
/// session is evicted, while a broadcast still appends the frame to
/// every queue independently, whatever each queue already holds: one
/// slow or dead subscriber never blocks delivery to the others.
pub proof fn lemma_timeout_evicts_without_blocking(qs: Seq<Seq<Seq<u8>>>, f: Seq<u8>)
    ensures
        session_step_spec(SessionState::Active, SessionEvent::InboundTimeout) == (
            SessionState::Closing,
            SessionAction::Shutdown,
        ),
        forall|i: int| 0 <= i < qs.len() ==> fanout_queues(qs, f)[i] == (#[trigger] qs[i]).push(f),
{
}

/// One emission fans out so that any two subscribers receive an
/// equivalent frame: after a broadcast, the frame at the back of any
/// two queues is the same.
pub proof fn lemma_fanout_pair(qs: Seq<Seq<Seq<u8>>>, f: Seq<u8>, a: int, b: int)
    requires
        0 <= a < qs.len(),
        0 <= b < qs.len(),
    ensures
        fanout_queues(qs, f)[a].last() == f,
        fanout_queues(qs, f)[a].last() == fanout_queues(qs, f)[b].last(),
{
}

} // verus!
