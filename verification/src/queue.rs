//! The outbound queue of a dispatch loop and the decision what the loop has
//! to do next. The loop itself, with its socket, is the caller's: it
//! performs the action and comes back for the next one, until the answer is
//! to wait or to shut down or the socket would block. So a queue is drained
//! as far as the socket takes it, one datagram for each submessage, and a
//! submessage leaves the queue only when its datagram was written.

use std::collections::VecDeque;
use vstd::prelude::*;
use crate::datagram::{
    encode_datagram, fits_datagram, lemma_lone_datagram_len, spec_encode_datagram,
};
use crate::message::{
    Destination, Header, Outbound, OutboundView, Submessage, outbound_views, submessage_views,
};

verus! {

/// What a socket is ready for.
#[derive(Clone, Copy, Debug, PartialEq, Eq, Structural)]
pub struct Readiness {
    pub readable: bool,
    pub writable: bool,
}

/// Why a submessage was not queued.
#[derive(Clone, Copy, Debug, PartialEq, Eq, Structural)]
pub enum EnqueueError {
    /// The loop is shutting down and accepts nothing new.
    Closed,
    /// The submessage is too long to travel in one datagram.
    TooLarge,
}

/// What a dispatch loop has to do next.
#[derive(Clone, Debug, PartialEq, Eq)]
pub enum Action {
    /// Read one datagram from the socket and hand it over.
    Receive,
    /// Write this datagram to this destination and say when it is sent.
    Send { to: Destination, datagram: Vec<u8> },
    /// Wait for the socket to become ready.
    Idle,
    /// Close the socket and end the loop.
    Shutdown,
}

/// Mathematical value of an [`Action`].
pub enum ActionView {
    Receive,
    Send { to: Destination, datagram: Seq<u8> },
    Idle,
    Shutdown,
}

impl View for Action {
    type V = ActionView;

    open spec fn view(&self) -> ActionView {
        match *self {
            Action::Receive => ActionView::Receive,
            Action::Send { to, datagram } => ActionView::Send { to, datagram: datagram@ },
            Action::Idle => ActionView::Idle,
            Action::Shutdown => ActionView::Shutdown,
        }
    }
}

/// Mathematical value of a [`SendQueue`].
pub struct SendQueueView {
    pub header: Header,
    pub pending: Seq<OutboundView>,
    pub closing: bool,
}

impl SendQueueView {
    /// What every queue satisfies: each pending submessage fits one datagram.
    pub open spec fn wf(self) -> bool {
        forall|i: int|
            0 <= i < self.pending.len() ==> fits_datagram((#[trigger] self.pending[i]).message)
    }

    /// What queueing `o` is refused with, if it is.
    pub open spec fn enqueue_error(self, o: OutboundView) -> Option<EnqueueError> {
        if self.closing {
            Some(EnqueueError::Closed)
        } else if !fits_datagram(o.message) {
            Some(EnqueueError::TooLarge)
        } else {
            None
        }
    }

    /// The queue after an attempt to queue `o`: `o` is last in it, or the
    /// queue is as before where `o` was refused.
    pub open spec fn enqueued(self, o: OutboundView) -> SendQueueView {
        if self.enqueue_error(o) is None {
            SendQueueView { pending: self.pending.push(o), ..self }
        } else {
            self
        }
    }

    /// The queue after an attempt to queue each of `outs`, in their order.
    pub open spec fn enqueued_each(self, outs: Seq<OutboundView>) -> SendQueueView
        decreases outs.len(),
    {
        if outs.len() == 0 {
            self
        } else {
            self.enqueued_each(outs.drop_last()).enqueued(outs.last())
        }
    }

    /// The datagram that carries the first pending submessage.
    pub open spec fn front_datagram(self) -> Seq<u8> {
        spec_encode_datagram(self.header, seq![self.pending[0].message])
    }

    /// The queue after the first pending submessage was sent.
    pub open spec fn sent(self) -> SendQueueView {
        if self.pending.len() > 0 {
            SendQueueView { pending: self.pending.skip(1), ..self }
        } else {
            self
        }
    }

    /// What a loop with this queue has to do next on a socket that is ready
    /// for `events`. A loop that is shutting down receives no more, sends
    /// what is pending, and then ends. `receive_first` says which of
    /// receiving and sending goes first where both are possible.
    pub open spec fn action(self, events: Readiness, receive_first: bool) -> ActionView {
        let can_receive = events.readable && !self.closing;
        let can_send = events.writable && self.pending.len() > 0;
        if can_receive && (receive_first || !can_send) {
            ActionView::Receive
        } else if can_send {
            ActionView::Send { to: self.pending[0].to, datagram: self.front_datagram() }
        } else if self.closing && self.pending.len() == 0 {
            ActionView::Shutdown
        } else {
            ActionView::Idle
        }
    }
}

/// Whatever is queued, what was pending stays pending, in its order and
/// before what came in: submessages of one queue leave in the order in which
/// they were queued.
pub proof fn lemma_queue_keeps_order(q: SendQueueView, outs: Seq<OutboundView>)
    ensures
        q.enqueued_each(outs).pending.len() >= q.pending.len(),
        q.enqueued_each(outs).pending.take(q.pending.len() as int) == q.pending,
        q.enqueued_each(outs).header == q.header,
        q.enqueued_each(outs).closing == q.closing,
        q.wf() ==> q.enqueued_each(outs).wf(),
    decreases outs.len(),
{
    if outs.len() > 0 {
        lemma_queue_keeps_order(q, outs.drop_last());
        let before = q.enqueued_each(outs.drop_last());
        let after = before.enqueued(outs.last());
        assert(after.pending.take(q.pending.len() as int) =~= before.pending.take(
            q.pending.len() as int,
        ));
        if q.wf() {
            assert forall|i: int| 0 <= i < after.pending.len() implies fits_datagram(
                (#[trigger] after.pending[i]).message,
            ) by {
                if i < before.pending.len() {
                    assert(after.pending[i] == before.pending[i]);
                }
            }
        }
    } else {
        assert(q.pending.take(q.pending.len() as int) =~= q.pending);
    }
}

/// A queue that is not shutting down takes all that fits a datagram: what
/// is pending afterwards is what was pending and then what came in.
pub proof fn lemma_queue_takes_what_fits(q: SendQueueView, outs: Seq<OutboundView>)
    requires
        !q.closing,
        forall|i: int| 0 <= i < outs.len() ==> fits_datagram((#[trigger] outs[i]).message),
    ensures
        q.enqueued_each(outs).pending == q.pending + outs,
    decreases outs.len(),
{
    if outs.len() > 0 {
        let front = outs.drop_last();
        assert forall|i: int| 0 <= i < front.len() implies fits_datagram(
            (#[trigger] front[i]).message,
        ) by {
            assert(front[i] == outs[i]);
        }
        lemma_queue_takes_what_fits(q, front);
        lemma_queue_keeps_order(q, front);
        assert(fits_datagram(outs[outs.len() - 1].message));
        assert(q.enqueued_each(outs).pending =~= q.pending + outs);
    } else {
        assert(q.pending + outs =~= q.pending);
    }
}

/// The submessages a dispatch loop has still to send, in their order.
pub struct SendQueue {
    header: Header,
    pending: VecDeque<Outbound>,
    closing: bool,
}

impl View for SendQueue {
    type V = SendQueueView;

    closed spec fn view(&self) -> SendQueueView {
        SendQueueView {
            header: self.header,
            pending: outbound_views(self.pending@),
            closing: self.closing,
        }
    }
}

impl SendQueue {
    /// What every queue satisfies.
    pub open spec fn wf(&self) -> bool {
        self@.wf()
    }

    /// An empty queue whose datagrams start with `header`.
    pub fn new(header: Header) -> (queue: SendQueue)
        ensures
            queue.wf(),
            queue@ == (SendQueueView {
                header,
                pending: Seq::<OutboundView>::empty(),
                closing: false,
            }),
    {
        let queue = SendQueue { header, pending: VecDeque::new(), closing: false };
        assert(queue@.pending =~= Seq::<OutboundView>::empty());
        queue
    }

    /// Number of pending submessages.
    pub fn len(&self) -> (n: usize)
        ensures
            n == self@.pending.len(),
    {
        self.pending.len()
    }

    /// Whether the loop is shutting down.
    pub fn is_closing(&self) -> (closing: bool)
        ensures
            closing == self@.closing,
    {
        self.closing
    }

    /// Queues `out` behind what is pending, unless the loop is shutting
    /// down or `out` is too long to travel in one datagram.
    pub fn enqueue(&mut self, out: Outbound) -> (outcome: Result<(), EnqueueError>)
        requires
            old(self).wf(),
        ensures
            final(self).wf(),
            final(self)@ == old(self)@.enqueued(out@),
            match outcome {
                Ok(()) => old(self)@.enqueue_error(out@) is None,
                Err(e) => old(self)@.enqueue_error(out@) == Some(e),
            },
    {
        if self.closing {
            return Err(EnqueueError::Closed);
        }
        if !out.message.fits_datagram() {
            return Err(EnqueueError::TooLarge);
        }
        let ghost before = self@.pending;
        let ghost added = out@;
        self.pending.push_back(out);
        proof {
            assert(self@.pending =~= before.push(added));
            assert forall|i: int| 0 <= i < self@.pending.len() implies fits_datagram(
                (#[trigger] self@.pending[i]).message,
            ) by {
                if i < before.len() {
                    assert(self@.pending[i] == before[i]);
                }
            }
        }
        Ok(())
    }

    /// Queues each of `outs`, in their order; those that are refused are
    /// dropped. Returns how many were queued.
    pub fn enqueue_each(&mut self, outs: Vec<Outbound>) -> (queued: usize)
        requires
            old(self).wf(),
        ensures
            final(self).wf(),
            final(self)@ == old(self)@.enqueued_each(outbound_views(outs@)),
            queued == final(self)@.pending.len() - old(self)@.pending.len(),
    {
        let ghost all = outbound_views(outs@);
        let ghost start = self@;
        let mut rest = outs;
        let mut queued: usize = 0;
        let ghost mut done: int = 0;
        assert(all.take(0) =~= Seq::<OutboundView>::empty());
        while rest.len() > 0
            invariant
                self.wf(),
                0 <= done <= all.len(),
                outbound_views(rest@) == all.skip(done),
                self@ == start.enqueued_each(all.take(done)),
                queued == self@.pending.len() - start.pending.len(),
            decreases rest.len(),
        {
            let ghost left = outbound_views(rest@);
            let ghost length = self@.pending.len();
            assert(left.len() == rest@.len());
            let out = rest.remove(0);
            proof {
                assert(done < all.len());
                assert(out@ == left[0]);
                assert(left[0] == all[done]);
                assert(outbound_views(rest@) =~= left.skip(1));
                assert(left.skip(1) =~= all.skip(done + 1));
                assert(all.take(done + 1).drop_last() =~= all.take(done));
                assert(all.take(done + 1).last() == all[done]);
            }
            match self.enqueue(out) {
                Ok(()) => {
                    assert(length < usize::MAX) by {
                        assert(self.pending@.len() == self@.pending.len());
                        assert(self.pending.len() <= usize::MAX);
                    }
                    queued += 1;
                },
                Err(_) => {},
            }
            proof {
                done = done + 1;
            }
        }
        assert(all.take(done) =~= all);
        queued
    }

    /// Says that the first pending submessage was sent: it leaves the queue.
    pub fn sent(&mut self)
        requires
            old(self).wf(),
        ensures
            final(self).wf(),
            final(self)@ == old(self)@.sent(),
    {
        let ghost before = self@.pending;
        self.pending.pop_front();
        proof {
            if before.len() > 0 {
                assert(self@.pending =~= before.skip(1));
                assert forall|i: int| 0 <= i < self@.pending.len() implies fits_datagram(
                    (#[trigger] self@.pending[i]).message,
                ) by {
                    assert(self@.pending[i] == before[i + 1]);
                }
            } else {
                assert(self@.pending =~= before);
            }
        }
    }

    /// Starts the shutdown: nothing new is accepted from now on.
    pub fn close(&mut self)
        requires
            old(self).wf(),
        ensures
            final(self).wf(),
            final(self)@ == (SendQueueView { closing: true, ..old(self)@ }),
    {
        self.closing = true;
    }

    /// What the loop has to do next on a socket that is ready for `events`.
    /// A datagram to send is never longer than a datagram may be.
    pub fn action(&self, events: Readiness, receive_first: bool) -> (action: Action)
        requires
            self.wf(),
        ensures
            action@ == self@.action(events, receive_first),
            action matches Action::Send { datagram, .. } ==> datagram@.len() <= 65_507,
    {
        let can_receive = events.readable && !self.closing;
        let can_send = events.writable && self.pending.len() > 0;
        if can_receive && (receive_first || !can_send) {
            Action::Receive
        } else if can_send {
            let front = &self.pending[0];
            assert(self@.pending[0] == front@);
            let mut one: Vec<Submessage> = Vec::new();
            one.push(front.message.duplicate());
            assert(submessage_views(one@) =~= seq![front@.message]);
            proof {
                assert(fits_datagram(self@.pending[0].message));
                lemma_lone_datagram_len(self.header, front@.message);
            }
            Action::Send { to: front.to, datagram: encode_datagram(&self.header, &one) }
        } else if self.closing && self.pending.len() == 0 {
            Action::Shutdown
        } else {
            Action::Idle
        }
    }
}

} // verus!
