//! The decisions of the two dispatch loops: the one that owns a writer and
//! the one that owns a reader. A handler is told what its socket is ready
//! for and what arrived, and says what its loop has to do next.

use vstd::prelude::*;
use crate::codec::{DecodeError, lemma_payload_len};
use crate::datagram::{decode_datagram, fits_datagram, spec_decode_datagram};
use crate::message::{
    Destination, ElementView, Header, Outbound, OutboundView, ProtocolId, Submessage,
    SubmessageElement, SubmessageView, submessage_views,
};
use crate::queue::{
    Action, Readiness, SendQueue, SendQueueView, lemma_queue_takes_what_fits,
};
use crate::reader::{Reaction, ReactionView, Reader, ReaderView, lemma_missing_exact};
use crate::types::{CacheChange, CacheChangeView, Guid, SeqNum, change_views};
use crate::writer::{Eviction, Writer, WriterView, matched};

verus! {

/// The protocol version every datagram header announces: 2.1.
pub const PROTOCOL_VERSION: u16 = 0x0102;

/// The vendor every datagram header announces.
pub const VENDOR_ID: u16 = 0;

/// Most octets of a sample: what a Data submessage that travels alone in
/// one datagram of 65,507 octets has room for.
pub const MAX_SAMPLE_LEN: usize = 65_462;

/// The header of the datagrams of endpoint `guid`.
pub open spec fn spec_header_of(guid: Guid) -> Header {
    Header { protocol: ProtocolId::Rtps, version: 0x0102, vendor_id: 0, guid_prefix: guid.0 }
}

/// Each of `ms` on its way to `to`.
pub open spec fn addressed(to: Destination, ms: Seq<SubmessageView>) -> Seq<OutboundView> {
    ms.map_values(|m: SubmessageView| OutboundView { to, message: m })
}

/// Where the answer `m` of a reader goes: to the writer it names.
pub open spec fn spec_reply_destination(m: SubmessageView) -> Destination {
    match m.element {
        ElementView::AckNack { writer_guid, .. } => Destination::Endpoint(writer_guid),
        _ => Destination::Group,
    }
}

/// Why a sample was not published.
#[derive(Clone, Copy, Debug, PartialEq, Eq, Structural)]
pub enum PublishError {
    /// The loop is shutting down and accepts nothing new.
    Closed,
    /// The sample is longer than `MAX_SAMPLE_LEN`: its Data submessage
    /// would not fit one datagram.
    TooLarge,
    /// The writer has issued every sequence number there is.
    Exhausted,
}

/// What publishing a sample led to.
#[derive(Clone, Copy, Debug, PartialEq, Eq, Structural)]
pub struct Published {
    pub sequence_number: SeqNum,
    /// The change that had to leave the cache, if one had to.
    pub evicted: Option<Eviction>,
}

/// Mathematical value of a [`TxHandler`].
pub struct TxView {
    pub writer: WriterView,
    pub queue: SendQueueView,
}

impl TxView {
    /// What every handler satisfies.
    pub open spec fn wf(self) -> bool {
        self.writer.wf() && self.queue.wf()
    }

    /// What publishing `data` is refused with, if it is.
    pub open spec fn publish_error(self, data: Seq<u8>) -> Option<PublishError> {
        if self.queue.closing {
            Some(PublishError::Closed)
        } else if data.len() > 65_462 {
            Some(PublishError::TooLarge)
        } else if self.writer.issued == u64::MAX {
            Some(PublishError::Exhausted)
        } else {
            None
        }
    }

    /// The handler after `data` was published, where that is not refused:
    /// the writer has issued and retained the change, and its Data
    /// submessages are queued.
    pub open spec fn published(self, data: Seq<u8>) -> TxView {
        let (issued, c) = self.writer.new_change(data);
        TxView {
            writer: issued.announced(c),
            queue: self.queue.enqueued_each(issued.announcements(c)),
        }
    }

    /// The handler after a heartbeat was due: where the loop is not shutting
    /// down and the writer has something to say, its heartbeat is queued for
    /// the group.
    pub open spec fn heartbeat_due(self) -> TxView {
        if self.queue.closing || !self.writer.beats() {
            self
        } else {
            TxView {
                writer: self.writer.after_heartbeat(),
                queue: self.queue.enqueued(
                    OutboundView { to: Destination::Group, message: self.writer.heartbeat() },
                ),
            }
        }
    }

    /// The handler after submessage `m` arrived, and the reader that sent it
    /// where the writer is not matched with that reader. Only an AckNack
    /// for this writer changes anything.
    pub open spec fn message(self, m: SubmessageView) -> (TxView, Option<Guid>) {
        match m.element {
            ElementView::AckNack { reader_guid, writer_guid, acked_below, missing, .. } => {
                if writer_guid != self.writer.guid {
                    (self, None)
                } else if !matched(self.writer.proxies, reader_guid) {
                    (self, Some(reader_guid))
                } else {
                    (
                        TxView {
                            writer: self.writer.acknowledged(reader_guid, acked_below, missing),
                            queue: self.queue.enqueued_each(
                                addressed(
                                    Destination::Endpoint(reader_guid),
                                    self.writer.retransmissions(missing),
                                ),
                            ),
                        },
                        None,
                    )
                }
            },
            _ => (self, None),
        }
    }

    /// The handler after the submessages `ms` arrived in this order, and the
    /// unmatched readers among their senders.
    pub open spec fn messages(self, ms: Seq<SubmessageView>) -> (TxView, Seq<Guid>)
        decreases ms.len(),
    {
        if ms.len() == 0 {
            (self, Seq::<Guid>::empty())
        } else {
            let (before, unmatched) = self.messages(ms.drop_last());
            let (after, stranger) = before.message(ms.last());
            (
                after,
                match stranger {
                    Some(guid) => unmatched.push(guid),
                    None => unmatched,
                },
            )
        }
    }
}

/// Mathematical value of an [`RxHandler`].
pub struct RxView {
    pub reader: ReaderView,
    pub queue: SendQueueView,
}

impl RxView {
    /// What every handler satisfies.
    pub open spec fn wf(self) -> bool {
        crate::cache::ascending(self.reader.cache) && self.queue.wf()
    }

    /// The handler after submessage `m` arrived, and the sample to hand to
    /// the application, if there is one. An answer of the reader is queued
    /// for the writer.
    pub open spec fn message(self, m: SubmessageView) -> (RxView, Option<CacheChangeView>) {
        let (reader, reaction) = self.reader.message(m);
        match reaction {
            ReactionView::Deliver(c) => (RxView { reader, ..self }, Some(c)),
            ReactionView::Reply(reply) => (
                RxView {
                    reader,
                    queue: self.queue.enqueued(
                        OutboundView { to: spec_reply_destination(reply), message: reply },
                    ),
                },
                None,
            ),
            ReactionView::Nothing => (RxView { reader, ..self }, None),
        }
    }

    /// The handler after the submessages `ms` arrived in this order, and the
    /// samples to hand to the application, in their order.
    pub open spec fn messages(self, ms: Seq<SubmessageView>) -> (RxView, Seq<CacheChangeView>)
        decreases ms.len(),
    {
        if ms.len() == 0 {
            (self, Seq::<CacheChangeView>::empty())
        } else {
            let (before, samples) = self.messages(ms.drop_last());
            let (after, sample) = before.message(ms.last());
            (
                after,
                match sample {
                    Some(c) => samples.push(c),
                    None => samples,
                },
            )
        }
    }
}

/// A sample that is published is queued for every matched reader: behind
/// what was pending stands one Data submessage with the new change for each
/// of them, none is refused.
pub proof fn lemma_publish_queues_for_every_reader(tx: TxView, data: Seq<u8>)
    requires
        tx.publish_error(data) is None,
    ensures
        ({
            let (issued, c) = tx.writer.new_change(data);
            &&& tx.published(data).queue.pending == tx.queue.pending + issued.announcements(c)
            &&& issued.announcements(c).len() == tx.writer.proxies.len()
            &&& c.sequence_number == tx.writer.issued + 1
        }),
{
    let (issued, c) = tx.writer.new_change(data);
    let outs = issued.announcements(c);
    lemma_payload_len(ElementView::Data(c));
    lemma_queue_takes_what_fits(tx.queue, outs);
}

/// What a reader answers to a heartbeat always fits one datagram, so the
/// queue of a loop that is not shutting down takes it.
pub proof fn lemma_reply_fits(
    reader: ReaderView,
    guid: Guid,
    first: SeqNum,
    last: SeqNum,
    count: u32,
)
    ensures
        reader.on_heartbeat(guid, first, last, count).1 matches Some(m) ==> fits_datagram(m),
{
    lemma_missing_exact(reader.cache, reader.irrelevant, guid, first as int, last as int, 8182);
    match reader.on_heartbeat(guid, first, last, count).1 {
        Some(m) => {
            lemma_payload_len(m.element);
        },
        None => {},
    }
}

/// The decisions of the loop that owns a writer.
pub struct TxHandler {
    writer: Writer,
    queue: SendQueue,
}

impl View for TxHandler {
    type V = TxView;

    closed spec fn view(&self) -> TxView {
        TxView { writer: self.writer@, queue: self.queue@ }
    }
}

impl TxHandler {
    /// What every handler satisfies.
    pub open spec fn wf(&self) -> bool {
        self@.wf()
    }

    /// A handler for `writer` with nothing queued.
    pub fn new(writer: Writer) -> (handler: TxHandler)
        requires
            writer.wf(),
        ensures
            handler.wf(),
            handler@.writer == writer@,
            handler@.queue == (SendQueueView {
                header: spec_header_of(writer@.guid),
                pending: Seq::<OutboundView>::empty(),
                closing: false,
            }),
    {
        let header = Header {
            protocol: ProtocolId::Rtps,
            version: PROTOCOL_VERSION,
            vendor_id: VENDOR_ID,
            guid_prefix: writer.guid().0,
        };
        TxHandler { writer, queue: SendQueue::new(header) }
    }

    /// The writer this handler owns.
    pub fn writer(&self) -> (writer: &Writer)
        ensures
            writer@ == self@.writer,
    {
        &self.writer
    }

    /// Number of submessages still to send.
    pub fn pending(&self) -> (n: usize)
        ensures
            n == self@.queue.pending.len(),
    {
        self.queue.len()
    }

    /// Matches the writer with reader `reader`. Returns whether it was not
    /// matched before.
    pub fn match_reader(&mut self, reader: Guid) -> (added: bool)
        requires
            old(self).wf(),
        ensures
            final(self).wf(),
            added == !matched(old(self)@.writer.proxies, reader),
            final(self)@ == (TxView { writer: old(self)@.writer.with_reader(reader), ..old(self)@ }),
    {
        self.writer.match_reader(reader)
    }

    /// Ends the match with reader `reader`. Returns whether there was one.
    /// What is queued for that reader already is still sent.
    pub fn unmatch_reader(&mut self, reader: Guid) -> (removed: bool)
        requires
            old(self).wf(),
        ensures
            final(self).wf(),
            removed == matched(old(self)@.writer.proxies, reader),
            final(self)@ == (TxView {
                writer: old(self)@.writer.without_reader(reader),
                ..old(self)@
            }),
    {
        self.writer.unmatch_reader(reader)
    }

    /// Lets every change leave the writer's cache that all matched readers
    /// have acknowledged. Returns how many left.
    pub fn release_acknowledged(&mut self) -> (released: usize)
        requires
            old(self).wf(),
        ensures
            final(self).wf(),
            final(self)@ == (TxView { writer: old(self)@.writer.released(), ..old(self)@ }),
            released == old(self)@.writer.cache.len() - final(self)@.writer.cache.len(),
    {
        self.writer.release_acknowledged()
    }

    /// Queues a submessage of the caller's own.
    pub fn enqueue(&mut self, out: Outbound) -> (outcome: Result<(), crate::queue::EnqueueError>)
        requires
            old(self).wf(),
        ensures
            final(self).wf(),
            final(self)@ == (TxView { queue: old(self)@.queue.enqueued(out@), ..old(self)@ }),
            match outcome {
                Ok(()) => old(self)@.queue.enqueue_error(out@) is None,
                Err(e) => old(self)@.queue.enqueue_error(out@) == Some(e),
            },
    {
        self.queue.enqueue(out)
    }

    /// Publishes a sample: the writer issues the next sequence number for
    /// it and retains it, and a Data submessage for each matched reader is
    /// queued.
    pub fn publish(&mut self, data: Vec<u8>) -> (outcome: Result<Published, PublishError>)
        requires
            old(self).wf(),
        ensures
            final(self).wf(),
            match outcome {
                Ok(done) => {
                    &&& old(self)@.publish_error(data@) is None
                    &&& final(self)@ == old(self)@.published(data@)
                    &&& done.sequence_number == old(self)@.writer.issued + 1
                    &&& done.evicted == old(self)@.writer.evicted()
                },
                Err(e) => {
                    &&& old(self)@.publish_error(data@) == Some(e)
                    &&& final(self)@ == old(self)@
                },
            },
    {
        if self.queue.is_closing() {
            return Err(PublishError::Closed);
        }
        if data.len() > MAX_SAMPLE_LEN {
            return Err(PublishError::TooLarge);
        }
        if self.writer.last_sequence_number() == u64::MAX {
            return Err(PublishError::Exhausted);
        }
        let ghost start = self@;
        let change = self.writer.new_change(data);
        let sequence_number = change.sequence_number;
        proof {
            let issued = self.writer@;
            if crate::cache::holds(issued.cache, change@.writer_guid, change@.sequence_number) {
                let k = choose|k: int|
                    0 <= k < issued.cache.len() && crate::cache::identified_by(
                        #[trigger] issued.cache[k],
                        change@.writer_guid,
                        change@.sequence_number,
                    );
                assert(issued.cache[k] == start.writer.cache[k]);
            }
            assert(issued.evicted() == start.writer.evicted());
        }
        match self.writer.announce(change) {
            Ok(done) => {
                self.queue.enqueue_each(done.outbound);
                Ok(Published { sequence_number, evicted: done.evicted })
            },
            Err(_) => Err(PublishError::Exhausted),
        }
    }

    /// Says that a heartbeat is due. Returns whether one was queued.
    pub fn heartbeat_due(&mut self) -> (queued: bool)
        requires
            old(self).wf(),
        ensures
            final(self).wf(),
            final(self)@ == old(self)@.heartbeat_due(),
            queued == (final(self)@.queue.pending.len() > old(self)@.queue.pending.len()),
    {
        if self.queue.is_closing() {
            return false;
        }
        match self.writer.heartbeat() {
            None => false,
            Some(beat) => self.queue.enqueue(Outbound { to: Destination::Group, message: beat }).is_ok(),
        }
    }

    /// Applies one submessage that arrived. Returns the reader that sent
    /// it where the writer is not matched with that reader.
    pub fn on_message(&mut self, message: &Submessage) -> (stranger: Option<Guid>)
        requires
            old(self).wf(),
        ensures
            final(self).wf(),
            final(self)@ == old(self)@.message(message@).0,
            stranger == old(self)@.message(message@).1,
    {
        match &message.element {
            SubmessageElement::AckNack { reader_guid, writer_guid, acked_below, missing, .. } => {
                if *writer_guid != self.writer.guid() {
                    return None;
                }
                let ghost start = self@;
                let to = Destination::Endpoint(*reader_guid);
                match self.writer.on_acknack(*reader_guid, *acked_below, missing) {
                    Err(_) => Some(*reader_guid),
                    Ok(sent) => {
                        let ghost outs = addressed(to, submessage_views(sent@));
                        let mut i: usize = 0;
                        assert(outs.take(0) =~= Seq::<OutboundView>::empty());
                        while i < sent.len()
                            invariant
                                i <= sent.len(),
                                self.wf(),
                                self@.writer == start.writer.acknowledged(
                                    *reader_guid,
                                    *acked_below,
                                    missing@,
                                ),
                                outs == addressed(to, submessage_views(sent@)),
                                self@.queue == start.queue.enqueued_each(outs.take(i as int)),
                            decreases sent.len() - i,
                        {
                            let out = Outbound { to, message: sent[i].duplicate() };
                            proof {
                                assert(out@ == outs[i as int]);
                                assert(outs.take(i + 1).drop_last() =~= outs.take(i as int));
                                assert(outs.take(i + 1).last() == outs[i as int]);
                            }
                            let _ = self.queue.enqueue(out);
                            i += 1;
                        }
                        assert(outs.take(i as int) =~= outs);
                        None
                    },
                }
            },
            _ => None,
        }
    }

    /// Applies a datagram that arrived: every submessage in it, in order. A
    /// datagram that cannot be decoded is dropped and changes nothing. What
    /// comes back are the unmatched readers among the senders.
    pub fn on_datagram(&mut self, buf: &[u8]) -> (outcome: Result<Vec<Guid>, DecodeError>)
        requires
            old(self).wf(),
        ensures
            final(self).wf(),
            match outcome {
                Ok(strangers) => {
                    &&& spec_decode_datagram(buf@) is Ok
                    &&& final(self)@ == old(self)@.messages(spec_decode_datagram(buf@).unwrap().1).0
                    &&& strangers@ == old(self)@.messages(spec_decode_datagram(buf@).unwrap().1).1
                },
                Err(e) => {
                    &&& spec_decode_datagram(buf@) == Err::<(Header, Seq<SubmessageView>), DecodeError>(e)
                    &&& final(self)@ == old(self)@
                },
            },
    {
        let messages = match decode_datagram(buf) {
            Err(e) => {
                return Err(e);
            },
            Ok((_, messages)) => messages,
        };
        let ghost start = self@;
        let ghost all = submessage_views(messages@);
        let mut strangers: Vec<Guid> = Vec::new();
        let mut i: usize = 0;
        assert(all.take(0) =~= Seq::<SubmessageView>::empty());
        while i < messages.len()
            invariant
                i <= messages.len(),
                self.wf(),
                all == submessage_views(messages@),
                self@ == start.messages(all.take(i as int)).0,
                strangers@ == start.messages(all.take(i as int)).1,
            decreases messages.len() - i,
        {
            proof {
                assert(all[i as int] == messages@[i as int]@);
                assert(all.take(i + 1).drop_last() =~= all.take(i as int));
                assert(all.take(i + 1).last() == all[i as int]);
            }
            match self.on_message(&messages[i]) {
                Some(guid) => strangers.push(guid),
                None => {},
            }
            i += 1;
        }
        assert(all.take(i as int) =~= all);
        Ok(strangers)
    }

    /// What the loop has to do next on a socket that is ready for `events`.
    /// Sending goes before receiving.
    pub fn ready(&self, events: Readiness) -> (action: Action)
        requires
            self.wf(),
        ensures
            action@ == self@.queue.action(events, false),
    {
        self.queue.action(events, false)
    }

    /// Says that the datagram of the last `Send` was written.
    pub fn sent(&mut self)
        requires
            old(self).wf(),
        ensures
            final(self).wf(),
            final(self)@ == (TxView { queue: old(self)@.queue.sent(), ..old(self)@ }),
    {
        self.queue.sent();
    }

    /// Starts the shutdown: nothing new is accepted, what is queued is
    /// still sent, then the loop ends.
    pub fn close(&mut self)
        requires
            old(self).wf(),
        ensures
            final(self).wf(),
            final(self)@ == (TxView {
                queue: SendQueueView { closing: true, ..old(self)@.queue },
                ..old(self)@
            }),
    {
        self.queue.close();
    }
}

/// The decisions of the loop that owns a reader.
pub struct RxHandler {
    reader: Reader,
    queue: SendQueue,
}

impl View for RxHandler {
    type V = RxView;

    closed spec fn view(&self) -> RxView {
        RxView { reader: self.reader@, queue: self.queue@ }
    }
}

/// Where the answer `m` of a reader goes.
pub fn reply_destination(m: &Submessage) -> (to: Destination)
    ensures
        to == spec_reply_destination(m@),
{
    match &m.element {
        SubmessageElement::AckNack { writer_guid, .. } => Destination::Endpoint(*writer_guid),
        _ => Destination::Group,
    }
}

impl RxHandler {
    /// What every handler satisfies.
    pub open spec fn wf(&self) -> bool {
        self@.wf()
    }

    /// A handler for `reader` with nothing queued.
    pub fn new(reader: Reader) -> (handler: RxHandler)
        requires
            reader.wf(),
        ensures
            handler.wf(),
            handler@.reader == reader@,
            handler@.queue == (SendQueueView {
                header: spec_header_of(reader@.guid),
                pending: Seq::<OutboundView>::empty(),
                closing: false,
            }),
    {
        let header = Header {
            protocol: ProtocolId::Rtps,
            version: PROTOCOL_VERSION,
            vendor_id: VENDOR_ID,
            guid_prefix: reader.guid().0,
        };
        RxHandler { reader, queue: SendQueue::new(header) }
    }

    /// The reader this handler owns.
    pub fn reader(&self) -> (reader: &Reader)
        ensures
            reader@ == self@.reader,
    {
        &self.reader
    }

    /// Number of submessages still to send.
    pub fn pending(&self) -> (n: usize)
        ensures
            n == self@.queue.pending.len(),
    {
        self.queue.len()
    }

    /// Applies one submessage that arrived. What comes back is the sample
    /// to hand to the application, if there is one.
    pub fn on_message(&mut self, message: Submessage) -> (sample: Option<CacheChange>)
        requires
            old(self).wf(),
        ensures
            final(self).wf(),
            final(self)@ == old(self)@.message(message@).0,
            match sample {
                Some(c) => old(self)@.message(message@).1 == Some(c@),
                None => old(self)@.message(message@).1 is None,
            },
    {
        proof {
            crate::reader::lemma_message_keeps_order(self@.reader, message@);
        }
        match self.reader._message(message) {
            Reaction::Deliver(sample) => Some(sample),
            Reaction::Reply(reply) => {
                let to = reply_destination(&reply);
                let _ = self.queue.enqueue(Outbound { to, message: reply });
                None
            },
            Reaction::Nothing => None,
        }
    }

    /// Applies a datagram that arrived: every submessage in it, in order. A
    /// datagram that cannot be decoded is dropped and changes nothing. What
    /// comes back are the samples to hand to the application, in order.
    pub fn on_datagram(&mut self, buf: &[u8]) -> (outcome: Result<Vec<CacheChange>, DecodeError>)
        requires
            old(self).wf(),
        ensures
            final(self).wf(),
            match outcome {
                Ok(samples) => {
                    &&& spec_decode_datagram(buf@) is Ok
                    &&& final(self)@ == old(self)@.messages(spec_decode_datagram(buf@).unwrap().1).0
                    &&& change_views(samples@) == old(self)@.messages(
                        spec_decode_datagram(buf@).unwrap().1,
                    ).1
                },
                Err(e) => {
                    &&& spec_decode_datagram(buf@) == Err::<(Header, Seq<SubmessageView>), DecodeError>(e)
                    &&& final(self)@ == old(self)@
                },
            },
    {
        let mut rest = match decode_datagram(buf) {
            Err(e) => {
                return Err(e);
            },
            Ok((_, messages)) => messages,
        };
        let ghost start = self@;
        let ghost all = submessage_views(rest@);
        let ghost mut done: int = 0;
        let mut samples: Vec<CacheChange> = Vec::new();
        assert(all.take(0) =~= Seq::<SubmessageView>::empty());
        assert(change_views(samples@) =~= Seq::<CacheChangeView>::empty());
        assert(all.skip(0) =~= all);
        while rest.len() > 0
            invariant
                self.wf(),
                0 <= done <= all.len(),
                submessage_views(rest@) == all.skip(done),
                self@ == start.messages(all.take(done)).0,
                change_views(samples@) == start.messages(all.take(done)).1,
            decreases rest.len(),
        {
            let ghost left = submessage_views(rest@);
            let ghost so_far = change_views(samples@);
            assert(left.len() == rest@.len());
            let message = rest.remove(0);
            proof {
                assert(done < all.len());
                assert(message@ == left[0]);
                assert(left[0] == all[done]);
                assert(submessage_views(rest@) =~= left.skip(1));
                assert(left.skip(1) =~= all.skip(done + 1));
                assert(all.take(done + 1).drop_last() =~= all.take(done));
                assert(all.take(done + 1).last() == all[done]);
            }
            match self.on_message(message) {
                Some(sample) => {
                    let ghost c = sample@;
                    samples.push(sample);
                    assert(change_views(samples@) =~= so_far.push(c));
                },
                None => {},
            }
            proof {
                done = done + 1;
            }
        }
        assert(all.take(done) =~= all);
        Ok(samples)
    }

    /// What the loop has to do next on a socket that is ready for `events`.
    /// Receiving goes before sending.
    pub fn ready(&self, events: Readiness) -> (action: Action)
        requires
            self.wf(),
        ensures
            action@ == self@.queue.action(events, true),
    {
        self.queue.action(events, true)
    }

    /// Says that the datagram of the last `Send` was written.
    pub fn sent(&mut self)
        requires
            old(self).wf(),
        ensures
            final(self).wf(),
            final(self)@ == (RxView { queue: old(self)@.queue.sent(), ..old(self)@ }),
    {
        self.queue.sent();
    }

    /// Starts the shutdown: nothing more is received, what is queued is
    /// still sent, then the loop ends.
    pub fn close(&mut self)
        requires
            old(self).wf(),
        ensures
            final(self).wf(),
            final(self)@ == (RxView {
                queue: SendQueueView { closing: true, ..old(self)@.queue },
                ..old(self)@
            }),
    {
        self.queue.close();
    }
}

} // verus!
