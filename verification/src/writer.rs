//! The writer endpoint: it numbers the changes, retains them, and sends them
//! again to the readers that ask.

use vstd::prelude::*;
use crate::cache::{
    HistoryCache, ascending, holds, identified_by, lemma_filter_all, lemma_insert_into_ascending,
    lemma_rank_finds, lemma_remove_from_ascending, rank, sorts_before,
};
use crate::message::{
    Destination, ElementView, Outbound, OutboundView, Submessage, SubmessageElement,
    SubmessageView, copy_numbers, outbound_views, spec_data_message, spec_gap_message,
    submessage_views,
};
use crate::types::{
    CacheChange, CacheChangeView, ChangeKind, Guid, Reliability, SeqNum, next_count,
    spec_next_count,
};

verus! {

/// What a writer knows of one matched reader.
#[derive(Debug, PartialEq, Eq)]
pub struct ReaderProxy {
    pub reader_guid: Guid,
    /// The reader needs no change up to this sequence number any more.
    pub acked_through: SeqNum,
    /// The sequence numbers the reader asked for last.
    pub requested: Vec<SeqNum>,
}

/// Mathematical value of a [`ReaderProxy`].
pub struct ReaderProxyView {
    pub reader_guid: Guid,
    pub acked_through: SeqNum,
    pub requested: Seq<SeqNum>,
}

impl View for ReaderProxy {
    type V = ReaderProxyView;

    open spec fn view(&self) -> ReaderProxyView {
        ReaderProxyView {
            reader_guid: self.reader_guid,
            acked_through: self.acked_through,
            requested: self.requested@,
        }
    }
}

/// Views of a sequence of proxies, element by element.
pub open spec fn proxy_views(s: Seq<ReaderProxy>) -> Seq<ReaderProxyView> {
    s.map_values(|p: ReaderProxy| p@)
}

/// Why a writer refused to announce a change.
#[derive(Clone, Copy, Debug, PartialEq, Eq, Structural)]
pub enum AnnounceError {
    /// The change does not carry a sequence number this writer issued.
    ForeignChange,
    /// The change is retained already.
    DuplicateChange,
}

/// An acknowledgment came from a reader the writer is not matched with.
#[derive(Clone, Copy, Debug, PartialEq, Eq, Structural)]
pub struct UnmatchedReader;

/// A change that left the cache to make room.
#[derive(Clone, Copy, Debug, PartialEq, Eq, Structural)]
pub struct Eviction {
    pub sequence_number: SeqNum,
    /// Under reliable delivery: some matched reader had not acknowledged it.
    pub unacknowledged: bool,
}

/// What announcing a change led to.
#[derive(Debug, PartialEq, Eq)]
pub struct Announcement {
    /// The Data submessages to send, one for each matched reader.
    pub outbound: Vec<Outbound>,
    /// The change that had to leave the cache, if one had to.
    pub evicted: Option<Eviction>,
}

/// Whether the writer is matched with reader `guid`.
pub open spec fn matched(proxies: Seq<ReaderProxyView>, guid: Guid) -> bool {
    exists|i: int| 0 <= i < proxies.len() && (#[trigger] proxies[i]).reader_guid == guid
}

/// Whether every matched reader has acknowledged change `n`.
pub open spec fn acknowledged_by_all(proxies: Seq<ReaderProxyView>, n: SeqNum) -> bool {
    forall|i: int| 0 <= i < proxies.len() ==> (#[trigger] proxies[i]).acked_through >= n
}

/// The highest sequence number a reader that needs nothing below
/// `acked_below` has acknowledged.
pub open spec fn spec_acked_through(acked_below: SeqNum) -> SeqNum {
    if acked_below == 0 {
        0
    } else {
        (acked_below - 1) as SeqNum
    }
}

/// The proxy after its reader said that it needs nothing below `acked_below`
/// and asked for `missing`.
pub open spec fn spec_acknowledge(p: ReaderProxyView, acked_below: SeqNum, missing: Seq<SeqNum>) -> ReaderProxyView {
    ReaderProxyView {
        reader_guid: p.reader_guid,
        acked_through: if spec_acked_through(acked_below) > p.acked_through {
            spec_acked_through(acked_below)
        } else {
            p.acked_through
        },
        requested: missing,
    }
}

/// What a writer sends for one requested sequence number: the change where
/// it is retained, a gap where it was issued and is retained no more,
/// nothing where it was never issued.
pub open spec fn spec_retransmission(
    cache: Seq<CacheChangeView>,
    guid: Guid,
    issued: SeqNum,
    n: SeqNum,
) -> Seq<SubmessageView> {
    if holds(cache, guid, n) {
        seq![spec_data_message(cache[rank(cache, guid, n)])]
    } else if 1 <= n <= issued {
        seq![spec_gap_message(guid, n)]
    } else {
        Seq::<SubmessageView>::empty()
    }
}

/// What a writer sends for the requested sequence numbers, in their order.
pub open spec fn spec_retransmissions(
    cache: Seq<CacheChangeView>,
    guid: Guid,
    issued: SeqNum,
    missing: Seq<SeqNum>,
) -> Seq<SubmessageView>
    decreases missing.len(),
{
    if missing.len() == 0 {
        Seq::<SubmessageView>::empty()
    } else {
        spec_retransmissions(cache, guid, issued, missing.drop_last()) + spec_retransmission(
            cache,
            guid,
            issued,
            missing.last(),
        )
    }
}

/// Whether `sent` holds a Data submessage for change `n`.
pub open spec fn resends(sent: Seq<SubmessageView>, n: SeqNum) -> bool {
    exists|i: int|
        0 <= i < sent.len() && (#[trigger] sent[i]).element is Data
            && sent[i].element->Data_0.sequence_number == n
}

/// The changes a writer sends again are exactly the requested ones that it
/// retains.
pub proof fn lemma_retransmissions_exact(
    cache: Seq<CacheChangeView>,
    guid: Guid,
    issued: SeqNum,
    missing: Seq<SeqNum>,
    n: SeqNum,
)
    requires
        ascending(cache),
    ensures
        resends(spec_retransmissions(cache, guid, issued, missing), n) <==> (missing.contains(n)
            && holds(cache, guid, n)),
    decreases missing.len(),
{
    let sent = spec_retransmissions(cache, guid, issued, missing);
    if missing.len() > 0 {
        let front = spec_retransmissions(cache, guid, issued, missing.drop_last());
        let m = missing.last();
        let back = spec_retransmission(cache, guid, issued, m);
        lemma_retransmissions_exact(cache, guid, issued, missing.drop_last(), n);
        lemma_rank_finds(cache, guid, m);
        if resends(sent, n) {
            let i = choose|i: int|
                0 <= i < sent.len() && (#[trigger] sent[i]).element is Data
                    && sent[i].element->Data_0.sequence_number == n;
            if i < front.len() {
                assert(sent[i] == front[i]);
                assert(resends(front, n));
                let k = choose|k: int| 0 <= k < missing.drop_last().len() && missing.drop_last()[k] == n;
                assert(missing[k] == n);
            } else {
                assert(sent[i] == back[i - front.len()]);
                assert(m == n);
                assert(missing[missing.len() - 1] == n);
            }
        }
        if missing.contains(n) && holds(cache, guid, n) {
            let k = choose|k: int| 0 <= k < missing.len() && missing[k] == n;
            if k < missing.len() - 1 {
                assert(missing.drop_last()[k] == n);
                assert(resends(front, n));
                let i = choose|i: int|
                    0 <= i < front.len() && (#[trigger] front[i]).element is Data
                        && front[i].element->Data_0.sequence_number == n;
                assert(sent[i] == front[i]);
            } else {
                assert(sent[front.len() as int] == back[0]);
            }
        }
    }
}

/// Mathematical value of a [`Writer`].
pub struct WriterView {
    pub guid: Guid,
    pub reliability: Reliability,
    /// Most changes the cache retains; 0 for no bound.
    pub depth: nat,
    /// The last sequence number issued; 0 before the first.
    pub issued: SeqNum,
    pub cache: Seq<CacheChangeView>,
    pub proxies: Seq<ReaderProxyView>,
    pub heartbeats: u32,
}

impl WriterView {
    /// What every writer satisfies: its cache ascends and holds only changes
    /// it issued, within its depth, and no reader is matched twice.
    pub open spec fn wf(self) -> bool {
        &&& ascending(self.cache)
        &&& forall|i: int|
            0 <= i < self.cache.len() ==> (#[trigger] self.cache[i]).writer_guid == self.guid && 1
                <= self.cache[i].sequence_number <= self.issued
        &&& self.depth > 0 ==> self.cache.len() <= self.depth
        &&& forall|i: int, j: int|
            0 <= i < j < self.proxies.len() ==> (#[trigger] self.proxies[i]).reader_guid != (
            #[trigger] self.proxies[j]).reader_guid
    }

    /// The writer after it issued the next sequence number, and the change
    /// that carries it.
    pub open spec fn new_change(self, data: Seq<u8>) -> (WriterView, CacheChangeView) {
        (
            WriterView { issued: (self.issued + 1) as SeqNum, ..self },
            CacheChangeView {
                kind: ChangeKind::Alive,
                writer_guid: self.guid,
                sequence_number: (self.issued + 1) as SeqNum,
                instance_handle: 0,
                data,
            },
        )
    }

    /// The writer after it issued one sequence number for each payload.
    pub open spec fn new_changes(self, payloads: Seq<Seq<u8>>) -> WriterView
        decreases payloads.len(),
    {
        if payloads.len() == 0 {
            self
        } else {
            self.new_changes(payloads.drop_last()).new_change(payloads.last()).0
        }
    }

    /// Whether change `c` carries a sequence number this writer issued.
    pub open spec fn issued_here(self, c: CacheChangeView) -> bool {
        c.writer_guid == self.guid && 1 <= c.sequence_number <= self.issued
    }

    /// Whether the cache is at its depth, so that the oldest change leaves
    /// before another comes in.
    pub open spec fn full(self) -> bool {
        self.depth > 0 && self.cache.len() >= self.depth
    }

    /// The cache once the oldest change has left it, where it was full.
    pub open spec fn cache_with_room(self) -> Seq<CacheChangeView> {
        if self.full() {
            self.cache.remove(0)
        } else {
            self.cache
        }
    }

    /// What announcing `c` is refused with, if it is.
    pub open spec fn announce_error(self, c: CacheChangeView) -> Option<AnnounceError> {
        if !self.issued_here(c) {
            Some(AnnounceError::ForeignChange)
        } else if holds(self.cache, c.writer_guid, c.sequence_number) {
            Some(AnnounceError::DuplicateChange)
        } else {
            None
        }
    }

    /// The writer after it announced `c`, where that is not refused.
    pub open spec fn announced(self, c: CacheChangeView) -> WriterView {
        WriterView {
            cache: self.cache_with_room().insert(
                rank(self.cache_with_room(), c.writer_guid, c.sequence_number),
                c,
            ),
            ..self
        }
    }

    /// The change that leaves the cache when another is announced, if one does.
    pub open spec fn evicted(self) -> Option<Eviction> {
        if self.full() {
            Some(
                Eviction {
                    sequence_number: self.cache[0].sequence_number,
                    unacknowledged: self.reliability == Reliability::Reliable
                        && !acknowledged_by_all(self.proxies, self.cache[0].sequence_number),
                },
            )
        } else {
            None
        }
    }

    /// The Data submessages that announce `c`: one for each matched reader.
    pub open spec fn announcements(self, c: CacheChangeView) -> Seq<OutboundView> {
        self.proxies.map_values(
            |p: ReaderProxyView|
                OutboundView { to: Destination::Endpoint(p.reader_guid), message: spec_data_message(c) },
        )
    }

    /// Whether the writer has anything to say in a heartbeat.
    pub open spec fn beats(self) -> bool {
        self.reliability == Reliability::Reliable && self.cache.len() > 0
    }

    /// The writer after a heartbeat was due.
    pub open spec fn after_heartbeat(self) -> WriterView {
        if self.beats() {
            WriterView { heartbeats: spec_next_count(self.heartbeats), ..self }
        } else {
            self
        }
    }

    /// The heartbeat a writer that has something to say sends: the smallest
    /// and the largest sequence number it retains.
    pub open spec fn heartbeat(self) -> SubmessageView {
        SubmessageView {
            flags: 0,
            element: ElementView::Heartbeat {
                writer_guid: self.guid,
                first: self.cache[0].sequence_number,
                last: self.cache.last().sequence_number,
                count: spec_next_count(self.heartbeats),
            },
        }
    }

    /// The writer after reader `reader` said that it needs nothing below
    /// `acked_below` and asked for `missing`. An unmatched reader changes nothing.
    pub open spec fn acknowledged(self, reader: Guid, acked_below: SeqNum, missing: Seq<SeqNum>) -> WriterView {
        WriterView {
            proxies: self.proxies.map_values(
                |p: ReaderProxyView|
                    if p.reader_guid == reader {
                        spec_acknowledge(p, acked_below, missing)
                    } else {
                        p
                    },
            ),
            ..self
        }
    }

    /// What the writer sends again when a matched reader asks for `missing`:
    /// under best-effort delivery nothing.
    pub open spec fn retransmissions(self, missing: Seq<SeqNum>) -> Seq<SubmessageView> {
        if self.reliability == Reliability::Reliable {
            spec_retransmissions(self.cache, self.guid, self.issued, missing)
        } else {
            Seq::<SubmessageView>::empty()
        }
    }

    /// The highest sequence number that every one of the first `count`
    /// matched readers has acknowledged; the largest number there is where
    /// `count` is 0.
    pub open spec fn acknowledged_through(self, count: int) -> SeqNum
        decreases count,
    {
        if count <= 0 {
            u64::MAX
        } else {
            let rest = self.acknowledged_through(count - 1);
            if self.proxies[count - 1].acked_through < rest {
                self.proxies[count - 1].acked_through
            } else {
                rest
            }
        }
    }

    /// Whether change `n` may leave the cache: a reader is matched, and
    /// every matched reader has acknowledged it.
    pub open spec fn releasable(self, n: SeqNum) -> bool {
        self.proxies.len() > 0 && acknowledged_by_all(self.proxies, n)
    }

    /// The writer after every change that may leave the cache has left it.
    pub open spec fn released(self) -> WriterView {
        WriterView {
            cache: self.cache.filter(|c: CacheChangeView| !self.releasable(c.sequence_number)),
            ..self
        }
    }

    /// The writer after it was matched with reader `reader`.
    pub open spec fn with_reader(self, reader: Guid) -> WriterView {
        if matched(self.proxies, reader) {
            self
        } else {
            WriterView {
                proxies: self.proxies.push(
                    ReaderProxyView {
                        reader_guid: reader,
                        acked_through: 0,
                        requested: Seq::<SeqNum>::empty(),
                    },
                ),
                ..self
            }
        }
    }

    /// The writer after the match with reader `reader` ended.
    pub open spec fn without_reader(self, reader: Guid) -> WriterView {
        WriterView {
            proxies: self.proxies.filter(|p: ReaderProxyView| p.reader_guid != reader),
            ..self
        }
    }
}

/// The sequence numbers a writer issues count up by one: after as many
/// changes as there are payloads, the last number issued has grown by their
/// number, and so the next change carries the number after it. Nothing else
/// about the writer has changed.
pub proof fn lemma_sequence_numbers_count_up(w: WriterView, payloads: Seq<Seq<u8>>)
    requires
        w.issued + payloads.len() < u64::MAX,
    ensures
        w.new_changes(payloads) == (WriterView {
            issued: (w.issued + payloads.len()) as SeqNum,
            ..w
        }),
        forall|data: Seq<u8>| #[trigger]
            w.new_changes(payloads).new_change(data).1.sequence_number == w.issued
                + payloads.len() + 1,
    decreases payloads.len(),
{
    if payloads.len() > 0 {
        lemma_sequence_numbers_count_up(w, payloads.drop_last());
    }
}

/// Every matched reader has acknowledged a change exactly when its number is
/// at most the smallest of the readers' marks.
pub proof fn lemma_acknowledged_through(w: WriterView, count: int, n: SeqNum)
    requires
        0 <= count <= w.proxies.len(),
    ensures
        n <= w.acknowledged_through(count) <==> acknowledged_by_all(w.proxies.take(count), n),
    decreases count,
{
    if count > 0 {
        lemma_acknowledged_through(w, count - 1, n);
        let now = w.proxies.take(count);
        let before = w.proxies.take(count - 1);
        if acknowledged_by_all(now, n) {
            assert forall|i: int| 0 <= i < before.len() implies (#[trigger] before[i]).acked_through
                >= n by {
                assert(before[i] == now[i]);
            }
            assert(now[count - 1].acked_through >= n);
        }
        if n <= w.acknowledged_through(count) {
            assert forall|i: int| 0 <= i < now.len() implies (#[trigger] now[i]).acked_through
                >= n by {
                if i < count - 1 {
                    assert(now[i] == before[i]);
                }
            }
        }
    }
}

/// Under best-effort delivery a writer sends nothing again, whatever a
/// reader asks for.
pub proof fn lemma_best_effort_never_resends(w: WriterView, missing: Seq<SeqNum>)
    requires
        w.reliability == Reliability::BestEffort,
    ensures
        w.retransmissions(missing).len() == 0,
        !w.beats(),
{
}

/// A filter that only the element at `i` fails takes out that element.
pub proof fn lemma_filter_one_out<A>(s: Seq<A>, pred: spec_fn(A) -> bool, i: int)
    requires
        0 <= i < s.len(),
        !pred(s[i]),
        forall|j: int| 0 <= j < s.len() && j != i ==> pred(#[trigger] s[j]),
    ensures
        s.filter(pred) == s.remove(i),
    decreases s.len(),
{
    reveal(Seq::filter);
    let t = s.drop_last();
    if i == s.len() - 1 {
        assert forall|j: int| 0 <= j < t.len() implies pred(#[trigger] t[j]) by {
            assert(t[j] == s[j]);
        }
        lemma_filter_all(t, pred);
        assert(s.remove(i) =~= t);
    } else {
        assert forall|j: int| 0 <= j < t.len() && j != i implies pred(#[trigger] t[j]) by {
            assert(t[j] == s[j]);
        }
        assert(t[i] == s[i]);
        lemma_filter_one_out(t, pred, i);
        assert(t.remove(i).push(s.last()) =~= s.remove(i));
    }
}

/// The writer endpoint.
pub struct Writer {
    guid: Guid,
    reliability: Reliability,
    depth: usize,
    sequence_number: SeqNum,
    history_cache: HistoryCache,
    reader_proxies: Vec<ReaderProxy>,
    heartbeats: u32,
}

impl View for Writer {
    type V = WriterView;

    closed spec fn view(&self) -> WriterView {
        WriterView {
            guid: self.guid,
            reliability: self.reliability,
            depth: self.depth as nat,
            issued: self.sequence_number,
            cache: self.history_cache@,
            proxies: proxy_views(self.reader_proxies@),
            heartbeats: self.heartbeats,
        }
    }
}

impl Writer {
    /// What every writer satisfies.
    pub open spec fn wf(&self) -> bool {
        self@.wf()
    }

    /// A reliable writer with identifier 44 and an unbounded cache, matched
    /// with no reader, that has issued nothing yet.
    pub fn new() -> (writer: Writer)
        ensures
            writer.wf(),
            writer@ == (WriterView {
                guid: Guid(44),
                reliability: Reliability::Reliable,
                depth: 0,
                issued: 0,
                cache: Seq::<CacheChangeView>::empty(),
                proxies: Seq::<ReaderProxyView>::empty(),
                heartbeats: 0,
            }),
    {
        Writer::with_qos(Guid(44), Reliability::Reliable, 0)
    }

    /// A writer with the given identifier, delivery guarantee and cache
    /// depth (0 for no bound), matched with no reader, that has issued
    /// nothing yet.
    pub fn with_qos(guid: Guid, reliability: Reliability, depth: usize) -> (writer: Writer)
        ensures
            writer.wf(),
            writer@ == (WriterView {
                guid,
                reliability,
                depth: depth as nat,
                issued: 0,
                cache: Seq::<CacheChangeView>::empty(),
                proxies: Seq::<ReaderProxyView>::empty(),
                heartbeats: 0,
            }),
    {
        let writer = Writer {
            guid,
            reliability,
            depth,
            sequence_number: 0,
            history_cache: HistoryCache::new(),
            reader_proxies: Vec::new(),
            heartbeats: 0,
        };
        assert(writer@.proxies =~= Seq::<ReaderProxyView>::empty());
        writer
    }

    /// The writer's identifier.
    pub fn guid(&self) -> (guid: Guid)
        ensures
            guid == self@.guid,
    {
        self.guid
    }

    /// The writer's delivery guarantee.
    pub fn reliability(&self) -> (reliability: Reliability)
        ensures
            reliability == self@.reliability,
    {
        self.reliability
    }

    /// The last sequence number issued; 0 before the first.
    pub fn last_sequence_number(&self) -> (n: SeqNum)
        ensures
            n == self@.issued,
    {
        self.sequence_number
    }

    /// The writer's cache.
    pub fn history_cache(&self) -> (cache: &HistoryCache)
        requires
            self.wf(),
        ensures
            cache.wf(),
            cache@ == self@.cache,
    {
        &self.history_cache
    }

    /// The readers the writer is matched with.
    pub fn reader_proxies(&self) -> (proxies: &Vec<ReaderProxy>)
        ensures
            proxy_views(proxies@) == self@.proxies,
    {
        &self.reader_proxies
    }

    /// Issues the next sequence number and returns the change that carries
    /// it. The change is not retained yet.
    pub fn new_change(&mut self, data: Vec<u8>) -> (change: CacheChange)
        requires
            old(self).wf(),
            old(self)@.issued < u64::MAX,
        ensures
            final(self).wf(),
            final(self)@ == old(self)@.new_change(data@).0,
            change@ == old(self)@.new_change(data@).1,
            change@.sequence_number == old(self)@.issued + 1,
    {
        self.sequence_number = self.sequence_number + 1;
        proof {
            let before = old(self)@;
            assert forall|i: int| 0 <= i < self@.cache.len() implies (
            #[trigger] self@.cache[i]).writer_guid == self@.guid && 1
                <= self@.cache[i].sequence_number <= self@.issued by {
                assert(self@.cache[i] == before.cache[i]);
            }
            assert forall|i: int, j: int| 0 <= i < j < self@.proxies.len() implies (
            #[trigger] self@.proxies[i]).reader_guid != (#[trigger] self@.proxies[j]).reader_guid by {
                assert(self@.proxies[i] == before.proxies[i]);
                assert(self@.proxies[j] == before.proxies[j]);
            }
        }
        CacheChange {
            kind: ChangeKind::Alive,
            writer_guid: self.guid,
            sequence_number: self.sequence_number,
            instance_handle: 0,
            data,
        }
    }

    /// Index of the proxy of reader `reader`, if the writer is matched with it.
    fn find_proxy(&self, reader: Guid) -> (found: Option<usize>)
        ensures
            found is Some <==> matched(self@.proxies, reader),
            found matches Some(i) ==> i < self@.proxies.len() && self@.proxies[i as int].reader_guid
                == reader,
    {
        let mut i: usize = 0;
        while i < self.reader_proxies.len()
            invariant
                i <= self.reader_proxies.len(),
                self@.proxies.len() == self.reader_proxies.len(),
                forall|j: int| 0 <= j < i ==> (#[trigger] self@.proxies[j]).reader_guid != reader,
            decreases self.reader_proxies.len() - i,
        {
            if self.reader_proxies[i].reader_guid == reader {
                assert(self@.proxies[i as int] == self.reader_proxies@[i as int]@);
                return Some(i);
            }
            assert(self@.proxies[i as int] == self.reader_proxies@[i as int]@);
            i += 1;
        }
        None
    }

    /// Matches the writer with reader `reader`. Returns whether it was not
    /// matched before.
    pub fn match_reader(&mut self, reader: Guid) -> (added: bool)
        requires
            old(self).wf(),
        ensures
            final(self).wf(),
            added == !matched(old(self)@.proxies, reader),
            final(self)@ == old(self)@.with_reader(reader),
    {
        match self.find_proxy(reader) {
            Some(_) => false,
            None => {
                let ghost before = self@.proxies;
                self.reader_proxies.push(
                    ReaderProxy { reader_guid: reader, acked_through: 0, requested: Vec::new() },
                );
                assert(self@.proxies =~= before.push(
                    ReaderProxyView {
                        reader_guid: reader,
                        acked_through: 0,
                        requested: Seq::<SeqNum>::empty(),
                    },
                ));
                true
            },
        }
    }

    /// Ends the match with reader `reader`. Returns whether there was one.
    pub fn unmatch_reader(&mut self, reader: Guid) -> (removed: bool)
        requires
            old(self).wf(),
        ensures
            final(self).wf(),
            removed == matched(old(self)@.proxies, reader),
            final(self)@ == old(self)@.without_reader(reader),
    {
        let ghost before = self@.proxies;
        let ghost other = |p: ReaderProxyView| p.reader_guid != reader;
        match self.find_proxy(reader) {
            Some(i) => {
                self.reader_proxies.remove(i);
                proof {
                    assert(self@.proxies =~= before.remove(i as int));
                    lemma_filter_one_out(before, other, i as int);
                }
                true
            },
            None => {
                proof {
                    lemma_filter_all(before, other);
                }
                false
            },
        }
    }

    /// Whether every matched reader has acknowledged change `n`.
    pub fn is_acknowledged_by_all(&self, n: SeqNum) -> (all: bool)
        ensures
            all == acknowledged_by_all(self@.proxies, n),
    {
        let mut i: usize = 0;
        while i < self.reader_proxies.len()
            invariant
                i <= self.reader_proxies.len(),
                self@.proxies.len() == self.reader_proxies.len(),
                forall|j: int| 0 <= j < i ==> (#[trigger] self@.proxies[j]).acked_through >= n,
            decreases self.reader_proxies.len() - i,
        {
            assert(self@.proxies[i as int] == self.reader_proxies@[i as int]@);
            if self.reader_proxies[i].acked_through < n {
                return false;
            }
            i += 1;
        }
        true
    }

    /// Lets every change leave the cache that all matched readers have
    /// acknowledged; with no reader matched none leaves. Returns how many left.
    pub fn release_acknowledged(&mut self) -> (released: usize)
        requires
            old(self).wf(),
        ensures
            final(self).wf(),
            final(self)@ == old(self)@.released(),
            released == old(self)@.cache.len() - final(self)@.cache.len(),
    {
        let ghost start = self@;
        let ghost stays = |c: CacheChangeView| !start.releasable(c.sequence_number);
        if self.reader_proxies.len() == 0 {
            proof {
                lemma_filter_all(start.cache, stays);
            }
            return 0;
        }
        let mut floor: SeqNum = u64::MAX;
        let mut i: usize = 0;
        while i < self.reader_proxies.len()
            invariant
                i <= self.reader_proxies.len(),
                self@ == start,
                self@.proxies.len() == self.reader_proxies.len(),
                floor == start.acknowledged_through(i as int),
            decreases self.reader_proxies.len() - i,
        {
            assert(self@.proxies[i as int] == self.reader_proxies@[i as int]@);
            if self.reader_proxies[i].acked_through < floor {
                floor = self.reader_proxies[i].acked_through;
            }
            i += 1;
        }
        let released = self.history_cache.remove_through(floor);
        proof {
            assert(start.proxies.take(i as int) =~= start.proxies);
            let later = |c: CacheChangeView| c.sequence_number > floor;
            assert forall|c: CacheChangeView| #[trigger] later(c) == stays(c) by {
                lemma_acknowledged_through(start, i as int, c.sequence_number);
            }
            assert(later =~= stays);
            let now = self@.cache;
            assert(now == start.cache.filter(stays));
            assert forall|k: int| 0 <= k < now.len() implies (#[trigger] now[k]).writer_guid
                == self@.guid && 1 <= now[k].sequence_number <= self@.issued by {
                assert(now[k] == start.cache[k + released]);
            }
        }
        released
    }

    /// Makes room for one more change: where the cache is at its depth, the
    /// oldest change leaves.
    fn make_room(&mut self) -> (evicted: Option<Eviction>)
        requires
            old(self).wf(),
        ensures
            final(self)@ == (WriterView { cache: old(self)@.cache_with_room(), ..old(self)@ }),
            evicted == old(self)@.evicted(),
            ascending(final(self)@.cache),
            final(self).history_cache.wf(),
    {
        if self.depth == 0 || self.history_cache.len() < self.depth {
            return None;
        }
        match self.history_cache.get_seq_num_min() {
            None => None,
            Some(oldest) => {
                let unacknowledged = match self.reliability {
                    Reliability::Reliable => !self.is_acknowledged_by_all(oldest),
                    Reliability::BestEffort => false,
                };
                proof {
                    let cache = self@.cache;
                    assert(identified_by(cache[0], self.guid, oldest));
                    lemma_rank_finds(cache, self.guid, oldest);
                    if rank(cache, self.guid, oldest) > 0 {
                        assert(sorts_before(cache[0], self.guid, oldest));
                    }
                }
                self.history_cache.remove_change(self.guid, oldest);
                Some(Eviction { sequence_number: oldest, unacknowledged })
            },
        }
    }

    /// Retains a change this writer issued and returns the Data submessages
    /// that announce it, one for each matched reader. A change that this
    /// writer did not issue, or that it retains already, is refused and
    /// changes nothing.
    pub fn announce(&mut self, change: CacheChange) -> (outcome: Result<Announcement, AnnounceError>)
        requires
            old(self).wf(),
        ensures
            final(self).wf(),
            match outcome {
                Ok(done) => {
                    &&& old(self)@.announce_error(change@) is None
                    &&& final(self)@ == old(self)@.announced(change@)
                    &&& outbound_views(done.outbound@) == old(self)@.announcements(change@)
                    &&& done.evicted == old(self)@.evicted()
                },
                Err(e) => {
                    &&& old(self)@.announce_error(change@) == Some(e)
                    &&& final(self)@ == old(self)@
                },
            },
    {
        if change.writer_guid != self.guid || change.sequence_number == 0 || change.sequence_number
            > self.sequence_number {
            return Err(AnnounceError::ForeignChange);
        }
        if self.history_cache.contains(change.writer_guid, change.sequence_number) {
            return Err(AnnounceError::DuplicateChange);
        }
        let ghost start = self@;
        let ghost c = change@;
        let evicted = self.make_room();
        proof {
            if start.full() {
                lemma_remove_from_ascending(start.cache, 0);
                assert(start.cache[0].writer_guid == start.guid);
            }
            lemma_insert_into_ascending(self@.cache, c);
        }
        let ghost room = self@.cache;
        let mut outbound: Vec<Outbound> = Vec::new();
        let mut i: usize = 0;
        assert(outbound_views(outbound@) =~= start.announcements(c).take(0));
        while i < self.reader_proxies.len()
            invariant
                i <= self.reader_proxies.len(),
                c == change@,
                self@.proxies == start.proxies,
                self@.proxies.len() == self.reader_proxies.len(),
                outbound_views(outbound@) == start.announcements(c).take(i as int),
            decreases self.reader_proxies.len() - i,
        {
            let ghost so_far = outbound_views(outbound@);
            let message = Submessage { flags: 0, element: SubmessageElement::Data(change.duplicate()) };
            let out = Outbound { to: Destination::Endpoint(self.reader_proxies[i].reader_guid), message };
            assert(self@.proxies[i as int] == self.reader_proxies@[i as int]@);
            assert(out@ == start.announcements(c)[i as int]);
            outbound.push(out);
            assert(outbound_views(outbound@) =~= so_far.push(start.announcements(c)[i as int]));
            i += 1;
            assert(outbound_views(outbound@) =~= start.announcements(c).take(i as int));
        }
        assert(start.announcements(c).take(i as int) =~= start.announcements(c));
        let added = self.history_cache.add_change(change);
        proof {
            let now = self@.cache;
            let at = rank(room, c.writer_guid, c.sequence_number);
            assert(now == room.insert(at, c));
            assert forall|k: int| 0 <= k < now.len() implies (#[trigger] now[k]).writer_guid
                == self@.guid && 1 <= now[k].sequence_number <= self@.issued by {
                if k < at {
                    assert(now[k] == room[k]);
                } else if k > at {
                    assert(now[k] == room[k - 1]);
                }
                if k != at {
                    let r = if k < at { k } else { k - 1 };
                    if start.full() {
                        assert(room[r] == start.cache[r + 1]);
                    }
                }
            }
        }
        Ok(Announcement { outbound, evicted })
    }

    /// The heartbeat to send when one is due: under reliable delivery, and
    /// with at least one change retained, the range of retained sequence
    /// numbers; else none.
    pub fn heartbeat(&mut self) -> (beat: Option<Submessage>)
        requires
            old(self).wf(),
        ensures
            final(self).wf(),
            final(self)@ == old(self)@.after_heartbeat(),
            match beat {
                Some(m) => old(self)@.beats() && m@ == old(self)@.heartbeat(),
                None => !old(self)@.beats(),
            },
    {
        match self.reliability {
            Reliability::BestEffort => None,
            Reliability::Reliable => {
                let first = self.history_cache.get_seq_num_min();
                let last = self.history_cache.get_seq_num_max();
                match (first, last) {
                    (Some(first), Some(last)) => {
                        self.heartbeats = next_count(self.heartbeats);
                        Some(
                            Submessage {
                                flags: 0,
                                element: SubmessageElement::Heartbeat {
                                    writer_guid: self.guid,
                                    first,
                                    last,
                                    count: self.heartbeats,
                                },
                            },
                        )
                    },
                    _ => None,
                }
            },
        }
    }

    /// What to send for one requested sequence number.
    fn retransmission(&self, n: SeqNum, sent: &mut Vec<Submessage>)
        requires
            self.wf(),
        ensures
            submessage_views(final(sent)@) == submessage_views(old(sent)@) + spec_retransmission(
                self@.cache,
                self@.guid,
                self@.issued,
                n,
            ),
    {
        let ghost before = submessage_views(sent@);
        match self.history_cache.get_change(self.guid, n) {
            Some(change) => {
                sent.push(Submessage { flags: 0, element: SubmessageElement::Data(change.duplicate()) });
                assert(submessage_views(sent@) =~= before + seq![
                    spec_data_message(self@.cache[rank(self@.cache, self@.guid, n)]),
                ]);
            },
            None => {
                if 1 <= n && n <= self.sequence_number {
                    sent.push(
                        Submessage {
                            flags: 0,
                            element: SubmessageElement::Gap { writer_guid: self.guid, first: n, last: n },
                        },
                    );
                    assert(submessage_views(sent@) =~= before + seq![spec_gap_message(self@.guid, n)]);
                } else {
                    assert(submessage_views(sent@) =~= before + Seq::<SubmessageView>::empty());
                }
            },
        }
    }

    /// Applies an acknowledgment of reader `reader`, which needs nothing
    /// below `acked_below` and asks for `missing`, and returns what to send
    /// to it again. A reader the writer is not matched with changes nothing.
    pub fn on_acknack(&mut self, reader: Guid, acked_below: SeqNum, missing: &Vec<SeqNum>) -> (outcome:
        Result<Vec<Submessage>, UnmatchedReader>)
        requires
            old(self).wf(),
        ensures
            final(self).wf(),
            outcome is Err <==> !matched(old(self)@.proxies, reader),
            final(self)@ == old(self)@.acknowledged(reader, acked_below, missing@),
            outcome is Err ==> final(self)@ == old(self)@,
            outcome matches Ok(sent) ==> submessage_views(sent@) == old(self)@.retransmissions(
                missing@,
            ),
    {
        let ghost start = self@;
        let at = match self.find_proxy(reader) {
            None => {
                assert(start.acknowledged(reader, acked_below, missing@).proxies =~= start.proxies);
                return Err(UnmatchedReader);
            },
            Some(at) => at,
        };
        let floor: SeqNum = if acked_below == 0 {
            0
        } else {
            acked_below - 1
        };
        let known: SeqNum = self.reader_proxies[at].acked_through;
        assert(start.proxies[at as int] == self.reader_proxies@[at as int]@);
        let proxy = ReaderProxy {
            reader_guid: reader,
            acked_through: if floor > known {
                floor
            } else {
                known
            },
            requested: copy_numbers(missing),
        };
        self.reader_proxies.set(at, proxy);
        proof {
            let want = start.acknowledged(reader, acked_below, missing@).proxies;
            assert(self@.proxies.len() == want.len());
            assert forall|k: int| 0 <= k < want.len() implies self@.proxies[k] == want[k] by {
                if k != at {
                    assert(self@.proxies[k] == start.proxies[k]);
                    if k < at {
                        assert(start.proxies[k].reader_guid != start.proxies[at as int].reader_guid);
                    } else {
                        assert(start.proxies[at as int].reader_guid != start.proxies[k].reader_guid);
                    }
                }
            }
            assert(self@.proxies =~= want);
            assert forall|a: int, b: int| 0 <= a < b < want.len() implies (
            #[trigger] want[a]).reader_guid != (#[trigger] want[b]).reader_guid by {
                assert(want[a].reader_guid == start.proxies[a].reader_guid);
                assert(want[b].reader_guid == start.proxies[b].reader_guid);
            }
        }
        let mut sent: Vec<Submessage> = Vec::new();
        match self.reliability {
            Reliability::BestEffort => {
                assert(submessage_views(sent@) =~= Seq::<SubmessageView>::empty());
            },
            Reliability::Reliable => {
                let mut i: usize = 0;
                assert(submessage_views(sent@) =~= spec_retransmissions(
                    self@.cache,
                    self@.guid,
                    self@.issued,
                    missing@.take(0),
                ));
                while i < missing.len()
                    invariant
                        i <= missing.len(),
                        self.wf(),
                        submessage_views(sent@) == spec_retransmissions(
                            self@.cache,
                            self@.guid,
                            self@.issued,
                            missing@.take(i as int),
                        ),
                    decreases missing.len() - i,
                {
                    self.retransmission(missing[i], &mut sent);
                    i += 1;
                    proof {
                        let now = missing@.take(i as int);
                        assert(now.drop_last() == missing@.take(i as int - 1));
                        assert(now.last() == missing@[i as int - 1]);
                    }
                }
                assert(missing@.take(i as int) == missing@);
            },
        }
        Ok(sent)
    }
}

} // verus!
