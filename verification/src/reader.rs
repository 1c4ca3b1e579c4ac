//! The reader endpoint: it caches what arrives, hands each sample to the
//! application once, and asks the writer again for what it lacks.

use vstd::prelude::*;
use crate::cache::{HistoryCache, ascending, holds, lemma_insert_into_ascending, rank};
use crate::message::{ElementView, Submessage, SubmessageElement, SubmessageView};
use crate::types::{
    CacheChange, CacheChangeView, Guid, Reliability, SeqNum, SeqSpan, next_count, spec_next_count,
};

verus! {

/// Most sequence numbers one AckNack asks for: as many as fit, behind the
/// fixed part of its payload, into a submessage that travels alone in one
/// datagram of 65,507 octets.
pub const MAX_NACKED: usize = 8182;

/// The last heartbeat a reader saw.
#[derive(Clone, Copy, Debug, PartialEq, Eq, Structural)]
pub struct HeartbeatSeen {
    pub writer_guid: Guid,
    pub first: SeqNum,
    pub last: SeqNum,
    pub count: u32,
}

/// Where a reader stands with respect to one writer.
#[derive(Clone, Copy, Debug, PartialEq, Eq, Structural)]
pub enum SyncState {
    /// No heartbeat of that writer was the last one seen.
    Waiting,
    /// Nothing the writer announced is lacking.
    InSync,
    /// Some change the writer announced is lacking.
    OutOfSync,
}

/// What the caller of a reader has to do after a submessage was applied.
#[derive(Clone, Debug, PartialEq, Eq)]
pub enum Reaction {
    /// Hand this sample to the application.
    Deliver(CacheChange),
    /// Send this submessage back to the writer.
    Reply(Submessage),
    /// Nothing.
    Nothing,
}

/// Mathematical value of a [`Reaction`].
pub enum ReactionView {
    Deliver(CacheChangeView),
    Reply(SubmessageView),
    Nothing,
}

impl View for Reaction {
    type V = ReactionView;

    open spec fn view(&self) -> ReactionView {
        match *self {
            Reaction::Deliver(c) => ReactionView::Deliver(c@),
            Reaction::Reply(m) => ReactionView::Reply(m@),
            Reaction::Nothing => ReactionView::Nothing,
        }
    }
}

/// Whether some span of `irrelevant` names sequence number `n` of `guid`.
pub open spec fn covered(irrelevant: Seq<SeqSpan>, guid: Guid, n: SeqNum) -> bool {
    exists|i: int| 0 <= i < irrelevant.len() && (#[trigger] irrelevant[i]).spec_covers(guid, n)
}

/// Whether a reader with this cache still lacks change `n` of `guid`: the
/// number is a real one, the change is not cached, and no gap named it.
pub open spec fn needed(
    cache: Seq<CacheChangeView>,
    irrelevant: Seq<SeqSpan>,
    guid: Guid,
    n: SeqNum,
) -> bool {
    n >= 1 && !holds(cache, guid, n) && !covered(irrelevant, guid, n)
}

/// The first `limit` sequence numbers in `from..=last` that the reader
/// lacks, in ascending order.
pub open spec fn spec_missing(
    cache: Seq<CacheChangeView>,
    irrelevant: Seq<SeqSpan>,
    guid: Guid,
    from: int,
    last: int,
    limit: nat,
) -> Seq<SeqNum>
    decreases last - from + 1,
{
    if from > last || limit == 0 {
        Seq::<SeqNum>::empty()
    } else if needed(cache, irrelevant, guid, from as SeqNum) {
        seq![from as SeqNum] + spec_missing(
            cache,
            irrelevant,
            guid,
            from + 1,
            last,
            (limit - 1) as nat,
        )
    } else {
        spec_missing(cache, irrelevant, guid, from + 1, last, limit)
    }
}

/// What the missing sequence numbers are: each lies in the range and is
/// lacking, they ascend, and there are at most `limit` of them. Where there
/// are fewer, or the range holds no more than `limit` numbers, every lacking
/// number of the range is among them.
pub proof fn lemma_missing_exact(
    cache: Seq<CacheChangeView>,
    irrelevant: Seq<SeqSpan>,
    guid: Guid,
    from: int,
    last: int,
    limit: nat,
)
    requires
        0 <= from,
        last <= u64::MAX,
    ensures
        ({
            let found = spec_missing(cache, irrelevant, guid, from, last, limit);
            &&& found.len() <= limit
            &&& forall|i: int|
                0 <= i < found.len() ==> from <= (#[trigger] found[i]) <= last && needed(
                    cache,
                    irrelevant,
                    guid,
                    found[i],
                )
            &&& forall|i: int, j: int| 0 <= i < j < found.len() ==> found[i] < found[j]
            &&& (found.len() < limit || last - from + 1 <= limit) ==> forall|n: SeqNum|
                from <= n <= last && #[trigger] needed(cache, irrelevant, guid, n)
                    ==> found.contains(n)
        }),
    decreases last - from + 1,
{
    let found = spec_missing(cache, irrelevant, guid, from, last, limit);
    if from > last || limit == 0 {
    } else if needed(cache, irrelevant, guid, from as SeqNum) {
        let rest = spec_missing(cache, irrelevant, guid, from + 1, last, (limit - 1) as nat);
        lemma_missing_exact(cache, irrelevant, guid, from + 1, last, (limit - 1) as nat);
        assert forall|i: int| 0 <= i < found.len() implies from <= (#[trigger] found[i]) <= last
            && needed(cache, irrelevant, guid, found[i]) by {
            if i > 0 {
                assert(found[i] == rest[i - 1]);
            }
        }
        assert forall|i: int, j: int| 0 <= i < j < found.len() implies found[i] < found[j] by {
            assert(found[j] == rest[j - 1]);
            if i > 0 {
                assert(found[i] == rest[i - 1]);
            }
        }
        if found.len() < limit || last - from + 1 <= limit {
            assert forall|n: SeqNum|
                from <= n <= last && #[trigger] needed(
                    cache,
                    irrelevant,
                    guid,
                    n,
                ) implies found.contains(n) by {
                if n == from {
                    assert(found[0] == n);
                } else {
                    assert(rest.contains(n));
                    let k = choose|k: int| 0 <= k < rest.len() && rest[k] == n;
                    assert(found[k + 1] == n);
                }
            }
        }
    } else {
        lemma_missing_exact(cache, irrelevant, guid, from + 1, last, limit);
        let rest = spec_missing(cache, irrelevant, guid, from + 1, last, limit);
        assert(found == rest);
    }
}

/// Numbers that are not lacking can be passed over: the missing numbers from
/// `from` on are those from `to` on where nothing in between is lacking.
pub proof fn lemma_missing_skips(
    cache: Seq<CacheChangeView>,
    irrelevant: Seq<SeqSpan>,
    guid: Guid,
    from: int,
    to: int,
    last: int,
    limit: nat,
)
    requires
        0 <= from <= to <= last + 1,
        last <= u64::MAX,
        forall|m: SeqNum| from <= m < to ==> !#[trigger] needed(cache, irrelevant, guid, m),
    ensures
        spec_missing(cache, irrelevant, guid, from, last, limit) == spec_missing(
            cache,
            irrelevant,
            guid,
            to,
            last,
            limit,
        ),
    decreases to - from,
{
    if from < to {
        assert(!needed(cache, irrelevant, guid, from as SeqNum));
        lemma_missing_skips(cache, irrelevant, guid, from + 1, to, last, limit);
    }
}

/// What a reliable reader asks for is all that is lacking: its answer to a
/// heartbeat names numbers of the announced range that are lacking, and no
/// others, in ascending order. It names every lacking number of the range,
/// unless more than 8182 are lacking, which is as many as one AckNack can
/// name: then it names the first 8182.
pub proof fn lemma_reply_names_what_is_lacking(
    reader: ReaderView,
    guid: Guid,
    first: SeqNum,
    last: SeqNum,
    count: u32,
)
    requires
        reader.reliability == Reliability::Reliable,
    ensures
        ({
            let missing = reader.missing(guid, first, last);
            let reply = reader.on_heartbeat(guid, first, last, count).1;
            &&& reply is Some <==> missing.len() > 0
            &&& reply matches Some(m) ==> m.element matches ElementView::AckNack {
                missing: named,
                ..
            } && named == missing
            &&& missing.len() <= 8182
            &&& forall|i: int|
                0 <= i < missing.len() ==> first <= (#[trigger] missing[i]) <= last && needed(
                    reader.cache,
                    reader.irrelevant,
                    guid,
                    missing[i],
                )
            &&& forall|i: int, j: int| 0 <= i < j < missing.len() ==> missing[i] < missing[j]
            &&& (missing.len() < 8182 || last - first + 1 <= 8182) ==> forall|n: SeqNum|
                first <= n <= last && #[trigger] needed(reader.cache, reader.irrelevant, guid, n)
                    ==> missing.contains(n)
        }),
{
    lemma_missing_exact(reader.cache, reader.irrelevant, guid, first as int, last as int, 8182);
}

/// Mathematical value of a [`Reader`].
pub struct ReaderView {
    pub guid: Guid,
    pub reliability: Reliability,
    pub cache: Seq<CacheChangeView>,
    pub heartbeat: Option<HeartbeatSeen>,
    pub irrelevant: Seq<SeqSpan>,
    pub replies: u32,
}

impl ReaderView {
    /// The reader after a Data submessage with change `c`, and the sample to
    /// hand to the application: the change where it was not cached before,
    /// none where it was.
    pub open spec fn on_data(self, c: CacheChangeView) -> (ReaderView, Option<CacheChangeView>) {
        if holds(self.cache, c.writer_guid, c.sequence_number) {
            (self, None)
        } else {
            (
                ReaderView {
                    cache: self.cache.insert(rank(self.cache, c.writer_guid, c.sequence_number), c),
                    ..self
                },
                Some(c),
            )
        }
    }

    /// The sequence numbers to ask `guid` for, once it announced
    /// `first..=last`: every number of that range that is lacking, in
    /// ascending order; where more are lacking than one AckNack can name,
    /// the first that it can.
    pub open spec fn missing(self, guid: Guid, first: SeqNum, last: SeqNum) -> Seq<SeqNum> {
        spec_missing(self.cache, self.irrelevant, guid, first as int, last as int, 8182)
    }

    /// The reader after a heartbeat, and its answer: under reliable delivery
    /// an AckNack that names what is missing, where anything is; else none.
    pub open spec fn on_heartbeat(self, guid: Guid, first: SeqNum, last: SeqNum, count: u32) -> (
        ReaderView,
        Option<SubmessageView>,
    ) {
        let seen = Some(HeartbeatSeen { writer_guid: guid, first, last, count });
        let missing = self.missing(guid, first, last);
        if self.reliability == Reliability::Reliable && missing.len() > 0 {
            (
                ReaderView { heartbeat: seen, replies: spec_next_count(self.replies), ..self },
                Some(
                    SubmessageView {
                        flags: 0,
                        element: ElementView::AckNack {
                            reader_guid: self.guid,
                            writer_guid: guid,
                            acked_below: missing[0],
                            missing,
                            count: spec_next_count(self.replies),
                        },
                    },
                ),
            )
        } else {
            (ReaderView { heartbeat: seen, ..self }, None)
        }
    }

    /// The reader after a gap: the changes `first..=last` of `guid` are no
    /// longer lacking.
    pub open spec fn on_gap(self, guid: Guid, first: SeqNum, last: SeqNum) -> ReaderView {
        ReaderView {
            irrelevant: self.irrelevant.push(SeqSpan { writer_guid: guid, first, last }),
            ..self
        }
    }

    /// Where the reader stands with respect to writer `guid`.
    pub open spec fn sync_state(self, guid: Guid) -> SyncState {
        match self.heartbeat {
            Some(h) if h.writer_guid == guid => if exists|n: SeqNum|
                h.first <= n <= h.last && #[trigger] needed(self.cache, self.irrelevant, guid, n) {
                SyncState::OutOfSync
            } else {
                SyncState::InSync
            },
            _ => SyncState::Waiting,
        }
    }

    /// The reader after submessage `m`, and what its caller has to do.
    pub open spec fn message(self, m: SubmessageView) -> (ReaderView, ReactionView) {
        match m.element {
            ElementView::Data(c) => match self.on_data(c).1 {
                Some(sample) => (self.on_data(c).0, ReactionView::Deliver(sample)),
                None => (self.on_data(c).0, ReactionView::Nothing),
            },
            ElementView::Heartbeat { writer_guid, first, last, count } => match self.on_heartbeat(
                writer_guid,
                first,
                last,
                count,
            ).1 {
                Some(reply) => (
                    self.on_heartbeat(writer_guid, first, last, count).0,
                    ReactionView::Reply(reply),
                ),
                None => (self.on_heartbeat(writer_guid, first, last, count).0, ReactionView::Nothing),
            },
            ElementView::Gap { writer_guid, first, last } => (
                self.on_gap(writer_guid, first, last),
                ReactionView::Nothing,
            ),
            _ => (self, ReactionView::Nothing),
        }
    }
}

/// A Data submessage that arrives a second time changes nothing and delivers
/// nothing: after the first arrival the change is cached once, and the second
/// leaves the reader as it was and hands no sample to the application.
pub proof fn lemma_data_is_idempotent(reader: ReaderView, c: CacheChangeView)
    requires
        ascending(reader.cache),
    ensures
        ({
            let (once, first) = reader.on_data(c);
            let (twice, second) = once.on_data(c);
            &&& ascending(once.cache)
            &&& holds(once.cache, c.writer_guid, c.sequence_number)
            &&& first is Some <==> !holds(reader.cache, c.writer_guid, c.sequence_number)
            &&& second is None
            &&& twice == once
        }),
{
    if !holds(reader.cache, c.writer_guid, c.sequence_number) {
        lemma_insert_into_ascending(reader.cache, c);
    }
}

/// A change that arrives is lacking no more, and nothing is lacking after it
/// that was not lacking before.
pub proof fn lemma_data_fills(reader: ReaderView, c: CacheChangeView)
    requires
        ascending(reader.cache),
    ensures
        ({
            let after = reader.on_data(c).0;
            &&& !needed(after.cache, after.irrelevant, c.writer_guid, c.sequence_number)
            &&& forall|g: Guid, n: SeqNum| #[trigger]
                needed(after.cache, after.irrelevant, g, n) ==> needed(
                    reader.cache,
                    reader.irrelevant,
                    g,
                    n,
                )
        }),
{
    if !holds(reader.cache, c.writer_guid, c.sequence_number) {
        lemma_insert_into_ascending(reader.cache, c);
        let after = reader.on_data(c).0;
        assert forall|g: Guid, n: SeqNum| #[trigger]
            needed(after.cache, after.irrelevant, g, n) implies needed(
            reader.cache,
            reader.irrelevant,
            g,
            n,
        ) by {
            if g != c.writer_guid || n != c.sequence_number {
                assert(holds(after.cache, g, n) <==> holds(reader.cache, g, n));
            }
        }
    }
}

/// The changes a gap names are lacking no more, and nothing is lacking
/// after it that was not lacking before.
pub proof fn lemma_gap_fills(reader: ReaderView, guid: Guid, first: SeqNum, last: SeqNum)
    ensures
        ({
            let after = reader.on_gap(guid, first, last);
            &&& forall|n: SeqNum|
                first <= n <= last ==> !#[trigger] needed(after.cache, after.irrelevant, guid, n)
            &&& forall|g: Guid, n: SeqNum| #[trigger]
                needed(after.cache, after.irrelevant, g, n) ==> needed(
                    reader.cache,
                    reader.irrelevant,
                    g,
                    n,
                )
        }),
{
    let after = reader.on_gap(guid, first, last);
    let span = SeqSpan { writer_guid: guid, first, last };
    assert(after.irrelevant[reader.irrelevant.len() as int] == span);
    assert forall|n: SeqNum| first <= n <= last implies !#[trigger] needed(
        after.cache,
        after.irrelevant,
        guid,
        n,
    ) by {
        assert(after.irrelevant[reader.irrelevant.len() as int].spec_covers(guid, n));
    }
    assert forall|g: Guid, n: SeqNum| #[trigger]
        needed(after.cache, after.irrelevant, g, n) implies needed(
        reader.cache,
        reader.irrelevant,
        g,
        n,
    ) by {
        if covered(reader.irrelevant, g, n) {
            let i = choose|i: int|
                0 <= i < reader.irrelevant.len() && (#[trigger] reader.irrelevant[i]).spec_covers(g, n);
            assert(after.irrelevant[i] == reader.irrelevant[i]);
        }
    }
}

/// A reader that is in sync with a writer stays in sync whatever data and
/// gaps arrive; and a gap that covers all the writer announced brings a
/// reader that is out of sync back in sync.
pub proof fn lemma_sync_is_kept_and_regained(reader: ReaderView, guid: Guid, m: SubmessageView)
    requires
        ascending(reader.cache),
        m.element is Data || m.element is Gap,
    ensures
        reader.sync_state(guid) == SyncState::InSync ==> reader.message(m).0.sync_state(guid)
            == SyncState::InSync,
        reader.sync_state(guid) == SyncState::Waiting <==> reader.message(m).0.sync_state(guid)
            == SyncState::Waiting,
        (m.element matches ElementView::Gap { writer_guid, first, last } && ({
            &&& reader.sync_state(guid) != SyncState::Waiting
            &&& writer_guid == guid
            &&& first <= reader.heartbeat.unwrap().first
            &&& reader.heartbeat.unwrap().last <= last
        })) ==> reader.message(m).0.sync_state(guid) == SyncState::InSync,
{
    let after = reader.message(m).0;
    match m.element {
        ElementView::Data(c) => {
            lemma_data_fills(reader, c);
        },
        ElementView::Gap { writer_guid, first, last } => {
            lemma_gap_fills(reader, writer_guid, first, last);
        },
        _ => {},
    }
    assert(after.heartbeat == reader.heartbeat);
}

/// Whatever submessage arrives, the cache of the reader stays in order.
pub proof fn lemma_message_keeps_order(reader: ReaderView, m: SubmessageView)
    requires
        ascending(reader.cache),
    ensures
        ascending(reader.message(m).0.cache),
{
    match m.element {
        ElementView::Data(c) => {
            lemma_data_is_idempotent(reader, c);
        },
        _ => {},
    }
}

/// Under best-effort delivery no heartbeat is ever answered.
pub proof fn lemma_best_effort_never_replies(
    reader: ReaderView,
    guid: Guid,
    first: SeqNum,
    last: SeqNum,
    count: u32,
)
    requires
        reader.reliability == Reliability::BestEffort,
    ensures
        reader.on_heartbeat(guid, first, last, count).1 is None,
        reader.on_heartbeat(guid, first, last, count).0.reliability == Reliability::BestEffort,
{
}

/// The reader endpoint.
pub struct Reader {
    guid: Guid,
    reliability: Reliability,
    history_cache: HistoryCache,
    last_heartbeat_seen: Option<HeartbeatSeen>,
    irrelevant: Vec<SeqSpan>,
    replies: u32,
}

impl View for Reader {
    type V = ReaderView;

    closed spec fn view(&self) -> ReaderView {
        ReaderView {
            guid: self.guid,
            reliability: self.reliability,
            cache: self.history_cache@,
            heartbeat: self.last_heartbeat_seen,
            irrelevant: self.irrelevant@,
            replies: self.replies,
        }
    }
}

impl Reader {
    /// What every reader satisfies: its cache ascends, so it holds no
    /// change twice.
    pub open spec fn wf(&self) -> bool {
        ascending(self@.cache)
    }

    /// A reliable reader with identifier 0 that has seen nothing yet.
    pub fn new() -> (reader: Reader)
        ensures
            reader.wf(),
            reader@ == (ReaderView {
                guid: Guid(0),
                reliability: Reliability::Reliable,
                cache: Seq::<CacheChangeView>::empty(),
                heartbeat: None,
                irrelevant: Seq::<SeqSpan>::empty(),
                replies: 0,
            }),
    {
        Reader::with_qos(Guid(0), Reliability::Reliable)
    }

    /// A reader with the given identifier and delivery guarantee that has
    /// seen nothing yet.
    pub fn with_qos(guid: Guid, reliability: Reliability) -> (reader: Reader)
        ensures
            reader.wf(),
            reader@ == (ReaderView {
                guid,
                reliability,
                cache: Seq::<CacheChangeView>::empty(),
                heartbeat: None,
                irrelevant: Seq::<SeqSpan>::empty(),
                replies: 0,
            }),
    {
        Reader {
            guid,
            reliability,
            history_cache: HistoryCache::new(),
            last_heartbeat_seen: None,
            irrelevant: Vec::new(),
            replies: 0,
        }
    }

    /// The reader's identifier.
    pub fn guid(&self) -> (guid: Guid)
        ensures
            guid == self@.guid,
    {
        self.guid
    }

    /// The reader's delivery guarantee.
    pub fn reliability(&self) -> (reliability: Reliability)
        ensures
            reliability == self@.reliability,
    {
        self.reliability
    }

    /// The reader's cache.
    pub fn history_cache(&self) -> (cache: &HistoryCache)
        requires
            self.wf(),
        ensures
            cache.wf(),
            cache@ == self@.cache,
    {
        &self.history_cache
    }

    /// Writer and count of the last heartbeat seen.
    pub fn last_heartbeat_seen(&self) -> (seen: Option<(Guid, u32)>)
        ensures
            seen == match self@.heartbeat {
                Some(h) => Some((h.writer_guid, h.count)),
                None => None,
            },
    {
        match self.last_heartbeat_seen {
            Some(h) => Some((h.writer_guid, h.count)),
            None => None,
        }
    }

    /// The end of a gap that named change `n` of `guid`, if one did.
    fn covering_end(&self, guid: Guid, n: SeqNum) -> (end: Option<SeqNum>)
        ensures
            end is None <==> !covered(self@.irrelevant, guid, n),
            end matches Some(e) ==> exists|i: int|
                0 <= i < self@.irrelevant.len() && (#[trigger] self@.irrelevant[i]).spec_covers(
                    guid,
                    n,
                ) && self@.irrelevant[i].last == e,
    {
        let mut i: usize = 0;
        while i < self.irrelevant.len()
            invariant
                i <= self.irrelevant.len(),
                forall|j: int| 0 <= j < i ==> !(#[trigger] self.irrelevant@[j]).spec_covers(guid, n),
            decreases self.irrelevant.len() - i,
        {
            if self.irrelevant[i].covers(guid, n) {
                assert(self@.irrelevant[i as int].spec_covers(guid, n));
                return Some(self.irrelevant[i].last);
            }
            i += 1;
        }
        None
    }

    /// The first `limit` sequence numbers in `first..=last` that the reader
    /// lacks of `guid`. The search looks at each change it holds and at each
    /// number it finds lacking, and passes over a gap in one step.
    fn find_missing(&self, guid: Guid, first: SeqNum, last: SeqNum, limit: usize) -> (found: Vec<
        SeqNum,
    >)
        requires
            self.wf(),
        ensures
            found@ == spec_missing(
                self@.cache,
                self@.irrelevant,
                guid,
                first as int,
                last as int,
                limit as nat,
            ),
    {
        let mut found: Vec<SeqNum> = Vec::new();
        let mut n: SeqNum = first;
        let mut open: bool = first <= last;
        while open && found.len() < limit
            invariant
                self.wf(),
                first <= n <= last || !open,
                found.len() <= limit,
                spec_missing(
                    self@.cache,
                    self@.irrelevant,
                    guid,
                    first as int,
                    last as int,
                    limit as nat,
                ) == found@ + spec_missing(
                    self@.cache,
                    self@.irrelevant,
                    guid,
                    if open {
                        n as int
                    } else {
                        last + 1
                    },
                    last as int,
                    (limit - found.len()) as nat,
                ),
            decreases
                    if open {
                        last - n + 1
                    } else {
                        0
                    },
        {
            let ghost before = found@;
            let ghost left = (limit - found.len()) as nat;
            let ghost cache = self@.cache;
            let ghost irrelevant = self@.irrelevant;
            // the last number that this round deals with
            let mut done: SeqNum = n;
            if n >= 1 && !self.history_cache.contains(guid, n) {
                match self.covering_end(guid, n) {
                    Some(end) => {
                        done = if end < last {
                            end
                        } else {
                            last
                        };
                        proof {
                            let i = choose|i: int|
                                0 <= i < irrelevant.len() && (#[trigger] irrelevant[i]).spec_covers(
                                    guid,
                                    n,
                                ) && irrelevant[i].last == end;
                            assert forall|m: SeqNum| n <= m < done + 1 implies !#[trigger] needed(
                                cache,
                                irrelevant,
                                guid,
                                m,
                            ) by {
                                assert(irrelevant[i].spec_covers(guid, m));
                            }
                            lemma_missing_skips(
                                cache,
                                irrelevant,
                                guid,
                                n as int,
                                done + 1,
                                last as int,
                                left,
                            );
                        }
                    },
                    None => {
                        found.push(n);
                        assert(found@ =~= before + seq![n]);
                    },
                }
            }
            if done == last {
                open = false;
            } else {
                n = done + 1;
            }
            assert(spec_missing(
                self@.cache,
                self@.irrelevant,
                guid,
                first as int,
                last as int,
                limit as nat,
            ) =~= found@ + spec_missing(
                self@.cache,
                self@.irrelevant,
                guid,
                if open {
                    n as int
                } else {
                    last + 1
                },
                last as int,
                (limit - found.len()) as nat,
            ));
        }
        assert(spec_missing(
            self@.cache,
            self@.irrelevant,
            guid,
            first as int,
            last as int,
            limit as nat,
        ) =~= found@);
        found
    }

    /// Applies a Data submessage. A change that is not cached yet is cached
    /// and comes back, to be handed to the application; one that is cached
    /// already is dropped.
    pub fn on_data(&mut self, change: CacheChange) -> (sample: Option<CacheChange>)
        requires
            old(self).wf(),
        ensures
            final(self).wf(),
            final(self)@ == old(self)@.on_data(change@).0,
            match sample {
                Some(c) => old(self)@.on_data(change@).1 == Some(c@),
                None => old(self)@.on_data(change@).1 is None,
            },
    {
        let sample = change.duplicate();
        match self.history_cache.add_change(change) {
            Ok(()) => Some(sample),
            Err(_) => None,
        }
    }

    /// Applies a heartbeat of writer `guid` that announces `first..=last`.
    /// What comes back is the answer to send, if any: under reliable
    /// delivery an AckNack that names every lacking number of the range, or,
    /// where more than `MAX_NACKED` are lacking, the first `MAX_NACKED` of
    /// them.
    pub fn on_heartbeat(&mut self, guid: Guid, first: SeqNum, last: SeqNum, count: u32) -> (reply:
        Option<Submessage>)
        requires
            old(self).wf(),
        ensures
            final(self).wf(),
            final(self)@ == old(self)@.on_heartbeat(guid, first, last, count).0,
            match reply {
                Some(m) => old(self)@.on_heartbeat(guid, first, last, count).1 == Some(m@),
                None => old(self)@.on_heartbeat(guid, first, last, count).1 is None,
            },
    {
        self.last_heartbeat_seen = Some(HeartbeatSeen { writer_guid: guid, first, last, count });
        match self.reliability {
            Reliability::BestEffort => None,
            Reliability::Reliable => {
                let missing = self.find_missing(guid, first, last, MAX_NACKED);
                if missing.len() == 0 {
                    None
                } else {
                    self.replies = next_count(self.replies);
                    Some(
                        Submessage {
                            flags: 0,
                            element: SubmessageElement::AckNack {
                                reader_guid: self.guid,
                                writer_guid: guid,
                                acked_below: missing[0],
                                missing,
                                count: self.replies,
                            },
                        },
                    )
                }
            },
        }
    }

    /// Applies a gap: the changes `first..=last` of `guid` will never come
    /// and are no longer asked for.
    pub fn on_gap(&mut self, guid: Guid, first: SeqNum, last: SeqNum)
        requires
            old(self).wf(),
        ensures
            final(self).wf(),
            final(self)@ == old(self)@.on_gap(guid, first, last),
    {
        self.irrelevant.push(SeqSpan { writer_guid: guid, first, last });
    }

    /// Where the reader stands with respect to writer `guid`.
    pub fn sync_state(&self, guid: Guid) -> (state: SyncState)
        requires
            self.wf(),
        ensures
            state == self@.sync_state(guid),
    {
        match self.last_heartbeat_seen {
            Some(h) => {
                if h.writer_guid == guid {
                    let missing = self.find_missing(guid, h.first, h.last, 1);
                    proof {
                        lemma_missing_exact(
                            self@.cache,
                            self@.irrelevant,
                            guid,
                            h.first as int,
                            h.last as int,
                            1,
                        );
                    }
                    if missing.len() == 0 {
                        SyncState::InSync
                    } else {
                        assert(needed(self@.cache, self@.irrelevant, guid, missing@[0]));
                        SyncState::OutOfSync
                    }
                } else {
                    SyncState::Waiting
                }
            },
            None => SyncState::Waiting,
        }
    }

    /// Applies one submessage and says what the caller has to do. Kinds
    /// other than Data, Heartbeat and Gap change nothing.
    pub fn _message(&mut self, message: Submessage) -> (reaction: Reaction)
        requires
            old(self).wf(),
        ensures
            final(self).wf(),
            final(self)@ == old(self)@.message(message@).0,
            reaction@ == old(self)@.message(message@).1,
    {
        match message.element {
            SubmessageElement::Data(change) => match self.on_data(change) {
                Some(sample) => Reaction::Deliver(sample),
                None => Reaction::Nothing,
            },
            SubmessageElement::Heartbeat { writer_guid, first, last, count } => match self.on_heartbeat(
                writer_guid,
                first,
                last,
                count,
            ) {
                Some(reply) => Reaction::Reply(reply),
                None => Reaction::Nothing,
            },
            SubmessageElement::Gap { writer_guid, first, last } => {
                self.on_gap(writer_guid, first, last);
                Reaction::Nothing
            },
            _ => Reaction::Nothing,
        }
    }
}

} // verus!
