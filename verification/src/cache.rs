//! The history cache: the retained changes of one writer or reader, kept in
//! ascending order of sequence number.

use vstd::prelude::*;
use crate::types::{CacheChange, CacheChangeView, DuplicateChange, Guid, SeqNum, change_views};

verus! {

/// Whether change `c` sorts strictly before the identity `(guid, n)`: by
/// sequence number first, by writer second.
pub open spec fn sorts_before(c: CacheChangeView, guid: Guid, n: SeqNum) -> bool {
    c.sequence_number < n || (c.sequence_number == n && c.writer_guid.0 < guid.0)
}

/// Whether change `c` has the identity `(guid, n)`.
pub open spec fn identified_by(c: CacheChangeView, guid: Guid, n: SeqNum) -> bool {
    c.writer_guid == guid && c.sequence_number == n
}

/// Strictly ascending by identity, which also makes identities unique.
pub open spec fn ascending(s: Seq<CacheChangeView>) -> bool {
    forall|i: int, j: int|
        0 <= i < j < s.len() ==> sorts_before(
            #[trigger] s[i],
            (#[trigger] s[j]).writer_guid,
            s[j].sequence_number,
        )
}

/// Whether some change in `s` has the identity `(guid, n)`.
pub open spec fn holds(s: Seq<CacheChangeView>, guid: Guid, n: SeqNum) -> bool {
    exists|i: int| 0 <= i < s.len() && identified_by(#[trigger] s[i], guid, n)
}

/// Number of changes in `s` that sort strictly before `(guid, n)`: in an
/// ascending sequence, the index at which that identity is or would be.
pub open spec fn rank(s: Seq<CacheChangeView>, guid: Guid, n: SeqNum) -> int
    decreases s.len(),
{
    if s.len() == 0 {
        0
    } else {
        rank(s.drop_last(), guid, n) + if sorts_before(s.last(), guid, n) {
            1int
        } else {
            0int
        }
    }
}

/// Whether the sequence number of `c` lies in `lo..=hi`.
pub open spec fn in_range(c: CacheChangeView, lo: SeqNum, hi: SeqNum) -> bool {
    lo <= c.sequence_number <= hi
}

/// In an ascending sequence the rank of an identity is the index that
/// separates the changes before it from the rest.
pub proof fn lemma_rank_is_split_point(s: Seq<CacheChangeView>, guid: Guid, n: SeqNum, i: int)
    requires
        0 <= i <= s.len(),
        forall|j: int| 0 <= j < i ==> sorts_before(#[trigger] s[j], guid, n),
        forall|j: int| i <= j < s.len() ==> !sorts_before(#[trigger] s[j], guid, n),
    ensures
        rank(s, guid, n) == i,
    decreases s.len(),
{
    if s.len() > 0 {
        let t = s.drop_last();
        if i == s.len() {
            lemma_rank_is_split_point(t, guid, n, i - 1);
        } else {
            lemma_rank_is_split_point(t, guid, n, i);
        }
    }
}

/// In an ascending sequence an identity is held exactly when the change at its
/// rank has it.
pub proof fn lemma_rank_finds(s: Seq<CacheChangeView>, guid: Guid, n: SeqNum)
    requires
        ascending(s),
    ensures
        0 <= rank(s, guid, n) <= s.len(),
        holds(s, guid, n) <==> (rank(s, guid, n) < s.len() && identified_by(
            s[rank(s, guid, n)],
            guid,
            n,
        )),
        forall|j: int| 0 <= j < rank(s, guid, n) ==> sorts_before(#[trigger] s[j], guid, n),
        forall|j: int| rank(s, guid, n) <= j < s.len() ==> !sorts_before(#[trigger] s[j], guid, n),
    decreases s.len(),
{
    if s.len() > 0 {
        let t = s.drop_last();
        assert forall|i: int, j: int| 0 <= i < j < t.len() implies sorts_before(
            #[trigger] t[i],
            (#[trigger] t[j]).writer_guid,
            t[j].sequence_number,
        ) by {
            assert(t[i] == s[i] && t[j] == s[j]);
        }
        lemma_rank_finds(t, guid, n);
        let r = rank(s, guid, n);
        let last = s.len() - 1;
        assert forall|j: int| 0 <= j < r implies sorts_before(#[trigger] s[j], guid, n) by {
            if j < last {
                assert(s[j] == t[j]);
                if !sorts_before(s[j], guid, n) {
                    assert(rank(t, guid, n) <= j);
                    assert(sorts_before(s[last], guid, n));
                    assert(sorts_before(s[j], s[last].writer_guid, s[last].sequence_number));
                }
            }
        }
        assert forall|j: int| r <= j < s.len() implies !sorts_before(#[trigger] s[j], guid, n) by {
            if j < last {
                assert(s[j] == t[j]);
            }
        }
        if holds(s, guid, n) {
            let k = choose|k: int| 0 <= k < s.len() && identified_by(#[trigger] s[k], guid, n);
            assert(!sorts_before(s[k], guid, n));
            assert(k >= r);
            if k > r {
                assert(sorts_before(s[r], s[k].writer_guid, s[k].sequence_number));
                assert(!sorts_before(s[r], guid, n));
            }
        }
    }
}

/// Nothing passes a filter that every element fails.
pub proof fn lemma_filter_none<A>(s: Seq<A>, pred: spec_fn(A) -> bool)
    requires
        forall|j: int| 0 <= j < s.len() ==> !pred(#[trigger] s[j]),
    ensures
        s.filter(pred) == Seq::<A>::empty(),
    decreases s.len(),
{
    reveal(Seq::filter);
    if s.len() > 0 {
        let t = s.drop_last();
        assert forall|j: int| 0 <= j < t.len() implies !pred(#[trigger] t[j]) by {
            assert(t[j] == s[j]);
        }
        lemma_filter_none(t, pred);
    }
}

/// Every element passes a filter that none fails.
pub proof fn lemma_filter_all<A>(s: Seq<A>, pred: spec_fn(A) -> bool)
    requires
        forall|j: int| 0 <= j < s.len() ==> pred(#[trigger] s[j]),
    ensures
        s.filter(pred) == s,
    decreases s.len(),
{
    reveal(Seq::filter);
    if s.len() > 0 {
        let t = s.drop_last();
        assert forall|j: int| 0 <= j < t.len() implies pred(#[trigger] t[j]) by {
            assert(t[j] == s[j]);
        }
        lemma_filter_all(t, pred);
        assert(t.push(s.last()) =~= s);
    } else {
        assert(s.filter(pred) =~= s);
    }
}

/// A filter that the first `i` elements fail and the others pass keeps
/// exactly the others.
pub proof fn lemma_filter_keeps_tail<A>(s: Seq<A>, pred: spec_fn(A) -> bool, i: int)
    requires
        0 <= i <= s.len(),
        forall|j: int| 0 <= j < i ==> !pred(#[trigger] s[j]),
        forall|j: int| i <= j < s.len() ==> pred(#[trigger] s[j]),
    ensures
        s.filter(pred) == s.skip(i),
{
    let head = s.take(i);
    let tail = s.skip(i);
    assert forall|j: int| 0 <= j < head.len() implies !pred(#[trigger] head[j]) by {
        assert(head[j] == s[j]);
    }
    assert forall|j: int| 0 <= j < tail.len() implies pred(#[trigger] tail[j]) by {
        assert(tail[j] == s[i + j]);
    }
    lemma_filter_none(head, pred);
    lemma_filter_all(tail, pred);
    assert(s =~= head + tail);
    Seq::filter_distributes_over_add(head, tail, pred);
    assert(Seq::<A>::empty() + tail =~= tail);
}

/// What is left of an ascending sequence without its first `i` changes
/// ascends.
pub proof fn lemma_skip_keeps_order(s: Seq<CacheChangeView>, i: int)
    requires
        ascending(s),
        0 <= i <= s.len(),
    ensures
        ascending(s.skip(i)),
{
    let tail = s.skip(i);
    assert forall|a: int, b: int| 0 <= a < b < tail.len() implies sorts_before(
        #[trigger] tail[a],
        (#[trigger] tail[b]).writer_guid,
        tail[b].sequence_number,
    ) by {
        assert(tail[a] == s[i + a] && tail[b] == s[i + b]);
    }
}

/// Taking one change out of an ascending sequence leaves it ascending, and
/// takes out that identity and no other.
pub proof fn lemma_remove_from_ascending(s: Seq<CacheChangeView>, i: int)
    requires
        ascending(s),
        0 <= i < s.len(),
    ensures
        ascending(s.remove(i)),
        !holds(s.remove(i), s[i].writer_guid, s[i].sequence_number),
        forall|g: Guid, m: SeqNum|
            (g != s[i].writer_guid || m != s[i].sequence_number) ==> (#[trigger] holds(
                s.remove(i),
                g,
                m,
            ) <==> holds(s, g, m)),
{
    let t = s.remove(i);
    assert forall|a: int, b: int| 0 <= a < b < t.len() implies sorts_before(
        #[trigger] t[a],
        (#[trigger] t[b]).writer_guid,
        t[b].sequence_number,
    ) by {
        let a0 = if a < i { a } else { a + 1 };
        let b0 = if b < i { b } else { b + 1 };
        assert(t[a] == s[a0] && t[b] == s[b0]);
    }
    if holds(t, s[i].writer_guid, s[i].sequence_number) {
        let k = choose|k: int|
            0 <= k < t.len() && identified_by(#[trigger] t[k], s[i].writer_guid, s[i].sequence_number);
        let k0 = if k < i { k } else { k + 1 };
        assert(t[k] == s[k0]);
        if k0 < i {
            assert(sorts_before(s[k0], s[i].writer_guid, s[i].sequence_number));
        } else {
            assert(sorts_before(s[i], s[k0].writer_guid, s[k0].sequence_number));
        }
    }
    assert forall|g: Guid, m: SeqNum|
        (g != s[i].writer_guid || m != s[i].sequence_number) implies (#[trigger] holds(t, g, m)
            <==> holds(s, g, m)) by {
        if holds(t, g, m) {
            let k = choose|k: int| 0 <= k < t.len() && identified_by(#[trigger] t[k], g, m);
            let k0 = if k < i { k } else { k + 1 };
            assert(t[k] == s[k0]);
            assert(identified_by(s[k0], g, m));
        }
        if holds(s, g, m) {
            let k = choose|k: int| 0 <= k < s.len() && identified_by(#[trigger] s[k], g, m);
            assert(k != i);
            let k1 = if k < i { k } else { k - 1 };
            assert(t[k1] == s[k]);
            assert(identified_by(t[k1], g, m));
        }
    }
}

/// Putting a change whose identity is not held at the rank of that identity
/// leaves an ascending sequence ascending, and adds that identity and no
/// other.
pub proof fn lemma_insert_into_ascending(s: Seq<CacheChangeView>, c: CacheChangeView)
    requires
        ascending(s),
        !holds(s, c.writer_guid, c.sequence_number),
    ensures
        0 <= rank(s, c.writer_guid, c.sequence_number) <= s.len(),
        ascending(s.insert(rank(s, c.writer_guid, c.sequence_number), c)),
        holds(s.insert(rank(s, c.writer_guid, c.sequence_number), c), c.writer_guid, c.sequence_number),
        forall|g: Guid, m: SeqNum|
            (g != c.writer_guid || m != c.sequence_number) ==> (#[trigger] holds(
                s.insert(rank(s, c.writer_guid, c.sequence_number), c),
                g,
                m,
            ) <==> holds(s, g, m)),
{
    let guid = c.writer_guid;
    let n = c.sequence_number;
    lemma_rank_finds(s, guid, n);
    let i = rank(s, guid, n);
    let t = s.insert(i, c);
    assert forall|a: int, b: int| 0 <= a < b < t.len() implies sorts_before(
        #[trigger] t[a],
        (#[trigger] t[b]).writer_guid,
        t[b].sequence_number,
    ) by {
        if b < i {
            assert(t[a] == s[a] && t[b] == s[b]);
        } else if b == i {
            assert(t[a] == s[a]);
        } else if a < i {
            assert(t[a] == s[a] && t[b] == s[b - 1]);
            assert(sorts_before(s[a], guid, n));
            assert(!sorts_before(s[b - 1], guid, n));
        } else if a == i {
            assert(t[b] == s[b - 1]);
            assert(!sorts_before(s[b - 1], guid, n));
            assert(!identified_by(s[b - 1], guid, n));
        } else {
            assert(t[a] == s[a - 1] && t[b] == s[b - 1]);
        }
    }
    assert(identified_by(t[i], guid, n));
    assert forall|g: Guid, m: SeqNum| (g != guid || m != n) implies (#[trigger] holds(t, g, m)
        <==> holds(s, g, m)) by {
        if holds(t, g, m) {
            let k = choose|k: int| 0 <= k < t.len() && identified_by(#[trigger] t[k], g, m);
            assert(k != i);
            let k0 = if k < i { k } else { k - 1 };
            assert(t[k] == s[k0]);
            assert(identified_by(s[k0], g, m));
        }
        if holds(s, g, m) {
            let k = choose|k: int| 0 <= k < s.len() && identified_by(#[trigger] s[k], g, m);
            let k1 = if k < i { k } else { k + 1 };
            assert(t[k1] == s[k]);
            assert(identified_by(t[k1], g, m));
        }
    }
}

/// The retained changes of one endpoint.
pub struct HistoryCache {
    changes: Vec<CacheChange>,
}

impl View for HistoryCache {
    type V = Seq<CacheChangeView>;

    closed spec fn view(&self) -> Seq<CacheChangeView> {
        change_views(self.changes@)
    }
}

impl HistoryCache {
    /// What every cache satisfies: its changes are in strictly ascending
    /// order of identity, so no identity occurs twice.
    pub open spec fn wf(&self) -> bool {
        ascending(self@)
    }

    /// An empty cache.
    pub fn new() -> (cache: HistoryCache)
        ensures
            cache.wf(),
            cache@ == Seq::<CacheChangeView>::empty(),
    {
        let cache = HistoryCache { changes: Vec::new() };
        assert(cache@ =~= Seq::<CacheChangeView>::empty());
        cache
    }

    /// Number of retained changes.
    pub fn len(&self) -> (n: usize)
        ensures
            n == self@.len(),
    {
        self.changes.len()
    }

    /// Index at which the identity `(guid, n)` is or would be.
    fn position(&self, guid: Guid, n: SeqNum) -> (i: usize)
        requires
            self.wf(),
        ensures
            i == rank(self@, guid, n),
            i <= self@.len(),
            holds(self@, guid, n) <==> (i < self@.len() && identified_by(self@[i as int], guid, n)),
    {
        let mut lo: usize = 0;
        let mut hi: usize = self.changes.len();
        while lo < hi
            invariant
                lo <= hi <= self.changes.len(),
                self@.len() == self.changes.len(),
                ascending(self@),
                forall|j: int| 0 <= j < lo ==> sorts_before(#[trigger] self@[j], guid, n),
                forall|j: int| hi <= j < self@.len() ==> !sorts_before(#[trigger] self@[j], guid, n),
            decreases hi - lo,
        {
            let mid: usize = lo + (hi - lo) / 2;
            let c = &self.changes[mid];
            assert(self@[mid as int] == c@);
            if c.sequence_number < n || (c.sequence_number == n && c.writer_guid.0 < guid.0) {
                assert forall|j: int| 0 <= j < mid + 1 implies sorts_before(
                    #[trigger] self@[j],
                    guid,
                    n,
                ) by {
                    if j < mid {
                        assert(sorts_before(self@[j], c@.writer_guid, c@.sequence_number));
                    }
                }
                lo = mid + 1;
            } else {
                assert forall|j: int| mid <= j < self@.len() implies !sorts_before(
                    #[trigger] self@[j],
                    guid,
                    n,
                ) by {
                    if j > mid {
                        assert(sorts_before(
                            self@[mid as int],
                            self@[j].writer_guid,
                            self@[j].sequence_number,
                        ));
                    }
                }
                hi = mid;
            }
        }
        proof {
            lemma_rank_is_split_point(self@, guid, n, lo as int);
            lemma_rank_finds(self@, guid, n);
        }
        lo
    }

    /// Whether a change with the identity `(guid, n)` is retained.
    pub fn contains(&self, guid: Guid, n: SeqNum) -> (found: bool)
        requires
            self.wf(),
        ensures
            found == holds(self@, guid, n),
    {
        let i = self.position(guid, n);
        i < self.changes.len() && self.changes[i].writer_guid == guid
            && self.changes[i].sequence_number == n
    }

    /// The retained change with the identity `(guid, n)`, if there is one.
    pub fn get_change(&self, guid: Guid, n: SeqNum) -> (found: Option<&CacheChange>)
        requires
            self.wf(),
        ensures
            found is Some <==> holds(self@, guid, n),
            found matches Some(c) ==> c@ == self@[rank(self@, guid, n)] && identified_by(c@, guid, n),
    {
        let i = self.position(guid, n);
        if i < self.changes.len() && self.changes[i].writer_guid == guid
            && self.changes[i].sequence_number == n {
            Some(&self.changes[i])
        } else {
            None
        }
    }

    /// Inserts `change` at its place in the order, unless a change with the
    /// same writer and sequence number is already retained.
    pub fn add_change(&mut self, change: CacheChange) -> (outcome: Result<(), DuplicateChange>)
        requires
            old(self).wf(),
        ensures
            final(self).wf(),
            outcome is Err <==> holds(old(self)@, change@.writer_guid, change@.sequence_number),
            outcome is Err ==> final(self)@ == old(self)@,
            outcome is Ok ==> final(self)@ == old(self)@.insert(
                rank(old(self)@, change@.writer_guid, change@.sequence_number),
                change@,
            ),
            holds(final(self)@, change@.writer_guid, change@.sequence_number),
            forall|g: Guid, m: SeqNum|
                (g != change@.writer_guid || m != change@.sequence_number) ==> (holds(
                    final(self)@,
                    g,
                    m,
                ) <==> holds(old(self)@, g, m)),
    {
        let guid = change.writer_guid;
        let n = change.sequence_number;
        let i = self.position(guid, n);
        if i < self.changes.len() && self.changes[i].writer_guid == guid
            && self.changes[i].sequence_number == n {
            return Err(DuplicateChange);
        }
        let ghost before = self@;
        let ghost added = change@;
        self.changes.insert(i, change);
        proof {
            assert(self@ =~= before.insert(i as int, added));
            lemma_insert_into_ascending(before, added);
        }
        Ok(())
    }

    /// Removes the change with the identity `(guid, n)`; a cache without it
    /// is left as it was.
    pub fn remove_change(&mut self, guid: Guid, n: SeqNum)
        requires
            old(self).wf(),
        ensures
            final(self).wf(),
            holds(old(self)@, guid, n) ==> final(self)@ == old(self)@.remove(rank(old(self)@, guid, n)),
            !holds(old(self)@, guid, n) ==> final(self)@ == old(self)@,
            !holds(final(self)@, guid, n),
            forall|g: Guid, m: SeqNum|
                (g != guid || m != n) ==> (holds(final(self)@, g, m) <==> holds(old(self)@, g, m)),
    {
        let i = self.position(guid, n);
        let ghost before = self@;
        if i < self.changes.len() && self.changes[i].writer_guid == guid
            && self.changes[i].sequence_number == n {
            self.changes.remove(i);
            proof {
                assert(self@ =~= before.remove(i as int));
                lemma_remove_from_ascending(before, i as int);
            }
        }
    }

    /// Removes every change whose sequence number is at most `n`. Returns
    /// how many left.
    pub fn remove_through(&mut self, n: SeqNum) -> (removed: usize)
        requires
            old(self).wf(),
        ensures
            final(self).wf(),
            final(self)@ == old(self)@.filter(|c: CacheChangeView| c.sequence_number > n),
            final(self)@ == old(self)@.skip(removed as int),
            removed <= old(self)@.len(),
    {
        let ghost before = self@;
        let ghost later = |c: CacheChangeView| c.sequence_number > n;
        if n == u64::MAX {
            let removed = self.changes.len();
            self.changes.clear();
            proof {
                assert(self@ =~= Seq::<CacheChangeView>::empty());
                assert(before.skip(removed as int) =~= Seq::<CacheChangeView>::empty());
                lemma_filter_none(before, later);
            }
            return removed;
        }
        let i = self.position(Guid(0), n + 1);
        let kept = self.changes.split_off(i);
        self.changes = kept;
        proof {
            lemma_rank_finds(before, Guid(0), (n + 1) as SeqNum);
            assert(self@ =~= before.skip(i as int));
            assert forall|j: int| 0 <= j < i implies !later(#[trigger] before[j]) by {
                assert(sorts_before(before[j], Guid(0), (n + 1) as SeqNum));
            }
            assert forall|j: int| i <= j < before.len() implies later(#[trigger] before[j]) by {
                assert(!sorts_before(before[j], Guid(0), (n + 1) as SeqNum));
            }
            lemma_filter_keeps_tail(before, later, i as int);
            lemma_skip_keeps_order(before, i as int);
        }
        i
    }

    /// Smallest retained sequence number.
    pub fn get_seq_num_min(&self) -> (min: Option<SeqNum>)
        requires
            self.wf(),
        ensures
            min is None <==> self@.len() == 0,
            min matches Some(m) ==> m == self@[0].sequence_number && forall|i: int|
                0 <= i < self@.len() ==> m <= (#[trigger] self@[i]).sequence_number,
    {
        if self.changes.len() == 0 {
            None
        } else {
            let m = self.changes[0].sequence_number;
            assert(self@[0] == self.changes@[0]@);
            assert forall|i: int| 0 <= i < self@.len() implies m <= (
            #[trigger] self@[i]).sequence_number by {
                if i > 0 {
                    assert(sorts_before(self@[0], self@[i].writer_guid, self@[i].sequence_number));
                }
            }
            Some(m)
        }
    }

    /// Largest retained sequence number.
    pub fn get_seq_num_max(&self) -> (max: Option<SeqNum>)
        requires
            self.wf(),
        ensures
            max is None <==> self@.len() == 0,
            max matches Some(m) ==> m == self@.last().sequence_number && forall|i: int|
                0 <= i < self@.len() ==> (#[trigger] self@[i]).sequence_number <= m,
    {
        let len = self.changes.len();
        if len == 0 {
            None
        } else {
            let m = self.changes[len - 1].sequence_number;
            assert(self@[len - 1] == self.changes@[len - 1]@);
            assert forall|i: int| 0 <= i < self@.len() implies (
            #[trigger] self@[i]).sequence_number <= m by {
                if i < len - 1 {
                    assert(sorts_before(
                        self@[i],
                        self@[len - 1].writer_guid,
                        self@[len - 1].sequence_number,
                    ));
                }
            }
            Some(m)
        }
    }

    /// Copies of the retained changes whose sequence number lies in
    /// `lo..=hi`, in ascending order.
    pub fn changes_in_range(&self, lo: SeqNum, hi: SeqNum) -> (found: Vec<CacheChange>)
        requires
            self.wf(),
        ensures
            change_views(found@) == self@.filter(|c: CacheChangeView| in_range(c, lo, hi)),
    {
        let ghost wanted = |c: CacheChangeView| in_range(c, lo, hi);
        let mut found: Vec<CacheChange> = Vec::new();
        let mut i: usize = self.position(Guid(0), lo);
        proof {
            lemma_rank_finds(self@, Guid(0), lo);
            assert forall|j: int| 0 <= j < i implies !wanted(#[trigger] self@.take(i as int)[j]) by {
                assert(sorts_before(self@[j], Guid(0), lo));
            }
            lemma_filter_none(self@.take(i as int), wanted);
            assert(change_views(found@) =~= Seq::<CacheChangeView>::empty());
            assert forall|j: int| i <= j < self@.len() implies lo <= (
            #[trigger] self@[j]).sequence_number by {
                assert(!sorts_before(self@[j], Guid(0), lo));
            }
        }
        while i < self.changes.len() && self.changes[i].sequence_number <= hi
            invariant
                i <= self.changes.len(),
                self@.len() == self.changes.len(),
                ascending(self@),
                wanted == (|c: CacheChangeView| in_range(c, lo, hi)),
                change_views(found@) == self@.take(i as int).filter(wanted),
                forall|j: int| i <= j < self@.len() ==> lo <= (#[trigger] self@[j]).sequence_number,
            decreases self.changes.len() - i,
        {
            let c = &self.changes[i];
            assert(self@[i as int] == c@);
            let ghost so_far = change_views(found@);
            found.push(c.duplicate());
            proof {
                assert(change_views(found@) =~= so_far.push(c@));
                assert(self@.take(i as int + 1).drop_last() == self@.take(i as int));
                reveal(Seq::filter);
                assert(wanted(c@));
            }
            i += 1;
        }
        proof {
            let rest = self@.skip(i as int);
            assert forall|j: int| 0 <= j < rest.len() implies !wanted(#[trigger] rest[j]) by {
                assert(rest[j] == self@[i + j]);
                if j > 0 {
                    assert(sorts_before(
                        self@[i as int],
                        self@[i + j].writer_guid,
                        self@[i + j].sequence_number,
                    ));
                }
            }
            lemma_filter_none(rest, wanted);
            assert(self@ == self@.take(i as int) + rest);
            Seq::filter_distributes_over_add(self@.take(i as int), rest, wanted);
        }
        found
    }
}

} // verus!
