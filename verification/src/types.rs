//! Value types shared by every component.

use vstd::prelude::*;

verus! {

/// The name under which this implementation makes itself known, as a
/// NUL-terminated string.
pub fn implementation_identifier() -> (id: &'static str)
    ensures
        id@ == "libdds\0"@,
{
    "libdds\0"
}

/// Sequence number of a cache change. Numbers issued by a writer start at 1;
/// 0 stands for "none".
pub type SeqNum = u64;

/// Globally unique identifier of a participant or endpoint.
#[derive(Clone, Copy, Debug, PartialEq, Eq, Structural, Hash)]
pub struct Guid(pub u64);

/// Transport address of an endpoint: address family, address and port.
#[derive(Clone, Copy, Debug, PartialEq, Eq, Structural, Hash)]
pub struct Locator {
    pub kind: u32,
    pub address: u128,
    pub port: u32,
}

/// Delivery guarantee an endpoint was configured with.
#[derive(Clone, Copy, Debug, PartialEq, Eq, Structural)]
pub enum Reliability {
    BestEffort,
    Reliable,
}

/// What a cache change says about its instance.
#[derive(Clone, Copy, Debug, PartialEq, Eq, Structural)]
pub enum ChangeKind {
    Alive,
    NotAliveDisposed,
    NotAliveUnregistered,
}

/// One retained sample.
#[derive(Clone, Debug, PartialEq, Eq)]
pub struct CacheChange {
    pub kind: ChangeKind,
    pub writer_guid: Guid,
    pub sequence_number: SeqNum,
    pub instance_handle: u64,
    pub data: Vec<u8>,
}

/// Mathematical value of a [`CacheChange`].
pub struct CacheChangeView {
    pub kind: ChangeKind,
    pub writer_guid: Guid,
    pub sequence_number: SeqNum,
    pub instance_handle: u64,
    pub data: Seq<u8>,
}

impl View for CacheChange {
    type V = CacheChangeView;

    open spec fn view(&self) -> CacheChangeView {
        CacheChangeView {
            kind: self.kind,
            writer_guid: self.writer_guid,
            sequence_number: self.sequence_number,
            instance_handle: self.instance_handle,
            data: self.data@,
        }
    }
}

/// Views of a sequence of changes, element by element.
pub open spec fn change_views(s: Seq<CacheChange>) -> Seq<CacheChangeView> {
    s.map_values(|c: CacheChange| c@)
}

/// A fresh vector holding the bytes of `bytes`.
pub fn copy_bytes(bytes: &Vec<u8>) -> (out: Vec<u8>)
    ensures
        out@ == bytes@,
{
    let mut out: Vec<u8> = Vec::with_capacity(bytes.len());
    let mut i: usize = 0;
    while i < bytes.len()
        invariant
            i <= bytes.len(),
            out@ == bytes@.take(i as int),
        decreases bytes.len() - i,
    {
        out.push(bytes[i]);
        i += 1;
        assert(bytes@.take(i as int) == bytes@.take(i as int - 1).push(bytes@[i as int - 1]));
    }
    assert(bytes@.take(i as int) == bytes@);
    out
}

impl CacheChange {
    /// An independent copy with the same value.
    pub fn duplicate(&self) -> (copy: CacheChange)
        ensures
            copy@ == self@,
    {
        CacheChange {
            kind: self.kind,
            writer_guid: self.writer_guid,
            sequence_number: self.sequence_number,
            instance_handle: self.instance_handle,
            data: copy_bytes(&self.data),
        }
    }

    /// Whether two changes have the same value, payload included.
    pub fn same_as(&self, other: &CacheChange) -> (same: bool)
        ensures
            same == (self@ == other@),
    {
        if !(self.kind == other.kind && self.writer_guid == other.writer_guid
            && self.sequence_number == other.sequence_number
            && self.instance_handle == other.instance_handle
            && self.data.len() == other.data.len()) {
            return false;
        }
        let mut i: usize = 0;
        while i < self.data.len()
            invariant
                i <= self.data.len(),
                self.data.len() == other.data.len(),
                self.data@.take(i as int) == other.data@.take(i as int),
            decreases self.data.len() - i,
        {
            if self.data[i] != other.data[i] {
                return false;
            }
            i += 1;
            assert(self.data@.take(i as int) == self.data@.take(i as int - 1).push(
                self.data@[i as int - 1],
            ));
            assert(other.data@.take(i as int) == other.data@.take(i as int - 1).push(
                other.data@[i as int - 1],
            ));
        }
        assert(self.data@.take(i as int) == self.data@);
        assert(other.data@.take(i as int) == other.data@);
        true
    }
}

/// The sequence numbers `first..=last` of one writer.
#[derive(Clone, Copy, Debug, PartialEq, Eq, Structural)]
pub struct SeqSpan {
    pub writer_guid: Guid,
    pub first: SeqNum,
    pub last: SeqNum,
}

impl SeqSpan {
    /// Whether the span names sequence number `n` of writer `guid`.
    pub open spec fn spec_covers(self, guid: Guid, n: SeqNum) -> bool {
        self.writer_guid == guid && self.first <= n <= self.last
    }

    /// Whether the span names sequence number `n` of writer `guid`.
    pub fn covers(&self, guid: Guid, n: SeqNum) -> (covered: bool)
        ensures
            covered == self.spec_covers(guid, n),
    {
        self.writer_guid == guid && self.first <= n && n <= self.last
    }
}

/// The counter value after `count`; it starts over after the largest.
pub open spec fn spec_next_count(count: u32) -> u32 {
    if count == u32::MAX {
        0
    } else {
        (count + 1) as u32
    }
}

/// The counter value after `count`; it starts over after the largest.
pub fn next_count(count: u32) -> (next: u32)
    ensures
        next == spec_next_count(count),
{
    if count == u32::MAX {
        0
    } else {
        count + 1
    }
}

/// A change with the same writer and sequence number is already cached.
#[derive(Clone, Copy, Debug, PartialEq, Eq, Structural)]
pub struct DuplicateChange;

} // verus!
