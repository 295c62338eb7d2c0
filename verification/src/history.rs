//! Short bounded history of per-packet records for one ping target.
//!
//! [`PacketHistory`] is a FIFO of [`PacketRecord`]s with evict-oldest on
//! full push, together with the loss, lag and flap queries that the status
//! classifiers read: loss fraction, losses and responding/non-responding
//! transitions over the most recent records, and min/max/mean round-trip
//! times over the records that got a reply.

use crate::rolling::Ratio;
use std::collections::VecDeque;
use vstd::prelude::*;

verus! {

broadcast use vstd::std_specs::vecdeque::group_vec_dequeue_axioms;

/// The largest capacity a history may have. The bound keeps the sums of
/// round-trip times comfortably inside the accumulators.
pub const MAX_HISTORY_SIZE: usize = 0x0100_0000;

/// Record for a single sent (and possibly answered) packet. Times are
/// microseconds on the engine's clock; the round-trip time is set at most
/// once, when the reply arrives, and never cleared.
#[derive(Clone, Copy, Debug)]
pub struct PacketRecord {
    /// ICMP echo sequence number this packet was sent with.
    pub seq: u16,
    /// Send time, microseconds on the engine's clock.
    pub sent_at: u64,
    /// Round-trip time in microseconds, once a reply arrived. Set at
    /// most once, on the reply, and never cleared.
    pub rtt: Option<u32>,
}

/// Whether a record has received its reply.
pub open spec fn responded(r: PacketRecord) -> bool {
    r.rtt is Some
}

/// Number of records in `s` without a reply.
pub open spec fn count_lost(s: Seq<PacketRecord>) -> int
    decreases s.len(),
{
    if s.len() == 0 {
        0
    } else {
        count_lost(s.drop_last()) + if responded(s.last()) {
            0int
        } else {
            1int
        }
    }
}

/// Number of adjacent pairs in `s` where exactly one of the two records
/// has a reply.
pub open spec fn transitions(s: Seq<PacketRecord>) -> int
    decreases s.len(),
{
    if s.len() < 2 {
        0
    } else {
        transitions(s.drop_last()) + if responded(s[s.len() - 2]) != responded(s.last()) {
            1int
        } else {
            0int
        }
    }
}

/// Number of records in `s` with a reply.
pub open spec fn rtt_count(s: Seq<PacketRecord>) -> int
    decreases s.len(),
{
    if s.len() == 0 {
        0
    } else {
        rtt_count(s.drop_last()) + if responded(s.last()) {
            1int
        } else {
            0int
        }
    }
}

/// Sum of the round-trip times of the records in `s` that have one.
pub open spec fn rtt_sum(s: Seq<PacketRecord>) -> int
    decreases s.len(),
{
    if s.len() == 0 {
        0
    } else {
        rtt_sum(s.drop_last()) + if responded(s.last()) {
            s.last().rtt->0 as int
        } else {
            0int
        }
    }
}

/// Smallest round-trip time among the records of `s` with one.
pub open spec fn rtt_min(s: Seq<PacketRecord>) -> u32
    recommends
        rtt_count(s) > 0,
    decreases s.len(),
{
    if s.len() == 0 {
        0
    } else if !responded(s.last()) {
        rtt_min(s.drop_last())
    } else if rtt_count(s.drop_last()) == 0 {
        s.last().rtt->0
    } else if s.last().rtt->0 < rtt_min(s.drop_last()) {
        s.last().rtt->0
    } else {
        rtt_min(s.drop_last())
    }
}

/// Largest round-trip time among the records of `s` with one.
pub open spec fn rtt_max(s: Seq<PacketRecord>) -> u32
    recommends
        rtt_count(s) > 0,
    decreases s.len(),
{
    if s.len() == 0 {
        0
    } else if !responded(s.last()) {
        rtt_max(s.drop_last())
    } else if rtt_count(s.drop_last()) == 0 {
        s.last().rtt->0
    } else if s.last().rtt->0 > rtt_max(s.drop_last()) {
        s.last().rtt->0
    } else {
        rtt_max(s.drop_last())
    }
}

/// Counts over a history never exceed its length, and sums stay small.
pub proof fn lemma_history_counts(s: Seq<PacketRecord>)
    ensures
        0 <= count_lost(s) <= s.len(),
        0 <= rtt_count(s) <= s.len(),
        count_lost(s) + rtt_count(s) == s.len(),
        0 <= transitions(s) <= if s.len() == 0 {
            0int
        } else {
            s.len() - 1
        },
        0 <= rtt_sum(s) <= s.len() * 0xffff_ffff,
    decreases s.len(),
{
    if s.len() > 0 {
        lemma_history_counts(s.drop_last());
    }
}

impl PacketRecord {
    /// Create a record for a packet sent now with sequence number `seq`;
    /// no reply is recorded yet.
    pub fn new(seq: u16, sent_at: u64) -> (r: Self)
        ensures
            r.seq == seq,
            r.sent_at == sent_at,
            r.rtt is None,
    {
        Self { seq, sent_at, rtt: None }
    }

    /// The same record with the round-trip time set; for chaining after
    /// `new` when the reply is already known.
    pub fn with_rtt(self, rtt: u32) -> (r: Self)
        ensures
            r.seq == self.seq,
            r.sent_at == self.sent_at,
            r.rtt == Some(rtt),
    {
        Self { rtt: Some(rtt), ..self }
    }

    /// Record the reply as arriving at `now`: the round-trip time becomes
    /// the time since the send, clamped into `u32` microseconds (and to
    /// zero if the clock read stands before the send).
    pub fn mark_received(&mut self, now: u64)
        ensures
            final(self).seq == old(self).seq,
            final(self).sent_at == old(self).sent_at,
            final(self).rtt == Some(
                if now < old(self).sent_at {
                    0u32
                } else if now - old(self).sent_at > u32::MAX {
                    u32::MAX
                } else {
                    (now - old(self).sent_at) as u32
                },
            ),
    {
        let elapsed: u64 = if now < self.sent_at {
            0
        } else {
            now - self.sent_at
        };
        let rtt: u32 = if elapsed > u32::MAX as u64 {
            u32::MAX
        } else {
            elapsed as u32
        };
        self.rtt = Some(rtt);
    }

    /// Whether a reply has been recorded for this packet.
    pub fn has_response(&self) -> (r: bool)
        ensures
            r == responded(*self),
    {
        self.rtt.is_some()
    }

    /// The round-trip time; an error if no reply has been recorded.
    pub fn rtt(&self) -> (r: Result<u32, String>)
        ensures
            match r {
                Ok(v) => self.rtt == Some(v),
                Err(_) => self.rtt is None,
            },
    {
        match self.rtt {
            Some(rtt) => Ok(rtt),
            None => Err(no_response_message()),
        }
    }

    /// Overwrite the round-trip time with a known value.
    pub fn set_rtt(&mut self, rtt: u32)
        ensures
            final(self).seq == old(self).seq,
            final(self).sent_at == old(self).sent_at,
            final(self).rtt == Some(rtt),
    {
        self.rtt = Some(rtt);
    }
}

/// The error value returned when a record has no reply.
fn no_response_message() -> (r: String)
    ensures
        r@ == "No response"@,
{
    let s: String = String::from_str("No response");
    s
}

/// Bounded FIFO of recent [`PacketRecord`]s; a push beyond the capacity
/// evicts the oldest record.
#[derive(Clone, Debug)]
pub struct PacketHistory {
    capacity: usize,
    records: VecDeque<PacketRecord>,
}

impl PacketHistory {
    /// The records, oldest first.
    pub closed spec fn recs(&self) -> Seq<PacketRecord> {
        self.records@
    }

    /// The bound on the number of records kept.
    pub closed spec fn spec_cap(&self) -> int {
        self.capacity as int
    }

    /// Structural well-formedness: a positive, bounded capacity that the
    /// record count never exceeds.
    pub closed spec fn wf(&self) -> bool {
        &&& 1 <= self.capacity <= MAX_HISTORY_SIZE
        &&& self.records@.len() <= self.capacity
    }

    /// A well-formed history never outgrows `MAX_HISTORY_SIZE`.
    pub proof fn lemma_wf_bounds(&self)
        requires
            self.wf(),
        ensures
            self.recs().len() <= self.spec_cap() <= MAX_HISTORY_SIZE,
    {
    }

    /// Create an empty history that keeps at most `capacity` records.
    pub fn new(capacity: usize) -> (r: Self)
        requires
            1 <= capacity <= MAX_HISTORY_SIZE,
        ensures
            r.wf(),
            r.recs() == Seq::<PacketRecord>::empty(),
            r.spec_cap() == capacity,
    {
        let r = Self { capacity, records: VecDeque::new() };
        proof {
            assert(r.recs() =~= Seq::<PacketRecord>::empty());
        }
        r
    }

    /// Append a record, evicting the oldest if the history is full.
    pub fn push(&mut self, record: PacketRecord)
        requires
            old(self).wf(),
        ensures
            final(self).wf(),
            final(self).spec_cap() == old(self).spec_cap(),
            final(self).recs() == if old(self).recs().len() < old(self).spec_cap() {
                old(self).recs().push(record)
            } else {
                old(self).recs().drop_first().push(record)
            },
    {
        if self.records.len() == self.capacity {
            self.records.pop_front();
        }
        self.records.push_back(record);
    }

    /// Number of records held.
    pub fn len(&self) -> (r: usize)
        ensures
            r == self.recs().len(),
    {
        self.records.len()
    }

    /// Whether the history holds no records.
    pub fn is_empty(&self) -> (r: bool)
        ensures
            r == (self.recs().len() == 0),
    {
        self.records.len() == 0
    }

    /// Drop all records; the capacity is kept.
    pub fn clear(&mut self)
        requires
            old(self).wf(),
        ensures
            final(self).wf(),
            final(self).spec_cap() == old(self).spec_cap(),
            final(self).recs() == Seq::<PacketRecord>::empty(),
    {
        self.records.clear();
        proof {
            assert(self.recs() =~= Seq::<PacketRecord>::empty());
        }
    }

    /// The oldest record, if any.
    pub fn first(&self) -> (r: Option<&PacketRecord>)
        ensures
            match r {
                Some(p) => self.recs().len() > 0 && *p == self.recs()[0],
                None => self.recs().len() == 0,
            },
    {
        if self.records.len() == 0 {
            None
        } else {
            Some(&self.records[0])
        }
    }

    /// The most recent record, if any.
    pub fn last(&self) -> (r: Option<&PacketRecord>)
        ensures
            match r {
                Some(p) => self.recs().len() > 0 && *p == self.recs().last(),
                None => self.recs().len() == 0,
            },
    {
        if self.records.len() == 0 {
            None
        } else {
            Some(&self.records[self.records.len() - 1])
        }
    }

    /// The record at position `i`, oldest first.
    pub fn get(&self, i: usize) -> (r: &PacketRecord)
        requires
            i < self.recs().len(),
        ensures
            *r == self.recs()[i as int],
    {
        &self.records[i]
    }

    /// The send-time span covered, in microseconds: last send minus first
    /// send (zero if the clock reads stand reversed). An error with fewer
    /// than two records.
    pub fn timespan(&self) -> (r: Result<u64, String>)
        ensures
            match r {
                Ok(v) => {
                    &&& self.recs().len() >= 2
                    &&& v == if self.recs().last().sent_at >= self.recs()[0].sent_at {
                        self.recs().last().sent_at - self.recs()[0].sent_at
                    } else {
                        0
                    }
                },
                Err(_) => self.recs().len() < 2,
            },
    {
        if self.records.len() < 2 {
            return Err(not_enough_records_message());
        }
        let first: u64 = self.records[0].sent_at;
        let last: u64 = self.records[self.records.len() - 1].sent_at;
        if last >= first {
            Ok(last - first)
        } else {
            Ok(0)
        }
    }

    /// Packet loss as an exact fraction in [0, 1]: records without a reply
    /// over all records, and zero when the history is empty.
    pub fn loss(&self) -> (r: Ratio)
        requires
            self.wf(),
        ensures
            r.den > 0,
            r.num <= r.den,
            self.recs().len() == 0 ==> r.num == 0 && r.den == 1,
            self.recs().len() > 0 ==> r.num == count_lost(self.recs()) && r.den == self.recs().len(),
    {
        let n: usize = self.records.len();
        if n == 0 {
            return Ratio { num: 0, den: 1 };
        }
        let lost: usize = self.count_lost_range(0, n);
        proof {
            lemma_history_counts(self.recs());
            assert(self.recs().subrange(0, n as int) =~= self.recs());
        }
        Ratio { num: lost as u128, den: n as u64 }
    }

    /// Number of records without a reply among positions `from ..= to - 1`.
    fn count_lost_range(&self, from: usize, to: usize) -> (r: usize)
        requires
            from <= to <= self.recs().len(),
        ensures
            r == count_lost(self.recs().subrange(from as int, to as int)),
            r <= to - from,
    {
        let mut count: usize = 0;
        let mut i: usize = from;
        while i < to
            invariant
                from <= i <= to <= self.recs().len(),
                count == count_lost(self.recs().subrange(from as int, i as int)),
                count <= i - from,
            decreases to - i,
        {
            proof {
                let cur = self.recs().subrange(from as int, i + 1);
                assert(cur.drop_last() =~= self.recs().subrange(from as int, i as int));
                assert(cur.last() == self.recs()[i as int]);
            }
            if !self.records[i].has_response() {
                count = count + 1;
            }
            i = i + 1;
        }
        count
    }

    /// Number of records without a reply among the most recent `n`
    /// records (all of them, if fewer than `n` are held).
    pub fn recent_losses(&self, n: usize) -> (r: usize)
        requires
            self.wf(),
        ensures
            ({
                let m = if n <= self.recs().len() {
                    n as int
                } else {
                    self.recs().len() as int
                };
                r == count_lost(self.recs().subrange(self.recs().len() - m, self.recs().len() as int))
                    && r <= m
            }),
    {
        let len: usize = self.records.len();
        let m: usize = if n <= len {
            n
        } else {
            len
        };
        self.count_lost_range(len - m, len)
    }

    /// Number of transitions between "responding" and "not responding"
    /// among the most recent `n` records (all of them, if fewer are held).
    pub fn recent_transitions(&self, n: usize) -> (r: usize)
        requires
            self.wf(),
        ensures
            ({
                let m = if n <= self.recs().len() {
                    n as int
                } else {
                    self.recs().len() as int
                };
                r == transitions(
                    self.recs().subrange(self.recs().len() - m, self.recs().len() as int),
                )
            }),
    {
        let len: usize = self.records.len();
        let m: usize = if n <= len {
            n
        } else {
            len
        };
        let from: usize = len - m;
        let ghost tail = self.recs().subrange(from as int, len as int);
        let mut count: usize = 0;
        let mut i: usize = from;
        if m < 2 {
            proof {
                assert(transitions(tail) == 0);
            }
            return 0;
        }
        i = from + 1;
        while i < len
            invariant
                from + 1 <= i <= len <= self.recs().len(),
                len <= MAX_HISTORY_SIZE,
                tail == self.recs().subrange(from as int, len as int),
                count == transitions(self.recs().subrange(from as int, i as int)),
                count <= i - from,
            decreases len - i,
        {
            proof {
                let cur = self.recs().subrange(from as int, i + 1);
                assert(cur.drop_last() =~= self.recs().subrange(from as int, i as int));
                assert(cur.last() == self.recs()[i as int]);
                assert(cur[cur.len() - 2] == self.recs()[i - 1]);
            }
            if self.records[i - 1].has_response() != self.records[i].has_response() {
                count = count + 1;
            }
            i = i + 1;
        }
        count
    }

    /// The smallest round-trip time among records with a reply; an error
    /// if the history is empty or no record has one.
    pub fn min(&self) -> (r: Result<u32, String>)
        requires
            self.wf(),
        ensures
            match r {
                Ok(v) => rtt_count(self.recs()) > 0 && v == rtt_min(self.recs()),
                Err(_) => self.recs().len() == 0 || rtt_count(self.recs()) == 0,
            },
    {
        if self.records.len() == 0 {
            return Err(no_records_message());
        }
        let mut best: Option<u32> = None;
        let mut i: usize = 0;
        let len: usize = self.records.len();
        while i < len
            invariant
                i <= len == self.recs().len(),
                match best {
                    Some(v) => rtt_count(self.recs().subrange(0, i as int)) > 0 && v == rtt_min(
                        self.recs().subrange(0, i as int),
                    ),
                    None => rtt_count(self.recs().subrange(0, i as int)) == 0,
                },
            decreases len - i,
        {
            proof {
                let cur = self.recs().subrange(0, i + 1);
                assert(cur.drop_last() =~= self.recs().subrange(0, i as int));
                assert(cur.last() == self.recs()[i as int]);
            }
            match self.records[i].rtt() {
                Ok(v) => {
                    best = match best {
                        Some(b) => if v < b {
                            Some(v)
                        } else {
                            Some(b)
                        },
                        None => Some(v),
                    };
                },
                Err(_) => {},
            }
            i = i + 1;
        }
        proof {
            assert(self.recs().subrange(0, len as int) =~= self.recs());
        }
        match best {
            Some(v) => Ok(v),
            None => Err(no_min_rtt_message()),
        }
    }

    /// The largest round-trip time among records with a reply; an error
    /// if the history is empty or no record has one.
    pub fn max(&self) -> (r: Result<u32, String>)
        requires
            self.wf(),
        ensures
            match r {
                Ok(v) => rtt_count(self.recs()) > 0 && v == rtt_max(self.recs()),
                Err(_) => self.recs().len() == 0 || rtt_count(self.recs()) == 0,
            },
    {
        if self.records.len() == 0 {
            return Err(no_records_message());
        }
        let mut best: Option<u32> = None;
        let mut i: usize = 0;
        let len: usize = self.records.len();
        while i < len
            invariant
                i <= len == self.recs().len(),
                match best {
                    Some(v) => rtt_count(self.recs().subrange(0, i as int)) > 0 && v == rtt_max(
                        self.recs().subrange(0, i as int),
                    ),
                    None => rtt_count(self.recs().subrange(0, i as int)) == 0,
                },
            decreases len - i,
        {
            proof {
                let cur = self.recs().subrange(0, i + 1);
                assert(cur.drop_last() =~= self.recs().subrange(0, i as int));
                assert(cur.last() == self.recs()[i as int]);
            }
            match self.records[i].rtt() {
                Ok(v) => {
                    best = match best {
                        Some(b) => if v > b {
                            Some(v)
                        } else {
                            Some(b)
                        },
                        None => Some(v),
                    };
                },
                Err(_) => {},
            }
            i = i + 1;
        }
        proof {
            assert(self.recs().subrange(0, len as int) =~= self.recs());
        }
        match best {
            Some(v) => Ok(v),
            None => Err(no_max_rtt_message()),
        }
    }

    /// The mean round-trip time over records with a reply, as the exact
    /// ratio (sum of round-trip times) / (number of replies); restricted
    /// to the most recent `n` records when `n` is given. Errors: an empty
    /// history, `n` larger than the record count, or no reply in scope.
    pub fn mean(&self, n: Option<usize>) -> (r: Result<Ratio, String>)
        requires
            self.wf(),
        ensures
            ({
                let m = match n {
                    Some(k) => k as int,
                    None => self.recs().len() as int,
                };
                let scope = self.recs().subrange(self.recs().len() - m, self.recs().len() as int);
                match r {
                    Ok(v) => {
                        &&& self.recs().len() > 0
                        &&& m <= self.recs().len()
                        &&& rtt_count(scope) > 0
                        &&& v.num == rtt_sum(scope)
                        &&& v.den == rtt_count(scope)
                    },
                    Err(_) => self.recs().len() == 0 || m > self.recs().len() || rtt_count(scope)
                        == 0,
                }
            }),
    {
        let len: usize = self.records.len();
        if len == 0 {
            return Err(no_records_for_mean_message());
        }
        let m: usize = match n {
            Some(k) => {
                if k > len {
                    return Err(window_exceeds_history_message());
                }
                k
            },
            None => len,
        };
        let from: usize = len - m;
        let mut sum: u64 = 0;
        let mut count: usize = 0;
        let mut i: usize = from;
        while i < len
            invariant
                from <= i <= len == self.recs().len(),
                len <= MAX_HISTORY_SIZE,
                count == rtt_count(self.recs().subrange(from as int, i as int)),
                sum == rtt_sum(self.recs().subrange(from as int, i as int)),
                count <= i - from,
            decreases len - i,
        {
            proof {
                let cur = self.recs().subrange(from as int, i + 1);
                assert(cur.drop_last() =~= self.recs().subrange(from as int, i as int));
                assert(cur.last() == self.recs()[i as int]);
                lemma_history_counts(self.recs().subrange(from as int, i as int));
            }
            match self.records[i].rtt() {
                Ok(v) => {
                    sum = sum + v as u64;
                    count = count + 1;
                },
                Err(_) => {},
            }
            i = i + 1;
        }
        if count == 0 {
            return Err(no_valid_rtts_message());
        }
        Ok(Ratio { num: sum as u128, den: count as u64 })
    }
}

/// The error value returned when a timespan needs at least two records.
fn not_enough_records_message() -> (r: String)
    ensures
        r@ == "Not enough records to calculate timespan"@,
{
    let s: String = String::from_str("Not enough records to calculate timespan");
    s
}

/// The error value returned by queries on an empty history.
fn no_records_message() -> (r: String)
    ensures
        r@ == "No records"@,
{
    let s: String = String::from_str("No records");
    s
}

/// The error value returned when no record carries a round-trip time.
fn no_min_rtt_message() -> (r: String)
    ensures
        r@ == "Could not find min RTT"@,
{
    let s: String = String::from_str("Could not find min RTT");
    s
}

/// The error value returned when no record carries a round-trip time.
fn no_max_rtt_message() -> (r: String)
    ensures
        r@ == "Could not find max RTT"@,
{
    let s: String = String::from_str("Could not find max RTT");
    s
}

/// The error value returned by `mean` on an empty history.
fn no_records_for_mean_message() -> (r: String)
    ensures
        r@ == "No records to calculate mean RTT"@,
{
    let s: String = String::from_str("No records to calculate mean RTT");
    s
}

/// The error value returned by `mean` when the window exceeds the history.
fn window_exceeds_history_message() -> (r: String)
    ensures
        r@ == "Window size exceeds history length"@,
{
    let s: String = String::from_str("Window size exceeds history length");
    s
}

/// The error value returned by `mean` when no reply is in scope.
fn no_valid_rtts_message() -> (r: String)
    ensures
        r@ == "No valid RTTs to calculate mean"@,
{
    let s: String = String::from_str("No valid RTTs to calculate mean");
    s
}

} // verus!
