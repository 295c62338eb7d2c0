//! Immutable per-target snapshots for the display loop.
//!
//! A snapshot copies the counters and the cheap derived statistics out of
//! a target's state while its lock is held briefly; all expensive string
//! formatting happens outside, on the snapshot alone.

use crate::history::{rtt_count, PacketHistory};
use crate::rolling::Ratio;
use crate::target::{PingStatus, PingTarget};
use vstd::prelude::*;

verus! {

/// How many of the most recent records the sequence inspection covers.
pub const INSPECT_WINDOW: usize = 10;

/// Whether the last `n` records of `h` contain an adjacent pair whose
/// sequence numbers do not follow each other (mod 2^16), oldest to
/// newest.
pub open spec fn has_seq_gaps(h: Seq<crate::history::PacketRecord>, n: int) -> bool {
    let m = if n <= h.len() {
        n
    } else {
        h.len() as int
    };
    exists|i: int|
        h.len() - m <= i < h.len() - 1 && (#[trigger] h[i].seq + 1) % 0x10000 != h[i + 1].seq
}

/// Snapshot of the recent detailed packet history of one target.
#[derive(Debug, Clone)]
pub struct HistorySnapshot {
    /// Sequence number of the oldest record (0 when empty).
    pub start_seq: u16,
    /// Sequence number of the newest record (0 when empty).
    pub end_seq: u16,
    /// Whether the last few records show a gap in sequence numbers.
    pub gaps_in_seqs: bool,
    /// Whether the two newest records stand in reversed sequence order.
    pub last_out_of_order: bool,
    /// Losses among the last few records.
    pub recent_losses: usize,
    /// Loss fraction over the whole history.
    pub loss: Ratio,
    /// Smallest round-trip time seen, if any reply is recorded.
    pub min: Option<u32>,
    /// Largest round-trip time seen, if any reply is recorded.
    pub max: Option<u32>,
    /// Mean round-trip time over all replies, if any is recorded.
    pub mean: Option<Ratio>,
}

impl HistorySnapshot {
    /// Extract the recent-history statistics of `data`.
    pub fn new_from(data: &PacketHistory) -> (r: Self)
        requires
            data.wf(),
        ensures
            ({
                let h = data.recs();
                &&& r.start_seq == if h.len() == 0 {
                    0
                } else {
                    h[0].seq
                }
                &&& r.end_seq == if h.len() == 0 {
                    0
                } else {
                    h.last().seq
                }
                &&& r.gaps_in_seqs == has_seq_gaps(h, INSPECT_WINDOW as int)
                &&& r.last_out_of_order == (h.len() >= 2 && h.last().seq < h[h.len() - 2].seq)
                &&& ({
                    let m = if INSPECT_WINDOW <= h.len() {
                        INSPECT_WINDOW as int
                    } else {
                        h.len() as int
                    };
                    r.recent_losses == crate::history::count_lost(
                        h.subrange(h.len() - m, h.len() as int),
                    )
                })
                &&& r.loss.den > 0
                &&& r.loss.num <= r.loss.den
                &&& (h.len() > 0 ==> r.loss.num == crate::history::count_lost(h) && r.loss.den
                    == h.len())
                &&& (h.len() == 0 ==> r.loss.num == 0)
                &&& r.min == if rtt_count(h) > 0 {
                    Some(crate::history::rtt_min(h))
                } else {
                    Option::<u32>::None
                }
                &&& r.max == if rtt_count(h) > 0 {
                    Some(crate::history::rtt_max(h))
                } else {
                    Option::<u32>::None
                }
                &&& (rtt_count(h) > 0 ==> (r.mean matches Some(m2) && m2.num
                    == crate::history::rtt_sum(h) && m2.den == rtt_count(h)))
                &&& (rtt_count(h) == 0 ==> r.mean is None)
            }),
    {
        let ghost h = data.recs();
        let len: usize = data.len();
        let m: usize = if INSPECT_WINDOW <= len {
            INSPECT_WINDOW
        } else {
            len
        };
        let from: usize = len - m;
        let mut gaps: bool = false;
        if m >= 2 {
            let mut i: usize = from;
            while i < len - 1
                invariant
                    from <= i <= len - 1,
                    len == h.len(),
                    1 <= m <= len,
                    from == len - m,
                    h == data.recs(),
                    gaps == exists|j: int|
                        from <= j < i && (#[trigger] h[j].seq + 1) % 0x10000 != h[j + 1].seq,
                decreases len - i,
            {
                let expected: u16 = if data.get(i).seq == 0xffff {
                    0
                } else {
                    data.get(i).seq + 1
                };
                if expected != data.get(i + 1).seq {
                    gaps = true;
                }
                i = i + 1;
            }
        }
        let last_out_of_order: bool = if len >= 2 {
            data.get(len - 1).seq < data.get(len - 2).seq
        } else {
            false
        };
        let start_seq: u16 = match data.first() {
            Some(p) => p.seq,
            None => 0,
        };
        let end_seq: u16 = match data.last() {
            Some(p) => p.seq,
            None => 0,
        };
        let min: Option<u32> = match data.min() {
            Ok(v) => Some(v),
            Err(_) => None,
        };
        let max: Option<u32> = match data.max() {
            Ok(v) => Some(v),
            Err(_) => None,
        };
        let mean: Option<Ratio> = match data.mean(None) {
            Ok(v) => Some(v),
            Err(_) => None,
        };
        proof {
            if h.len() > 0 {
                assert(h.subrange(h.len() - h.len(), h.len() as int) =~= h);
            }
        }
        Self {
            start_seq,
            end_seq,
            gaps_in_seqs: gaps,
            last_out_of_order,
            recent_losses: data.recent_losses(INSPECT_WINDOW),
            loss: data.loss(),
            min,
            max,
            mean,
        }
    }
}

/// Snapshot of one target's counters and rolling statistics. Round-trip
/// quantities are microseconds; means and variances are exact ratios.
#[derive(Debug, Clone)]
pub struct StatsSnapshot {
    /// Echo requests dispatched so far.
    pub sent: u64,
    /// Echo replies received so far.
    pub recv: u64,
    /// Smallest sample of the rolling window, if any.
    pub min: Option<u32>,
    /// Largest sample of the rolling window, if any.
    pub max: Option<u32>,
    /// Mean of the rolling window, if any.
    pub mean: Option<Ratio>,
    /// Most recent sample of the rolling window, if any.
    pub last: Option<u32>,
    /// Population variance of the rolling window, if any.
    pub variance: Option<Ratio>,
    /// The transport's message, when the status is an error.
    pub error: Option<String>,
    /// Sequence number of the most recent dispatch.
    pub latest_seq: u16,
    /// Snapshot of the recent per-packet history.
    pub hist: HistorySnapshot,
}

impl StatsSnapshot {
    /// Extract a snapshot from a target's state.
    pub fn new_from(data: &PingTarget) -> (r: Self)
        requires
            data.wf(),
        ensures
            r.sent == data.sent,
            r.recv == data.recv,
            r.latest_seq == data.last_seq,
            ({
                let w = data.rtts.win();
                &&& (w.len() > 0 ==> {
                    &&& r.min == Some(crate::rolling::seq_min(w))
                    &&& r.max == Some(crate::rolling::seq_max(w))
                    &&& r.last == Some(w.last())
                    &&& (r.mean matches Some(m2) && m2.num == crate::rolling::seq_sum(w) && (m2.den
                        == w.len()))
                    &&& (r.variance matches Some(v2) && v2.num == crate::rolling::variance_num(w)
                        && (v2.den == w.len() * w.len()))
                })
                &&& (w.len() == 0 ==> r.min is None && r.max is None && r.last is None
                    && r.mean is None && r.variance is None)
            }),
            (data.status matches PingStatus::Error(m) ==> (r.error matches Some(e) && e@ == m@)),
            !(data.status matches PingStatus::Error(_)) ==> r.error is None,
    {
        let (mean, min, max) = match data.rtts.mean_min_max() {
            Ok((m2, mi, ma)) => (Some(m2), Some(mi), Some(ma)),
            Err(_) => (None, None, None),
        };
        let last: Option<u32> = match data.rtts.last() {
            Ok(v) => Some(v),
            Err(_) => None,
        };
        let variance: Option<Ratio> = match data.rtts.variance() {
            Ok(v) => Some(v),
            Err(_) => None,
        };
        let error: Option<String> = match &data.status {
            PingStatus::Error(e) => Some(e.clone()),
            _ => None,
        };
        Self {
            sent: data.sent,
            recv: data.recv,
            min,
            max,
            mean,
            last,
            variance,
            error,
            latest_seq: data.last_seq,
            hist: HistorySnapshot::new_from(&data.recent),
        }
    }

    /// Packet loss as the exact fraction (sent - recv) / sent, and zero
    /// when nothing was sent yet.
    pub fn loss(&self) -> (r: Ratio)
        requires
            self.recv <= self.sent,
        ensures
            r.den > 0,
            r.num <= r.den,
            self.sent == 0 ==> r.num == 0 && r.den == 1,
            self.sent > 0 ==> r.num == self.sent - self.recv && r.den == self.sent,
    {
        if self.sent == 0 {
            Ratio { num: 0, den: 1 }
        } else {
            Ratio { num: (self.sent - self.recv) as u128, den: self.sent }
        }
    }
}

} // verus!
