//! Per-target state: counters, rolling window, recent history and the
//! qualitative status, together with the state machine that a ping
//! outcome drives.
//!
//! The classifier thresholds are those of the monitor: flappy when the
//! last 10 records show at least 5 responding/non-responding transitions,
//! lossy when at least half of the last 5 records lost their reply, and
//! laggy when the mean round-trip time of the last 10 records exceeds
//! twice the long-term mean. Flappy wins over lossy over laggy, and a
//! paused target shows `Paused` whatever else holds.

use crate::history::{
    count_lost, lemma_history_counts, rtt_count, rtt_sum, transitions, PacketHistory, PacketRecord,
};
use crate::ipspec::IpAddress;
use crate::rolling::{seq_sum, LatencyWindow, MAX_WINDOW_SIZE};
use vstd::prelude::*;

verus! {

/// Qualitative health of a target, as shown in the table.
#[derive(Debug, Clone)]
pub enum PingStatus {
    Up,
    Timeout,
    NotReachable,
    Error(String),
    Laggy,
    Lossy,
    Flappy,
    Idle,
    Paused,
}

/// The outcome of one echo request, as handed back by the transport.
#[derive(Debug, Clone)]
pub enum PingOutcome {
    /// A reply arrived after this many microseconds.
    Reply(u32),
    /// No reply arrived within the timeout.
    TimedOut,
    /// The transport failed with this message.
    Failed(String),
}

/// The last `n` (or all, if fewer) records of `recs`.
pub open spec fn recent_slice(recs: Seq<PacketRecord>, n: int) -> Seq<PacketRecord> {
    if n <= recs.len() {
        recs.subrange(recs.len() - n, recs.len() as int)
    } else {
        recs
    }
}

/// Loss over the last `n` records reaches `t_num / t_den`:
/// `losses / n >= t_num / t_den`, compared exactly.
pub open spec fn lossy_spec(recs: Seq<PacketRecord>, n: int, t_num: int, t_den: int) -> bool {
    count_lost(recent_slice(recs, n)) * t_den >= n * t_num
}

/// The last `n` records show at least `k` responding/non-responding
/// transitions.
pub open spec fn flappy_spec(recs: Seq<PacketRecord>, n: int, k: int) -> bool {
    transitions(recent_slice(recs, n)) >= k
}

/// The mean round-trip time of the replies among the last `n` records
/// exceeds `f_num / f_den` times the mean of the rolling window,
/// compared exactly as rationals (an empty window counts as mean zero).
pub open spec fn laggy_spec(
    recs: Seq<PacketRecord>,
    n: int,
    win: Seq<u32>,
    f_num: int,
    f_den: int,
) -> bool {
    let scope = recent_slice(recs, n);
    let l_num = if win.len() == 0 {
        0int
    } else {
        seq_sum(win)
    };
    let l_den = if win.len() == 0 {
        1int
    } else {
        win.len() as int
    };
    rtt_sum(scope) * l_den * f_den > l_num * rtt_count(scope) * f_num
}

/// Whether the laggy comparison is defined at all: the scope must exist
/// (`n` within the history) and hold at least one reply.
pub open spec fn laggy_defined(recs: Seq<PacketRecord>, n: int, win: Seq<u32>) -> bool {
    &&& recs.len() > 0
    &&& n <= recs.len()
    &&& rtt_count(recent_slice(recs, n)) > 0
}

/// The classifier cascade over a base status: flappy, then lossy, then
/// laggy, first match wins; it runs only from `Up` or `Timeout`.
pub open spec fn classified_status(
    recs: Seq<PacketRecord>,
    win: Seq<u32>,
    base: PingStatus,
) -> PingStatus {
    if !(base matches PingStatus::Up || base matches PingStatus::Timeout) {
        base
    } else if flappy_spec(recs, 10, 5) {
        PingStatus::Flappy
    } else if lossy_spec(recs, 5, 1, 2) {
        PingStatus::Lossy
    } else if laggy_defined(recs, 10, win) && laggy_spec(recs, 10, win, 2, 1) {
        PingStatus::Laggy
    } else {
        base
    }
}

/// The status a ping outcome produces before the pause override and the
/// classifiers: `Up` on a reply; on a timeout `NotReachable` once more
/// than 10 packets were sent and none ever answered, else `Timeout`; the
/// transport's message on a failure.
pub open spec fn base_status(outcome: PingOutcome, sent: int, recv: int) -> PingStatus {
    match outcome {
        PingOutcome::Reply(_) => PingStatus::Up,
        PingOutcome::TimedOut => if sent > 10 && recv == 0 {
            PingStatus::NotReachable
        } else {
            PingStatus::Timeout
        },
        PingOutcome::Failed(m) => PingStatus::Error(m),
    }
}

/// The status after a ping outcome is applied to a target whose counters
/// were `sent`/`recv` before the update and whose history and window are
/// `recs`/`win` after it: the base status, overridden by `Paused` while
/// the paused flag is set, else refined by the classifier cascade.
pub open spec fn next_status(
    outcome: PingOutcome,
    sent: int,
    recv: int,
    paused: bool,
    recs: Seq<PacketRecord>,
    win: Seq<u32>,
) -> PingStatus {
    if paused {
        PingStatus::Paused
    } else {
        classified_status(recs, win, base_status(outcome, sent, recv))
    }
}

/// State of one monitored target.
#[derive(Debug)]
pub struct PingTarget {
    /// The address being monitored; fixed at creation.
    pub addr: IpAddress,
    /// Echo requests dispatched, incremented before each send.
    pub sent: u64,
    /// Echo replies received.
    pub recv: u64,
    /// Sequence number of the most recent dispatch.
    pub last_seq: u16,
    /// Send time of the most recent dispatch, microseconds on the
    /// engine's clock.
    pub last_sent_at: Option<u64>,
    /// Rolling window of reply round-trip times, in microseconds.
    pub rtts: LatencyWindow,
    /// Recent per-packet history.
    pub recent: PacketHistory,
    /// Current classified status.
    pub status: PingStatus,
    /// Whether the operator paused this target.
    pub paused: bool,
}

impl PingTarget {
    /// Well-formedness: the window and history are well-formed, no more
    /// replies than sends were counted, and the window never held more
    /// samples than replies arrived.
    pub open spec fn wf(&self) -> bool {
        &&& self.rtts.wf()
        &&& self.recent.wf()
        &&& self.recv <= self.sent
        &&& self.rtts.pushes() <= self.recv
    }

    /// Create the state for a target of `addr`: all counters zero, an
    /// empty window of capacity `histsize` (clamped to at least 3) and an
    /// empty history of capacity `detailed`.
    pub fn new(addr: IpAddress, histsize: usize, detailed: usize) -> (r: Self)
        requires
            histsize <= MAX_WINDOW_SIZE,
            1 <= detailed <= crate::history::MAX_HISTORY_SIZE,
        ensures
            r.wf(),
            r.addr == addr,
            r.sent == 0,
            r.recv == 0,
            r.last_sent_at is None,
            r.rtts.win() == Seq::<u32>::empty(),
            r.recent.recs() == Seq::<PacketRecord>::empty(),
            r.status matches PingStatus::Idle,
            !r.paused,
    {
        Self {
            addr,
            sent: 0,
            recv: 0,
            last_seq: 0,
            last_sent_at: None,
            rtts: LatencyWindow::new(histsize),
            recent: PacketHistory::new(detailed),
            status: PingStatus::Idle,
            paused: false,
        }
    }

    /// Whether the operator paused this target.
    pub fn is_paused(&self) -> (r: bool)
        ensures
            r == self.paused,
    {
        self.paused
    }

    /// Set or clear the paused flag.
    pub fn set_paused(&mut self, paused: bool)
        ensures
            *final(self) == (PingTarget { paused, ..*old(self) }),
    {
        self.paused = paused;
    }

    /// Whether recent packet loss over the last `n` records reaches the
    /// threshold `t_num / t_den`.
    pub fn is_lossy(&self, n: usize, t_num: u32, t_den: u32) -> (r: bool)
        requires
            self.wf(),
            1 <= n <= crate::history::MAX_HISTORY_SIZE,
        ensures
            r == lossy_spec(self.recent.recs(), n as int, t_num as int, t_den as int),
    {
        let losses: usize = self.recent.recent_losses(n);
        proof {
            let recs = self.recent.recs();
            if n > recs.len() {
                assert(recs.subrange(0, recs.len() as int) =~= recs);
            }
            lemma_history_counts(recent_slice(recs, n as int));
            assert((losses as int) * (t_den as int) <= 0x100_0000 * 0xffff_ffff)
                by (nonlinear_arith)
                requires
                    0 <= losses <= 0x100_0000,
                    0 <= t_den <= 0xffff_ffff,
            ;
            assert((n as int) * (t_num as int) <= 0x100_0000 * 0xffff_ffff) by (nonlinear_arith)
                requires
                    0 <= n <= 0x100_0000,
                    0 <= t_num <= 0xffff_ffff,
            ;
        }
        (losses as u64) * (t_den as u64) >= (n as u64) * (t_num as u64)
    }

    /// Whether the last `n` records show at least `k` transitions between
    /// responding and not responding.
    pub fn is_flappy(&self, n: usize, k: usize) -> (r: bool)
        requires
            self.wf(),
        ensures
            r == flappy_spec(self.recent.recs(), n as int, k as int),
    {
        proof {
            let recs = self.recent.recs();
            if n > recs.len() {
                assert(recs.subrange(0, recs.len() as int) =~= recs);
            }
        }
        self.recent.recent_transitions(n) >= k
    }

    /// Whether the mean round-trip time of the last `n` records exceeds
    /// `f_num / f_den` times the long-term mean of the rolling window.
    /// An error when the history gives no mean over the last `n` records.
    pub fn is_laggy(&self, n: usize, f_num: u32, f_den: u32) -> (r: Result<bool, String>)
        requires
            self.wf(),
        ensures
            match r {
                Ok(b) => laggy_defined(self.recent.recs(), n as int, self.rtts.win()) && b
                    == laggy_spec(
                    self.recent.recs(),
                    n as int,
                    self.rtts.win(),
                    f_num as int,
                    f_den as int,
                ),
                Err(_) => !laggy_defined(self.recent.recs(), n as int, self.rtts.win()),
            },
    {
        let long: (u128, u64) = match self.rtts.mean() {
            Ok(m) => (m.num, m.den),
            Err(_) => (0, 1),
        };
        let recent_mean = match self.recent.mean(Some(n)) {
            Ok(m) => m,
            Err(e) => {
                return Err(e);
            },
        };
        proof {
            let recs = self.recent.recs();
            if n > recs.len() {
                assert(recs.subrange(0, recs.len() as int) =~= recs);
            }
            let scope = recent_slice(recs, n as int);
            lemma_history_counts(scope);
            self.recent.lemma_wf_bounds();
            self.rtts.lemma_wf_bounds();
            crate::rolling::lemma_window_sum_bounds(self.rtts.win());
            lemma_laggy_products(
                recent_mean.num as int,
                long.1 as int,
                f_den as int,
                long.0 as int,
                recent_mean.den as int,
                f_num as int,
            );
        }
        Ok(
            recent_mean.num * (long.1 as u128) * (f_den as u128) > long.0 * (
            recent_mean.den as u128) * (f_num as u128),
        )
    }

    /// Apply the outcome of one echo request: count the reply, push the
    /// round-trip time into the window, complete and push the packet
    /// record, and move to the next status (base status, pause override,
    /// classifier cascade).
    pub fn update_stats(&mut self, outcome: PingOutcome, rec: PacketRecord)
        requires
            old(self).wf(),
            outcome matches PingOutcome::Reply(_) ==> old(self).recv < old(self).sent,
        ensures
            final(self).wf(),
            final(self).addr == old(self).addr,
            final(self).sent == old(self).sent,
            final(self).paused == old(self).paused,
            final(self).last_seq == old(self).last_seq,
            final(self).last_sent_at == old(self).last_sent_at,
            final(self).recv == old(self).recv + (if outcome matches PingOutcome::Reply(_) {
                1int
            } else {
                0int
            }),
            (match outcome {
                PingOutcome::Reply(us) => {
                    &&& final(self).rtts.spec_cap() == old(self).rtts.spec_cap()
                    &&& final(self).rtts.pushes() == old(self).rtts.pushes() + 1
                    &&& final(self).rtts.win() == (if old(self).rtts.win().len() < old(
                        self,
                    ).rtts.spec_cap() {
                        old(self).rtts.win().push(us)
                    } else {
                        old(self).rtts.win().drop_first().push(us)
                    })
                },
                _ => final(self).rtts == old(self).rtts,
            }),
            ({
                let rec2 = match outcome {
                    PingOutcome::Reply(us) => (PacketRecord { rtt: Some(us), ..rec }),
                    _ => rec,
                };
                &&& final(self).recent.spec_cap() == old(self).recent.spec_cap()
                &&& final(self).recent.recs() == (if old(self).recent.recs().len() < old(
                    self,
                ).recent.spec_cap() {
                    old(self).recent.recs().push(rec2)
                } else {
                    old(self).recent.recs().drop_first().push(rec2)
                })
            }),
            final(self).status == next_status(
                outcome,
                old(self).sent as int,
                old(self).recv as int,
                old(self).paused,
                final(self).recent.recs(),
                final(self).rtts.win(),
            ),
    {
        let mut rec2 = rec;
        match outcome {
            PingOutcome::Reply(us) => {
                self.recv = self.recv + 1;
                self.rtts.push(us);
                self.status = PingStatus::Up;
                rec2.set_rtt(us);
            },
            PingOutcome::TimedOut => {
                self.status = if self.sent > 10 && self.recv == 0 {
                    PingStatus::NotReachable
                } else {
                    PingStatus::Timeout
                };
            },
            PingOutcome::Failed(m) => {
                self.status = PingStatus::Error(m);
            },
        }
        self.recent.push(rec2);
        if self.paused {
            self.status = PingStatus::Paused;
        } else {
            let run: bool = match &self.status {
                PingStatus::Up => true,
                PingStatus::Timeout => true,
                _ => false,
            };
            if run {
                if self.is_flappy(10, 5) {
                    self.status = PingStatus::Flappy;
                } else if self.is_lossy(5, 1, 2) {
                    self.status = PingStatus::Lossy;
                } else {
                    match self.is_laggy(10, 2, 1) {
                        Ok(true) => {
                            self.status = PingStatus::Laggy;
                        },
                        _ => {},
                    }
                }
            }
        }
    }

    /// Take the next sequence number and stamp the dispatch: `sent` is
    /// incremented before the send, so the counter stays right even if
    /// the send fails or replies arrive out of order.
    pub fn prepare_send(&mut self, now: u64) -> (seq: u16)
        requires
            old(self).wf(),
            old(self).sent < u64::MAX,
        ensures
            final(self).wf(),
            seq as int == old(self).sent as int % 65536,
            *final(self) == (PingTarget {
                sent: (old(self).sent + 1) as u64,
                last_seq: seq,
                last_sent_at: Some(now),
                ..*old(self)
            }),
    {
        let seq: u16 = (self.sent % 65536) as u16;
        self.sent = self.sent + 1;
        self.last_seq = seq;
        self.last_sent_at = Some(now);
        seq
    }
}

/// The table label of each status.
pub open spec fn status_label(s: PingStatus) -> Seq<char> {
    match s {
        PingStatus::Up => "OK"@,
        PingStatus::Timeout => "timeout"@,
        PingStatus::NotReachable => "unreachable"@,
        PingStatus::Error(_) => "error"@,
        PingStatus::Laggy => "laggy"@,
        PingStatus::Lossy => "lossy"@,
        PingStatus::Flappy => "flapping"@,
        PingStatus::Idle => "-"@,
        PingStatus::Paused => "paused"@,
    }
}

impl PingStatus {
    /// The label shown in the status column.
    pub fn label(&self) -> (r: &'static str)
        ensures
            r@ == status_label(*self),
    {
        match self {
            PingStatus::Up => "OK",
            PingStatus::Timeout => "timeout",
            PingStatus::NotReachable => "unreachable",
            PingStatus::Error(_) => "error",
            PingStatus::Laggy => "laggy",
            PingStatus::Lossy => "lossy",
            PingStatus::Flappy => "flapping",
            PingStatus::Idle => "-",
            PingStatus::Paused => "paused",
        }
    }
}

/// Bounds on the triple products of the laggy comparison: each factor is
/// small enough that the products stay far below `u128::MAX`.
proof fn lemma_laggy_products(a: int, b: int, c: int, d: int, e: int, f: int)
    requires
        0 <= a <= 0x100_0000_0000_0000,
        0 <= b <= 0x100_0000,
        0 <= c <= 0xffff_ffff,
        0 <= d <= 0x100_0000_0000_0000,
        0 <= e <= 0x100_0000,
        0 <= f <= 0xffff_ffff,
    ensures
        0 <= a * b <= 0x1_0000_0000_0000_0000_0000,
        0 <= d * e <= 0x1_0000_0000_0000_0000_0000,
        0 <= a * b * c < 0x1_0000_0000_0000_0000_0000_0000_0000,
        0 <= d * e * f < 0x1_0000_0000_0000_0000_0000_0000_0000,
{
    assert(0 <= a * b <= 0x1_0000_0000_0000_0000_0000) by (nonlinear_arith)
        requires
            0 <= a <= 0x100_0000_0000_0000,
            0 <= b <= 0x100_0000,
    ;
    assert(0 <= d * e <= 0x1_0000_0000_0000_0000_0000) by (nonlinear_arith)
        requires
            0 <= d <= 0x100_0000_0000_0000,
            0 <= e <= 0x100_0000,
    ;
    assert(0 <= a * b * c <= 0x100_0000_0000_0000 * 0x100_0000 * 0xffff_ffff) by (nonlinear_arith)
        requires
            0 <= a <= 0x100_0000_0000_0000,
            0 <= b <= 0x100_0000,
            0 <= c <= 0xffff_ffff,
    ;
    assert(0 <= d * e * f <= 0x100_0000_0000_0000 * 0x100_0000 * 0xffff_ffff) by (nonlinear_arith)
        requires
            0 <= d <= 0x100_0000_0000_0000,
            0 <= e <= 0x100_0000,
            0 <= f <= 0xffff_ffff,
    ;
}

} // verus!
