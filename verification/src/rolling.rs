//! Rolling window statistics over the most recent latency samples.
//!
//! [`LatencyWindow`] keeps the last `cap` samples (microseconds, `u32`) in a
//! ring buffer together with running integer sums and two monotonic deques,
//! so that the mean, the minimum, the maximum and the population variance of
//! the live window are available in O(1) amortized time per push.

use std::collections::VecDeque;
use vstd::prelude::*;

verus! {

broadcast use vstd::std_specs::vecdeque::group_vec_dequeue_axioms;

/// The smallest capacity a window may have; smaller requests are clamped up.
pub const MIN_WINDOW_SIZE: usize = 3;

/// The largest capacity a window may have. The bound keeps every running
/// integer sum (`sum`, `sum_sq`) and every variance numerator comfortably
/// inside `u128`.
pub const MAX_WINDOW_SIZE: usize = 0x0100_0000;

/// An exact ratio of two unsigned integers, used to report means and
/// variances without rounding. The denominator is always positive.
#[derive(Clone, Copy, Debug, PartialEq, Eq, Structural)]
pub struct Ratio {
    pub num: u128,
    pub den: u64,
}

/// Sum of the samples of a window.
pub open spec fn seq_sum(s: Seq<u32>) -> int
    decreases s.len(),
{
    if s.len() == 0 {
        0
    } else {
        seq_sum(s.drop_last()) + s.last()
    }
}

/// Sum of the squared samples of a window.
pub open spec fn seq_sum_sq(s: Seq<u32>) -> int
    decreases s.len(),
{
    if s.len() == 0 {
        0
    } else {
        seq_sum_sq(s.drop_last()) + s.last() * s.last()
    }
}

/// Smallest sample of a non-empty window.
pub open spec fn seq_min(s: Seq<u32>) -> u32
    recommends
        s.len() > 0,
    decreases s.len(),
{
    if s.len() <= 1 {
        s[0]
    } else if s.last() < seq_min(s.drop_last()) {
        s.last()
    } else {
        seq_min(s.drop_last())
    }
}

/// Largest sample of a non-empty window.
pub open spec fn seq_max(s: Seq<u32>) -> u32
    recommends
        s.len() > 0,
    decreases s.len(),
{
    if s.len() <= 1 {
        s[0]
    } else if s.last() > seq_max(s.drop_last()) {
        s.last()
    } else {
        seq_max(s.drop_last())
    }
}

proof fn lemma_sum_drop_first(s: Seq<u32>)
    requires
        s.len() > 0,
    ensures
        seq_sum(s) == s[0] + seq_sum(s.drop_first()),
        seq_sum_sq(s) == s[0] * s[0] + seq_sum_sq(s.drop_first()),
    decreases s.len(),
{
    if s.len() == 1 {
        assert(s.drop_first() =~= Seq::<u32>::empty());
        assert(s.drop_last() =~= Seq::<u32>::empty());
    } else {
        lemma_sum_drop_first(s.drop_last());
        assert(s.drop_last().drop_first() =~= s.drop_first().drop_last());
        assert(s.drop_first().last() == s.last());
        assert(s.drop_last()[0] == s[0]);
    }
}

proof fn lemma_square_bound(v: u32)
    ensures
        0 <= (v as int) * (v as int) <= 0xffff_fffe_0000_0001,
{
    assert(0 <= (v as int) * (v as int) <= 0xffff_fffe_0000_0001) by (nonlinear_arith)
        requires
            0 <= v <= 0xffff_ffff,
    ;
}

/// The running sums of a window are bounded by its length times the
/// largest sample (squared, for the sum of squares).
pub proof fn lemma_window_sum_bounds(s: Seq<u32>)
    ensures
        0 <= seq_sum(s) <= s.len() * 0xffff_ffff,
        0 <= seq_sum_sq(s) <= s.len() * (0xffff_fffe_0000_0001),
    decreases s.len(),
{
    if s.len() > 0 {
        lemma_window_sum_bounds(s.drop_last());
        lemma_square_bound(s.last());
        assert(s.drop_last().len() == s.len() - 1);
        assert(seq_sum_sq(s) == seq_sum_sq(s.drop_last()) + s.last() * s.last());
    }
}

proof fn lemma_sum_push(s: Seq<u32>, v: u32)
    ensures
        seq_sum(s.push(v)) == seq_sum(s) + v,
        seq_sum_sq(s.push(v)) == seq_sum_sq(s) + v * v,
{
    assert(s.push(v).drop_last() =~= s);
    assert(s.push(v).last() == v);
}

/// The minimum of a non-empty window is one of its samples and is no
/// larger than any of them; symmetrically for the maximum.
pub proof fn lemma_min_max_in_window(s: Seq<u32>)
    requires
        s.len() > 0,
    ensures
        s.contains(seq_min(s)),
        s.contains(seq_max(s)),
        forall|i: int| 0 <= i < s.len() ==> seq_min(s) <= #[trigger] s[i] <= seq_max(s),
    decreases s.len(),
{
    if s.len() == 1 {
        assert(s[0] == seq_min(s));
        assert(s[0] == seq_max(s));
    } else {
        lemma_min_max_in_window(s.drop_last());
        assert forall|i: int| 0 <= i < s.len() implies seq_min(s) <= #[trigger] s[i] <= seq_max(s) by {
            if i < s.len() - 1 {
                assert(s.drop_last()[i] == s[i]);
            }
        }
        if s.last() < seq_min(s.drop_last()) {
            assert(s.contains(seq_min(s)));
        } else {
            let j: int = choose|j: int| 0 <= j < s.drop_last().len() && s.drop_last()[j] == seq_min(s.drop_last());
            assert(s[j] == seq_min(s));
        }
        if s.last() > seq_max(s.drop_last()) {
            assert(s.contains(seq_max(s)));
        } else {
            let j: int = choose|j: int| 0 <= j < s.drop_last().len() && s.drop_last()[j] == seq_max(s.drop_last());
            assert(s[j] == seq_max(s));
        }
    }
}

/// Drop entries from the front of `q` whose push index is older than
/// `cutoff`; entry indices must be strictly increasing. Returns how many
/// entries were dropped.
fn drop_front_older(q: &mut VecDeque<(u32, u64)>, cutoff: u64) -> (a: usize)
    requires
        forall|k1: int, k2: int|
            0 <= k1 < k2 < old(q)@.len() ==> old(q)@[k1].1 < old(q)@[k2].1,
    ensures
        a <= old(q)@.len(),
        final(q)@ == old(q)@.subrange(a as int, old(q)@.len() as int),
        forall|j: int| 0 <= j < a ==> old(q)@[j].1 < cutoff,
        forall|j: int| a <= j < old(q)@.len() ==> #[trigger] old(q)@[j].1 >= cutoff,
{
    let ghost q0 = q@;
    let n0: usize = q.len();
    let mut a: usize = 0;
    while q.len() > 0 && q[0].1 < cutoff
        invariant
            q0.len() == n0,
            a <= q0.len(),
            a + q@.len() == q0.len(),
            q@ == q0.subrange(a as int, q0.len() as int),
            forall|j: int| 0 <= j < a ==> q0[j].1 < cutoff,
            forall|k1: int, k2: int| 0 <= k1 < k2 < q0.len() ==> q0[k1].1 < q0[k2].1,
        decreases q.len(),
    {
        q.pop_front();
        a = a + 1;
        proof {
            assert(q@ =~= q0.subrange(a as int, q0.len() as int));
        }
    }
    proof {
        if a < q0.len() {
            assert(q0[a as int].1 >= cutoff);
            assert forall|j: int| a <= j < q0.len() implies #[trigger] q0[j].1 >= cutoff by {
                if j > a {
                    assert(q0[a as int].1 < q0[j].1);
                }
            }
        }
    }
    a
}

/// Pop entries from the back of `q` whose value is strictly greater than
/// `val`. Returns the number of entries kept.
fn pop_back_while_gt(q: &mut VecDeque<(u32, u64)>, val: u32) -> (b: usize)
    ensures
        b <= old(q)@.len(),
        final(q)@ == old(q)@.subrange(0, b as int),
        forall|j: int| b <= j < old(q)@.len() ==> #[trigger] old(q)@[j].0 > val,
        b > 0 ==> old(q)@[b - 1].0 <= val,
{
    let ghost q0 = q@;
    while q.len() > 0 && q[q.len() - 1].0 > val
        invariant
            q@.len() <= q0.len(),
            q@ == q0.subrange(0, q@.len() as int),
            forall|j: int| q@.len() <= j < q0.len() ==> #[trigger] q0[j].0 > val,
        decreases q.len(),
    {
        q.pop_back();
        proof {
            assert(q@ =~= q0.subrange(0, q@.len() as int));
        }
    }
    q.len()
}

/// Pop entries from the back of `q` whose value is strictly less than
/// `val`. Returns the number of entries kept.
fn pop_back_while_lt(q: &mut VecDeque<(u32, u64)>, val: u32) -> (b: usize)
    ensures
        b <= old(q)@.len(),
        final(q)@ == old(q)@.subrange(0, b as int),
        forall|j: int| b <= j < old(q)@.len() ==> #[trigger] old(q)@[j].0 < val,
        b > 0 ==> old(q)@[b - 1].0 >= val,
{
    let ghost q0 = q@;
    while q.len() > 0 && q[q.len() - 1].0 < val
        invariant
            q@.len() <= q0.len(),
            q@ == q0.subrange(0, q@.len() as int),
            forall|j: int| q@.len() <= j < q0.len() ==> #[trigger] q0[j].0 < val,
        decreases q.len(),
    {
        q.pop_back();
        proof {
            assert(q@ =~= q0.subrange(0, q@.len() as int));
        }
    }
    q.len()
}

/// Invariant of one monotonic deque `q` against the live window `w`, whose
/// samples carry the push indices `end - w.len() .. end`. Each entry is a
/// (sample, push index) pair; indices are strictly increasing and live, each
/// entry carries the sample it was pushed with, and for the minimum deque
/// (`is_min`) values are non-decreasing while every live sample has an entry
/// at or after it that is no larger. Mirrored for the maximum deque. The
/// front entry is therefore the window minimum (respectively maximum).
pub open spec fn mono_q_inv(q: Seq<(u32, u64)>, w: Seq<u32>, end: int, is_min: bool) -> bool {
    &&& forall|k: int| 0 <= k < q.len() ==> end - w.len() <= #[trigger] q[k].1 < end
    &&& forall|k1: int, k2: int| 0 <= k1 < k2 < q.len() ==> q[k1].1 < q[k2].1
    &&& forall|k: int| 0 <= k < q.len() ==> #[trigger] q[k].0 == w[q[k].1 - (end - w.len())]
    &&& is_min ==> forall|k1: int, k2: int|
        0 <= k1 <= k2 < q.len() ==> q[k1].0 <= q[k2].0
    &&& !is_min ==> forall|k1: int, k2: int|
        0 <= k1 <= k2 < q.len() ==> q[k1].0 >= q[k2].0
    &&& forall|j: int| 0 <= j < w.len() ==> #[trigger] q_covers(q, w, end, j, is_min)
}

/// Window sample `w[j]` is dominated by a deque entry at or after its
/// push index: a no-larger entry for the minimum deque (`is_min`), a
/// no-smaller one for the maximum deque.
pub open spec fn q_covers(q: Seq<(u32, u64)>, w: Seq<u32>, end: int, j: int, is_min: bool) -> bool {
    exists|k: int|
        0 <= k < q.len() && j + (end - w.len()) <= #[trigger] q[k].1 && (if is_min {
            q[k].0 <= w[j]
        } else {
            q[k].0 >= w[j]
        })
}

/// After a push of `val` with push index `idx`, the minimum deque trimmed
/// by `drop_front_older` and the back pops, extended with the new entry,
/// satisfies the monotonic-deque invariant against the new window `w1`.
#[verifier::rlimit(100)]
proof fn lemma_q_restore_min(
    q0: Seq<(u32, u64)>,
    w0: Seq<u32>,
    w1: Seq<u32>,
    idx: u64,
    a: int,
    b: int,
    val: u32,
    cutoff: u64,
)
    requires
        mono_q_inv(q0, w0, idx as int, true),
        idx < u64::MAX,
        0 < w1.len(),
        cutoff as int == idx + 1 - w1.len(),
        idx as int - w0.len() <= cutoff as int,
        w1[w1.len() - 1] == val,
        forall|u: int|
            cutoff as int - (idx - w0.len()) <= u < w0.len() ==> #[trigger] w0[u] == w1[u + (idx
                - w0.len()) - (idx + 1 - w1.len())],
        0 <= a,
        0 <= b,
        a + b <= q0.len(),
        forall|j: int| 0 <= j < a ==> q0[j].1 < cutoff,
        forall|j: int| a <= j < q0.len() ==> #[trigger] q0[j].1 >= cutoff,
        forall|j: int| a + b <= j < q0.len() ==> #[trigger] q0[j].0 > val,
        b > 0 ==> q0[a + b - 1].0 <= val,
    ensures
        mono_q_inv(q0.subrange(a, a + b).push((val, idx)), w1, idx as int + 1, true),
{
    let qn = q0.subrange(a, a + b).push((val, idx));
    let lo1 = idx + 1 - w1.len();
    let lo0 = idx - w0.len();
    assert forall|k: int| #![trigger qn[k].1] 0 <= k < qn.len() implies {
        &&& lo1 <= qn[k].1 < idx + 1
        &&& qn[k].0 == w1[qn[k].1 - lo1]
    } by {
        if k < qn.len() - 1 {
            assert(qn[k] == q0[a + k]);
            assert(q0[a + k].0 == w0[q0[a + k].1 - lo0]);
            assert(w0[q0[a + k].1 - lo0] == w1[(q0[a + k].1 - lo0) + lo0 - lo1]);
        } else {
            assert(qn[k] == (val, idx));
            assert(w1[idx - lo1] == val);
        }
    }
    assert forall|k1: int, k2: int| 0 <= k1 < k2 < qn.len() implies qn[k1].1 < qn[k2].1 by {
        if k2 < qn.len() - 1 {
            assert(qn[k1] == q0[a + k1]);
            assert(qn[k2] == q0[a + k2]);
        } else if k1 < qn.len() - 1 {
            assert(qn[k1] == q0[a + k1]);
        }
    }
    assert forall|k1: int, k2: int| 0 <= k1 <= k2 < qn.len() implies qn[k1].0 <= qn[k2].0 by {
        if k1 < k2 && k2 == qn.len() - 1 {
            assert(qn[k1] == q0[a + k1]);
            assert(q0[a + b - 1].0 <= val);
            assert(q0[a + k1].0 <= q0[a + b - 1].0);
        } else if k2 < qn.len() - 1 {
            assert(qn[k1] == q0[a + k1]);
            assert(qn[k2] == q0[a + k2]);
        }
    }
    assert forall|j: int| 0 <= j < w1.len() implies #[trigger] q_covers(
        qn,
        w1,
        idx as int + 1,
        j,
        true,
    ) by {
        let t = j + lo1;
        if t == idx {
            let wk: int = qn.len() - 1;
            assert(j + lo1 <= qn[wk].1 && qn[wk].0 <= w1[j]);
        } else {
            assert(w0[t - lo0] == w1[(t - lo0) + lo0 - lo1]);
            assert(w1[j] == w0[t - lo0]);
            assert(q_covers(q0, w0, idx as int, t - lo0, true));
            let k0: int = choose|k0: int|
                0 <= k0 < q0.len() && (t - lo0) + lo0 <= q0[k0].1 && q0[k0].0 <= w0[t - lo0];
            assert(q0[k0].1 >= cutoff);
            assert(k0 >= a);
            if k0 < a + b {
                let wk: int = k0 - a;
                assert(qn[wk] == q0[k0]);
                assert(j + lo1 <= qn[wk].1 && qn[wk].0 <= w1[j]);
            } else {
                assert(q0[k0].0 > val);
                let wk: int = qn.len() - 1;
                assert(j + lo1 <= qn[wk].1 && qn[wk].0 <= w1[j]);
            }
        }
    }
}

/// Mirror of `lemma_q_restore_min` for the maximum deque.
#[verifier::rlimit(100)]
proof fn lemma_q_restore_max(
    q0: Seq<(u32, u64)>,
    w0: Seq<u32>,
    w1: Seq<u32>,
    idx: u64,
    a: int,
    b: int,
    val: u32,
    cutoff: u64,
)
    requires
        mono_q_inv(q0, w0, idx as int, false),
        idx < u64::MAX,
        0 < w1.len(),
        cutoff as int == idx + 1 - w1.len(),
        idx as int - w0.len() <= cutoff as int,
        w1[w1.len() - 1] == val,
        forall|u: int|
            cutoff as int - (idx - w0.len()) <= u < w0.len() ==> #[trigger] w0[u] == w1[u + (idx
                - w0.len()) - (idx + 1 - w1.len())],
        0 <= a,
        0 <= b,
        a + b <= q0.len(),
        forall|j: int| 0 <= j < a ==> q0[j].1 < cutoff,
        forall|j: int| a <= j < q0.len() ==> #[trigger] q0[j].1 >= cutoff,
        forall|j: int| a + b <= j < q0.len() ==> #[trigger] q0[j].0 < val,
        b > 0 ==> q0[a + b - 1].0 >= val,
    ensures
        mono_q_inv(q0.subrange(a, a + b).push((val, idx)), w1, idx as int + 1, false),
{
    let qn = q0.subrange(a, a + b).push((val, idx));
    let lo1 = idx + 1 - w1.len();
    let lo0 = idx - w0.len();
    assert forall|k: int| #![trigger qn[k].1] 0 <= k < qn.len() implies {
        &&& lo1 <= qn[k].1 < idx + 1
        &&& qn[k].0 == w1[qn[k].1 - lo1]
    } by {
        if k < qn.len() - 1 {
            assert(qn[k] == q0[a + k]);
            assert(q0[a + k].0 == w0[q0[a + k].1 - lo0]);
            assert(w0[q0[a + k].1 - lo0] == w1[(q0[a + k].1 - lo0) + lo0 - lo1]);
        } else {
            assert(qn[k] == (val, idx));
            assert(w1[idx - lo1] == val);
        }
    }
    assert forall|k1: int, k2: int| 0 <= k1 < k2 < qn.len() implies qn[k1].1 < qn[k2].1 by {
        if k2 < qn.len() - 1 {
            assert(qn[k1] == q0[a + k1]);
            assert(qn[k2] == q0[a + k2]);
        } else if k1 < qn.len() - 1 {
            assert(qn[k1] == q0[a + k1]);
        }
    }
    assert forall|k1: int, k2: int| 0 <= k1 <= k2 < qn.len() implies qn[k1].0 >= qn[k2].0 by {
        if k1 < k2 && k2 == qn.len() - 1 {
            assert(qn[k1] == q0[a + k1]);
            assert(q0[a + b - 1].0 >= val);
            assert(q0[a + k1].0 >= q0[a + b - 1].0);
        } else if k2 < qn.len() - 1 {
            assert(qn[k1] == q0[a + k1]);
            assert(qn[k2] == q0[a + k2]);
        }
    }
    assert forall|j: int| 0 <= j < w1.len() implies #[trigger] q_covers(
        qn,
        w1,
        idx as int + 1,
        j,
        false,
    ) by {
        let t = j + lo1;
        if t == idx {
            let wk: int = qn.len() - 1;
            assert(j + lo1 <= qn[wk].1 && qn[wk].0 >= w1[j]);
        } else {
            assert(w0[t - lo0] == w1[(t - lo0) + lo0 - lo1]);
            assert(w1[j] == w0[t - lo0]);
            assert(q_covers(q0, w0, idx as int, t - lo0, false));
            let k0: int = choose|k0: int|
                0 <= k0 < q0.len() && (t - lo0) + lo0 <= q0[k0].1 && q0[k0].0 >= w0[t - lo0];
            assert(q0[k0].1 >= cutoff);
            assert(k0 >= a);
            if k0 < a + b {
                let wk: int = k0 - a;
                assert(qn[wk] == q0[k0]);
                assert(j + lo1 <= qn[wk].1 && qn[wk].0 >= w1[j]);
            } else {
                assert(q0[k0].0 < val);
                let wk: int = qn.len() - 1;
                assert(j + lo1 <= qn[wk].1 && qn[wk].0 >= w1[j]);
            }
        }
    }
}

/// O(1) amortized rolling latency window over the last `cap` samples.
#[derive(Debug)]
pub struct LatencyWindow {
    /// Window capacity, clamped to `MIN_WINDOW_SIZE ..= MAX_WINDOW_SIZE`.
    cap: usize,
    /// Ring buffer of samples; always exactly `cap` slots.
    buf: Vec<u32>,
    /// Next write position in `buf`.
    head: usize,
    /// Number of live samples, at most `cap`.
    len: usize,
    /// Running sum of the live samples.
    sum: u128,
    /// Running sum of the squared live samples.
    sum_sq: u128,
    /// Monotonic deque of (value, push index): values non-decreasing,
    /// front is the window minimum.
    minq: VecDeque<(u32, u64)>,
    /// Monotonic deque of (value, push index): values non-increasing,
    /// front is the window maximum.
    maxq: VecDeque<(u32, u64)>,
    /// Number of pushes since creation or the last clear.
    index: u64,
}

impl LatencyWindow {
    /// The live window, oldest sample first.
    pub closed spec fn win(&self) -> Seq<u32> {
        Seq::new(self.len as nat, |i: int| self.buf@[self.slot_of(i)])
    }

    /// Ring-buffer slot that holds the `i`-th oldest live sample.
    pub closed spec fn slot_of(&self, i: int) -> int {
        if self.head - self.len + i < 0 {
            self.head - self.len + i + self.cap
        } else {
            self.head - self.len + i
        }
    }

    /// Capacity of the window (after clamping).
    pub closed spec fn spec_cap(&self) -> int {
        self.cap as int
    }

    /// Total pushes since creation or the last clear.
    pub closed spec fn pushes(&self) -> int {
        self.index as int
    }

    /// The minimum deque is consistent with the live window.
    spec fn minq_inv(&self) -> bool {
        mono_q_inv(self.minq@, self.win(), self.pushes(), true)
    }

    /// The maximum deque is consistent with the live window.
    spec fn maxq_inv(&self) -> bool {
        mono_q_inv(self.maxq@, self.win(), self.pushes(), false)
    }

    /// Well-formedness of the ring buffer and the running sums.
    spec fn wf_ring(&self) -> bool {
        &&& MIN_WINDOW_SIZE <= self.cap <= MAX_WINDOW_SIZE
        &&& self.buf@.len() == self.cap
        &&& self.head < self.cap
        &&& self.len <= self.cap
        &&& self.len <= self.index
        &&& self.len < self.cap ==> self.index == self.len
        &&& self.sum == seq_sum(self.win())
        &&& self.sum_sq == seq_sum_sq(self.win())
    }

    /// Structural well-formedness of the window.
    pub closed spec fn wf(&self) -> bool {
        &&& self.wf_ring()
        &&& self.minq_inv()
        &&& self.maxq_inv()
    }

    /// Create a new window with capacity `cap`, clamped to at least
    /// `MIN_WINDOW_SIZE`; the window starts empty.
    pub fn new(cap: usize) -> (r: Self)
        requires
            cap <= MAX_WINDOW_SIZE,
        ensures
            r.wf(),
            r.win() =~= Seq::<u32>::empty(),
            r.spec_cap() == if cap < MIN_WINDOW_SIZE {
                MIN_WINDOW_SIZE as int
            } else {
                cap as int
            },
            r.pushes() == 0,
    {
        let cap: usize = if cap < MIN_WINDOW_SIZE {
            MIN_WINDOW_SIZE
        } else {
            cap
        };
        let mut buf: Vec<u32> = Vec::new();
        let mut i: usize = 0;
        while i < cap
            invariant
                buf@.len() == i,
                i <= cap,
            decreases cap - i,
        {
            buf.push(0);
            i += 1;
        }
        let r = Self {
            cap,
            buf,
            head: 0,
            len: 0,
            sum: 0,
            sum_sq: 0,
            minq: VecDeque::new(),
            maxq: VecDeque::new(),
            index: 0,
        };
        proof {
            assert(r.win() =~= Seq::<u32>::empty());
            assert(r.minq@ =~= Seq::<(u32, u64)>::empty());
            assert(r.maxq@ =~= Seq::<(u32, u64)>::empty());
            assert(r.wf());
        }
        r
    }

    /// Number of live samples.
    pub fn len(&self) -> (r: usize)
        requires
            self.wf(),
        ensures
            r == self.win().len(),
    {
        self.len
    }

    /// Whether the window holds no samples.
    pub fn is_empty(&self) -> (r: bool)
        requires
            self.wf(),
        ensures
            r == (self.win().len() == 0),
    {
        self.len == 0
    }

    /// Write `val` into the ring buffer, adjusting the running sums and
    /// evicting the oldest sample when full. The deques are left untouched.
    fn ring_insert(&mut self, val: u32) -> (idx: u64)
        requires
            old(self).wf_ring(),
            old(self).pushes() < u64::MAX,
        ensures
            final(self).wf_ring(),
            idx as int == old(self).pushes(),
            final(self).pushes() == old(self).pushes() + 1,
            final(self).spec_cap() == old(self).spec_cap(),
            final(self).minq == old(self).minq,
            final(self).maxq == old(self).maxq,
            final(self).win() == if old(self).win().len() < old(self).spec_cap() {
                old(self).win().push(val)
            } else {
                old(self).win().drop_first().push(val)
            },
    {
        let ghost o = *self;
        let idx: u64 = self.index;
        self.index = idx + 1;

        proof {
            lemma_window_sum_bounds(o.win());
            lemma_square_bound(val);
        }

        let h: usize = self.head;
        if self.len < self.cap {
            self.buf[h] = val;
            self.sum = self.sum + val as u128;
            self.sum_sq = self.sum_sq + (val as u128) * (val as u128);
            self.head = if h + 1 == self.cap {
                0
            } else {
                h + 1
            };
            self.len = self.len + 1;
            proof {
                assert forall|i: int| 0 <= i < o.win().len() implies self.win()[i] == o.win()[i] by {
                    assert(self.slot_of(i) == o.slot_of(i));
                    assert(o.slot_of(i) != h as int);
                }
                assert(self.win() =~= o.win().push(val));
                lemma_sum_push(o.win(), val);
            }
        } else {
            let evicted: u32 = self.buf[h];
            proof {
                assert(o.slot_of(0) == h as int);
                assert(evicted == o.win()[0]);
                lemma_square_bound(evicted);
                lemma_sum_drop_first(o.win());
                lemma_window_sum_bounds(o.win().drop_first());
            }
            self.buf[h] = val;
            self.sum = self.sum - evicted as u128 + val as u128;
            self.sum_sq = self.sum_sq - (evicted as u128) * (evicted as u128) + (val as u128)
                * (val as u128);
            self.head = if h + 1 == self.cap {
                0
            } else {
                h + 1
            };
            proof {
                assert forall|i: int| 0 <= i < o.win().len() - 1 implies self.win()[i] == o.win()[i
                    + 1] by {
                    assert(self.slot_of(i) == o.slot_of(i + 1));
                    assert(o.slot_of(i + 1) != h as int);
                }
                assert(self.win() =~= o.win().drop_first().push(val));
                lemma_sum_push(o.win().drop_first(), val);
            }
        }
        idx
    }

    /// Trim the minimum deque for the sample `val` just written at push
    /// index `idx` and append its entry; `w0` is the window before the
    /// ring write.
    fn minq_insert(&mut self, val: u32, idx: u64, cutoff: u64, Ghost(w0): Ghost<Seq<u32>>)
        requires
            mono_q_inv(old(self).minq@, w0, idx as int, true),
            idx < u64::MAX,
            old(self).pushes() == idx + 1,
            old(self).win().len() > 0,
            cutoff as int == old(self).pushes() - old(self).win().len(),
            idx as int - w0.len() <= cutoff as int,
            old(self).win().last() == val,
            forall|u: int|
                cutoff as int - (idx as int - w0.len()) <= u < w0.len() ==> #[trigger] w0[u]
                    == old(self).win()[u + (idx - w0.len()) - (idx + 1 - old(self).win().len())],
        ensures
            final(self).minq_inv(),
            final(self).win() == old(self).win(),
            final(self).cap == old(self).cap,
            final(self).buf == old(self).buf,
            final(self).head == old(self).head,
            final(self).len == old(self).len,
            final(self).sum == old(self).sum,
            final(self).sum_sq == old(self).sum_sq,
            final(self).maxq == old(self).maxq,
            final(self).index == old(self).index,
    {
        let ghost q0 = self.minq@;
        let a1: usize = drop_front_older(&mut self.minq, cutoff);
        let b1: usize = pop_back_while_gt(&mut self.minq, val);
        self.minq.push_back((val, idx));
        proof {
            assert(self.minq@ =~= q0.subrange(a1 as int, a1 as int + b1 as int).push((val, idx)));
            let mid = q0.subrange(a1 as int, q0.len() as int);
            assert forall|j: int| a1 + b1 <= j < q0.len() implies #[trigger] q0[j].0 > val by {
                assert(mid[j - a1] == q0[j]);
            }
            if b1 > 0 {
                assert(mid[b1 as int - 1] == q0[a1 as int + b1 as int - 1]);
            }
            lemma_q_restore_min(q0, w0, self.win(), idx, a1 as int, b1 as int, val, cutoff);
            assert(self.win() =~= old(self).win());
        }
    }

    /// Trim the maximum deque for the sample `val` just written at push
    /// index `idx` and append its entry; `w0` is the window before the
    /// ring write.
    fn maxq_insert(&mut self, val: u32, idx: u64, cutoff: u64, Ghost(w0): Ghost<Seq<u32>>)
        requires
            mono_q_inv(old(self).maxq@, w0, idx as int, false),
            idx < u64::MAX,
            old(self).pushes() == idx + 1,
            old(self).win().len() > 0,
            cutoff as int == old(self).pushes() - old(self).win().len(),
            idx as int - w0.len() <= cutoff as int,
            old(self).win().last() == val,
            forall|u: int|
                cutoff as int - (idx as int - w0.len()) <= u < w0.len() ==> #[trigger] w0[u]
                    == old(self).win()[u + (idx - w0.len()) - (idx + 1 - old(self).win().len())],
        ensures
            final(self).maxq_inv(),
            final(self).win() == old(self).win(),
            final(self).cap == old(self).cap,
            final(self).buf == old(self).buf,
            final(self).head == old(self).head,
            final(self).len == old(self).len,
            final(self).sum == old(self).sum,
            final(self).sum_sq == old(self).sum_sq,
            final(self).minq == old(self).minq,
            final(self).index == old(self).index,
    {
        let ghost p0 = self.maxq@;
        let a2: usize = drop_front_older(&mut self.maxq, cutoff);
        let b2: usize = pop_back_while_lt(&mut self.maxq, val);
        self.maxq.push_back((val, idx));
        proof {
            assert(self.maxq@ =~= p0.subrange(a2 as int, a2 as int + b2 as int).push((val, idx)));
            let mid = p0.subrange(a2 as int, p0.len() as int);
            assert forall|j: int| a2 + b2 <= j < p0.len() implies #[trigger] p0[j].0 < val by {
                assert(mid[j - a2] == p0[j]);
            }
            if b2 > 0 {
                assert(mid[b2 as int - 1] == p0[a2 as int + b2 as int - 1]);
            }
            lemma_q_restore_max(p0, w0, self.win(), idx, a2 as int, b2 as int, val, cutoff);
            assert(self.win() =~= old(self).win());
        }
    }

    /// Append a sample; once the window is full, each push evicts the
    /// oldest sample. Amortized O(1): the running sums are adjusted and the
    /// two monotonic deques are trimmed, never rescanned.
    pub fn push(&mut self, val: u32)
        requires
            old(self).wf(),
            old(self).pushes() < u64::MAX,
        ensures
            final(self).wf(),
            final(self).spec_cap() == old(self).spec_cap(),
            final(self).pushes() == old(self).pushes() + 1,
            final(self).win() == if old(self).win().len() < old(self).spec_cap() {
                old(self).win().push(val)
            } else {
                old(self).win().drop_first().push(val)
            },
    {
        let ghost o = *self;
        let idx: u64 = self.ring_insert(val);
        let cutoff: u64 = if idx >= (self.cap as u64) - 1 {
            idx - ((self.cap as u64) - 1)
        } else {
            0
        };
        let ghost nw = self.win();
        let ghost lo_o = o.pushes() - o.win().len();
        let ghost lo_n = self.pushes() - nw.len();
        proof {
            assert(lo_n == cutoff as int);
            assert(lo_o <= lo_n);
            assert(nw.last() == val);
            assert forall|u: int| #![trigger o.win()[u]]
                lo_n - lo_o <= u < o.win().len() implies o.win()[u] == nw[u + lo_o - lo_n] by {
                if o.win().len() < o.spec_cap() {
                    assert(nw[u] == o.win().push(val)[u]);
                } else {
                    assert(nw[u - 1] == o.win().drop_first().push(val)[u - 1]);
                    assert(o.win().drop_first()[u - 1] == o.win()[u]);
                }
            }
        }
        self.minq_insert(val, idx, cutoff, Ghost(o.win()));
        self.maxq_insert(val, idx, cutoff, Ghost(o.win()));
        proof {
            assert(self.win() =~= nw);
            assert(self.wf());
        }
    }

    /// A well-formed window never outgrows `MAX_WINDOW_SIZE`.
    pub proof fn lemma_wf_bounds(&self)
        requires
            self.wf(),
        ensures
            self.win().len() <= self.spec_cap() <= MAX_WINDOW_SIZE,
    {
    }

    /// Capacity of the window.
    pub fn maxlen(&self) -> (r: usize)
        requires
            self.wf(),
        ensures
            r == self.spec_cap(),
    {
        self.cap
    }

    /// Reset the window to the empty state; the capacity is kept.
    pub fn clear(&mut self)
        requires
            old(self).wf(),
        ensures
            final(self).wf(),
            final(self).spec_cap() == old(self).spec_cap(),
            final(self).win() == Seq::<u32>::empty(),
            final(self).pushes() == 0,
    {
        self.head = 0;
        self.len = 0;
        self.sum = 0;
        self.sum_sq = 0;
        self.minq.clear();
        self.maxq.clear();
        self.index = 0;
        proof {
            assert(self.win() =~= Seq::<u32>::empty());
            assert(self.minq@ =~= Seq::<(u32, u64)>::empty());
            assert(self.maxq@ =~= Seq::<(u32, u64)>::empty());
            assert(self.wf());
        }
    }

    /// The sample most recently pushed; an error when the window is empty.
    pub fn last(&self) -> (r: Result<u32, String>)
        requires
            self.wf(),
        ensures
            match r {
                Ok(v) => self.win().len() > 0 && v == self.win().last(),
                Err(_) => self.win().len() == 0,
            },
    {
        if self.len == 0 {
            return Err(no_samples_message());
        }
        let pos: usize = if self.head == 0 {
            self.cap - 1
        } else {
            self.head - 1
        };
        proof {
            assert(self.slot_of(self.win().len() - 1) == pos as int);
        }
        Ok(self.buf[pos])
    }

    /// The mean of the live window, as the exact ratio
    /// (sum of samples) / (number of samples); an error when empty.
    pub fn mean(&self) -> (r: Result<Ratio, String>)
        requires
            self.wf(),
        ensures
            match r {
                Ok(m) => {
                    &&& self.win().len() > 0
                    &&& m.num == seq_sum(self.win())
                    &&& m.den == self.win().len()
                },
                Err(_) => self.win().len() == 0,
            },
    {
        if self.len == 0 {
            return Err(no_samples_message());
        }
        proof {
            lemma_window_sum_bounds(self.win());
        }
        Ok(Ratio { num: self.sum, den: self.len as u64 })
    }

    /// The mean (as an exact ratio), minimum and maximum of the live
    /// window; an error when empty. The extrema are read off the fronts of
    /// the monotonic deques in O(1).
    pub fn mean_min_max(&self) -> (r: Result<(Ratio, u32, u32), String>)
        requires
            self.wf(),
        ensures
            match r {
                Ok((m, mi, ma)) => {
                    &&& self.win().len() > 0
                    &&& m.num == seq_sum(self.win())
                    &&& m.den == self.win().len()
                    &&& mi == seq_min(self.win())
                    &&& ma == seq_max(self.win())
                },
                Err(_) => self.win().len() == 0,
            },
    {
        if self.len == 0 {
            return Err(no_samples_message());
        }
        proof {
            lemma_window_sum_bounds(self.win());
            let w = self.win();
            let lo = self.pushes() - w.len();
            lemma_min_max_in_window(w);
            assert(q_covers(self.minq@, w, self.pushes(), 0, true));
            assert(q_covers(self.maxq@, w, self.pushes(), 0, false));
            let jm: int = choose|j: int| 0 <= j < w.len() && w[j] == seq_min(w);
            assert(q_covers(self.minq@, w, self.pushes(), jm, true));
            let k: int = choose|k: int|
                0 <= k < self.minq@.len() && jm + lo <= self.minq@[k].1 && self.minq@[k].0 <= w[jm];
            assert(self.minq@[0].0 <= self.minq@[k].0);
            assert(self.minq@[0].0 == w[self.minq@[0].1 - lo]);
            assert(self.minq@[0].0 == seq_min(w));
            let jx: int = choose|j: int| 0 <= j < w.len() && w[j] == seq_max(w);
            assert(q_covers(self.maxq@, w, self.pushes(), jx, false));
            let kx: int = choose|k: int|
                0 <= k < self.maxq@.len() && jx + lo <= self.maxq@[k].1 && self.maxq@[k].0 >= w[jx];
            assert(self.maxq@[0].0 >= self.maxq@[kx].0);
            assert(self.maxq@[0].0 == w[self.maxq@[0].1 - lo]);
            assert(self.maxq@[0].0 == seq_max(w));
        }
        let mi: u32 = self.minq[0].0;
        let ma: u32 = self.maxq[0].0;
        Ok((Ratio { num: self.sum, den: self.len as u64 }, mi, ma))
    }

    /// The population variance of the live window, as the exact ratio
    /// (n * sum of squares - square of sum) / n^2; an error when empty.
    /// The numerator is clamped at zero, as the spec formula demands.
    pub fn variance(&self) -> (r: Result<Ratio, String>)
        requires
            self.wf(),
        ensures
            match r {
                Ok(v) => {
                    &&& self.win().len() > 0
                    &&& v.num == variance_num(self.win())
                    &&& v.den == self.win().len() * self.win().len()
                },
                Err(_) => self.win().len() == 0,
            },
    {
        if self.len == 0 {
            return Err(no_samples_message());
        }
        proof {
            lemma_window_sum_bounds(self.win());
            lemma_len_products(self.len as int, seq_sum(self.win()), seq_sum_sq(self.win()));
        }
        let l: u128 = self.len as u128;
        let prod: u128 = l * self.sum_sq;
        let sq: u128 = self.sum * self.sum;
        let num: u128 = if prod >= sq {
            prod - sq
        } else {
            0
        };
        Ok(Ratio { num, den: (self.len as u64) * (self.len as u64) })
    }

    /// The sample variance (Bessel, divisor n-1) of the last `n` pushes, as
    /// the exact ratio (n * sum of squares - square of sum) / (n * (n - 1)),
    /// found by scanning backwards through the ring. `n == 1` yields zero;
    /// an empty window or `n` outside `1 ..= len` is an error.
    pub fn variance_n(&self, n: usize) -> (r: Result<Ratio, String>)
        requires
            self.wf(),
        ensures
            match r {
                Ok(v) => {
                    &&& self.win().len() > 0
                    &&& 1 <= n <= self.win().len()
                    &&& v.num == variance_num(
                        self.win().subrange(self.win().len() - n, self.win().len() as int),
                    )
                    &&& v.den == if n == 1 {
                        1int
                    } else {
                        n * (n - 1)
                    }
                },
                Err(_) => self.win().len() == 0 || n < 1 || n > self.win().len(),
            },
    {
        if self.len == 0 {
            return Err(no_samples_message());
        }
        if n == 1 {
            proof {
                reveal_with_fuel(seq_sum, 2);
                reveal_with_fuel(seq_sum_sq, 2);
                let t = self.win().subrange(self.win().len() - 1, self.win().len() as int);
                assert(t.len() == 1);
                assert(t.drop_last() =~= Seq::<u32>::empty());
                assert(seq_sum(t) == t[0]);
                assert(seq_sum_sq(t) == t[0] * t[0]);
                assert(variance_num(t) == 0);
            }
            return Ok(Ratio { num: 0, den: 1 });
        }
        if n < 1 || n > self.len {
            return Err(invalid_sample_count_message());
        }
        let ghost w = self.win();
        let mut pos: usize = self.head;
        let mut subsum: u128 = 0;
        let mut subsq: u128 = 0;
        let mut i: usize = 0;
        while i < n
            invariant
                self.wf(),
                1 <= n <= self.win().len(),
                i <= n,
                w == self.win(),
                pos as int == self.slot_of(w.len() - i),
                0 <= pos < self.spec_cap(),
                subsum == seq_sum(w.subrange(w.len() - i, w.len() as int)),
                subsq == seq_sum_sq(w.subrange(w.len() - i, w.len() as int)),
            decreases n - i,
        {
            pos = if pos == 0 {
                self.cap - 1
            } else {
                pos - 1
            };
            proof {
                assert(pos as int == self.slot_of(w.len() - i - 1));
            }
            let v: u32 = self.buf[pos];
            proof {
                let prev = w.subrange(w.len() - i, w.len() as int);
                let cur = w.subrange(w.len() - i - 1, w.len() as int);
                assert(v == w[w.len() - i - 1]);
                assert(cur[0] == v);
                lemma_sum_drop_first(cur);
                assert(cur.drop_first() =~= prev);
                lemma_window_sum_bounds(cur);
                lemma_square_bound(v);
            }
            subsum = subsum + v as u128;
            subsq = subsq + (v as u128) * (v as u128);
            i = i + 1;
        }
        let ghost t = w.subrange(w.len() - n, w.len() as int);
        proof {
            lemma_window_sum_bounds(t);
            lemma_len_products(n as int, seq_sum(t), seq_sum_sq(t));
            assert((n as int) * ((n as int) - 1) <= 0x1_0000_0000_0000) by (nonlinear_arith)
                requires
                    2 <= n <= 0x100_0000,
            ;
        }
        let prod: u128 = (n as u128) * subsq;
        let sq: u128 = subsum * subsum;
        let num: u128 = if prod >= sq {
            prod - sq
        } else {
            0
        };
        Ok(Ratio { num, den: (n as u64) * ((n as u64) - 1) })
    }

    /// The standard deviation of the live window, rounded down to whole
    /// microseconds: the floor of the square root of the population
    /// variance. An error when the window is empty.
    pub fn stdev(&self) -> (r: Result<u64, String>)
        requires
            self.wf(),
        ensures
            match r {
                Ok(v) => {
                    &&& self.win().len() > 0
                    &&& (v * v) * (self.win().len() * self.win().len()) <= variance_num(self.win())
                    &&& ((v + 1) * (v + 1)) * (self.win().len() * self.win().len()) > variance_num(
                        self.win(),
                    )
                },
                Err(_) => self.win().len() == 0,
            },
    {
        let v: Ratio = match self.variance() {
            Ok(v) => v,
            Err(e) => {
                return Err(e);
            },
        };
        proof {
            assert(v.den >= 1) by (nonlinear_arith)
                requires
                    v.den == self.win().len() * self.win().len(),
                    self.win().len() >= 1,
            ;
        }
        let q: u128 = v.num / (v.den as u128);
        let s: u128 = isqrt_u128(q);
        proof {
            lemma_floor_sqrt_of_ratio(v.num as int, v.den as int, s as int);
        }
        Ok(s as u64)
    }

    /// The sample standard deviation (Bessel, divisor n-1) of the last
    /// `n` pushes, rounded down to whole microseconds. `n == 1` yields
    /// zero; an empty window or `n` outside `1 ..= len` is an error.
    pub fn stdev_n(&self, n: usize) -> (r: Result<u64, String>)
        requires
            self.wf(),
        ensures
            match r {
                Ok(v) => {
                    &&& self.win().len() > 0
                    &&& 1 <= n <= self.win().len()
                    &&& ({
                        let num = variance_num(
                            self.win().subrange(self.win().len() - n, self.win().len() as int),
                        );
                        let den = if n == 1 {
                            1int
                        } else {
                            n * (n - 1)
                        };
                        (v * v) * den <= num && ((v + 1) * (v + 1)) * den > num
                    })
                },
                Err(_) => self.win().len() == 0 || n < 1 || n > self.win().len(),
            },
    {
        let v: Ratio = match self.variance_n(n) {
            Ok(v) => v,
            Err(e) => {
                return Err(e);
            },
        };
        proof {
            if n > 1 {
                assert(v.den >= 1) by (nonlinear_arith)
                    requires
                        v.den == n * (n - 1),
                        n >= 2,
                ;
            }
        }
        let q: u128 = v.num / (v.den as u128);
        let s: u128 = isqrt_u128(q);
        proof {
            lemma_floor_sqrt_of_ratio(v.num as int, v.den as int, s as int);
        }
        Ok(s as u64)
    }
}

/// The error value returned when a sample count is out of range.
fn invalid_sample_count_message() -> (r: String)
    ensures
        r@ == "invalid sample count"@,
{
    let s: String = String::from_str("invalid sample count")
;
    s
}

/// Numerator of the population variance of `s` over the denominator

/// `s.len() * s.len()`, clamped at zero.
pub open spec fn variance_num(s: Seq<u32>) -> int {
    if s.len() * seq_sum_sq(s) >= seq_sum(s) * seq_sum(s) {
        s.len() * seq_sum_sq(s) - seq_sum(s) * seq_sum(s)
    } else {
        0
    }
}

/// Bounds on the products appearing in the variance computation, for a
/// window of at most `MAX_WINDOW_SIZE` samples.
proof fn lemma_len_products(l: int, s: int, s2: int)
    requires
        0 < l <= MAX_WINDOW_SIZE,
        0 <= s <= l * 0xffff_ffff,
        0 <= s2 <= l * 0xffff_fffe_0000_0001,
    ensures
        0 <= l * s2 < 0x1_0000_0000_0000_0000_0000_0000_0000,
        0 <= s * s < 0x1_0000_0000_0000_0000_0000_0000_0000,
        0 <= l * l <= 0x1_0000_0000_0000,
{
    assert(0 <= l * s2 < 0x1_0000_0000_0000_0000_0000_0000_0000) by (nonlinear_arith)
        requires
            0 < l <= 0x100_0000,
            0 <= s2 <= l * 0xffff_fffe_0000_0001,
    ;
    assert(0 <= s * s < 0x1_0000_0000_0000_0000_0000_0000_0000) by (nonlinear_arith)
        requires
            0 < l <= 0x100_0000,
            0 <= s <= l * 0xffff_ffff,
    ;
    assert(0 <= l * l <= 0x1_0000_0000_0000) by (nonlinear_arith)
        requires
            0 < l <= 0x100_0000,
    ;
}

/// Sum of the squared scaled deviations `(n * x - t)^2` over the samples
/// `x` of a window.
pub open spec fn seq_scaled_dev_sq(s: Seq<u32>, n: int, t: int) -> int
    decreases s.len(),
{
    if s.len() == 0 {
        0
    } else {
        seq_scaled_dev_sq(s.drop_last(), n, t) + (n * s.last() - t) * (n * s.last() - t)
    }
}

proof fn lemma_scaled_dev_expand(s: Seq<u32>, n: int, t: int)
    ensures
        seq_scaled_dev_sq(s, n, t) == n * n * seq_sum_sq(s) - 2 * n * t * seq_sum(s) + s.len() * t
            * t,
    decreases s.len(),
{
    if s.len() > 0 {
        lemma_scaled_dev_expand(s.drop_last(), n, t);
        let x = s.last() as int;
        let prev = seq_scaled_dev_sq(s.drop_last(), n, t);
        let sp = seq_sum(s.drop_last());
        let s2p = seq_sum_sq(s.drop_last());
        let l = s.drop_last().len() as int;
        assert(prev + (n * x - t) * (n * x - t) == n * n * (s2p + x * x) - 2 * n * t * (sp + x) + (
        l + 1) * t * t) by (nonlinear_arith)
            requires
                prev == n * n * s2p - 2 * n * t * sp + l * t * t,
        ;
    }
}

proof fn lemma_scaled_dev_nonneg(s: Seq<u32>, n: int, t: int)
    ensures
        seq_scaled_dev_sq(s, n, t) >= 0,
    decreases s.len(),
{
    if s.len() > 0 {
        lemma_scaled_dev_nonneg(s.drop_last(), n, t);
        let d = n * s.last() - t;
        assert(d * d >= 0) by (nonlinear_arith);
    }
}

/// The exact variance law: the reported population variance, the ratio
/// `variance_num(s) / len^2`, equals the mean squared deviation
/// `(sum of (x - mean)^2) / len`. Stated over integers with the mean
/// scaled by `len`: `len * variance_num(s)` is the sum of the squared
/// scaled deviations `(len * x - sum)^2`. The zero clamp inside
/// `variance_num` never takes effect: the numerator is non-negative.
pub proof fn lemma_variance_is_mean_squared_deviation(s: Seq<u32>)
    requires
        s.len() > 0,
    ensures
        s.len() * seq_sum_sq(s) - seq_sum(s) * seq_sum(s) >= 0,
        variance_num(s) == s.len() * seq_sum_sq(s) - seq_sum(s) * seq_sum(s),
        s.len() * variance_num(s) == seq_scaled_dev_sq(s, s.len() as int, seq_sum(s)),
{
    let n = s.len() as int;
    let sum = seq_sum(s);
    let s2 = seq_sum_sq(s);
    lemma_scaled_dev_expand(s, n, sum);
    lemma_scaled_dev_nonneg(s, n, sum);
    assert(n * n * s2 - 2 * n * sum * sum + s.len() * sum * sum == n * (n * s2 - sum * sum))
        by (nonlinear_arith)
        requires
            n == s.len(),
    ;
    assert(n * (n * s2 - sum * sum) >= 0 && n > 0 ==> n * s2 - sum * sum >= 0)
        by (nonlinear_arith);
    assert(n * variance_num(s) == seq_scaled_dev_sq(s, n, sum)) by (nonlinear_arith)
        requires
            n * s2 - sum * sum >= 0,
            variance_num(s) == n * s2 - sum * sum,
            seq_scaled_dev_sq(s, n, sum) == n * (n * s2 - sum * sum),
    ;
}

/// `r` is the integer square root of `q`: the largest integer whose
/// square does not exceed `q`.
pub open spec fn is_floor_sqrt(q: int, r: int) -> bool {
    &&& r >= 0
    &&& r * r <= q
    &&& (r + 1) * (r + 1) > q
}

/// The integer square root of `q`, by binary search.
fn isqrt_u128(q: u128) -> (r: u128)
    ensures
        is_floor_sqrt(q as int, r as int),
        r < 0x1_0000_0000_0000_0000,
{
    let mut lo: u128 = 0;
    let mut hi: u128 = 0x1_0000_0000_0000_0000;
    while hi - lo > 1
        invariant
            0 <= lo < hi <= 0x1_0000_0000_0000_0000,
            (lo as int) * (lo as int) <= q,
            (hi as int) * (hi as int) > q,
        decreases hi - lo,
    {
        let mid: u128 = lo + (hi - lo) / 2;
        proof {
            assert((mid as int) * (mid as int) < 0x1_0000_0000_0000_0000_0000_0000_0000_0000int)
                by (nonlinear_arith)
                requires
                    0 <= mid < 0x1_0000_0000_0000_0000,
            ;
        }
        if mid * mid <= q {
            lo = mid;
        } else {
            hi = mid;
        }
    }
    lo
}

/// The floor square root of the exact ratio `num / den` is the integer
/// square root of the rounded-down quotient.
proof fn lemma_floor_sqrt_of_ratio(num: int, den: int, r: int)
    requires
        num >= 0,
        den > 0,
        is_floor_sqrt(num / den, r),
    ensures
        r * r * den <= num,
        (r + 1) * (r + 1) * den > num,
{
    let f = num / den;
    vstd::arithmetic::div_mod::lemma_fundamental_div_mod(num, den);
    vstd::arithmetic::div_mod::lemma_mod_bound(num, den);
    assert(r * r * den <= num) by (nonlinear_arith)
        requires
            r * r <= f,
            den > 0,
            num == den * f + num % den,
            num % den >= 0,
    ;
    assert((r + 1) * (r + 1) * den > num) by (nonlinear_arith)
        requires
            (r + 1) * (r + 1) > f,
            den > 0,
            num == den * f + num % den,
            num % den < den,
    ;
}

/// The error value returned by queries on an empty window.
fn no_samples_message() -> (r: String)
    ensures
        r@ == "no samples"@,
{
    let s: String = String::from_str("no samples");
    s
}

} // verus!
