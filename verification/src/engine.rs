//! Engine-level rules: the interval and timeout clamps and the bound on
//! concurrent pings they guarantee, the construction of the target list,
//! and the reading of socket-construction failures.

use crate::history::MAX_HISTORY_SIZE;
use crate::ipspec::IpAddress;
use crate::rolling::MAX_WINDOW_SIZE;
use crate::target::PingTarget;
use crate::chars::chars_of;
use vstd::prelude::*;

verus! {

/// Smallest accepted ping interval, in microseconds (10 ms).
pub const INTERVAL_MIN_US: u64 = 10_000;

/// Largest accepted ping interval, in microseconds (10 s).
pub const INTERVAL_MAX_US: u64 = 10_000_000;

/// Smallest accepted ping timeout, in microseconds (10 ms).
pub const TIMEOUT_MIN_US: u64 = 10_000;

/// Largest accepted ping timeout, in microseconds (5 s).
pub const TIMEOUT_MAX_US: u64 = 5_000_000;

/// Most echo requests that may be outstanding per target at one time,
/// guaranteed by clamping the timeout to this many intervals.
pub const MAX_PENDING_PINGS: u64 = 4;

/// Clamp the ping interval into `INTERVAL_MIN_US ..= INTERVAL_MAX_US`.
pub fn clamp_interval_us(us: u64) -> (r: u64)
    ensures
        r == if us < INTERVAL_MIN_US {
            INTERVAL_MIN_US
        } else if us > INTERVAL_MAX_US {
            INTERVAL_MAX_US
        } else {
            us
        },
        INTERVAL_MIN_US <= r <= INTERVAL_MAX_US,
{
    if us < INTERVAL_MIN_US {
        INTERVAL_MIN_US
    } else if us > INTERVAL_MAX_US {
        INTERVAL_MAX_US
    } else {
        us
    }
}

/// Clamp the ping timeout into `TIMEOUT_MIN_US ..= TIMEOUT_MAX_US`, then
/// further down to `MAX_PENDING_PINGS` intervals, so that no more than
/// that many pings can be pending to one target.
pub fn clamp_timeout_us(us: u64, interval_us: u64) -> (r: u64)
    requires
        interval_us <= INTERVAL_MAX_US,
    ensures
        ({
            let base = if us < TIMEOUT_MIN_US {
                TIMEOUT_MIN_US as int
            } else if us > TIMEOUT_MAX_US {
                TIMEOUT_MAX_US as int
            } else {
                us as int
            };
            r == if base > MAX_PENDING_PINGS * interval_us {
                MAX_PENDING_PINGS * interval_us
            } else {
                base
            }
        }),
        r <= MAX_PENDING_PINGS * interval_us,
        r <= TIMEOUT_MAX_US,
{
    let base: u64 = if us < TIMEOUT_MIN_US {
        TIMEOUT_MIN_US
    } else if us > TIMEOUT_MAX_US {
        TIMEOUT_MAX_US
    } else {
        us
    };
    let limit: u64 = MAX_PENDING_PINGS * interval_us;
    if base > limit {
        limit
    } else {
        base
    }
}

/// With sends scheduled every `interval` and answered or abandoned within
/// `timeout <= MAX_PENDING_PINGS * interval`, no more than
/// `MAX_PENDING_PINGS` sends can be in flight at any instant: if the
/// `klo`-th send is still awaited at time `t` (dispatched after
/// `t - timeout`) while the `khi`-th send is already dispatched (at or
/// before `t`), then fewer than `MAX_PENDING_PINGS` sends lie between
/// them.
pub proof fn lemma_inflight_bound(
    interval: int,
    timeout: int,
    start: int,
    t: int,
    klo: int,
    khi: int,
)
    requires
        interval > 0,
        0 < timeout <= MAX_PENDING_PINGS * interval,
        start + klo * interval > t - timeout,
        start + khi * interval <= t,
    ensures
        khi - klo < MAX_PENDING_PINGS,
{
    assert((khi - klo) * interval < timeout) by (nonlinear_arith)
        requires
            start + klo * interval > t - timeout,
            start + khi * interval <= t,
    ;
    assert(khi - klo < MAX_PENDING_PINGS) by (nonlinear_arith)
        requires
            interval > 0,
            timeout <= MAX_PENDING_PINGS * interval,
            (khi - klo) * interval < timeout,
    ;
}

/// Create the per-target states for the given addresses, each with a
/// rolling window of `histsize` samples and a history of `detailed`
/// records.
pub fn make_targets(addrs: &Vec<IpAddress>, histsize: usize, detailed: usize) -> (r: Vec<
    PingTarget,
>)
    requires
        histsize <= MAX_WINDOW_SIZE,
        1 <= detailed <= MAX_HISTORY_SIZE,
    ensures
        r@.len() == addrs@.len(),
        forall|i: int|
            0 <= i < r@.len() ==> {
                &&& (#[trigger] r@[i]).wf()
                &&& r@[i].addr == addrs@[i]
                &&& r@[i].sent == 0
                &&& r@[i].recv == 0
                &&& !r@[i].paused
            },
{
    let mut targets: Vec<PingTarget> = Vec::new();
    let mut i: usize = 0;
    while i < addrs.len()
        invariant
            i <= addrs@.len(),
            targets@.len() == i,
            histsize <= MAX_WINDOW_SIZE,
            1 <= detailed <= MAX_HISTORY_SIZE,
            forall|j: int|
                0 <= j < i ==> {
                    &&& (#[trigger] targets@[j]).wf()
                    &&& targets@[j].addr == addrs@[j]
                    &&& targets@[j].sent == 0
                    &&& targets@[j].recv == 0
                    &&& !targets@[j].paused
                },
        decreases addrs@.len() - i,
    {
        targets.push(PingTarget::new(addrs[i], histsize, detailed));
        i = i + 1;
    }
    targets
}

/// `c` matches the lowercase pattern character `p`, ignoring ASCII case.
pub open spec fn ci_eq(c: char, p: char) -> bool {
    c == p || ('A' <= c && c <= 'Z' && c as u32 + 32 == p as u32)
}

/// The lowercase pattern `pat` occurs in `s` at position `i`, ignoring
/// ASCII case.
pub open spec fn matches_ci_at(s: Seq<char>, pat: Seq<char>, i: int) -> bool {
    &&& 0 <= i
    &&& i + pat.len() <= s.len()
    &&& forall|j: int| 0 <= j < pat.len() ==> ci_eq(s[i + j], #[trigger] pat[j])
}

/// The lowercase pattern `pat` occurs somewhere in `s`, ignoring ASCII
/// case.
pub open spec fn contains_ci(s: Seq<char>, pat: Seq<char>) -> bool {
    exists|i: int| #[trigger] matches_ci_at(s, pat, i)
}

/// Case-insensitive search for the lowercase pattern `pat` in `v`.
fn find_ci(v: &Vec<char>, pat: &Vec<char>) -> (r: bool)
    requires
        pat@.len() >= 1,
    ensures
        r == contains_ci(v@, pat@),
{
    let n: usize = v.len();
    let m: usize = pat.len();
    if m > n {
        proof {
            assert(forall|i: int| !matches_ci_at(v@, pat@, i));
        }
        return false;
    }
    let mut i: usize = 0;
    while i <= n - m
        invariant
            m == pat@.len() >= 1,
            n == v@.len(),
            m <= n,
            i <= n - m + 1,
            forall|t: int| 0 <= t < i ==> !matches_ci_at(v@, pat@, t),
        decreases n - m + 1 - i,
    {
        let mut j: usize = 0;
        let mut ok: bool = true;
        while j < m
            invariant
                m == pat@.len(),
                n == v@.len(),
                i + m <= n,
                j <= m,
                ok ==> forall|t: int| 0 <= t < j ==> ci_eq(v@[i + t], #[trigger] pat@[t]),
                !ok ==> !matches_ci_at(v@, pat@, i as int),
            decreases m - j,
        {
            let c: char = v[i + j];
            let p: char = pat[j];
            let hit: bool = c == p || (c >= 'A' && c <= 'Z' && (c as u32) + 32 == p as u32);
            proof {
                if hit {
                    assert(ci_eq(v@[i + j], pat@[j as int]));
                } else {
                    assert(!ci_eq(v@[i + j], pat@[j as int]));
                    assert(!matches_ci_at(v@, pat@, i as int));
                }
            }
            ok = ok && hit;
            j = j + 1;
        }
        if ok {
            proof {
                assert(matches_ci_at(v@, pat@, i as int));
            }
            return true;
        }
        i = i + 1;
    }
    proof {
        assert forall|t: int| !matches_ci_at(v@, pat@, t) by {
            if 0 <= t <= n - m {
                assert(!matches_ci_at(v@, pat@, t));
            }
        }
    }
    false
}

/// Whether a socket-construction failure reads as a permission problem:
/// its message contains "permission" or "permitted", ignoring ASCII case.
/// Such a failure is fatal and earns the remediation text.
pub fn is_permission_error(msg: &str) -> (r: bool)
    ensures
        r == (contains_ci(msg@, "permission"@) || contains_ci(msg@, "permitted"@)),
{
    let v: Vec<char> = chars_of(msg);
    proof {
        reveal_strlit("permission");
        reveal_strlit("permitted");
    }
    let p1: Vec<char> = chars_of("permission");
    let p2: Vec<char> = chars_of("permitted");
    find_ci(&v, &p1) || find_ci(&v, &p2)
}

} // verus!
