use mping::engine::{clamp_interval_us, clamp_timeout_us, make_targets};
use mping::rolling::LatencyWindow;
use mping::history::{PacketHistory, PacketRecord};
use mping::ipspec::{parse_ip, IpAddress};
use mping::pinger::{randomize_prefix, tick_period_us, PingerSchedule, TickAction};
use mping::snapshot::{HistorySnapshot, StatsSnapshot};
use mping::target::{PingOutcome, PingStatus, PingTarget};

const INTERVAL_US: u64 = 1_000_000;

/// Run `ticks` pings against `target`, each answered by `reply`, with the
/// engine clock starting at `start_us`.
fn drive<F: Fn(u64) -> PingOutcome>(
    target: &mut PingTarget,
    sched: &mut PingerSchedule,
    start_us: u64,
    ticks: u64,
    reply: F,
) -> u64 {
    let mut now: u64 = start_us;
    let mut fired: u64 = 0;
    while fired < ticks {
        match sched.on_tick(false, target.is_paused(), now) {
            TickAction::Send => {
                let seq = target.prepare_send(now);
                let rec = PacketRecord::new(seq, now);
                target.update_stats(reply(fired), rec);
                fired += 1;
            }
            TickAction::Skip => {}
            TickAction::Quit => unreachable!(),
        }
        now += 200_000;
    }
    now
}

fn new_target() -> PingTarget {
    PingTarget::new(parse_ip("10.0.0.1").unwrap(), 3600, 100)
}

#[test]
fn test_reachable_target() {
    // Single reachable target, 10 ticks, always replies after 5 ms.
    let mut t = new_target();
    let mut sched = PingerSchedule::new(INTERVAL_US, 0);
    drive(&mut t, &mut sched, 0, 10, |_| PingOutcome::Reply(5000));
    assert_eq!(t.sent, 10);
    assert_eq!(t.recv, 10);
    assert!(matches!(t.status, PingStatus::Up));
    assert_eq!(t.status.label(), "OK");
    let snap = StatsSnapshot::new_from(&t);
    let mean = snap.mean.unwrap();
    assert_eq!(mean.num as f64 / mean.den as f64, 5000.0);
    assert_eq!(snap.min, Some(5000));
    assert_eq!(snap.max, Some(5000));
}

#[test]
fn test_unreachable_target() {
    // Always times out: after 11 ticks, no reply was ever counted and the
    // status has moved from Timeout to NotReachable.
    let mut t = new_target();
    let mut sched = PingerSchedule::new(INTERVAL_US, 0);
    drive(&mut t, &mut sched, 0, 11, |_| PingOutcome::TimedOut);
    assert_eq!(t.recv, 0);
    assert_eq!(t.sent, 11);
    assert!(matches!(t.status, PingStatus::NotReachable));
    assert_eq!(t.status.label(), "unreachable");
}

#[test]
fn test_flappy_target() {
    // Alternating replies and timeouts: at least 5 transitions among the
    // last 10 records.
    let mut t = new_target();
    let mut sched = PingerSchedule::new(INTERVAL_US, 0);
    drive(&mut t, &mut sched, 0, 20, |i| {
        if i % 2 == 0 {
            PingOutcome::Reply(4000)
        } else {
            PingOutcome::TimedOut
        }
    });
    assert!(t.recent.recent_transitions(10) >= 5);
    assert!(matches!(t.status, PingStatus::Flappy));
}

#[test]
fn test_lossy_target() {
    // Three of the last five packets lost, but no flapping: lossy.
    let mut t = new_target();
    let mut sched = PingerSchedule::new(INTERVAL_US, 0);
    drive(&mut t, &mut sched, 0, 30, |_| PingOutcome::Reply(4000));
    let now = drive(&mut t, &mut sched, 31_000_000, 4, |_| PingOutcome::TimedOut);
    drive(&mut t, &mut sched, now, 1, |_| PingOutcome::TimedOut);
    assert!(t.recent.recent_losses(5) >= 3);
    assert!(matches!(t.status, PingStatus::Lossy));
}

#[test]
fn test_laggy_target() {
    // A long history around 1 ms, then 10 replies at three times the
    // long-term mean: laggy.
    let mut t = new_target();
    let mut sched = PingerSchedule::new(INTERVAL_US, 0);
    let now = drive(&mut t, &mut sched, 0, 90, |_| PingOutcome::Reply(1000));
    drive(&mut t, &mut sched, now, 10, |_| PingOutcome::Reply(3000));
    assert!(matches!(t.status, PingStatus::Laggy));
    assert_eq!(t.status.label(), "laggy");
}

#[test]
fn test_pause_and_resume() {
    // While paused nothing is sent and the status shows Paused; after a
    // resume the next tick sends at once.
    let mut t = new_target();
    let mut sched = PingerSchedule::new(INTERVAL_US, 0);
    let now = drive(&mut t, &mut sched, 0, 5, |_| PingOutcome::Reply(2000));
    assert_eq!(t.sent, 5);

    t.set_paused(true);
    // An already-dispatched reply arriving while paused still counts, but
    // the status is forced to Paused.
    let seq = t.last_seq;
    t.update_stats(PingOutcome::Reply(2000), PacketRecord::new(seq, now));
    assert!(matches!(t.status, PingStatus::Paused));
    assert_eq!(t.status.label(), "paused");

    // Five paused ticks: no sends, the schedule tracks the clock.
    let mut now2 = now;
    for _ in 0..5 {
        let action = sched.on_tick(false, t.is_paused(), now2);
        assert_eq!(action, TickAction::Skip);
        now2 += INTERVAL_US;
    }
    assert_eq!(t.sent, 5);

    // Resume: the very next tick sends, within one interval.
    t.set_paused(false);
    let action = sched.on_tick(false, t.is_paused(), now2);
    assert_eq!(action, TickAction::Send);
    let seq = t.prepare_send(now2);
    t.update_stats(PingOutcome::Reply(2000), PacketRecord::new(seq, now2));
    assert_eq!(t.sent, 6);
    assert!(matches!(t.status, PingStatus::Up));
}

#[test]
fn test_two_targets_random_rtts() {
    // One IPv4 and one IPv6 target, 100 ticks each, round-trip times
    // drawn from [1 ms, 3 ms]: the aggregates stay inside the range.
    let addrs = vec![parse_ip("10.0.0.1").unwrap(), parse_ip("::1").unwrap()];
    let mut targets = make_targets(&addrs, 3600, 100);
    assert_eq!(targets.len(), 2);
    assert!(targets[0].addr.is_v4());
    assert!(!targets[1].addr.is_v4());
    let mut seed: u64 = 7;
    for t in targets.iter_mut() {
        let mut sched = PingerSchedule::new(INTERVAL_US, 0);
        let mut lo: u32 = u32::MAX;
        let mut hi: u32 = 0;
        let mut sum: u64 = 0;
        let mut now: u64 = 0;
        for _ in 0..100 {
            seed = seed
                .wrapping_mul(6364136223846793005)
                .wrapping_add(1442695040888963407);
            let rtt: u32 = 1000 + ((seed >> 33) as u32 % 2001);
            lo = lo.min(rtt);
            hi = hi.max(rtt);
            sum += rtt as u64;
            assert_eq!(sched.on_tick(false, false, now), TickAction::Send);
            let seq = t.prepare_send(now);
            t.update_stats(PingOutcome::Reply(rtt), PacketRecord::new(seq, now));
            now += INTERVAL_US;
        }
        assert_eq!(t.sent, 100);
        assert_eq!(t.recv, 100);
        assert!(t.recv <= t.sent);
        let snap = StatsSnapshot::new_from(t);
        assert_eq!(snap.min, Some(lo));
        assert_eq!(snap.max, Some(hi));
        let mean = snap.mean.unwrap();
        assert_eq!(mean.num, sum as u128);
        assert_eq!(mean.den, 100);
        let m = mean.num as f64 / mean.den as f64;
        assert!(m >= 1000.0 && m <= 3000.0);
    }
}

#[test]
fn test_error_status() {
    let mut t = new_target();
    let seq = t.prepare_send(0);
    t.update_stats(
        PingOutcome::Failed(String::from("socket closed")),
        PacketRecord::new(seq, 0),
    );
    assert!(matches!(t.status, PingStatus::Error(_)));
    assert_eq!(t.status.label(), "error");
    let snap = StatsSnapshot::new_from(&t);
    assert_eq!(snap.error.as_deref(), Some("socket closed"));
}

#[test]
fn test_recv_never_exceeds_sent() {
    let mut t = new_target();
    let mut sched = PingerSchedule::new(INTERVAL_US, 0);
    let mut now: u64 = 0;
    for i in 0..50u64 {
        assert_eq!(sched.on_tick(false, false, now), TickAction::Send);
        let seq = t.prepare_send(now);
        let outcome = if i % 3 == 0 {
            PingOutcome::TimedOut
        } else {
            PingOutcome::Reply(1500)
        };
        t.update_stats(outcome, PacketRecord::new(seq, now));
        assert!(t.recv <= t.sent);
        now += INTERVAL_US;
    }
}

#[test]
fn test_quit_action() {
    let mut sched = PingerSchedule::new(INTERVAL_US, 500);
    let before = sched;
    assert_eq!(sched.on_tick(true, false, 99_000_000), TickAction::Quit);
    assert_eq!(sched, before);
}

#[test]
fn test_clamps() {
    assert_eq!(clamp_interval_us(5_000), 10_000);
    assert_eq!(clamp_interval_us(1_000_000), 1_000_000);
    assert_eq!(clamp_interval_us(20_000_000), 10_000_000);
    assert_eq!(clamp_timeout_us(2_000_000, 1_000_000), 2_000_000);
    assert_eq!(clamp_timeout_us(9_000_000, 10_000_000), 5_000_000);
    assert_eq!(clamp_timeout_us(1_000, 1_000_000), 10_000);
    // The in-flight bound: the timeout never exceeds four intervals.
    let t = clamp_timeout_us(5_000_000, 300_000);
    assert_eq!(t, 1_200_000);
    assert!(t <= 4 * 300_000);
}

#[test]
fn test_tick_period() {
    assert_eq!(tick_period_us(1_000_000), 200_000);
    assert_eq!(tick_period_us(50_000), 50_000);
}

#[test]
fn test_randomize_prefix_keeps_suffix() {
    let mut payload: Vec<u8> = vec![7u8; 40];
    randomize_prefix(&mut payload, 32);
    assert_eq!(payload.len(), 40);
    assert_eq!(&payload[32..], &[7u8; 8][..]);
}

#[test]
fn test_history_queries() {
    let mut h = PacketHistory::new(10);
    assert_eq!(h.loss().num, 0);
    assert_eq!(h.loss().den, 1);
    assert!(h.mean(None).is_err());
    assert!(h.min().is_err());
    assert!(h.timespan().is_err());

    h.push(PacketRecord::new(0, 100).with_rtt(1000));
    h.push(PacketRecord::new(1, 200));
    h.push(PacketRecord::new(2, 300).with_rtt(3000));
    h.push(PacketRecord::new(3, 450).with_rtt(2000));

    // loss = 1 lost of 4
    let loss = h.loss();
    assert_eq!((loss.num, loss.den), (1, 4));
    assert!(loss.num <= loss.den as u128);
    assert_eq!(h.recent_losses(2), 0);
    assert_eq!(h.recent_losses(3), 1);
    // transitions over the last 4: reply,loss,reply,reply -> 2
    assert_eq!(h.recent_transitions(4), 2);
    assert_eq!(h.recent_transitions(2), 0);
    assert_eq!(h.min().unwrap(), 1000);
    assert_eq!(h.max().unwrap(), 3000);
    let mean = h.mean(None).unwrap();
    assert_eq!((mean.num, mean.den), (6000, 3));
    let mean2 = h.mean(Some(2)).unwrap();
    assert_eq!((mean2.num, mean2.den), (5000, 2));
    assert!(h.mean(Some(5)).is_err());
    assert_eq!(h.timespan().unwrap(), 350);

    // Eviction at capacity keeps the newest records.
    let mut h2 = PacketHistory::new(2);
    h2.push(PacketRecord::new(1, 1).with_rtt(10));
    h2.push(PacketRecord::new(2, 2).with_rtt(20));
    h2.push(PacketRecord::new(3, 3).with_rtt(30));
    assert_eq!(h2.len(), 2);
    assert_eq!(h2.first().unwrap().seq, 2);
    assert_eq!(h2.last().unwrap().seq, 3);
}

#[test]
fn test_mark_received() {
    let mut rec = PacketRecord::new(9, 1_000);
    assert!(!rec.has_response());
    assert!(rec.rtt().is_err());
    rec.mark_received(3_500);
    assert_eq!(rec.rtt().unwrap(), 2_500);
    let mut rec2 = PacketRecord::new(10, 5_000);
    rec2.mark_received(4_000);
    assert_eq!(rec2.rtt().unwrap(), 0);
    rec2.set_rtt(77);
    assert_eq!(rec2.rtt().unwrap(), 77);
}

#[test]
fn test_history_snapshot_gaps() {
    let mut h = PacketHistory::new(100);
    h.push(PacketRecord::new(1, 1).with_rtt(10));
    h.push(PacketRecord::new(2, 2).with_rtt(10));
    h.push(PacketRecord::new(3, 3).with_rtt(10));
    let snap = HistorySnapshot::new_from(&h);
    assert!(!snap.gaps_in_seqs);
    assert!(!snap.last_out_of_order);
    assert_eq!(snap.start_seq, 1);
    assert_eq!(snap.end_seq, 3);

    h.push(PacketRecord::new(7, 4).with_rtt(10));
    let snap = HistorySnapshot::new_from(&h);
    assert!(snap.gaps_in_seqs);

    // Wrap-around 65535 -> 0 is not a gap.
    let mut h2 = PacketHistory::new(100);
    h2.push(PacketRecord::new(65535, 1).with_rtt(10));
    h2.push(PacketRecord::new(0, 2).with_rtt(10));
    let snap2 = HistorySnapshot::new_from(&h2);
    assert!(!snap2.gaps_in_seqs);

    // Reversed newest pair is flagged.
    let mut h3 = PacketHistory::new(100);
    h3.push(PacketRecord::new(5, 1).with_rtt(10));
    h3.push(PacketRecord::new(4, 2).with_rtt(10));
    let snap3 = HistorySnapshot::new_from(&h3);
    assert!(snap3.last_out_of_order);
}

#[test]
fn test_snapshot_loss() {
    let mut t = new_target();
    let mut sched = PingerSchedule::new(INTERVAL_US, 0);
    let snap = StatsSnapshot::new_from(&t);
    let loss = snap.loss();
    assert_eq!((loss.num, loss.den), (0, 1));
    let now = drive(&mut t, &mut sched, 0, 3, |_| PingOutcome::Reply(900));
    drive(&mut t, &mut sched, now, 1, |_| PingOutcome::TimedOut);
    let snap = StatsSnapshot::new_from(&t);
    let loss = snap.loss();
    assert_eq!((loss.num, loss.den), (1, 4));
    assert_eq!(snap.latest_seq, 3);
}

#[test]
fn test_sequence_numbers() {
    let mut t = new_target();
    for i in 0..5u16 {
        let seq = t.prepare_send(i as u64 * 100);
        assert_eq!(seq, i);
        assert_eq!(t.last_seq, i);
        assert_eq!(t.last_sent_at, Some(i as u64 * 100));
    }
    assert_eq!(t.sent, 5);
}

#[test]
fn test_status_labels() {
    assert_eq!(PingStatus::Up.label(), "OK");
    assert_eq!(PingStatus::Timeout.label(), "timeout");
    assert_eq!(PingStatus::NotReachable.label(), "unreachable");
    assert_eq!(PingStatus::Laggy.label(), "laggy");
    assert_eq!(PingStatus::Lossy.label(), "lossy");
    assert_eq!(PingStatus::Flappy.label(), "flapping");
    assert_eq!(PingStatus::Idle.label(), "-");
    assert_eq!(PingStatus::Paused.label(), "paused");
}

#[test]
fn test_schedule_with_id() {
    let (sched, _id) = PingerSchedule::new_with_id(INTERVAL_US, 123);
    assert_eq!(sched.interval_us, INTERVAL_US);
    assert_eq!(sched.next_ping_at, 123);
    // IPv4 helper used by the display layer.
    assert_eq!(
        IpAddress::v4_from_octets(10, 0, 0, 1),
        parse_ip("10.0.0.1").unwrap()
    );
}

#[test]
fn test_on_tick_cadence() {
    let mut sched = PingerSchedule::new(INTERVAL_US, 1_000_000);
    // Before the scheduled time nothing happens and nothing moves.
    assert_eq!(sched.on_tick(false, false, 999_999), TickAction::Skip);
    assert_eq!(sched.next_ping_at, 1_000_000);
    // At the scheduled time the send fires and the schedule advances by
    // exactly one interval, keeping the cadence independent of the tick.
    assert_eq!(sched.on_tick(false, false, 1_000_000), TickAction::Send);
    assert_eq!(sched.next_ping_at, 2_000_000);
    // A late tick still advances from the schedule, not from `now`.
    assert_eq!(sched.on_tick(false, false, 2_300_000), TickAction::Send);
    assert_eq!(sched.next_ping_at, 3_000_000);
}

#[test]
fn test_variance_matches_mean_squared_deviation() {
    let data: [u32; 6] = [1200, 1500, 900, 2200, 1800, 1500];
    let mut lw = LatencyWindow::new(16);
    for &v in data.iter() {
        lw.push(v);
    }
    let v = lw.variance().unwrap();
    let n = data.len() as f64;
    let mean: f64 = data.iter().map(|&x| x as f64).sum::<f64>() / n;
    let msd: f64 = data.iter().map(|&x| (x as f64 - mean) * (x as f64 - mean)).sum::<f64>() / n;
    let got: f64 = v.num as f64 / v.den as f64;
    assert!(((got - msd) / msd).abs() < 1e-12);
}
