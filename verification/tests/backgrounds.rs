use std::sync::atomic::Ordering;
use std::sync::Arc;
use bytes::Bytes;
use rand::rngs::StdRng;
use rand::SeedableRng;
use std::time::Instant;
use tickchaos::backgrounds::{
    send_tally, settle, ControlPlane, Dispatch, InFlight, Stats, Tally, DEFAULT_MAX_IN_FLIGHT,
};
use tickchaos::flows::Flow;
use tickchaos::scripts::{DropSeq, JitterDelay};
use tickchaos::{Duration, Effect, Packet, SeqNum};

#[test]
fn fresh_stats_have_zero_send_errors() {
    let stats = Stats::default();
    assert_eq!(stats.snapshot().send_errors, 0);
}

#[test]
fn send_errors_reflected_in_snapshot() {
    let stats = Stats::default();
    stats.send_errors.fetch_add(1, Ordering::Relaxed);
    assert_eq!(stats.snapshot().send_errors, 1);
}

#[test]
fn fresh_stats_have_zero_queue_overflows() {
    let stats = Stats::default();
    assert_eq!(stats.snapshot().queue_overflows, 0);
}

#[test]
fn queue_overflows_reflected_in_snapshot() {
    let stats = Stats::default();
    stats.queue_overflows.fetch_add(2, Ordering::Relaxed);
    assert_eq!(stats.snapshot().queue_overflows, 2);
}

#[test]
fn record_moves_exactly_the_named_counter() {
    let stats = Stats::default();
    for tally in [
        Tally::Forwarded,
        Tally::Dropped,
        Tally::Dropped,
        Tally::Delayed,
        Tally::Duplicated,
        Tally::SendError,
        Tally::QueueOverflow,
        Tally::QueueOverflow,
        Tally::QueueOverflow,
    ] {
        stats.record(tally);
    }
    let snapshot = stats.snapshot();
    assert_eq!(snapshot.forwarded, 1);
    assert_eq!(snapshot.dropped, 2);
    assert_eq!(snapshot.delayed, 1);
    assert_eq!(snapshot.duplicated, 1);
    assert_eq!(snapshot.send_errors, 1);
    assert_eq!(snapshot.queue_overflows, 3);
}

#[test]
fn control_plane_shares_the_proxy_counters() {
    let stats = Arc::new(Stats::default());
    let control = ControlPlane::new(Arc::clone(&stats));
    stats.record(Tally::Forwarded);
    assert!(Arc::ptr_eq(control.stats(), &stats));
    assert_eq!(control.stats().snapshot().forwarded, 1);
}

#[test]
fn send_outcome_is_counted_as_forward_or_error() {
    assert_eq!(send_tally(true), Tally::Forwarded);
    assert_eq!(send_tally(false), Tally::SendError);
}

#[test]
fn dispatch_follows_the_effect() {
    let hold = Duration::from_millis(3);
    let mut queue = InFlight::new(DEFAULT_MAX_IN_FLIGHT);
    assert_eq!(
        queue.dispatch(Effect::Forward),
        Dispatch {
            send_now: true,
            hold: None,
            tally: None
        }
    );
    assert_eq!(
        queue.dispatch(Effect::Drop),
        Dispatch {
            send_now: false,
            hold: None,
            tally: Some(Tally::Dropped)
        }
    );
    assert_eq!(
        queue.dispatch(Effect::DelayBy(hold)),
        Dispatch {
            send_now: false,
            hold: Some(hold),
            tally: Some(Tally::Delayed)
        }
    );
    assert_eq!(
        queue.dispatch(Effect::DuplicateAfter(hold)),
        Dispatch {
            send_now: true,
            hold: Some(hold),
            tally: Some(Tally::Duplicated)
        }
    );
    assert_eq!(queue.waiting(), 2);
}

#[test]
fn full_queue_counts_overflow_and_stays_bounded() {
    let hold = Duration::from_millis(1);
    let mut queue = InFlight::new(2);
    assert!(queue.dispatch(Effect::DelayBy(hold)).hold.is_some());
    assert!(queue.dispatch(Effect::DelayBy(hold)).hold.is_some());
    assert_eq!(
        queue.dispatch(Effect::DelayBy(hold)),
        Dispatch {
            send_now: false,
            hold: None,
            tally: Some(Tally::QueueOverflow)
        }
    );
    assert_eq!(
        queue.dispatch(Effect::DuplicateAfter(hold)),
        Dispatch {
            send_now: true,
            hold: None,
            tally: Some(Tally::QueueOverflow)
        }
    );
    assert_eq!(queue.waiting(), 2);
    queue.release();
    assert_eq!(queue.waiting(), 1);
    assert!(queue.dispatch(Effect::DelayBy(hold)).hold.is_some());
    assert_eq!(queue.waiting(), 2);
}

#[test]
fn release_on_an_empty_queue_keeps_it_empty() {
    let mut queue = InFlight::new(1);
    queue.release();
    assert_eq!(queue.waiting(), 0);
}

#[test]
fn default_cap_is_positive() {
    assert_eq!(DEFAULT_MAX_IN_FLIGHT, 65536);
}

#[test]
fn settle_drops_a_targeted_packet_and_parks_a_jittered_one() {
    let mut flow = Flow::new(vec![
        Box::new(DropSeq::new(vec![SeqNum(7)])),
        Box::new(
            JitterDelay::new(Duration::from_millis(3), Duration::from_millis(3)).unwrap(),
        ),
    ]);
    let mut in_flight = InFlight::new(1);
    let mut rng = StdRng::seed_from_u64(42);
    let mut targeted = Packet::new(Bytes::from_static(b"tick"), Instant::now());
    targeted.seqnum = Some(SeqNum(7));
    assert_eq!(
        settle(&mut flow, &mut in_flight, &targeted, &mut rng),
        Dispatch { send_now: false, hold: None, tally: Some(Tally::Dropped) }
    );
    assert_eq!(in_flight.waiting(), 0);

    let other = Packet::new(Bytes::from_static(b"tick"), Instant::now());
    assert_eq!(
        settle(&mut flow, &mut in_flight, &other, &mut rng),
        Dispatch {
            send_now: false,
            hold: Some(Duration::from_millis(3)),
            tally: Some(Tally::Delayed),
        }
    );
    assert_eq!(in_flight.waiting(), 1);
    assert_eq!(
        settle(&mut flow, &mut in_flight, &other, &mut rng),
        Dispatch { send_now: false, hold: None, tally: Some(Tally::QueueOverflow) }
    );
}
