use bytes::Bytes;
use rand::rngs::StdRng;
use rand::SeedableRng;
use std::time::Instant;
use tickchaos::scripts::jitter::inverted_range_message;
use tickchaos::scripts::{DropSeq, GapBurst, JitterDelay};
use tickchaos::{Duration, Effect, Operator, Packet, ProxyError, SeqNum};

fn packet_with_seqnum(seqnum: Option<SeqNum>) -> Packet {
    let mut packet = Packet::new(Bytes::from_static(b"tick"), Instant::now());
    packet.seqnum = seqnum;
    packet
}

fn decide_drop_seq(operator: &mut DropSeq, seqnum: Option<SeqNum>) -> Effect {
    let mut rng = StdRng::seed_from_u64(42);
    operator.decide(&packet_with_seqnum(seqnum), &mut rng)
}

#[test]
fn drops_exact_target() {
    let mut operator = DropSeq::new(vec![SeqNum(100), SeqNum(102)]);
    assert_eq!(decide_drop_seq(&mut operator, Some(SeqNum(100))), Effect::Drop);
    assert_eq!(decide_drop_seq(&mut operator, Some(SeqNum(102))), Effect::Drop);
}

#[test]
fn forwards_non_target() {
    let mut operator = DropSeq::new(vec![SeqNum(100)]);
    assert_eq!(decide_drop_seq(&mut operator, Some(SeqNum(99))), Effect::Forward);
    assert_eq!(decide_drop_seq(&mut operator, Some(SeqNum(101))), Effect::Forward);
}

#[test]
fn drop_seq_forwards_when_no_seqnum() {
    let mut operator = DropSeq::new(vec![SeqNum(100)]);
    assert_eq!(decide_drop_seq(&mut operator, None), Effect::Forward);
}

#[test]
fn empty_targets_forward_everything() {
    let mut operator = DropSeq::new(vec![]);
    assert_eq!(decide_drop_seq(&mut operator, Some(SeqNum(100))), Effect::Forward);
    assert_eq!(decide_drop_seq(&mut operator, None), Effect::Forward);
}

#[test]
fn decision_is_independent_of_rng_state() {
    let mut operator = DropSeq::new(vec![SeqNum(7)]);
    let mut rng = StdRng::seed_from_u64(1);
    let packet = packet_with_seqnum(Some(SeqNum(7)));
    for _ in 0..1000 {
        assert_eq!(operator.decide(&packet, &mut rng), Effect::Drop);
    }
}

#[test]
fn duplicate_targets_are_harmless() {
    let mut operator = DropSeq::new(vec![SeqNum(5), SeqNum(5), SeqNum(6)]);
    assert_eq!(decide_drop_seq(&mut operator, Some(SeqNum(5))), Effect::Drop);
    assert_eq!(decide_drop_seq(&mut operator, Some(SeqNum(6))), Effect::Drop);
    assert_eq!(decide_drop_seq(&mut operator, Some(SeqNum(7))), Effect::Forward);
    assert_eq!(operator.name(), "drop_seq");
}

const START: u64 = 1000;
const LEN: u32 = 50;

fn decide_gap(operator: &mut GapBurst, seqnum: Option<SeqNum>) -> Effect {
    let mut rng = StdRng::seed_from_u64(42);
    operator.decide(&packet_with_seqnum(seqnum), &mut rng)
}

fn burst() -> GapBurst {
    GapBurst::new(SeqNum(START), LEN)
}

#[test]
fn before_start_forwards() {
    assert_eq!(
        decide_gap(&mut burst(), Some(SeqNum(START - 1))),
        Effect::Forward
    );
}

#[test]
fn at_start_drops() {
    assert_eq!(decide_gap(&mut burst(), Some(SeqNum(START))), Effect::Drop);
}

#[test]
fn at_last_in_range_drops() {
    assert_eq!(
        decide_gap(&mut burst(), Some(SeqNum(START + u64::from(LEN) - 1))),
        Effect::Drop
    );
}

#[test]
fn after_range_forwards() {
    assert_eq!(
        decide_gap(&mut burst(), Some(SeqNum(START + u64::from(LEN)))),
        Effect::Forward
    );
}

#[test]
fn zero_len_drops_nothing() {
    let mut operator = GapBurst::new(SeqNum(START), 0);
    assert_eq!(decide_gap(&mut operator, Some(SeqNum(START))), Effect::Forward);
}

#[test]
fn gap_burst_forwards_when_no_seqnum() {
    assert_eq!(decide_gap(&mut burst(), None), Effect::Forward);
}

#[test]
fn range_ending_past_u64_max_drops_tail_without_overflow() {
    let mut operator = GapBurst::new(SeqNum(u64::MAX - 1), LEN);
    assert_eq!(decide_gap(&mut operator, Some(SeqNum(u64::MAX))), Effect::Drop);
    assert_eq!(
        decide_gap(&mut operator, Some(SeqNum(u64::MAX - 2))),
        Effect::Forward
    );
}

#[test]
fn burst_of_one_drops_exactly_its_start() {
    let mut operator = GapBurst::new(SeqNum(9), 1);
    assert_eq!(decide_gap(&mut operator, Some(SeqNum(8))), Effect::Forward);
    assert_eq!(decide_gap(&mut operator, Some(SeqNum(9))), Effect::Drop);
    assert_eq!(decide_gap(&mut operator, Some(SeqNum(10))), Effect::Forward);
    assert_eq!(operator.name(), "gap_burst");
}

fn jitter_decisions(min: Duration, max: Duration, seed: u64, count: usize) -> Vec<Effect> {
    let mut jitter = JitterDelay::new(min, max).unwrap();
    let mut rng = StdRng::seed_from_u64(seed);
    let packet = Packet::new(Bytes::from_static(b"tick"), Instant::now());
    (0..count)
        .map(|_| jitter.decide(&packet, &mut rng))
        .collect()
}

#[test]
fn min_eq_max_exact() {
    let exact = Duration::from_millis(7);
    assert!(jitter_decisions(exact, exact, 42, 100)
        .iter()
        .all(|effect| *effect == Effect::DelayBy(exact)));
}

#[test]
fn jitter_deterministic_per_seed() {
    let min = Duration::from_millis(1);
    let max = Duration::from_millis(5);
    assert_eq!(
        jitter_decisions(min, max, 42, 1000),
        jitter_decisions(min, max, 42, 1000)
    );
}

#[test]
fn invalid_range_rejected() {
    assert!(JitterDelay::new(Duration::from_millis(5), Duration::from_millis(1)).is_err());
}

#[test]
fn invalid_range_message_names_both_bounds() {
    let error = JitterDelay::new(Duration::from_millis(5), Duration::from_millis(1))
        .err()
        .unwrap();
    assert_eq!(
        error,
        ProxyError::Config("jitter min must not exceed max, got 5ms > 1ms".to_string())
    );
}

#[test]
fn delay_within_bounds() {
    for seed in 0..20u64 {
        for (min_ms, span_ms) in [(0u64, 0u64), (0, 49), (13, 7), (49, 49)] {
            let min = Duration::from_millis(min_ms);
            let max = Duration::from_millis(min_ms + span_ms);
            for effect in jitter_decisions(min, max, seed, 100) {
                match effect {
                    Effect::DelayBy(delay) => {
                        assert!(delay.as_nanos() >= min.as_nanos());
                        assert!(delay.as_nanos() <= max.as_nanos());
                    }
                    other => panic!("jitter must delay, got {other:?}"),
                }
            }
        }
    }
}

#[test]
fn inverted_range_message_joins_both_bounds() {
    assert_eq!(
        inverted_range_message("1.5s", "250µs"),
        "jitter min must not exceed max, got 1.5s > 250µs"
    );
}

#[test]
fn inverted_range_message_renders_sub_millisecond_bounds() {
    let error = JitterDelay::new(Duration::new(2, 500_000_000), Duration::from_nanos(750))
        .err()
        .unwrap();
    assert_eq!(
        error,
        ProxyError::Config("jitter min must not exceed max, got 2.5s > 750ns".to_string())
    );
}
