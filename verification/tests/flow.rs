use bytes::Bytes;
use rand::rngs::StdRng;
use rand::SeedableRng;
use std::sync::{Arc, Mutex};
use std::time::Instant;
use tickchaos::flows::Flow;
use tickchaos::scripts::{DropSeq, GapBurst, JitterDelay};
use tickchaos::{Duration, Effect, Operator, Packet, SeqNum};

struct StubOperator {
    name: &'static str,
    effect: Effect,
    calls: Option<Arc<Mutex<Vec<&'static str>>>>,
}

impl Operator for StubOperator {
    fn decide(&mut self, _packet: &Packet, _rng: &mut StdRng) -> Effect {
        if let Some(calls) = &self.calls {
            calls.lock().unwrap().push(self.name);
        }
        self.effect.clone()
    }

    fn name(&self) -> &'static str {
        self.name
    }
}

fn recording_stub(
    name: &'static str,
    effect: Effect,
    calls: &Arc<Mutex<Vec<&'static str>>>,
) -> Box<dyn Operator> {
    Box::new(StubOperator {
        name,
        effect,
        calls: Some(Arc::clone(calls)),
    })
}

fn packet() -> Packet {
    Packet::new(Bytes::from_static(b"tick"), Instant::now())
}

fn rng() -> StdRng {
    StdRng::seed_from_u64(42)
}

#[test]
fn empty_flow_forwards() {
    let mut flow = Flow::new(vec![]);
    assert_eq!(flow.decide(&packet(), &mut rng()), Effect::Forward);
}

#[test]
fn first_non_forward_wins() {
    let calls = Arc::new(Mutex::new(Vec::new()));
    let mut flow = Flow::new(vec![
        recording_stub("forward", Effect::Forward, &calls),
        recording_stub("drop", Effect::Drop, &calls),
        recording_stub("delay", Effect::DelayBy(Duration::from_millis(5)), &calls),
    ]);
    assert_eq!(flow.decide(&packet(), &mut rng()), Effect::Drop);
    assert_eq!(*calls.lock().unwrap(), vec!["forward", "drop"]);
}

#[test]
fn operators_called_in_order() {
    let calls = Arc::new(Mutex::new(Vec::new()));
    let mut flow = Flow::new(vec![
        recording_stub("first", Effect::Forward, &calls),
        recording_stub("second", Effect::Forward, &calls),
        recording_stub("third", Effect::Forward, &calls),
    ]);
    assert_eq!(flow.decide(&packet(), &mut rng()), Effect::Forward);
    assert_eq!(*calls.lock().unwrap(), vec!["first", "second", "third"]);
}

#[test]
fn library_operators_chain_in_scenario_order() {
    let mut flow = Flow::new(vec![
        Box::new(DropSeq::new(vec![SeqNum(5)])),
        Box::new(GapBurst::new(SeqNum(10), 3)),
        Box::new(JitterDelay::new(Duration::from_millis(2), Duration::from_millis(2)).unwrap()),
    ]);
    let mut rng = rng();
    let mut decide = |seqnum: Option<SeqNum>| {
        let mut packet = packet();
        packet.seqnum = seqnum;
        flow.decide(&packet, &mut rng)
    };
    assert_eq!(decide(Some(SeqNum(5))), Effect::Drop);
    assert_eq!(decide(Some(SeqNum(11))), Effect::Drop);
    assert_eq!(
        decide(Some(SeqNum(13))),
        Effect::DelayBy(Duration::from_millis(2))
    );
    assert_eq!(decide(None), Effect::DelayBy(Duration::from_millis(2)));
}
