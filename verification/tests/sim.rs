use ghostframe_transport::reliable_emitter::emitter::ReliableTileEmitter;
use ghostframe_transport::reliable_emitter::traits::{DatagramSender, SendOutcome};
use ghostframe_transport::reliable_emitter::EmitKey;
use ghostframe_transport::time::{Duration, Instant};
use std::cell::RefCell;
use std::rc::Rc;

fn clock_start() -> Instant {
    Instant::from_nanos(1_000_000_000_000)
}

struct DetRng(u64);

impl DetRng {
    fn new(seed: u64) -> Self {
        Self(seed)
    }
    fn next_u32(&mut self) -> u32 {
        self.0 = self
            .0
            .wrapping_mul(6364136223846793005)
            .wrapping_add(1442695040888963407);
        (self.0 >> 32) as u32
    }
    fn bool(&mut self, p: f64) -> bool {
        let threshold = (p * (u32::MAX as f64)) as u32;
        self.next_u32() < threshold
    }
}

struct LossSender {
    delivered: Rc<RefCell<Vec<Vec<u8>>>>,
    rng: DetRng,
    p: f64,
}

impl DatagramSender for LossSender {
    fn send(&mut self, dg: &[u8]) -> SendOutcome {
        if !self.rng.bool(self.p) {
            self.delivered.borrow_mut().push(dg.to_vec());
        }
        SendOutcome::Sent
    }
}

fn fake_source(seq: u32) -> Vec<u8> {
    let mut v = vec![0u8; 25];
    let fs = 0x8000_0000 | seq;
    v[0..4].copy_from_slice(&fs.to_be_bytes());
    v[4..6].copy_from_slice(&0u16.to_be_bytes());
    v[6..8].copy_from_slice(&1u16.to_be_bytes());
    v[12..16].copy_from_slice(&0u32.to_be_bytes());
    v
}

fn key_from_datagram(dg: &[u8]) -> Option<EmitKey> {
    if dg.len() < 20 {
        return None;
    }
    let fs = u32::from_be_bytes(dg[0..4].try_into().ok()?);
    if fs & 0x8000_0000 == 0 {
        return None;
    }
    Some(EmitKey::new(fs & 0x7FFF_FFFF, dg[16], dg[17], dg[19] & 0x0F))
}

struct Sim {
    emitter: ReliableTileEmitter,
    delivered: Rc<RefCell<Vec<Vec<u8>>>>,
    sender: LossSender,
    t: Instant,
}

impl Sim {
    fn new(loss_p: f64, seed: u64) -> Self {
        let delivered = Rc::new(RefCell::new(Vec::new()));
        Self {
            emitter: ReliableTileEmitter::new(),
            sender: LossSender {
                delivered: delivered.clone(),
                rng: DetRng::new(seed),
                p: loss_p,
            },
            delivered,
            t: clock_start(),
        }
    }
    fn ack_delivered(&mut self) {
        let keys: Vec<EmitKey> = self
            .delivered
            .borrow_mut()
            .drain(..)
            .filter_map(|dg| key_from_datagram(&dg))
            .collect();
        if !keys.is_empty() {
            self.emitter.on_ack(&keys);
        }
    }
    fn submit_many(&mut self, n: u32) {
        for i in 0..n {
            self.emitter
                .submit_one(EmitKey::new(i, 0, 0, 0), fake_source(i), self.t);
        }
        self.emitter.drain(&mut self.sender, self.t);
        self.ack_delivered();
    }
    fn advance(&mut self, dt: Duration) {
        self.t = self.t.plus(dt);
        self.emitter.tick(self.t, usize::MAX);
        self.emitter.drain(&mut self.sender, self.t);
        self.ack_delivered();
    }
}

#[test]
fn sim_clean_wire_no_retransmits() {
    let mut sim = Sim::new(0.0, 42);
    sim.submit_many(1000);
    for _ in 0..5 {
        sim.advance(Duration::from_millis(100));
    }
    assert_eq!(sim.emitter.stats.rto_fired, 0);
    assert_eq!(sim.emitter.stats.rto_max_retransmits_reached, 0);
}
