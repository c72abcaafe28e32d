use ghostframe_transport::loss_injection::{LossInjector, PROBABILITY_ONE};

type Picks = fn(&[u8]) -> bool;

fn injector(probability: f32, picks: Picks, seed: u64) -> LossInjector<Picks> {
    LossInjector::new((probability * PROBABILITY_ONE as f32) as u32, picks, seed)
}

#[test]
fn seeded_rng_drops_deterministically() {
    let mut a = injector(0.5, |_| true, 42);
    let mut b = injector(0.5, |_| true, 42);
    for _ in 0..20 {
        assert_eq!(a.should_drop(&[0x01]), b.should_drop(&[0x01]));
    }
}

#[test]
fn predicate_filters_drops() {
    let mut inj = injector(1.0, |dg| dg.first().copied() == Some(0x02), 0);
    assert!(inj.should_drop(&[0x02, 0, 0]));
    assert!(!inj.should_drop(&[0x01, 0, 0]));
}

#[test]
fn zero_probability_never_drops() {
    let mut inj = injector(0.0, |_| true, 0);
    for _ in 0..100 {
        assert!(!inj.should_drop(&[0xAA]));
    }
}

#[test]
fn one_probability_drops_when_predicate_matches() {
    let mut inj = injector(1.0, |_| true, 0);
    for _ in 0..100 {
        assert!(inj.should_drop(&[0xAA]));
    }
}

#[test]
fn drops_at_approximately_configured_rate() {
    let mut inj = injector(0.5, |_| true, 12345);
    let drops = (0..1000).filter(|_| inj.should_drop(&[0xAA])).count();
    assert!((400..=600).contains(&drops), "drops={drops} out of 1000");
}
