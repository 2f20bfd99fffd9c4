use pi_world::event_deal::{deal, DelayBenchmark, ImmediateBenchmark};

#[test]
fn immediate_counts_every_call() {
    let mut r = ImmediateBenchmark::new();
    r.run();
    assert_eq!(r.0, 300000);
}

#[test]
fn delay_counts_three_passes_over_the_record() {
    let mut r = DelayBenchmark::new();
    assert_eq!(r.1.len(), 100000);
    r.run();
    assert_eq!(r.1.len(), 200000);
    assert_eq!(r.0, 600000);
}

#[test]
fn deal_counts_one() {
    let mut i = 41;
    deal(&mut i);
    assert_eq!(i, 42);
}
