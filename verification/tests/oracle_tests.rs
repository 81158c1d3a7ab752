use proteus_core::oracle::NetworkOracle;

#[test]
fn initial_state() {
    let oracle = NetworkOracle::new();
    assert_eq!(oracle.smoothed_rtt, 100_000);
    assert_eq!(oracle.rtt_var, 0);
    assert_eq!(oracle.loss_rate, 0);
    assert_eq!(oracle.get_pacing_interval(), 10_000);
}

#[test]
fn ewma_is_exact() {
    let mut oracle = NetworkOracle::new();
    // A sample equal to the estimate leaves it unchanged.
    oracle.update_rtt(100_000);
    assert_eq!(oracle.smoothed_rtt, 100_000);
    // (7 * 100000 + 180000) / 8 = 110000.
    oracle.update_rtt(180_000);
    assert_eq!(oracle.smoothed_rtt, 110_000);
    assert_eq!(oracle.get_pacing_interval(), 11_000);
}

#[test]
fn spike_raises_loss_by_tenth() {
    let mut oracle = NetworkOracle::new();
    // 250 ms > 2 x 100 ms: spike.
    oracle.update_rtt(250_000);
    assert_eq!(oracle.loss_rate, 10);
}

#[test]
fn spike_is_judged_against_previous_estimate() {
    let mut oracle = NetworkOracle::new();
    // 200 ms == 2 x 100 ms exactly: not a spike, loss stays at the floor,
    // even though the updated estimate is higher.
    oracle.update_rtt(200_000);
    assert_eq!(oracle.loss_rate, 0);
    assert_eq!(oracle.smoothed_rtt, 112_500);
}

#[test]
fn sustained_calm_drives_loss_to_zero() {
    let mut oracle = NetworkOracle::new();
    for _ in 0..5 {
        oracle.update_rtt(1_000_000);
    }
    assert_eq!(oracle.loss_rate, 50);
    // Calm samples decay by one hundredth each; after 50 the floor holds.
    for i in 0..50 {
        let before = oracle.loss_rate;
        oracle.update_rtt(oracle.smoothed_rtt / 2);
        assert_eq!(oracle.loss_rate, before - 1);
        let _ = i;
    }
    assert_eq!(oracle.loss_rate, 0);
    oracle.update_rtt(oracle.smoothed_rtt / 2);
    assert_eq!(oracle.loss_rate, 0);
}

#[test]
fn sustained_spikes_drive_loss_to_one() {
    let mut oracle = NetworkOracle::new();
    for _ in 0..10 {
        let rtt = 3 * oracle.smoothed_rtt;
        oracle.update_rtt(rtt);
    }
    assert_eq!(oracle.loss_rate, 100);
    // Further spikes stay capped at 1.0.
    let rtt = 3 * oracle.smoothed_rtt;
    oracle.update_rtt(rtt);
    assert_eq!(oracle.loss_rate, 100);
}
