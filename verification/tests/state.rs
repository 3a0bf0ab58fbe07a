//! When to change the ladder.

use itv_relay::binary64::Binary64;
use itv_relay::clock::SECOND;
use itv_relay::congestion::Sample;
use itv_relay::state::{CongestionCfg, Decision, Regime, StateMachine};

const NOW: u128 = 1_000_000 * SECOND;

fn float(value: f64) -> Binary64 {
    Binary64 { bits: value.to_bits() }
}

fn number(value: Binary64) -> f64 {
    f64::from_bits(value.bits)
}

fn cfg() -> CongestionCfg {
    CongestionCfg {
        down_ratio: float(0.95),
        down_hold_s: float(1.0),
        up_ratio: float(0.95),
        up_hold_s: float(2.0),
        up_cooldown_s: float(20.0),
        down_cooldown_s: float(8.0),
    }
}

fn sample(backlog_bytes: u64, backlog_ratio: f64, prod_bps: u64) -> Sample {
    Sample {
        backlog_ratio: float(backlog_ratio),
        backlog_bytes,
        backlog_delta: 0,
        drain_bps: prod_bps,
        prod_bps,
        has_active_clients: true,
    }
}

fn inactive_sample(backlog_bytes: u64, backlog_ratio: f64, prod_bps: u64) -> Sample {
    Sample {
        has_active_clients: false,
        ..sample(backlog_bytes, backlog_ratio, prod_bps)
    }
}

fn direct_sample(backlog_bytes: u64, backlog_ratio: f64, drain_bps: u64) -> Sample {
    Sample {
        backlog_ratio: float(backlog_ratio),
        backlog_bytes,
        backlog_delta: 0,
        drain_bps,
        prod_bps: 1_000_000,
        has_active_clients: true,
    }
}

#[test]
fn confirm_switch_uses_existing_pool_as_next_baseline() {
    let mut sm = StateMachine::new(cfg(), 2, vec![1_000_000, 600_000, 300_000], 1, NOW);
    sm.prev_backlog_bytes = 10_000;
    sm.rate_ewma = float(120_000.0);

    sm.confirm_switch(80_000);
    let decision = sm.update(
        &sample(80_000, 0.05, 600_000),
        SECOND,
        NOW,
    );

    assert_eq!(decision, Decision::Hold);
    assert_eq!(sm.prev_backlog_bytes, 80_000);
    assert_eq!(number(sm.rate_ewma), 0.0);
}

#[test]
fn rollback_restores_switch_side_effects_after_failed_downshift() {
    let mut sm = StateMachine::new(cfg(), 2, vec![1_000_000, 600_000, 300_000], 1, NOW);
    let original_last_change = sm.last_change_at;
    sm.stable_accum = float(3.0);

    let decision = sm.update(
        &sample(1_000_000, 0.50, 600_000),
        SECOND,
        NOW,
    );
    assert_eq!(decision, Decision::StepDown(2));
    assert_eq!(sm.current, 2);
    assert!(sm.down_cooldown_until.is_some());

    sm.rollback_switch();
    assert_eq!(sm.current, 1);
    assert_eq!(sm.regime, Regime::Encode);
    assert_eq!(sm.last_change_at, original_last_change);
    assert!(sm.down_cooldown_until.is_none());
    assert_eq!(number(sm.stable_accum), 3.0);
}

#[test]
fn configured_up_hold_controls_probe_timing() {
    let mut sm = StateMachine::new(cfg(), 2, vec![1_000_000, 600_000, 300_000], 1, NOW);
    let now = NOW;

    let first = sm.update(&sample(0, 0.0, 600_000), SECOND, now);
    let second = sm.update(
        &sample(0, 0.0, 600_000),
        SECOND,
        now + SECOND,
    );

    assert_eq!(first, Decision::Hold);
    assert_eq!(second, Decision::StepUp(0));
}

#[test]
fn configured_up_cooldown_delays_recovery_probe() {
    let mut cfg = cfg();
    cfg.up_hold_s = float(1.0);
    cfg.up_cooldown_s = float(5.0);
    let mut sm = StateMachine::new(cfg, 2, vec![1_000_000, 600_000, 300_000], 1, NOW);
    let now = NOW;
    sm.last_change_at = now;

    let during_cooldown = sm.update(
        &sample(0, 0.0, 600_000),
        SECOND,
        now + SECOND,
    );
    let after_cooldown = sm.update(
        &sample(0, 0.0, 600_000),
        SECOND,
        now + 5 * SECOND,
    );

    assert_eq!(during_cooldown, Decision::Hold);
    assert_eq!(after_cooldown, Decision::StepUp(0));
}

#[test]
fn configured_down_ratio_controls_downshift_sensitivity() {
    let now = NOW;
    let mut sensitive = StateMachine::new(cfg(), 2, vec![1_000_000, 600_000, 300_000], 1, NOW);
    let mut tolerant_cfg = cfg();
    tolerant_cfg.down_ratio = float(0.70);
    let mut tolerant = StateMachine::new(tolerant_cfg, 2, vec![1_000_000, 600_000, 300_000], 1, NOW);

    let congested = sample(150_000, 0.05, 600_000);

    assert_eq!(
        sensitive.update(&congested, SECOND, now),
        Decision::StepDown(2)
    );
    assert_eq!(
        tolerant.update(&congested, SECOND, now),
        Decision::Hold
    );
}

#[test]
fn direct_congestion_first_downshift_uses_link_estimate() {
    let mut sm = StateMachine::new(cfg(), 2, vec![1_000_000, 600_000, 300_000], 0, NOW);
    let now = NOW;

    assert_eq!(
        sm.update(
            &sample(200_000, 0.05, 1_000_000),
            SECOND,
            now,
        ),
        Decision::Hold
    );
    let decision = sm.update(
        &sample(400_000, 0.08, 1_000_000),
        SECOND,
        now + SECOND,
    );

    assert_eq!(decision, Decision::StepDown(1));
    assert_eq!(sm.current, 1);
    assert_eq!(sm.regime, Regime::Encode);
}

#[test]
fn direct_congestion_threshold_uses_measured_source_rate() {
    let mut sm = StateMachine::new(cfg(), 2, vec![1_000_000, 120_000, 60_000], 0, NOW);
    sm.source_bps = float(200_000.0);
    let now = NOW;

    assert_eq!(
        sm.update(
            &direct_sample(30_000, 0.02, 200_000),
            SECOND,
            now,
        ),
        Decision::Hold
    );
    let decision = sm.update(
        &direct_sample(60_000, 0.04, 200_000),
        SECOND,
        now + SECOND,
    );

    assert_eq!(decision, Decision::StepDown(1));
    assert!(sm.link_confirmed);
}

#[test]
fn direct_congestion_updates_source_rate_from_drain_plus_growth() {
    let mut sm = StateMachine::new(cfg(), 2, vec![1_000_000, 600_000, 300_000], 0, NOW);
    let now = NOW;

    assert_eq!(
        sm.update(
            &direct_sample(50_000, 0.05, 200_000),
            SECOND,
            now,
        ),
        Decision::Hold
    );
    assert_eq!(
        sm.update(
            &direct_sample(100_000, 0.08, 200_000),
            SECOND,
            now + SECOND,
        ),
        Decision::Hold
    );
    let decision = sm.update(
        &direct_sample(100_000, 0.08, 200_000),
        SECOND,
        now + 2 * SECOND,
    );

    assert_eq!(decision, Decision::StepDown(2));
    assert!(number(sm.source_bps) < 700_000.0);
    assert!(sm.link_confirmed);
    assert!(number(sm.link_estimate) < 500_000.0);
}

#[test]
fn direct_emergency_full_pool_jumps_to_safe_low_ladder() {
    let mut sm = StateMachine::new(cfg(), 2, vec![1_000_000, 600_000, 300_000], 0, NOW);
    let decision = sm.update(
        &sample(1_000_000, 0.90, 1_000_000),
        SECOND,
        NOW,
    );

    assert_eq!(decision, Decision::StepDown(2));
    assert_eq!(sm.current, 2);
    assert_eq!(sm.regime, Regime::Encode);
}

#[test]
fn inactive_clients_do_not_trigger_ladder_changes() {
    let mut sm = StateMachine::new(cfg(), 2, vec![1_000_000, 600_000, 300_000], 1, NOW);
    sm.down_accum = float(1.0);
    sm.stable_accum = float(1.0);
    sm.link_confirm_accum = float(1.0);

    let decision = sm.update(
        &inactive_sample(1_000_000, 0.90, 600_000),
        SECOND,
        NOW,
    );

    assert_eq!(decision, Decision::Hold);
    assert_eq!(sm.current, 1);
    assert_eq!(number(sm.down_accum), 0.0);
    assert_eq!(number(sm.stable_accum), 0.0);
    assert_eq!(number(sm.link_confirm_accum), 0.0);
}

#[test]
fn failed_probe_reverts_to_last_stable_and_locks_target() {
    let mut sm = StateMachine::new(cfg(), 2, vec![1_000_000, 600_000, 300_000], 1, NOW);
    let now = NOW;

    assert_eq!(
        sm.request_startup_probe(0, 0, now),
        Some(Decision::StepUp(0))
    );
    let decision = sm.update(
        &sample(700_000, 0.30, 1_000_000),
        3 * SECOND,
        now + 3 * SECOND,
    );

    assert_eq!(decision, Decision::RevertDown(1));
    assert_eq!(sm.current, 1);
    assert_eq!(sm.regime, Regime::Encode);
    assert!(matches!(sm.locked_until.get(&0), Some(until) if *until > now));
    assert_eq!(sm.consecutive_up_fails, 1);
    assert!(sm.stable_protect_until.is_some());
}

#[test]
fn direct_probe_uses_observed_source_rate_for_failure_threshold() {
    let mut sm = StateMachine::new(cfg(), 1, vec![1_000_000, 300_000], 1, NOW);
    let now = NOW;

    assert_eq!(
        sm.request_startup_probe(0, 0, now),
        Some(Decision::StepUp(0))
    );
    assert_eq!(
        sm.update(
            &direct_sample(50_000, 0.04, 200_000),
            SECOND,
            now + SECOND,
        ),
        Decision::Hold
    );
    let decision = sm.update(
        &direct_sample(100_000, 0.08, 200_000),
        2 * SECOND,
        now + 3 * SECOND,
    );

    assert_eq!(decision, Decision::RevertDown(1));
    assert_eq!(sm.current, 1);
    assert!(number(sm.source_bps) < 700_000.0);
}

#[test]
fn failed_upgrade_switch_rolls_back_and_locks_target() {
    let mut sm = StateMachine::new(cfg(), 2, vec![1_000_000, 600_000, 300_000], 1, NOW);
    let now = NOW;

    assert_eq!(
        sm.request_startup_probe(0, 0, now),
        Some(Decision::StepUp(0))
    );
    sm.rollback_failed_switch(0, now + SECOND);

    assert_eq!(sm.current, 1);
    assert_eq!(sm.regime, Regime::Encode);
    assert!(sm.is_locked(0, now + 2 * SECOND));
    assert_eq!(sm.consecutive_up_fails, 1);
    assert_eq!(
        sm.request_startup_probe(0, 0, now + 2 * SECOND),
        None
    );
}

#[test]
fn failed_downshift_switch_locks_target_without_counting_upgrade_failures() {
    let mut sm = StateMachine::new(cfg(), 2, vec![1_000_000, 600_000, 300_000], 1, NOW);
    let now = NOW;

    assert_eq!(
        sm.update(
            &sample(1_000_000, 0.90, 600_000),
            SECOND,
            now,
        ),
        Decision::StepDown(2)
    );
    sm.rollback_failed_switch(2, now + SECOND);

    assert_eq!(sm.current, 1);
    assert_eq!(sm.regime, Regime::Encode);
    assert!(sm.is_locked(2, now + 2 * SECOND));
    assert_eq!(sm.consecutive_up_fails, 0);
    assert_eq!(
        sm.update(
            &sample(1_000_000, 0.90, 600_000),
            SECOND,
            now + 2 * SECOND,
        ),
        Decision::Hold
    );
}

#[test]
fn repeated_probe_failures_disable_upgrades_temporarily() {
    let mut sm = StateMachine::new(cfg(), 2, vec![1_000_000, 600_000, 300_000], 1, NOW);
    let start = NOW;

    for i in 0..3u128 {
        let probe_at = start + i * 700 * SECOND;
        assert_eq!(
            sm.request_startup_probe(0, 0, probe_at),
            Some(Decision::StepUp(0))
        );
        assert_eq!(
            sm.update(
                &sample(700_000, 0.30, 1_000_000),
                3 * SECOND,
                probe_at + 3 * SECOND,
            ),
            Decision::RevertDown(1)
        );
    }

    assert_eq!(sm.consecutive_up_fails, 3);
    assert!(matches!(sm.up_disabled_until, Some(until) if until > start));
    assert_eq!(
        sm.request_startup_probe(0, 0, start + 2_000 * SECOND),
        None
    );
}

#[test]
fn startup_probe_to_direct_enters_direct_after_observation() {
    let mut sm = StateMachine::new(cfg(), 2, vec![1_000_000, 600_000, 300_000], 1, NOW);
    let now = NOW;

    assert_eq!(
        sm.request_startup_probe(0, 4_000, now),
        Some(Decision::StepUp(0))
    );
    assert_eq!(sm.current, 0);
    assert_eq!(sm.regime, Regime::Probing);
    sm.prev_backlog_bytes = 4_000;

    let decision = sm.update(
        &sample(4_000, 0.01, 1_000_000),
        13 * SECOND,
        now + 13 * SECOND,
    );

    assert_eq!(decision, Decision::Hold);
    assert_eq!(sm.regime, Regime::Direct);
    assert_eq!(sm.last_stable, 0);
}

#[test]
fn the_rest_grows_up_to_ten_minutes() {
    let mut sm = StateMachine::new(cfg(), 2, vec![1_000_000, 600_000, 300_000], 1, NOW);
    let mut at = NOW;
    for seconds in [60, 120, 240, 480, 600, 600] {
        sm.rollback_failed_switch(2, at);
        assert!(sm.is_locked(2, at + seconds * SECOND - 1));
        assert!(!sm.is_locked(2, at + seconds * SECOND));
        at += seconds * SECOND;
    }
    assert_eq!(sm.consecutive_up_fails, 0);
}

#[test]
fn without_ladders_the_source_has_a_fallback_rate() {
    let sm = StateMachine::new(cfg(), 0, Vec::new(), 3, NOW);
    assert_eq!(sm.current, 0);
    assert_eq!(sm.regime, Regime::Direct);
    assert_eq!(number(sm.source_bps), 1_000_000.0);
    assert_eq!(sm.last_change_at, NOW - 1000 * SECOND);
}

#[test]
fn slopes_are_blended_as_the_machine_would() {
    let mut sm = StateMachine::new(cfg(), 2, vec![1_000_000, 600_000, 300_000], 1, NOW);
    sm.update(&sample(5_000, 0.0, 600_000), 3 * SECOND / 2, NOW + SECOND);
    let expected: f64 = 0.0 * (1.0 - 0.2) + (5_000.0 / 1.5) * 0.2;
    assert_eq!(number(sm.rate_ewma), expected);
    sm.update(&sample(205_000, 0.2, 600_000), SECOND, NOW + 2 * SECOND);
    let expected: f64 = expected * (1.0 - 0.5) + 200_000.0 * 0.5;
    assert_eq!(number(sm.rate_ewma), expected);
}

#[test]
fn a_cooldown_delays_the_next_step_down_but_not_in_an_emergency() {
    let mut sm = StateMachine::new(cfg(), 3, vec![1_000_000, 600_000, 300_000, 100_000], 1, NOW);
    assert_eq!(
        sm.update(&sample(300_000, 0.5, 600_000), SECOND, NOW),
        Decision::StepDown(2)
    );
    sm.confirm_switch(300_000);
    assert_eq!(
        sm.update(&sample(900_000, 0.5, 300_000), SECOND, NOW + SECOND),
        Decision::Hold
    );
    assert_eq!(
        sm.update(&sample(900_000, 0.85, 300_000), SECOND, NOW + 2 * SECOND),
        Decision::StepDown(3)
    );
}

#[test]
fn rolling_back_an_early_observation_gives_everything_back() {
    let mut sm = StateMachine::new(cfg(), 2, vec![1_000_000, 600_000, 300_000], 2, NOW);
    sm.stable_accum = float(1.5);
    assert_eq!(sm.request_startup_probe(0, 9, NOW), Some(Decision::StepUp(0)));
    sm.rollback_switch();
    assert_eq!(sm.current, 2);
    assert_eq!(sm.regime, Regime::Encode);
    assert_eq!(sm.probe_target, None);
    assert_eq!(number(sm.stable_accum), 1.5);
    assert!(sm.pending_snapshot.is_none());
}

#[test]
fn a_revert_goes_down_to_the_last_stable_ladder() {
    let mut sm = StateMachine::new(cfg(), 3, vec![1_000_000, 600_000, 300_000, 100_000], 3, NOW);
    assert_eq!(sm.request_startup_probe(1, 0, NOW), Some(Decision::StepUp(1)));
    assert_eq!(sm.last_stable, 3);
    sm.confirm_switch(0);
    assert_eq!(
        sm.update(&sample(900_000, 0.3, 600_000), 3 * SECOND, NOW + 3 * SECOND),
        Decision::RevertDown(3)
    );
    assert_eq!(sm.current, 3);
    assert_eq!(sm.last_stable, 3);
    assert_eq!(sm.regime, Regime::Encode);
}
