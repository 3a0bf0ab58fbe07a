//! What the state machine decides: for each regime, when the ladder changes, to
//! which ladder, and what the machine remembers of it.

use crate::binary64;
use crate::binary64::Binary64;
use crate::congestion::Sample;
use crate::state::{CongestionCfg, Decision, Machine, Regime, Standing};
use vstd::prelude::*;

verus! {

// ---------------------------------------------------------------------------
// Words
// ---------------------------------------------------------------------------

/// The seconds from one moment to a later one.
pub open spec fn passed(then: u128, now: u128) -> Binary64 {
    binary64::seconds(
        if then <= now {
            now - then
        } else {
            0
        },
    )
}

/// Whether a moment is set and has not come.
pub open spec fn to_come(until: Option<u128>, now: u128) -> bool {
    until is Some && now < until->0
}

/// The moment some whole seconds from now.
pub open spec fn from_now(now: u128, seconds: int) -> Option<u128> {
    Some((now + seconds * 1_000_000_000) as u128)
}

/// Whether a ladder may be used: it was never left alone, or the time is over.
pub open spec fn free(at: Standing, ladder: int, now: u128) -> bool {
    at.locked_until.dom().contains(ladder as usize) ==> at.locked_until[ladder as usize] <= now
}

/// Whether an encoding ladder may be used and needs no more than `cap` bytes per
/// second.
pub open spec fn fits(m: Machine, ladder: int, cap: Binary64, now: u128) -> bool {
    &&& 1 <= ladder <= m.max_index
    &&& ladder < m.ladder_bps.len()
    &&& free(m.at, ladder, now)
    &&& binary64::whole(m.ladder_bps[ladder] as int).not_above(cap)
}

/// Whether `target` is the ladder for a connection that carries `cap`: the best
/// that fits; where none does, the lowest that may be used; and none where no
/// encoding ladder may be used.
pub open spec fn best_target(m: Machine, cap: Binary64, now: u128, target: Option<usize>) -> bool {
    match target {
        Some(t) => {
            &&& 1 <= t <= m.max_index
            &&& free(m.at, t as int, now)
            &&& (exists|i: int| #[trigger] fits(m, i, cap, now)) ==> {
                &&& fits(m, t as int, cap, now)
                &&& forall|j: int| j < t ==> !#[trigger] fits(m, j, cap, now)
            }
            &&& !(exists|i: int| #[trigger] fits(m, i, cap, now)) ==> forall|j: int|
                t < j <= m.max_index ==> !#[trigger] free(m.at, j, now)
        },
        None => forall|j: int| 1 <= j <= m.max_index ==> !#[trigger] free(m.at, j, now),
    }
}

/// Whether `target` is the next ladder further down that may be used.
pub open spec fn next_target(m: Machine, now: u128, target: Option<usize>) -> bool {
    match target {
        Some(t) => {
            &&& m.at.current < t <= m.max_index
            &&& free(m.at, t as int, now)
            &&& forall|j: int| m.at.current < j < t ==> !#[trigger] free(m.at, j, now)
        },
        None => forall|j: int| m.at.current < j <= m.max_index ==> !#[trigger] free(m.at, j, now),
    }
}

/// The bytes per second of a ladder; a million where that is not known.
pub open spec fn needs(m: Machine, ladder: usize) -> Binary64 {
    binary64::whole(
        if ladder < m.ladder_bps.len() {
            m.ladder_bps[ladder as int] as int
        } else {
            1_000_000
        },
    )
}

/// The share of its rate by which the backlog may grow: what `down_ratio` leaves
/// of one, between two and fifty hundredths.
pub open spec fn growth_share(cfg: CongestionCfg) -> Binary64 {
    binary64::clamped(
        binary64::difference(binary64::whole(1), cfg.down_ratio),
        binary64::ratio(2, 100),
        binary64::ratio(50, 100),
    )
}

/// The share of its rate by which the backlog of a steady stream may change:
/// what `up_ratio` leaves of one, between five thousandths and a fifth.
pub open spec fn steady_share(cfg: CongestionCfg) -> Binary64 {
    binary64::clamped(
        binary64::difference(binary64::whole(1), cfg.up_ratio),
        binary64::ratio(5, 1000),
        binary64::ratio(20, 100),
    )
}

/// Whether the queue is nearly full.
pub open spec fn nearly_full(s: Sample) -> bool {
    binary64::ratio(85, 100).not_above(s.backlog_ratio)
}

/// The moment until which there is no other step down.
pub open spec fn rest_end(m: Machine, now: u128) -> Option<u128> {
    Some((now + binary64::nanoseconds(m.cfg.down_cooldown_s)->0) as u128)
}

// ---------------------------------------------------------------------------
// Choices
// ---------------------------------------------------------------------------

proof fn lemma_first_within(m: Machine, cap: Binary64, now: u128, i: int)
    requires
        1 <= i,
    ensures
        match m.first_within(cap, now, i) {
            Some(t) => i <= t && fits(m, t as int, cap, now) && forall|j: int|
                i <= j < t ==> !#[trigger] fits(m, j, cap, now),
            None => forall|j: int| i <= j ==> !#[trigger] fits(m, j, cap, now),
        },
    decreases m.max_index + 1 - i,
{
    if i <= m.max_index {
        lemma_first_within(m, cap, now, i + 1);
    }
}

proof fn lemma_last_open(m: Machine, now: u128, i: int)
    requires
        i <= m.max_index,
    ensures
        match m.last_open(now, i) {
            Some(t) => 1 <= t <= i && free(m.at, t as int, now) && forall|j: int|
                t < j <= i ==> !#[trigger] free(m.at, j, now),
            None => forall|j: int| 1 <= j <= i ==> !#[trigger] free(m.at, j, now),
        },
    decreases i,
{
    if i >= 1 {
        lemma_last_open(m, now, i - 1);
    }
}

proof fn lemma_first_open(m: Machine, now: u128, i: int)
    requires
        0 <= i,
    ensures
        match m.first_open(now, i) {
            Some(t) => i <= t <= m.max_index && free(m.at, t as int, now) && forall|j: int|
                i <= j < t ==> !#[trigger] free(m.at, j, now),
            None => forall|j: int| i <= j <= m.max_index ==> !#[trigger] free(m.at, j, now),
        },
    decreases m.max_index + 1 - i,
{
    if i <= m.max_index {
        lemma_first_open(m, now, i + 1);
    }
}

/// Of the ladders that fit a connection the best is taken; where none fits, the
/// lowest that may be used.
pub proof fn law_best_ladder(m: Machine, cap: Binary64, now: u128)
    ensures
        best_target(m, cap, now, m.pick_within(cap, now)),
{
    lemma_first_within(m, cap, now, 1);
    lemma_last_open(m, now, m.max_index as int);
    if m.first_within(cap, now, 1) is None {
        assert forall|i: int| !#[trigger] fits(m, i, cap, now) by {}
    }
}

/// A connection that carries more never gets a lower ladder.
pub proof fn law_more_carries_more(m: Machine, less: Binary64, more: Binary64, now: u128)
    requires
        less.not_above(more),
    ensures
        match (m.pick_within(less, now), m.pick_within(more, now)) {
            (Some(a), Some(b)) => b <= a,
            (None, None) => true,
            _ => false,
        },
{
    law_best_ladder(m, less, now);
    law_best_ladder(m, more, now);
    if let (Some(a), Some(b)) = (m.pick_within(less, now), m.pick_within(more, now)) {
        if exists|i: int| #[trigger] fits(m, i, less, now) {
            assert(fits(m, a as int, less, now));
            assert(fits(m, a as int, more, now));
        } else if exists|i: int| #[trigger] fits(m, i, more, now) {
            assert(fits(m, b as int, more, now));
            if a < b {
                assert(free(m.at, b as int, now));
            }
        } else {
            if a < b {
                assert(free(m.at, b as int, now));
            }
            if b < a {
                assert(free(m.at, a as int, now));
            }
        }
    }
}

// ---------------------------------------------------------------------------
// Measuring
// ---------------------------------------------------------------------------

/// A measurement moves the smoothed slope towards the slope of the bytes that
/// wait: half of the way where that is steep, a fifth of it else. Steep is more
/// than two hundredths of the rate of the source, or of what the ladder puts out
/// where the source is encoded. The time counts as a hundredth of a second at
/// least.
pub proof fn law_slope(m: Machine, s: Sample, dt: u128, now: u128)
    ensures
        ({
            let next = m.updated(s, dt, now).0;
            let raw = binary64::quotient(
                binary64::whole(s.backlog_bytes - m.at.prev_backlog_bytes),
                binary64::greater(binary64::seconds(dt as int), binary64::ratio(1, 100)),
            );
            let made = binary64::whole(s.prod_bps as int);
            let reference = if m.at.regime == Regime::Direct {
                binary64::greater(m.source_bps, binary64::whole(1))
            } else if m.at.current < m.ladder_bps.len() && s.prod_bps < m.ladder_bps[m.at.current as int]
                || m.at.current >= m.ladder_bps.len() && s.prod_bps < 1_000_000 {
                needs(m, m.at.current)
            } else {
                made
            };
            let weight = if binary64::product(reference, binary64::ratio(2, 100)).below(
                binary64::absolute(raw),
            ) {
                binary64::ratio(5, 10)
            } else {
                binary64::ratio(2, 10)
            };
            &&& next.at.prev_backlog_bytes == s.backlog_bytes
            &&& next.at.rate_ewma == binary64::sum(
                binary64::product(
                    m.at.rate_ewma,
                    binary64::difference(binary64::whole(1), weight),
                ),
                binary64::product(raw, weight),
            )
        }),
{
}

/// On ladder 0 the source gives what the player takes and what the backlog grows
/// by; the measured rate moves half of the way there where it grows, a fifth
/// else. On other ladders, and while the player takes nothing, it stays.
pub proof fn law_source_measured(m: Machine, s: Sample, dt: u128, now: u128)
    ensures
        ({
            let next = m.updated(s, dt, now).0;
            let raw = binary64::quotient(
                binary64::whole(s.backlog_bytes - m.at.prev_backlog_bytes),
                binary64::greater(binary64::seconds(dt as int), binary64::ratio(1, 100)),
            );
            let growth = binary64::greater(
                binary64::greater(raw, next.at.rate_ewma),
                binary64::naught(),
            );
            let weight = if binary64::naught().below(growth) {
                binary64::ratio(50, 100)
            } else {
                binary64::ratio(20, 100)
            };
            &&& m.at.current != 0 || s.drain_bps == 0 ==> next.source_bps == m.source_bps
            &&& m.at.current == 0 && s.drain_bps > 0 ==> next.source_bps == binary64::sum(
                binary64::product(m.source_bps, binary64::difference(binary64::whole(1), weight)),
                binary64::product(
                    binary64::sum(binary64::whole(s.drain_bps as int), growth),
                    weight,
                ),
            )
        }),
{
}

/// The ladders, their rates and the thresholds never change.
pub proof fn law_settings_stay(m: Machine, s: Sample, dt: u128, now: u128)
    ensures
        ({
            let next = m.updated(s, dt, now).0;
            next.max_index == m.max_index && next.ladder_bps == m.ladder_bps && next.cfg == m.cfg
        }),
{
}

// ---------------------------------------------------------------------------
// Passing on
// ---------------------------------------------------------------------------

/// While the source is passed on, the machine steps down at once where the queue
/// is nearly full, and else once the backlog has grown by more than its share
/// for two seconds; it holds otherwise. It steps to the best ladder for three
/// quarters of what the connection carries. That is, once measured, what the
/// source gives less the growth of the backlog; before, three tenths of the
/// source. The step starts the rest before another, and can be undone.
#[verifier::spinoff_prover]
pub proof fn law_passing_on(m: Machine, s: Sample, dt: u128, now: u128)
    requires
        m.at.regime == Regime::Direct,
        s.has_active_clients,
    ensures
        ({
            let (next, decision) = m.updated(s, dt, now);
            let source = next.source_bps;
            let slope = next.at.rate_ewma;
            let waited = binary64::sum(m.at.link_confirm_accum, binary64::seconds(dt as int));
            let grows = binary64::product(
                binary64::greater(source, binary64::whole(1)),
                growth_share(m.cfg),
            ).below(slope);
            let lasts = !nearly_full(s) && grows && binary64::whole(2).not_above(waited);
            let measured = binary64::greater(
                binary64::difference(source, slope),
                binary64::naught(),
            );
            let carried = if lasts {
                measured
            } else if m.link_confirmed {
                m.link_estimate
            } else {
                binary64::product(source, binary64::ratio(3, 10))
            };
            let cap = binary64::product(carried, binary64::ratio(75, 100));
            let seen = Standing {
                prev_backlog_bytes: s.backlog_bytes,
                rate_ewma: slope,
                link_confirm_accum: if nearly_full(s) {
                    m.at.link_confirm_accum
                } else if grows {
                    waited
                } else {
                    binary64::naught()
                },
                ..m.at
            };
            &&& next.link_confirmed == (m.link_confirmed || lasts)
            &&& next.link_estimate == if lasts {
                measured
            } else {
                m.link_estimate
            }
            &&& match decision {
                Decision::StepDown(t) => {
                    &&& nearly_full(s) || lasts
                    &&& best_target(m, cap, now, Some(t))
                    &&& next.pending == Some(seen)
                    &&& next.at == Standing {
                        current: t,
                        last_stable: t,
                        regime: Regime::Encode,
                        link_confirm_accum: binary64::naught(),
                        stable_accum: binary64::naught(),
                        down_accum: binary64::naught(),
                        last_change_at: now,
                        down_cooldown_until: rest_end(m, now),
                        stable_protect_until: None,
                        ..seen
                    }
                },
                Decision::Hold => {
                    &&& nearly_full(s) || lasts ==> best_target(m, cap, now, None)
                    &&& next.pending == m.pending
                    &&& next.at == seen
                },
                _ => false,
            }
        }),
{
    let secs = binary64::seconds(dt as int);
    let seen = m.observed(s, secs);
    let (next, decision) = m.updated(s, dt, now);
    let confirm = binary64::sum(seen.at.link_confirm_accum, secs);
    let waiting = Machine { at: Standing { link_confirm_accum: confirm, ..seen.at }, ..seen };
    let estimate = binary64::greater(
        binary64::difference(seen.source_bps, seen.at.rate_ewma),
        binary64::naught(),
    );
    let confirmed = Machine { link_estimate: estimate, link_confirmed: true, ..waiting };
    let first = if seen.link_confirmed {
        seen.link_estimate
    } else {
        binary64::product(seen.source_bps, binary64::ratio(3, 10))
    };
    let quarter = binary64::ratio(75, 100);
    law_best_ladder(seen, binary64::product(first, quarter), now);
    law_best_ladder(confirmed, binary64::product(estimate, quarter), now);
    lemma_same_choice(m, seen, binary64::product(first, quarter), now);
    lemma_same_choice(m, confirmed, binary64::product(estimate, quarter), now);
}

/// The choice goes by the ladders, their rates and the locks alone.
#[verifier::spinoff_prover]
proof fn lemma_same_choice(a: Machine, b: Machine, cap: Binary64, now: u128)
    requires
        a.max_index == b.max_index,
        a.ladder_bps == b.ladder_bps,
        a.at.locked_until == b.at.locked_until,
    ensures
        forall|target: Option<usize>|
            best_target(a, cap, now, target) == #[trigger] best_target(b, cap, now, target),
{
    assert forall|i: int| #[trigger] free(a.at, i, now) == free(b.at, i, now) by {}
    assert forall|i: int| #[trigger] fits(a, i, cap, now) == fits(b, i, cap, now) by {}
    assert forall|target: Option<usize>|
        best_target(a, cap, now, target) == #[trigger] best_target(b, cap, now, target) by {
        if exists|i: int| #[trigger] fits(a, i, cap, now) {
            let i = choose|i: int| #[trigger] fits(a, i, cap, now);
            assert(fits(b, i, cap, now));
        }
        if exists|i: int| #[trigger] fits(b, i, cap, now) {
            let i = choose|i: int| #[trigger] fits(b, i, cap, now);
            assert(fits(a, i, cap, now));
        }
        if let Some(t) = target {
            assert(free(a.at, t as int, now) == free(b.at, t as int, now));
            assert(fits(a, t as int, cap, now) == fits(b, t as int, cap, now));
            if best_target(a, cap, now, target) {
                assert forall|j: int| fits(b, j, cap, now) && j < t implies false by {
                    assert(fits(a, j, cap, now));
                }
                assert forall|j: int|
                    t < j <= b.max_index && #[trigger] free(b.at, j, now) && !(exists|i: int|
                        #[trigger] fits(b, i, cap, now)) implies false by {
                    assert(free(a.at, j, now));
                }
            }
            if best_target(b, cap, now, target) {
                assert forall|j: int| fits(a, j, cap, now) && j < t implies false by {
                    assert(fits(b, j, cap, now));
                }
                assert forall|j: int|
                    t < j <= a.max_index && #[trigger] free(a.at, j, now) && !(exists|i: int|
                        #[trigger] fits(a, i, cap, now)) implies false by {
                    assert(free(b.at, j, now));
                }
            }
        } else {
            if best_target(a, cap, now, target) {
                assert forall|j: int| 1 <= j <= b.max_index implies !#[trigger] free(b.at, j, now) by {
                    assert(!free(a.at, j, now));
                }
            }
            if best_target(b, cap, now, target) {
                assert forall|j: int| 1 <= j <= a.max_index implies !#[trigger] free(a.at, j, now) by {
                    assert(!free(b.at, j, now));
                }
            }
        }
    }
}

// ---------------------------------------------------------------------------
// Encoding
// ---------------------------------------------------------------------------

proof fn lemma_next_down(m: Machine, loaded: Machine, now: u128)
    requires
        loaded.max_index == m.max_index,
        loaded.at.locked_until == m.at.locked_until,
        loaded.at.current == m.at.current,
    ensures
        next_target(m, now, loaded.first_open(now, m.at.current + 1)),
{
    lemma_first_open(loaded, now, m.at.current + 1);
    assert forall|j: int| #[trigger] free(m.at, j, now) == free(loaded.at, j, now) by {}
}

/// While encoding, the machine steps down to the next ladder that may be used:
/// at once where the queue is nearly full, else where the backlog has grown by
/// more than its share for as long as is configured (half a second at least),
/// outside the times of rest. It steps up by one, to observe the ladder for
/// twelve seconds, once the backlog has been steady and nearly empty for as long
/// as is configured (a second at least), long enough after the last change, and
/// unless upgrades are paused or the ladder is left alone. It holds otherwise.
#[verifier::spinoff_prover]
pub proof fn law_encoding(m: Machine, s: Sample, dt: u128, now: u128)
    requires
        m.at.regime == Regime::Encode,
        s.has_active_clients,
    ensures
        ({
            let (next, decision) = m.updated(s, dt, now);
            let secs = binary64::seconds(dt as int);
            let slope = next.at.rate_ewma;
            let need = needs(m, m.at.current);
            let grows = binary64::product(need, growth_share(m.cfg)).below(slope);
            let over = m.at.current < m.max_index && (nearly_full(s) || (grows && !to_come(
                m.at.stable_protect_until,
                now,
            ) && !to_come(m.at.down_cooldown_until, now)));
            let lasted = binary64::sum(m.at.down_accum, secs);
            let due = over && (nearly_full(s) || binary64::greater(
                m.cfg.down_hold_s,
                binary64::ratio(5, 10),
            ).not_above(lasted));
            let seen = Standing {
                prev_backlog_bytes: s.backlog_bytes,
                rate_ewma: slope,
                down_accum: if over {
                    lasted
                } else {
                    binary64::naught()
                },
                ..m.at
            };
            let steady = binary64::absolute(slope).below(
                binary64::product(need, steady_share(m.cfg)),
            ) && s.backlog_ratio.below(binary64::ratio(10, 100)) && !passed(
                m.at.last_change_at,
                now,
            ).below(binary64::greater(m.cfg.up_cooldown_s, binary64::naught()));
            let upgrades = steady && !to_come(m.at.up_disabled_until, now);
            let waited = binary64::sum(m.at.stable_accum, secs);
            let rises = upgrades && binary64::greater(
                m.cfg.up_hold_s,
                binary64::whole(1),
            ).not_above(waited) && m.at.current > 0 && free(m.at, m.at.current - 1, now);
            &&& next.link_confirmed == m.link_confirmed
            &&& next.link_estimate == m.link_estimate
            &&& match decision {
                Decision::StepDown(t) => {
                    &&& due
                    &&& next_target(m, now, Some(t))
                    &&& next.pending == Some(seen)
                    &&& next.at == Standing {
                        current: t,
                        last_stable: t,
                        stable_accum: binary64::naught(),
                        down_accum: binary64::naught(),
                        last_change_at: now,
                        down_cooldown_until: rest_end(m, now),
                        ..seen
                    }
                },
                Decision::StepUp(t) => {
                    &&& !due
                    &&& rises
                    &&& t + 1 == m.at.current
                    &&& next.pending == Some(Standing { stable_accum: waited, ..seen })
                    &&& next.at == Standing {
                        current: t,
                        regime: Regime::Probing,
                        probe_target: Some(t),
                        probe_until: from_now(now, 12),
                        probe_baseline_bytes: s.backlog_bytes,
                        stable_accum: binary64::naught(),
                        last_change_at: now,
                        ..seen
                    }
                },
                Decision::Hold => {
                    &&& due ==> next_target(m, now, None) && next.at == seen
                    &&& !due ==> !rises && next.at == Standing {
                        stable_accum: if upgrades {
                            waited
                        } else {
                            binary64::naught()
                        },
                        ..seen
                    }
                    &&& next.pending == m.pending
                },
                Decision::RevertDown(t) => false,
            }
        }),
{
    let secs = binary64::seconds(dt as int);
    let seen = m.observed(s, secs);
    let loaded = Machine {
        at: Standing { down_accum: binary64::sum(seen.at.down_accum, secs), ..seen.at },
        ..seen
    };
    lemma_next_down(m, loaded, now);
    assert(free(m.at, m.at.current - 1, now) == !seen.at.is_locked(
        (m.at.current - 1) as usize,
        now,
    ));
}

// ---------------------------------------------------------------------------
// Observing
// ---------------------------------------------------------------------------

/// How many seconds a ladder is left alone after so many failures: a minute,
/// twice as long after each further failure, ten minutes at most.
pub open spec fn rest_after(failures: int) -> int
    decreases failures,
{
    if failures <= 1 {
        60
    } else if 2 * rest_after(failures - 1) >= 600 {
        600
    } else {
        2 * rest_after(failures - 1)
    }
}

proof fn lemma_rest_after(failures: int)
    ensures
        failures <= 1 ==> rest_after(failures) == 60,
        failures == 2 ==> rest_after(failures) == 120,
        failures == 3 ==> rest_after(failures) == 240,
        failures == 4 ==> rest_after(failures) == 480,
        failures >= 5 ==> rest_after(failures) == 600,
    decreases failures,
{
    if failures > 1 {
        lemma_rest_after(failures - 1);
    }
}

/// One more, up to the largest that can be counted.
pub open spec fn one_more(count: u32) -> u32 {
    if count < u32::MAX {
        (count + 1) as u32
    } else {
        count
    }
}

/// How often a ladder has failed, with one more failure.
pub open spec fn failures_with(at: Standing, ladder: usize) -> u32 {
    if at.fail_count.dom().contains(ladder) {
        one_more(at.fail_count[ladder])
    } else {
        1
    }
}

/// What is remembered of a failed ladder: it is left alone, the longer the more
/// often it has failed; a failed upgrade counts, and from the third in a row on
/// upgrades are paused for half an hour.
pub open spec fn with_failure(at: Standing, ladder: usize, now: u128, upgrade: bool) -> Standing {
    let failures = failures_with(at, ladder);
    let in_a_row = if upgrade {
        one_more(at.consecutive_up_fails)
    } else {
        at.consecutive_up_fails
    };
    Standing {
        fail_count: at.fail_count.insert(ladder, failures),
        locked_until: at.locked_until.insert(
            ladder,
            from_now(now, rest_after(failures as int))->0,
        ),
        consecutive_up_fails: in_a_row,
        up_disabled_until: if upgrade && in_a_row >= 3 {
            from_now(now, 1800)
        } else {
            at.up_disabled_until
        },
        ..at
    }
}

proof fn lemma_with_failure(at: Standing, ladder: usize, now: u128, upgrade: bool)
    ensures
        at.locked(now, ladder, upgrade) == with_failure(at, ladder, now, upgrade),
{
    lemma_rest_after(failures_with(at, ladder) as int);
    assert(at.locked(now, ladder, upgrade) =~= with_failure(at, ladder, now, upgrade));
}

/// A ladder under observation has failed where, after two seconds, the backlog
/// has risen by more than a twentieth of what the ladder puts out in the twelve
/// seconds, or still grows by more than its share. The machine then goes back to
/// the last stable ladder, remembers the failure, and does not step down for
/// fifteen seconds. A ladder that has not failed when its time is over is the
/// stable one, and its failures are forgotten.
#[verifier::spinoff_prover]
pub proof fn law_observing(m: Machine, s: Sample, dt: u128, now: u128)
    requires
        m.wf(),
        m.at.regime == Regime::Probing,
        s.has_active_clients,
    ensures
        ({
            let (next, decision) = m.updated(s, dt, now);
            let slope = next.at.rate_ewma;
            let need = if m.at.current == 0 {
                binary64::greater(next.source_bps, binary64::whole(1))
            } else {
                needs(m, m.at.current)
            };
            let allowed = binary64::truncated_i64(
                binary64::product(
                    binary64::product(need, binary64::whole(12)),
                    binary64::ratio(5, 100),
                ),
            );
            let failed = !passed(m.at.last_change_at, now).below(binary64::whole(2)) && (
            s.backlog_bytes - m.at.probe_baseline_bytes > allowed || binary64::product(
                need,
                growth_share(m.cfg),
            ).below(slope));
            let seen = Standing {
                prev_backlog_bytes: s.backlog_bytes,
                rate_ewma: slope,
                ..m.at
            };
            &&& next.link_confirmed == m.link_confirmed
            &&& next.link_estimate == m.link_estimate
            &&& if failed {
                &&& decision == Decision::RevertDown(m.at.last_stable)
                &&& next.pending == Some(seen)
                &&& next.at == Standing {
                    current: m.at.last_stable,
                    regime: Regime::Encode,
                    probe_until: None,
                    probe_target: None,
                    stable_accum: binary64::naught(),
                    down_accum: binary64::naught(),
                    link_confirm_accum: binary64::naught(),
                    stable_protect_until: from_now(now, 15),
                    last_change_at: now,
                    ..with_failure(seen, m.at.current, now, true)
                }
            } else {
                &&& decision == Decision::Hold
                &&& next.pending == m.pending
                &&& next.at == if m.at.probe_until is Some && m.at.probe_until->0 <= now {
                    Standing {
                        regime: if m.at.current == 0 {
                            Regime::Direct
                        } else {
                            Regime::Encode
                        },
                        last_stable: m.at.current,
                        consecutive_up_fails: 0,
                        fail_count: m.at.fail_count.remove(m.at.current),
                        locked_until: m.at.locked_until.remove(m.at.current),
                        probe_until: None,
                        probe_target: None,
                        stable_accum: binary64::naught(),
                        ..seen
                    }
                } else {
                    seen
                }
            }
        }),
{
    let secs = binary64::seconds(dt as int);
    let seen = m.observed(s, secs);
    lemma_with_failure(seen.at, m.at.current, now, true);
}

// ---------------------------------------------------------------------------
// Without players, and around a change
// ---------------------------------------------------------------------------

/// Without players a measurement is taken in and nothing else: the machine holds,
/// and no time counts.
pub proof fn law_without_players(m: Machine, s: Sample, dt: u128, now: u128)
    requires
        !s.has_active_clients,
    ensures
        ({
            let (next, decision) = m.updated(s, dt, now);
            &&& decision == Decision::Hold
            &&& next == Machine {
                at: Standing {
                    prev_backlog_bytes: s.backlog_bytes,
                    rate_ewma: next.at.rate_ewma,
                    stable_accum: binary64::naught(),
                    down_accum: binary64::naught(),
                    link_confirm_accum: binary64::naught(),
                    ..m.at
                },
                source_bps: next.source_bps,
                ..m
            }
        }),
{
}

/// Confirming a change sets the base of the next slope and forgets where the
/// machine stood; undoing it goes back there, and changes nothing where there is
/// nothing to undo; a failure undoes it and is remembered of its ladder, as that
/// of an upgrade where the ladder is above the one gone back to.
pub proof fn law_change_ends(m: Machine, backlog_bytes: u64, target: usize, now: u128)
    ensures
        m.confirmed(backlog_bytes) == (Machine {
            at: Standing {
                prev_backlog_bytes: backlog_bytes,
                rate_ewma: binary64::naught(),
                ..m.at
            },
            pending: None,
            ..m
        }),
        m.pending is None ==> m.rolled_back() == m,
        m.pending is Some ==> m.rolled_back() == (Machine { at: m.pending->0, pending: None, ..m }),
        m.pending is None ==> m.failed(target, now) == (Machine {
            at: with_failure(m.at, target, now, false),
            ..m
        }),
        m.pending is Some ==> m.failed(target, now) == (Machine {
            at: with_failure(m.pending->0, target, now, target < m.pending->0.current),
            pending: None,
            ..m
        }),
{
    lemma_with_failure(m.rolled_back().at, target, now, false);
    lemma_with_failure(m.rolled_back().at, target, now, true);
}

/// A ladder above is observed early where the machine encodes and neither the
/// ladder is left alone nor upgrades are paused; the observation takes twelve
/// seconds and can be undone.
pub proof fn law_early_observation(m: Machine, target: usize, backlog_bytes: u64, now: u128)
    ensures
        m.may_probe(target, now) <==> m.at.regime == Regime::Encode && target < m.at.current && free(
            m.at,
            target as int,
            now,
        ) && !to_come(m.at.up_disabled_until, now),
        m.probed(target, backlog_bytes, now) == (Machine {
            at: Standing {
                current: target,
                regime: Regime::Probing,
                probe_target: Some(target),
                probe_until: from_now(now, 12),
                probe_baseline_bytes: backlog_bytes,
                stable_accum: binary64::naught(),
                down_accum: binary64::naught(),
                last_change_at: now,
                ..m.at
            },
            pending: Some(m.at),
            ..m
        }),
{
}

/// Asking for an early observation starts it where it is allowed, and changes
/// nothing where not.
pub proof fn law_observation_asked_for(m: Machine, target: usize, backlog_bytes: u64, now: u128)
    ensures
        m.may_probe(target, now) ==> m.asked_to_probe(target, backlog_bytes, now) == (
            m.probed(target, backlog_bytes, now),
            Some(Decision::StepUp(target)),
        ),
        !m.may_probe(target, now) ==> m.asked_to_probe(target, backlog_bytes, now) == (
            m,
            None::<Decision>,
        ),
{
}

/// A new machine stands on the ladder to start with, or on the last where there
/// is no such ladder; it takes the rate of ladder 0 for that of the source, has
/// measured nothing, has seen no failure, and may change at once.
pub proof fn law_new_machine(
    cfg: CongestionCfg,
    max_index: usize,
    ladder_bps: Seq<u64>,
    startup_ladder: usize,
    now: u128,
)
    requires
        now >= 1_000_000_000_000,
    ensures
        ({
            let m = Machine::started(cfg, max_index, ladder_bps, startup_ladder, now);
            let zero = binary64::naught();
            &&& startup_ladder <= max_index ==> m.at.current == startup_ladder
            &&& startup_ladder > max_index ==> m.at.current == max_index
            &&& m.at.last_stable == m.at.current
            &&& m.at.regime == Regime::Direct <==> m.at.current == 0
            &&& m.at.regime == Regime::Encode <==> m.at.current > 0
            &&& m.at.last_change_at + 1000 * 1_000_000_000 == now
            &&& m.at.probe_until is None && m.at.probe_target is None
            &&& m.at.probe_baseline_bytes == 0 && m.at.prev_backlog_bytes == 0
            &&& m.at.rate_ewma == zero && m.at.link_confirm_accum == zero
            &&& m.at.stable_accum == zero && m.at.down_accum == zero
            &&& m.at.down_cooldown_until is None && m.at.stable_protect_until is None
            &&& m.at.up_disabled_until is None && m.at.consecutive_up_fails == 0
            &&& forall|ladder: usize|
                !(#[trigger] m.at.locked_until.dom().contains(ladder))
            &&& forall|ladder: usize|
                !(#[trigger] m.at.fail_count.dom().contains(ladder))
            &&& m.max_index == max_index && m.ladder_bps == ladder_bps && m.cfg == cfg
            &&& m.source_bps == needs(m, 0)
            &&& m.link_estimate == zero && !m.link_confirmed
            &&& m.pending is None
        }),
{
}

} // verus!
