//! When to change the ladder: a state machine over measurements.
//!
//! The slope of the bytes that wait is the signal. A ladder with a higher
//! index has a lower bitrate; ladder 0 passes the source on as it is. The
//! machine is in one of three regimes: passing the source on, encoding, or
//! observing a ladder that it has just moved up to. A change is committed at
//! once and confirmed or rolled back when the new stream is there or has
//! failed.

use crate::binary64;
use crate::binary64::Binary64;
use crate::clock;
use crate::clock::{is_ahead, seconds_since, SECOND};
use crate::congestion::Sample;
use std::collections::HashMap;
use vstd::prelude::*;

verus! {

broadcast use vstd::std_specs::hash::group_hash_axioms;

/// Bytes per second where the ladder does not tell.
pub const FALLBACK_SOURCE_BPS: u64 = 1_000_000;

/// How many upgrades in a row may fail before they are paused.
pub const CONSECUTIVE_FAIL_LIMIT: u32 = 3;

/// What the machine is doing.
#[derive(Debug, Clone, Copy, PartialEq, Eq, Structural)]
pub enum Regime {
    /// Passing the source on and measuring the connection.
    Direct,
    /// Encoding.
    Encode,
    /// Observing the ladder that it has moved up to.
    Probing,
}

/// What to do next.
#[derive(Debug, Clone, Copy, PartialEq, Eq, Structural)]
pub enum Decision {
    /// Move to a ladder with a lower bitrate.
    StepDown(usize),
    /// Give up the ladder under observation.
    RevertDown(usize),
    /// Move to a ladder with a higher bitrate.
    StepUp(usize),
    /// Stay.
    Hold,
}

/// The thresholds.
#[derive(Debug, Clone, Copy)]
pub struct CongestionCfg {
    pub down_ratio: Binary64,
    pub down_hold_s: Binary64,
    pub up_ratio: Binary64,
    pub up_hold_s: Binary64,
    pub up_cooldown_s: Binary64,
    pub down_cooldown_s: Binary64,
}

/// What a change of the ladder may have to give back.
pub struct SwitchSnapshot {
    pub current: usize,
    pub last_stable: usize,
    pub regime: Regime,
    pub probe_until: Option<u128>,
    pub probe_target: Option<usize>,
    pub probe_baseline_bytes: u64,
    pub prev_backlog_bytes: u64,
    pub rate_ewma: Binary64,
    pub link_confirm_accum: Binary64,
    pub stable_accum: Binary64,
    pub down_accum: Binary64,
    pub last_change_at: u128,
    pub down_cooldown_until: Option<u128>,
    pub stable_protect_until: Option<u128>,
    pub locked_until: HashMap<usize, u128>,
    pub fail_count: HashMap<usize, u32>,
    pub consecutive_up_fails: u32,
    pub up_disabled_until: Option<u128>,
}

/// The state machine.
pub struct StateMachine {
    /// The ladder in use, or that is being changed to.
    pub current: usize,
    /// The last ladder.
    pub max_index: usize,
    pub regime: Regime,
    /// The smoothed slope of the bytes that wait.
    pub rate_ewma: Binary64,
    pub prev_backlog_bytes: u64,
    /// The measured rate of the source.
    pub source_bps: Binary64,
    /// The measured rate of the connection.
    pub link_estimate: Binary64,
    pub link_confirmed: bool,
    pub link_confirm_accum: Binary64,
    pub probe_until: Option<u128>,
    pub probe_target: Option<usize>,
    pub probe_baseline_bytes: u64,
    pub stable_accum: Binary64,
    pub down_accum: Binary64,
    pub last_stable: usize,
    pub last_change_at: u128,
    pub down_cooldown_until: Option<u128>,
    pub stable_protect_until: Option<u128>,
    pub locked_until: HashMap<usize, u128>,
    pub fail_count: HashMap<usize, u32>,
    pub consecutive_up_fails: u32,
    pub up_disabled_until: Option<u128>,
    pub ladder_bps: Vec<u64>,
    pub cfg: CongestionCfg,
    pub pending_snapshot: Option<SwitchSnapshot>,
}

// ---------------------------------------------------------------------------
// Model
// ---------------------------------------------------------------------------

/// The part of the state that a failed change gives back.
#[verifier::ext_equal]
pub struct Standing {
    pub current: usize,
    pub last_stable: usize,
    pub regime: Regime,
    pub probe_until: Option<u128>,
    pub probe_target: Option<usize>,
    pub probe_baseline_bytes: u64,
    pub prev_backlog_bytes: u64,
    pub rate_ewma: Binary64,
    pub link_confirm_accum: Binary64,
    pub stable_accum: Binary64,
    pub down_accum: Binary64,
    pub last_change_at: u128,
    pub down_cooldown_until: Option<u128>,
    pub stable_protect_until: Option<u128>,
    pub locked_until: Map<usize, u128>,
    pub fail_count: Map<usize, u32>,
    pub consecutive_up_fails: u32,
    pub up_disabled_until: Option<u128>,
}

/// The state of the machine.
#[verifier::ext_equal]
pub struct Machine {
    pub at: Standing,
    pub max_index: usize,
    pub source_bps: Binary64,
    pub link_estimate: Binary64,
    pub link_confirmed: bool,
    pub ladder_bps: Seq<u64>,
    pub cfg: CongestionCfg,
    /// Where the machine stood before a change that is not confirmed yet.
    pub pending: Option<Standing>,
}

impl View for SwitchSnapshot {
    type V = Standing;

    open spec fn view(&self) -> Standing {
        Standing {
            current: self.current,
            last_stable: self.last_stable,
            regime: self.regime,
            probe_until: self.probe_until,
            probe_target: self.probe_target,
            probe_baseline_bytes: self.probe_baseline_bytes,
            prev_backlog_bytes: self.prev_backlog_bytes,
            rate_ewma: self.rate_ewma,
            link_confirm_accum: self.link_confirm_accum,
            stable_accum: self.stable_accum,
            down_accum: self.down_accum,
            last_change_at: self.last_change_at,
            down_cooldown_until: self.down_cooldown_until,
            stable_protect_until: self.stable_protect_until,
            locked_until: self.locked_until@,
            fail_count: self.fail_count@,
            consecutive_up_fails: self.consecutive_up_fails,
            up_disabled_until: self.up_disabled_until,
        }
    }
}

impl View for StateMachine {
    type V = Machine;

    open spec fn view(&self) -> Machine {
        Machine {
            at: Standing {
                current: self.current,
                last_stable: self.last_stable,
                regime: self.regime,
                probe_until: self.probe_until,
                probe_target: self.probe_target,
                probe_baseline_bytes: self.probe_baseline_bytes,
                prev_backlog_bytes: self.prev_backlog_bytes,
                rate_ewma: self.rate_ewma,
                link_confirm_accum: self.link_confirm_accum,
                stable_accum: self.stable_accum,
                down_accum: self.down_accum,
                last_change_at: self.last_change_at,
                down_cooldown_until: self.down_cooldown_until,
                stable_protect_until: self.stable_protect_until,
                locked_until: self.locked_until@,
                fail_count: self.fail_count@,
                consecutive_up_fails: self.consecutive_up_fails,
                up_disabled_until: self.up_disabled_until,
            },
            max_index: self.max_index,
            source_bps: self.source_bps,
            link_estimate: self.link_estimate,
            link_confirmed: self.link_confirmed,
            ladder_bps: self.ladder_bps@,
            cfg: self.cfg,
            pending: match self.pending_snapshot {
                Some(snapshot) => Some(snapshot@),
                None => None,
            },
        }
    }
}

/// The moment `seconds` whole seconds after `now`.
pub open spec fn later(now: u128, seconds: int) -> Option<u128> {
    Some((now + seconds * 1_000_000_000) as u128)
}

/// The smaller of two ladders.
pub open spec fn smaller(a: usize, b: usize) -> usize {
    if a <= b {
        a
    } else {
        b
    }
}

/// The old value and the new one, weighted.
pub open spec fn blended(old_value: Binary64, new_value: Binary64, weight: Binary64) -> Binary64 {
    binary64::sum(
        binary64::product(old_value, binary64::difference(binary64::whole(1), weight)),
        binary64::product(new_value, weight),
    )
}

/// How long a ladder is left alone after it has failed for the `count`th time,
/// in seconds: a minute, doubled each time, at most ten minutes.
pub open spec fn backoff(count: int) -> int {
    if count <= 1 {
        60
    } else if count == 2 {
        120
    } else if count == 3 {
        240
    } else if count == 4 {
        480
    } else {
        600
    }
}

impl Standing {
    /// What every state keeps: the ladders exist, the source is passed on on
    /// ladder 0 alone, and what is under observation is known. The last stable
    /// ladder is the current one, and below it while one is under observation.
    pub open spec fn wf(self, max_index: usize) -> bool {
        &&& self.current <= max_index
        &&& self.last_stable <= max_index
        &&& self.probe_baseline_bytes <= i64::MAX
        &&& self.prev_backlog_bytes <= i64::MAX
        &&& match self.regime {
            Regime::Direct => self.current == 0 && self.last_stable == 0,
            Regime::Encode => self.current > 0 && self.last_stable == self.current,
            Regime::Probing => {
                &&& self.probe_target == Some(self.current)
                &&& self.probe_until is Some
                &&& self.current < self.last_stable
            },
        }
    }

    /// Whether a ladder is left alone for now.
    pub open spec fn is_locked(self, ladder: usize, now: u128) -> bool {
        self.locked_until.dom().contains(ladder) && now < self.locked_until[ladder]
    }

    /// How often a ladder has failed when it has failed once more.
    pub open spec fn failures(self, ladder: usize) -> u32 {
        if !self.fail_count.dom().contains(ladder) {
            1
        } else if self.fail_count[ladder] == u32::MAX {
            u32::MAX
        } else {
            (self.fail_count[ladder] + 1) as u32
        }
    }

    /// The upgrades that have failed in a row when one more has.
    pub open spec fn upgrade_failures(self) -> u32 {
        if self.consecutive_up_fails == u32::MAX {
            u32::MAX
        } else {
            (self.consecutive_up_fails + 1) as u32
        }
    }

    /// The state once a ladder has failed: it is left alone for a while, and
    /// after the third failed upgrade in a row, upgrades are paused for half an
    /// hour.
    pub open spec fn locked(self, now: u128, ladder: usize, upgrade: bool) -> Standing {
        let count = self.failures(ladder);
        let fails = if upgrade {
            self.upgrade_failures()
        } else {
            self.consecutive_up_fails
        };
        Standing {
            fail_count: self.fail_count.insert(ladder, count),
            locked_until: self.locked_until.insert(ladder, later(now, backoff(count as int))->0),
            consecutive_up_fails: fails,
            up_disabled_until: if upgrade && fails >= CONSECUTIVE_FAIL_LIMIT {
                later(now, 1800)
            } else {
                self.up_disabled_until
            },
            ..self
        }
    }

    /// The state at the start of an observation.
    pub open spec fn probing(self, target: usize, backlog_bytes: u64, now: u128) -> Standing {
        Standing {
            current: target,
            regime: Regime::Probing,
            probe_target: Some(target),
            probe_until: later(now, 12),
            probe_baseline_bytes: backlog_bytes,
            stable_accum: binary64::naught(),
            last_change_at: now,
            ..self
        }
    }
}

impl Machine {
    /// What every state of the machine keeps.
    pub open spec fn wf(self) -> bool {
        &&& self.at.wf(self.max_index)
        &&& self.pending matches Some(before) ==> before.wf(self.max_index)
        &&& binary64::nanoseconds(self.cfg.down_cooldown_s) is Some
    }

    /// The bytes per second of a ladder.
    pub open spec fn rate_at(self, ladder: usize) -> u64 {
        if ladder < self.ladder_bps.len() {
            self.ladder_bps[ladder as int]
        } else {
            FALLBACK_SOURCE_BPS
        }
    }

    /// The rate of the source, at least one byte per second.
    pub open spec fn source_rate(self) -> Binary64 {
        binary64::greater(self.source_bps, binary64::whole(1))
    }

    /// The share of the rate beyond which a growing backlog is congestion.
    pub open spec fn down_fill_ratio(self) -> Binary64 {
        binary64::clamped(
            binary64::difference(binary64::whole(1), self.cfg.down_ratio),
            binary64::ratio(2, 100),
            binary64::ratio(50, 100),
        )
    }

    /// The share of the rate up to which the backlog counts as steady.
    pub open spec fn stable_slope_ratio(self) -> Binary64 {
        binary64::clamped(
            binary64::difference(binary64::whole(1), self.cfg.up_ratio),
            binary64::ratio(5, 1000),
            binary64::ratio(20, 100),
        )
    }

    /// The rate that a ladder under observation needs.
    pub open spec fn probe_rate(self, target: usize) -> Binary64 {
        if target == 0 {
            self.source_rate()
        } else {
            binary64::whole(self.rate_at(target) as int)
        }
    }

    /// The slope of the backlog since the last measurement.
    pub open spec fn raw_slope(self, s: Sample, secs: Binary64) -> Binary64 {
        binary64::quotient(
            binary64::whole(s.backlog_bytes - self.at.prev_backlog_bytes),
            binary64::greater(secs, binary64::ratio(1, 100)),
        )
    }

    /// The rate that slopes are compared with.
    pub open spec fn reference_rate(self, s: Sample) -> Binary64 {
        if self.at.regime == Regime::Direct {
            self.source_rate()
        } else if s.prod_bps >= self.rate_at(self.at.current) {
            binary64::whole(s.prod_bps as int)
        } else {
            binary64::whole(self.rate_at(self.at.current) as int)
        }
    }

    /// The smoothed slope: a steep slope counts half, a flat one a fifth.
    pub open spec fn slope(self, s: Sample, secs: Binary64) -> Binary64 {
        let raw = self.raw_slope(s, secs);
        let steep = binary64::product(self.reference_rate(s), binary64::ratio(2, 100)).below(
            binary64::absolute(raw),
        );
        blended(
            self.at.rate_ewma,
            raw,
            if steep {
                binary64::ratio(5, 10)
            } else {
                binary64::ratio(2, 10)
            },
        )
    }

    /// The rate of the source, given the slopes: on ladder 0 it is what the
    /// player takes plus the growth of the backlog.
    pub open spec fn measured_source(self, s: Sample, raw: Binary64, slope: Binary64) -> Binary64 {
        if self.at.current != 0 || s.drain_bps == 0 {
            self.source_bps
        } else {
            let growth = binary64::greater(binary64::greater(raw, slope), binary64::naught());
            blended(
                self.source_bps,
                binary64::sum(binary64::whole(s.drain_bps as int), growth),
                if binary64::naught().below(growth) {
                    binary64::ratio(50, 100)
                } else {
                    binary64::ratio(20, 100)
                },
            )
        }
    }

    /// The state with a measurement taken in, before anything is decided.
    pub open spec fn observed(self, s: Sample, secs: Binary64) -> Machine {
        let slope = self.slope(s, secs);
        Machine {
            at: Standing { prev_backlog_bytes: s.backlog_bytes, rate_ewma: slope, ..self.at },
            source_bps: self.measured_source(s, self.raw_slope(s, secs), slope),
            ..self
        }
    }

    /// The first ladder from `i` on that is not left alone and needs no more
    /// than `cap`.
    pub open spec fn first_within(self, cap: Binary64, now: u128, i: int) -> Option<usize>
        decreases self.max_index + 1 - i,
    {
        if i > self.max_index {
            None
        } else if !self.at.is_locked(i as usize, now) && i < self.ladder_bps.len()
            && binary64::whole(self.ladder_bps[i] as int).not_above(cap) {
            Some(i as usize)
        } else {
            self.first_within(cap, now, i + 1)
        }
    }

    /// The last ladder from 1 up to `i` that is not left alone.
    pub open spec fn last_open(self, now: u128, i: int) -> Option<usize>
        decreases i,
    {
        if i < 1 {
            None
        } else if !self.at.is_locked(i as usize, now) {
            Some(i as usize)
        } else {
            self.last_open(now, i - 1)
        }
    }

    /// The first ladder from `i` on that is not left alone.
    pub open spec fn first_open(self, now: u128, i: int) -> Option<usize>
        decreases self.max_index + 1 - i,
    {
        if i > self.max_index {
            None
        } else if !self.at.is_locked(i as usize, now) {
            Some(i as usize)
        } else {
            self.first_open(now, i + 1)
        }
    }

    /// The ladder for a connection that carries `cap`: the best that fits, else
    /// the lowest that is not left alone.
    pub open spec fn pick_within(self, cap: Binary64, now: u128) -> Option<usize> {
        match self.first_within(cap, now, 1) {
            Some(i) => Some(i),
            None => self.last_open(now, self.max_index as int),
        }
    }

    /// The end of the time after a step down in which there is no other.
    pub open spec fn cooled_down(self, now: u128) -> Option<u128> {
        Some((now + binary64::nanoseconds(self.cfg.down_cooldown_s)->0) as u128)
    }

    /// The step from passing on to encoding.
    pub open spec fn entered_encode(self, target: usize, now: u128) -> Machine {
        Machine {
            at: Standing {
                current: target,
                last_stable: target,
                regime: Regime::Encode,
                link_confirm_accum: binary64::naught(),
                down_cooldown_until: self.cooled_down(now),
                last_change_at: now,
                down_accum: binary64::naught(),
                stable_accum: binary64::naught(),
                stable_protect_until: None,
                ..self.at
            },
            pending: Some(self.at),
            ..self
        }
    }

    /// The first step down, to the ladder for a connection that carries `cap`.
    pub open spec fn first_step_down(self, cap: Binary64, now: u128) -> (Machine, Decision) {
        match self.pick_within(binary64::product(cap, binary64::ratio(75, 100)), now) {
            Some(target) => (self.entered_encode(target, now), Decision::StepDown(target)),
            None => (self, Decision::Hold),
        }
    }

    /// While the source is passed on: step down at once where the queue is
    /// nearly full, and where the backlog has grown for two seconds.
    pub open spec fn updated_direct(self, s: Sample, secs: Binary64, now: u128) -> (
        Machine,
        Decision,
    ) {
        let confirm = binary64::sum(self.at.link_confirm_accum, secs);
        if binary64::ratio(85, 100).not_above(s.backlog_ratio) {
            self.first_step_down(
                if self.link_confirmed {
                    self.link_estimate
                } else {
                    binary64::product(self.source_bps, binary64::ratio(3, 10))
                },
                now,
            )
        } else if !binary64::product(self.source_rate(), self.down_fill_ratio()).below(
            self.at.rate_ewma,
        ) {
            (
                Machine {
                    at: Standing { link_confirm_accum: binary64::naught(), ..self.at },
                    ..self
                },
                Decision::Hold,
            )
        } else {
            let waiting = Machine {
                at: Standing { link_confirm_accum: confirm, ..self.at },
                ..self
            };
            if binary64::whole(2).not_above(confirm) {
                let estimate = binary64::greater(
                    binary64::difference(self.source_bps, self.at.rate_ewma),
                    binary64::naught(),
                );
                Machine { link_estimate: estimate, link_confirmed: true, ..waiting }.first_step_down(
                    estimate,
                    now,
                )
            } else {
                (waiting, Decision::Hold)
            }
        }
    }

    /// Whether the ladder under observation has failed: after two seconds of
    /// grace, the backlog has risen by too much or still grows.
    pub open spec fn probe_failed(self, s: Sample, target: usize, now: u128) -> bool {
        let rate = self.probe_rate(target);
        &&& !binary64::seconds(clock::elapsed(now, self.at.last_change_at) as int).below(
            binary64::whole(2),
        )
        &&& {
            ||| s.backlog_bytes - self.at.probe_baseline_bytes > binary64::truncated_i64(
                binary64::product(
                    binary64::product(rate, binary64::whole(12)),
                    binary64::ratio(5, 100),
                ),
            )
            ||| binary64::product(rate, self.down_fill_ratio()).below(self.at.rate_ewma)
        }
    }

    /// Where a failed observation goes back to.
    pub open spec fn revert_target(self) -> usize {
        smaller(
            if self.at.last_stable >= 1 {
                self.at.last_stable
            } else {
                1
            },
            self.max_index,
        )
    }

    /// The regime that belongs to a ladder.
    pub open spec fn regime_of(ladder: usize) -> Regime {
        if ladder == 0 {
            Regime::Direct
        } else {
            Regime::Encode
        }
    }

    /// The state after a failed observation.
    pub open spec fn reverted(self, target: usize, now: u128) -> Machine {
        Machine {
            at: Standing {
                current: self.revert_target(),
                regime: Machine::regime_of(self.revert_target()),
                probe_until: None,
                probe_target: None,
                stable_accum: binary64::naught(),
                down_accum: binary64::naught(),
                link_confirm_accum: binary64::naught(),
                stable_protect_until: later(now, 15),
                last_change_at: now,
                ..self.at.locked(now, target, true)
            },
            pending: Some(self.at),
            ..self
        }
    }

    /// The state after an observation without failure.
    pub open spec fn settled(self, target: usize) -> Machine {
        Machine {
            at: Standing {
                regime: Machine::regime_of(target),
                last_stable: target,
                consecutive_up_fails: 0,
                fail_count: self.at.fail_count.remove(target),
                locked_until: self.at.locked_until.remove(target),
                probe_until: None,
                probe_target: None,
                stable_accum: binary64::naught(),
                ..self.at
            },
            ..self
        }
    }

    /// While a ladder is observed.
    pub open spec fn updated_probing(self, s: Sample, now: u128) -> (Machine, Decision) {
        let target = self.at.probe_target->0;
        if self.probe_failed(s, target, now) {
            (self.reverted(target, now), Decision::RevertDown(self.revert_target()))
        } else if now >= self.at.probe_until->0 {
            (self.settled(target), Decision::Hold)
        } else {
            (self, Decision::Hold)
        }
    }

    /// Whether an encoding ladder is too much for the connection.
    pub open spec fn overloaded(self, s: Sample, now: u128) -> bool {
        let fill = binary64::product(
            binary64::whole(self.rate_at(self.at.current) as int),
            self.down_fill_ratio(),
        );
        &&& self.at.current < self.max_index
        &&& {
            ||| binary64::ratio(85, 100).not_above(s.backlog_ratio)
            ||| fill.below(self.at.rate_ewma) && !clock::ahead(self.at.stable_protect_until, now)
                && !clock::ahead(self.at.down_cooldown_until, now)
        }
    }

    /// Whether the step down is due, `overload` being how long the overload
    /// has lasted.
    pub open spec fn step_down_due(self, s: Sample, overload: Binary64) -> bool {
        ||| binary64::ratio(85, 100).not_above(s.backlog_ratio)
        ||| binary64::greater(self.cfg.down_hold_s, binary64::ratio(5, 10)).not_above(overload)
    }

    /// Whether the backlog is steady and nearly empty, and the last change
    /// long enough ago.
    pub open spec fn steady(self, s: Sample, now: u128) -> bool {
        &&& binary64::absolute(self.at.rate_ewma).below(
            binary64::product(
                binary64::whole(self.rate_at(self.at.current) as int),
                self.stable_slope_ratio(),
            ),
        )
        &&& s.backlog_ratio.below(binary64::ratio(10, 100))
        &&& !binary64::seconds(clock::elapsed(now, self.at.last_change_at) as int).below(
            binary64::greater(self.cfg.up_cooldown_s, binary64::naught()),
        )
    }

    /// The step down to the next ladder that is not left alone.
    pub open spec fn step_down(self, now: u128) -> (Machine, Decision) {
        match self.first_open(now, self.at.current + 1) {
            None => (self, Decision::Hold),
            Some(target) => (
                Machine {
                    at: Standing {
                        current: target,
                        last_stable: target,
                        down_accum: binary64::naught(),
                        stable_accum: binary64::naught(),
                        down_cooldown_until: self.cooled_down(now),
                        last_change_at: now,
                        ..self.at
                    },
                    pending: Some(self.at),
                    ..self
                },
                Decision::StepDown(target),
            ),
        }
    }

    /// The step up to the ladder above, once the backlog has been steady long
    /// enough.
    pub open spec fn step_up(self, s: Sample, secs: Binary64, now: u128) -> (Machine, Decision) {
        if clock::ahead(self.at.up_disabled_until, now) || !self.steady(s, now) {
            (
                Machine { at: Standing { stable_accum: binary64::naught(), ..self.at }, ..self },
                Decision::Hold,
            )
        } else {
            let waited = binary64::sum(self.at.stable_accum, secs);
            let waiting = Machine { at: Standing { stable_accum: waited, ..self.at }, ..self };
            let target = (self.at.current - 1) as usize;
            if binary64::greater(self.cfg.up_hold_s, binary64::whole(1)).not_above(waited)
                && self.at.current > 0 && !self.at.is_locked(target, now) {
                (
                    Machine {
                        at: waiting.at.probing(target, s.backlog_bytes, now),
                        pending: Some(waiting.at),
                        ..waiting
                    },
                    Decision::StepUp(target),
                )
            } else {
                (waiting, Decision::Hold)
            }
        }
    }

    /// While encoding: step down under a lasting overload, step up after a
    /// lasting steady time.
    pub open spec fn updated_encode(self, s: Sample, secs: Binary64, now: u128) -> (
        Machine,
        Decision,
    ) {
        let overload = if self.overloaded(s, now) {
            binary64::sum(self.at.down_accum, secs)
        } else {
            binary64::naught()
        };
        let next = Machine { at: Standing { down_accum: overload, ..self.at }, ..self };
        if self.overloaded(s, now) && self.step_down_due(s, overload) {
            next.step_down(now)
        } else {
            next.step_up(s, secs, now)
        }
    }

    /// The state and the decision after a measurement.
    pub open spec fn updated(self, s: Sample, dt: u128, now: u128) -> (Machine, Decision) {
        let secs = binary64::seconds(dt as int);
        let seen = self.observed(s, secs);
        if !s.has_active_clients {
            (
                Machine {
                    at: Standing {
                        stable_accum: binary64::naught(),
                        down_accum: binary64::naught(),
                        link_confirm_accum: binary64::naught(),
                        ..seen.at
                    },
                    ..seen
                },
                Decision::Hold,
            )
        } else {
            match self.at.regime {
                Regime::Direct => seen.updated_direct(s, secs, now),
                Regime::Probing => seen.updated_probing(s, now),
                Regime::Encode => seen.updated_encode(s, secs, now),
            }
        }
    }

    /// The state once a change is confirmed: the backlog at that moment is the
    /// base of the next slope.
    pub open spec fn confirmed(self, backlog_bytes: u64) -> Machine {
        Machine {
            at: Standing {
                prev_backlog_bytes: backlog_bytes,
                rate_ewma: binary64::naught(),
                ..self.at
            },
            pending: None,
            ..self
        }
    }

    /// The state with an unconfirmed change undone.
    pub open spec fn rolled_back(self) -> Machine {
        match self.pending {
            Some(before) => Machine { at: before, pending: None, ..self },
            None => self,
        }
    }

    /// The state once a change to `target` has failed.
    pub open spec fn failed(self, target: usize, now: u128) -> Machine {
        let before = self.rolled_back();
        let upgrade = self.pending matches Some(before) && target < before.current;
        Machine { at: before.at.locked(now, target, upgrade), ..before }
    }

    /// Whether an observation of `target` may start right away.
    pub open spec fn may_probe(self, target: usize, now: u128) -> bool {
        &&& target < self.at.current
        &&& self.at.regime == Regime::Encode
        &&& !self.at.is_locked(target, now)
        &&& !clock::ahead(self.at.up_disabled_until, now)
    }

    /// The state at the start of an early observation of `target`.
    pub open spec fn probed(self, target: usize, backlog_bytes: u64, now: u128) -> Machine {
        Machine {
            at: Standing {
                down_accum: binary64::naught(),
                ..self.at.probing(target, backlog_bytes, now)
            },
            pending: Some(self.at),
            ..self
        }
    }

    /// The state and the decision once an early observation of `target` was asked
    /// for.
    pub open spec fn asked_to_probe(self, target: usize, backlog_bytes: u64, now: u128) -> (
        Machine,
        Option<Decision>,
    ) {
        if self.may_probe(target, now) {
            (self.probed(target, backlog_bytes, now), Some(Decision::StepUp(target)))
        } else {
            (self, None)
        }
    }

    /// The state of a new machine: the last change counts as 1000 seconds ago.
    pub open spec fn started(
        cfg: CongestionCfg,
        max_index: usize,
        ladder_bps: Seq<u64>,
        startup_ladder: usize,
        now: u128,
    ) -> Machine {
        let startup = smaller(startup_ladder, max_index);
        Machine {
            at: Standing {
                current: startup,
                last_stable: startup,
                regime: Machine::regime_of(startup),
                probe_until: None,
                probe_target: None,
                probe_baseline_bytes: 0,
                prev_backlog_bytes: 0,
                rate_ewma: binary64::naught(),
                link_confirm_accum: binary64::naught(),
                stable_accum: binary64::naught(),
                down_accum: binary64::naught(),
                last_change_at: (now - 1_000_000_000_000) as u128,
                down_cooldown_until: None,
                stable_protect_until: None,
                locked_until: Map::empty(),
                fail_count: Map::empty(),
                consecutive_up_fails: 0,
                up_disabled_until: None,
            },
            max_index,
            source_bps: binary64::whole(
                if ladder_bps.len() > 0 {
                    ladder_bps[0]
                } else {
                    FALLBACK_SOURCE_BPS
                } as int,
            ),
            link_estimate: binary64::naught(),
            link_confirmed: false,
            ladder_bps,
            cfg,
            pending: None,
        }
    }
}

// ---------------------------------------------------------------------------
// Execution
// ---------------------------------------------------------------------------

/// The moment some whole seconds after `now`.
fn after(now: u128, seconds: u128) -> (moment: Option<u128>)
    requires
        clock::in_range(now),
        seconds <= 1800,
    ensures
        moment == later(now, seconds as int),
{
    Some(now + seconds * SECOND)
}

fn blend(old_value: Binary64, new_value: Binary64, weight: Binary64) -> (r: Binary64)
    ensures
        r == blended(old_value, new_value, weight),
{
    old_value.times(Binary64::from_u64(1).minus(weight)).plus(new_value.times(weight))
}

/// How long a ladder is left alone after it has failed for the `count`th time,
/// in seconds.
pub fn backoff_seconds(count: u32) -> (seconds: u128)
    ensures
        seconds == backoff(count as int),
        60 <= seconds <= 600,
{
    match count {
        0 | 1 => 60,
        2 => 120,
        3 => 240,
        4 => 480,
        _ => 600,
    }
}

impl StateMachine {
    /// A machine that starts on a ladder, as if the last change were 1000 seconds
    /// ago, a moment that the clock must reach back to.
    pub fn new(
        cfg: CongestionCfg,
        max_index: usize,
        ladder_bps: Vec<u64>,
        startup_ladder: usize,
        now: u128,
    ) -> (machine: StateMachine)
        requires
            now >= 1_000_000_000_000,
        ensures
            machine@ == Machine::started(cfg, max_index, ladder_bps@, startup_ladder, now),
            machine@.wf() == (binary64::nanoseconds(cfg.down_cooldown_s) is Some),
    {
        let first = if ladder_bps.len() > 0 {
            ladder_bps[0]
        } else {
            FALLBACK_SOURCE_BPS
        };
        let startup = if startup_ladder <= max_index {
            startup_ladder
        } else {
            max_index
        };
        StateMachine {
            current: startup,
            max_index,
            regime: if startup == 0 {
                Regime::Direct
            } else {
                Regime::Encode
            },
            rate_ewma: Binary64::zero(),
            prev_backlog_bytes: 0,
            source_bps: Binary64::from_u64(first),
            link_estimate: Binary64::zero(),
            link_confirmed: false,
            link_confirm_accum: Binary64::zero(),
            probe_until: None,
            probe_target: None,
            probe_baseline_bytes: 0,
            stable_accum: Binary64::zero(),
            down_accum: Binary64::zero(),
            last_stable: startup,
            last_change_at: now - 1000 * SECOND,
            down_cooldown_until: None,
            stable_protect_until: None,
            locked_until: HashMap::new(),
            fail_count: HashMap::new(),
            consecutive_up_fails: 0,
            up_disabled_until: None,
            ladder_bps,
            cfg,
            pending_snapshot: None,
        }
    }

    /// Confirms the change: the bytes that wait now are the base of the next
    /// slope.
    pub fn confirm_switch(&mut self, backlog_bytes: u64)
        ensures
            final(self)@ == old(self)@.confirmed(backlog_bytes),
            old(self)@.wf() && backlog_bytes <= i64::MAX ==> final(self)@.wf(),
    {
        self.pending_snapshot = None;
        self.prev_backlog_bytes = backlog_bytes;
        self.rate_ewma = Binary64::zero();
    }

    /// Undoes the change that is not confirmed yet.
    pub fn rollback_switch(&mut self)
        ensures
            final(self)@ == old(self)@.rolled_back(),
            old(self)@.wf() ==> final(self)@.wf(),
    {
        let snapshot = self.pending_snapshot.take();
        if let Some(snap) = snapshot {
            self.current = snap.current;
            self.last_stable = snap.last_stable;
            self.regime = snap.regime;
            self.probe_until = snap.probe_until;
            self.probe_target = snap.probe_target;
            self.probe_baseline_bytes = snap.probe_baseline_bytes;
            self.prev_backlog_bytes = snap.prev_backlog_bytes;
            self.rate_ewma = snap.rate_ewma;
            self.link_confirm_accum = snap.link_confirm_accum;
            self.stable_accum = snap.stable_accum;
            self.down_accum = snap.down_accum;
            self.last_change_at = snap.last_change_at;
            self.down_cooldown_until = snap.down_cooldown_until;
            self.stable_protect_until = snap.stable_protect_until;
            self.locked_until = snap.locked_until;
            self.fail_count = snap.fail_count;
            self.consecutive_up_fails = snap.consecutive_up_fails;
            self.up_disabled_until = snap.up_disabled_until;
        }
    }

    /// Undoes a change whose new stream failed, and leaves its ladder alone for
    /// a while.
    pub fn rollback_failed_switch(&mut self, target: usize, now: u128)
        requires
            clock::in_range(now),
        ensures
            final(self)@ == old(self)@.failed(target, now),
            old(self)@.wf() ==> final(self)@.wf(),
    {
        let was_upgrade = match &self.pending_snapshot {
            Some(snap) => target < snap.current,
            None => false,
        };
        self.rollback_switch();
        self.lock_target(now, target, was_upgrade);
    }

    fn save_snapshot(&mut self)
        ensures
            final(self)@ == (Machine { pending: Some(old(self)@.at), ..old(self)@ }),
    {
        self.pending_snapshot = Some(
            SwitchSnapshot {
                current: self.current,
                last_stable: self.last_stable,
                regime: self.regime,
                probe_until: self.probe_until,
                probe_target: self.probe_target,
                probe_baseline_bytes: self.probe_baseline_bytes,
                prev_backlog_bytes: self.prev_backlog_bytes,
                rate_ewma: self.rate_ewma,
                link_confirm_accum: self.link_confirm_accum,
                stable_accum: self.stable_accum,
                down_accum: self.down_accum,
                last_change_at: self.last_change_at,
                down_cooldown_until: self.down_cooldown_until,
                stable_protect_until: self.stable_protect_until,
                locked_until: self.locked_until.clone(),
                fail_count: self.fail_count.clone(),
                consecutive_up_fails: self.consecutive_up_fails,
                up_disabled_until: self.up_disabled_until,
            },
        );
    }

    /// Whether a ladder is left alone for now.
    pub fn is_locked(&self, ladder: usize, now: u128) -> (locked: bool)
        ensures
            locked == self@.at.is_locked(ladder, now),
    {
        match self.locked_until.get(&ladder) {
            Some(until) => now < *until,
            None => false,
        }
    }

    fn lock_target(&mut self, now: u128, ladder: usize, counts_as_upgrade_fail: bool)
        requires
            clock::in_range(now),
        ensures
            final(self)@ == (Machine {
                at: old(self)@.at.locked(now, ladder, counts_as_upgrade_fail),
                ..old(self)@
            }),
    {
        let count: u32 = match self.fail_count.get(&ladder) {
            Some(count) => count.saturating_add(1),
            None => 1,
        };
        self.fail_count.insert(ladder, count);
        self.locked_until.insert(ladder, now + backoff_seconds(count) * SECOND);
        if !counts_as_upgrade_fail {
            return;
        }
        self.consecutive_up_fails = self.consecutive_up_fails.saturating_add(1);
        if self.consecutive_up_fails >= CONSECUTIVE_FAIL_LIMIT {
            self.up_disabled_until = after(now, 1800);
        }
    }

    /// Starts to observe a higher ladder right away, where nothing speaks
    /// against it.
    pub fn request_startup_probe(&mut self, target: usize, backlog_bytes: u64, now: u128) -> (
        decision: Option<Decision>
    )
        requires
            clock::in_range(now),
        ensures
            (final(self)@, decision) == old(self)@.asked_to_probe(target, backlog_bytes, now),
            old(self)@.may_probe(target, now) ==> {
                &&& decision == Some(Decision::StepUp(target))
                &&& final(self)@ == old(self)@.probed(target, backlog_bytes, now)
            },
            !old(self)@.may_probe(target, now) ==> {
                &&& decision is None
                &&& final(self)@ == old(self)@
            },
            old(self)@.wf() && backlog_bytes <= i64::MAX ==> final(self)@.wf(),
    {
        if target >= self.current || !matches!(self.regime, Regime::Encode) {
            return None;
        }
        if self.is_locked(target, now) || is_ahead(self.up_disabled_until, now) {
            return None;
        }
        self.save_snapshot();
        self.current = target;
        self.regime = Regime::Probing;
        self.probe_target = Some(target);
        self.probe_until = after(now, 12);
        self.probe_baseline_bytes = backlog_bytes;
        self.stable_accum = Binary64::zero();
        self.down_accum = Binary64::zero();
        self.last_change_at = now;
        Some(Decision::StepUp(target))
    }

    fn ladder_rate(&self, ladder: usize) -> (bps: u64)
        ensures
            bps == self@.rate_at(ladder),
    {
        if ladder < self.ladder_bps.len() {
            self.ladder_bps[ladder]
        } else {
            FALLBACK_SOURCE_BPS
        }
    }

    fn source_rate(&self) -> (bps: Binary64)
        ensures
            bps == self@.source_rate(),
    {
        self.source_bps.max(Binary64::from_u64(1))
    }

    fn down_fill_ratio(&self) -> (share: Binary64)
        ensures
            share == self@.down_fill_ratio(),
    {
        Binary64::from_u64(1).minus(self.cfg.down_ratio).clamp(
            Binary64::ratio(2, 100),
            Binary64::ratio(50, 100),
        )
    }

    fn stable_slope_ratio(&self) -> (share: Binary64)
        ensures
            share == self@.stable_slope_ratio(),
    {
        Binary64::from_u64(1).minus(self.cfg.up_ratio).clamp(
            Binary64::ratio(5, 1000),
            Binary64::ratio(20, 100),
        )
    }

    fn probe_target_bps(&self, target: usize) -> (bps: Binary64)
        ensures
            bps == self@.probe_rate(target),
    {
        if target == 0 {
            self.source_rate()
        } else {
            Binary64::from_u64(self.ladder_rate(target))
        }
    }

    /// Takes a measurement in and decides.
    pub fn update(&mut self, s: &Sample, dt: u128, now: u128) -> (decision: Decision)
        requires
            old(self)@.wf(),
            s.backlog_bytes <= i64::MAX,
            clock::in_range(dt),
            clock::in_range(now),
        ensures
            (final(self)@, decision) == old(self)@.updated(*s, dt, now),
            final(self)@.wf(),
    {
        let secs = Binary64::from_nanos(dt);
        let reference = if matches!(self.regime, Regime::Direct) {
            self.source_rate()
        } else {
            let ladder_bps = self.ladder_rate(self.current);
            Binary64::from_u64(
                if s.prod_bps >= ladder_bps {
                    s.prod_bps
                } else {
                    ladder_bps
                },
            )
        };
        let delta: i64 = s.backlog_bytes as i64 - self.prev_backlog_bytes as i64;
        let raw = Binary64::from_i64(delta).over(secs.max(Binary64::ratio(1, 100)));
        let weight = if reference.times(Binary64::ratio(2, 100)).lt(raw.abs()) {
            Binary64::ratio(5, 10)
        } else {
            Binary64::ratio(2, 10)
        };
        self.prev_backlog_bytes = s.backlog_bytes;
        self.rate_ewma = blend(self.rate_ewma, raw, weight);
        self.observe_direct_source_bps(s, raw);
        assert(self@ =~= old(self)@.observed(*s, secs));
        if !s.has_active_clients {
            self.stable_accum = Binary64::zero();
            self.down_accum = Binary64::zero();
            self.link_confirm_accum = Binary64::zero();
            return Decision::Hold;
        }
        match self.regime {
            Regime::Direct => self.update_direct(s, secs, now),
            Regime::Probing => self.update_probing(s, now),
            Regime::Encode => self.update_encode(s, secs, now),
        }
    }

    fn observe_direct_source_bps(&mut self, s: &Sample, raw_rate: Binary64)
        ensures
            final(self)@ == (Machine {
                source_bps: old(self)@.measured_source(*s, raw_rate, old(self)@.at.rate_ewma),
                ..old(self)@
            }),
    {
        if self.current != 0 || s.drain_bps == 0 {
            return;
        }
        let growth = raw_rate.max(self.rate_ewma).max(Binary64::zero());
        let sample = Binary64::from_u64(s.drain_bps).plus(growth);
        let weight = if Binary64::zero().lt(growth) {
            Binary64::ratio(50, 100)
        } else {
            Binary64::ratio(20, 100)
        };
        self.source_bps = blend(self.source_bps, sample, weight);
    }

    fn update_direct(&mut self, s: &Sample, secs: Binary64, now: u128) -> (decision: Decision)
        requires
            old(self)@.wf(),
            old(self)@.at.regime == Regime::Direct,
            clock::in_range(now),
        ensures
            (final(self)@, decision) == old(self)@.updated_direct(*s, secs, now),
            final(self)@.wf(),
    {
        if Binary64::ratio(85, 100).le(s.backlog_ratio) {
            let estimate = if self.link_confirmed {
                self.link_estimate
            } else {
                self.source_bps.times(Binary64::ratio(3, 10))
            };
            return self.first_step_down(estimate, now);
        }
        if self.source_rate().times(self.down_fill_ratio()).lt(self.rate_ewma) {
            self.link_confirm_accum = self.link_confirm_accum.plus(secs);
            if Binary64::from_u64(2).le(self.link_confirm_accum) {
                self.link_estimate = self.source_bps.minus(self.rate_ewma).max(Binary64::zero());
                self.link_confirmed = true;
                return self.first_step_down(self.link_estimate, now);
            }
        } else {
            self.link_confirm_accum = Binary64::zero();
        }
        Decision::Hold
    }

    fn first_step_down(&mut self, estimate: Binary64, now: u128) -> (decision: Decision)
        requires
            old(self)@.wf(),
            old(self)@.at.regime == Regime::Direct,
            clock::in_range(now),
        ensures
            (final(self)@, decision) == old(self)@.first_step_down(estimate, now),
            final(self)@.wf(),
    {
        match self.pick_within_unlocked(estimate.times(Binary64::ratio(75, 100)), now) {
            Some(target) => self.enter_encode(target, now),
            None => Decision::Hold,
        }
    }

    fn update_probing(&mut self, s: &Sample, now: u128) -> (decision: Decision)
        requires
            old(self)@.wf(),
            old(self)@.at.regime == Regime::Probing,
            s.backlog_bytes <= i64::MAX,
            clock::in_range(now),
        ensures
            (final(self)@, decision) == old(self)@.updated_probing(*s, now),
            final(self)@.wf(),
    {
        let target = self.probe_target.unwrap();
        let probe_end = self.probe_until.unwrap();
        let grace = seconds_since(now, self.last_change_at).lt(Binary64::from_u64(2));
        let target_bps = self.probe_target_bps(target);
        let fill_thresh = target_bps.times(self.down_fill_ratio());
        let rise_limit = target_bps.times(Binary64::from_u64(12)).times(
            Binary64::ratio(5, 100),
        ).to_i64();
        let risen: i64 = s.backlog_bytes as i64 - self.probe_baseline_bytes as i64;
        if !grace && (risen > rise_limit || fill_thresh.lt(self.rate_ewma)) {
            let stable = if self.last_stable >= 1 {
                self.last_stable
            } else {
                1
            };
            let revert = if stable <= self.max_index {
                stable
            } else {
                self.max_index
            };
            self.save_snapshot();
            self.lock_target(now, target, true);
            self.current = revert;
            self.regime = if revert == 0 {
                Regime::Direct
            } else {
                Regime::Encode
            };
            self.probe_until = None;
            self.probe_target = None;
            self.stable_accum = Binary64::zero();
            self.down_accum = Binary64::zero();
            self.link_confirm_accum = Binary64::zero();
            self.stable_protect_until = after(now, 15);
            self.last_change_at = now;
            return Decision::RevertDown(revert);
        }
        if now >= probe_end {
            self.regime = if target == 0 {
                Regime::Direct
            } else {
                Regime::Encode
            };
            self.last_stable = target;
            self.consecutive_up_fails = 0;
            self.fail_count.remove(&target);
            self.locked_until.remove(&target);
            self.probe_until = None;
            self.probe_target = None;
            self.stable_accum = Binary64::zero();
        }
        Decision::Hold
    }

    fn update_encode(&mut self, s: &Sample, secs: Binary64, now: u128) -> (decision: Decision)
        requires
            old(self)@.wf(),
            old(self)@.at.regime == Regime::Encode,
            s.backlog_bytes <= i64::MAX,
            clock::in_range(now),
        ensures
            (final(self)@, decision) == old(self)@.updated_encode(*s, secs, now),
            final(self)@.wf(),
    {
        let current_bps = Binary64::from_u64(self.ladder_rate(self.current));
        let fill_thresh = current_bps.times(self.down_fill_ratio());
        let stable_thresh = current_bps.times(self.stable_slope_ratio());
        let protect = is_ahead(self.stable_protect_until, now);
        let cd_down = is_ahead(self.down_cooldown_until, now);
        let emergency = Binary64::ratio(85, 100).le(s.backlog_ratio);
        let congested = fill_thresh.lt(self.rate_ewma);
        if (emergency || (congested && !protect && !cd_down)) && self.current < self.max_index {
            self.down_accum = self.down_accum.plus(secs);
            if emergency || self.cfg.down_hold_s.max(Binary64::ratio(5, 10)).le(self.down_accum) {
                let target = match self.next_unlocked_down(now) {
                    Some(target) => target,
                    None => return Decision::Hold,
                };
                self.save_snapshot();
                self.current = target;
                self.last_stable = target;
                self.down_accum = Binary64::zero();
                self.stable_accum = Binary64::zero();
                self.down_cooldown_until = self.cooldown_end(now);
                self.last_change_at = now;
                return Decision::StepDown(target);
            }
        } else {
            self.down_accum = Binary64::zero();
        }
        let stable = self.rate_ewma.abs().lt(stable_thresh) && s.backlog_ratio.lt(
            Binary64::ratio(10, 100),
        );
        let cd_up = seconds_since(now, self.last_change_at).lt(
            self.cfg.up_cooldown_s.max(Binary64::zero()),
        );
        if is_ahead(self.up_disabled_until, now) {
            self.stable_accum = Binary64::zero();
            return Decision::Hold;
        }
        if stable && !cd_up {
            self.stable_accum = self.stable_accum.plus(secs);
            if self.cfg.up_hold_s.max(Binary64::from_u64(1)).le(self.stable_accum) && self.current
                > 0 {
                let target = self.current - 1;
                if !self.is_locked(target, now) {
                    self.save_snapshot();
                    self.current = target;
                    self.regime = Regime::Probing;
                    self.probe_target = Some(target);
                    self.probe_until = after(now, 12);
                    self.probe_baseline_bytes = s.backlog_bytes;
                    self.stable_accum = Binary64::zero();
                    self.last_change_at = now;
                    return Decision::StepUp(target);
                }
            }
        } else {
            self.stable_accum = Binary64::zero();
        }
        Decision::Hold
    }

    fn cooldown_end(&self, now: u128) -> (moment: Option<u128>)
        requires
            binary64::nanoseconds(self.cfg.down_cooldown_s) is Some,
            clock::in_range(now),
        ensures
            moment == self@.cooled_down(now),
    {
        let cooldown = self.cfg.down_cooldown_s.to_nanos().unwrap();
        Some(now + cooldown)
    }

    fn enter_encode(&mut self, target: usize, now: u128) -> (decision: Decision)
        requires
            old(self)@.wf(),
            0 < target <= old(self)@.max_index,
            clock::in_range(now),
        ensures
            decision == Decision::StepDown(target),
            final(self)@ == old(self)@.entered_encode(target, now),
            final(self)@.wf(),
    {
        self.save_snapshot();
        self.current = target;
        self.last_stable = target;
        self.regime = Regime::Encode;
        self.link_confirm_accum = Binary64::zero();
        self.down_cooldown_until = self.cooldown_end(now);
        self.last_change_at = now;
        self.down_accum = Binary64::zero();
        self.stable_accum = Binary64::zero();
        self.stable_protect_until = None;
        Decision::StepDown(target)
    }

    /// The first ladder that is not left alone and needs no more than `cap`,
    /// else the last that is not left alone.
    fn pick_within_unlocked(&self, cap: Binary64, now: u128) -> (target: Option<usize>)
        ensures
            target == self@.pick_within(cap, now),
            target matches Some(t) ==> 0 < t <= self.max_index,
    {
        let mut i: usize = 1;
        while i <= self.max_index && i < self.ladder_bps.len()
            invariant
                1 <= i,
                self@.first_within(cap, now, 1) == self@.first_within(cap, now, i as int),
            decreases self.ladder_bps@.len() - i,
        {
            if !self.is_locked(i, now) && Binary64::from_u64(self.ladder_bps[i]).le(cap) {
                return Some(i);
            }
            i = i + 1;
        }
        proof {
            lemma_beyond_ladder(self@, cap, now, i as int);
        }
        let mut k: usize = self.max_index;
        while k >= 1
            invariant
                k <= self.max_index,
                self@.first_within(cap, now, 1) is None,
                self@.last_open(now, self.max_index as int) == self@.last_open(now, k as int),
            decreases k,
        {
            if !self.is_locked(k, now) {
                return Some(k);
            }
            k = k - 1;
        }
        None
    }

    fn next_unlocked_down(&self, now: u128) -> (target: Option<usize>)
        requires
            self.current < self.max_index,
        ensures
            target == self@.first_open(now, self.current + 1),
            target matches Some(t) ==> self.current < t <= self.max_index,
    {
        let mut i: usize = self.current;
        while i < self.max_index
            invariant
                self.current <= i <= self.max_index,
                self@.first_open(now, self.current + 1) == self@.first_open(now, i + 1),
            decreases self.max_index - i,
        {
            i = i + 1;
            if !self.is_locked(i, now) {
                return Some(i);
            }
        }
        None
    }
}

/// Beyond the known ladders none fits.
proof fn lemma_beyond_ladder(m: Machine, cap: Binary64, now: u128, i: int)
    requires
        i > m.max_index || i >= m.ladder_bps.len(),
    ensures
        m.first_within(cap, now, i) is None,
    decreases m.max_index + 1 - i,
{
    if i <= m.max_index {
        lemma_beyond_ladder(m, cap, now, i + 1);
    }
}

// ---------------------------------------------------------------------------
// Laws
// ---------------------------------------------------------------------------

proof fn lemma_first_within(m: Machine, cap: Binary64, now: u128, i: int)
    requires
        1 <= i,
    ensures
        m.first_within(cap, now, i) matches Some(t) ==> i <= t <= m.max_index && !m.at.is_locked(
            t,
            now,
        ),
    decreases m.max_index + 1 - i,
{
    if i <= m.max_index {
        lemma_first_within(m, cap, now, i + 1);
    }
}

proof fn lemma_last_open(m: Machine, now: u128, i: int)
    requires
        i <= m.max_index,
    ensures
        m.last_open(now, i) matches Some(t) ==> 1 <= t <= m.max_index && !m.at.is_locked(t, now),
    decreases i,
{
    if i >= 1 {
        lemma_last_open(m, now, i - 1);
    }
}

proof fn lemma_first_open(m: Machine, now: u128, i: int)
    requires
        1 <= i,
    ensures
        m.first_open(now, i) matches Some(t) ==> i <= t <= m.max_index && !m.at.is_locked(t, now),
    decreases m.max_index + 1 - i,
{
    if i <= m.max_index {
        lemma_first_open(m, now, i + 1);
    }
}

proof fn lemma_picked(m: Machine, cap: Binary64, now: u128)
    ensures
        m.pick_within(cap, now) matches Some(t) ==> 1 <= t <= m.max_index && !m.at.is_locked(
            t,
            now,
        ),
{
    lemma_first_within(m, cap, now, 1);
    lemma_last_open(m, now, m.max_index as int);
}

/// A ladder is picked unless every ladder but 0 is left alone.
pub proof fn law_pick_succeeds(m: Machine, cap: Binary64, now: u128, open: usize)
    requires
        1 <= open <= m.max_index,
        !m.at.is_locked(open, now),
    ensures
        m.pick_within(cap, now) is Some,
{
    lemma_some_open(m, now, open, m.max_index as int);
}

proof fn lemma_some_open(m: Machine, now: u128, open: usize, i: int)
    requires
        1 <= open <= i <= m.max_index,
        !m.at.is_locked(open, now),
    ensures
        m.last_open(now, i) is Some,
    decreases i,
{
    if i > open {
        lemma_some_open(m, now, open, i - 1);
    }
}

/// Every decision names a ladder that exists and that the machine then stands
/// on. A step down goes further down, a revert goes down to the last stable
/// ladder, and a step up goes one up; neither step goes to a ladder that is left
/// alone. A step up comes only after the wait that is
/// configured and while upgrades are not paused. Without a decision the ladder
/// stays.
pub proof fn law_decisions(m: Machine, s: Sample, dt: u128, now: u128)
    requires
        m.wf(),
    ensures
        ({
            let (next, decision) = m.updated(s, dt, now);
            match decision {
                Decision::StepDown(t) => {
                    &&& m.at.current < t <= m.max_index
                    &&& next.at.current == t
                    &&& next.at.regime == Regime::Encode
                    &&& !m.at.is_locked(t, now)
                },
                Decision::RevertDown(t) => {
                    &&& m.at.current < t <= m.max_index
                    &&& t == m.at.last_stable
                    &&& next.at.current == t
                    &&& next.at.regime == Regime::Encode
                    &&& m.at.regime == Regime::Probing
                },
                Decision::StepUp(t) => {
                    &&& t + 1 == m.at.current
                    &&& next.at.current == t
                    &&& next.at.regime == Regime::Probing
                    &&& !m.at.is_locked(t, now)
                    &&& !clock::ahead(m.at.up_disabled_until, now)
                    &&& !binary64::seconds(clock::elapsed(now, m.at.last_change_at) as int).below(
                        binary64::greater(m.cfg.up_cooldown_s, binary64::naught()),
                    )
                },
                Decision::Hold => next.at.current == m.at.current,
            }
        }),
{
    let secs = binary64::seconds(dt as int);
    let seen = m.observed(s, secs);
    let (next, decision) = m.updated(s, dt, now);
    assert(seen.at.locked_until == m.at.locked_until);
    match m.at.regime {
        Regime::Direct => {
            if decision is StepDown {
                let estimate = binary64::greater(
                    binary64::difference(seen.source_bps, seen.at.rate_ewma),
                    binary64::naught(),
                );
                let waiting = Machine {
                    at: Standing {
                        link_confirm_accum: binary64::sum(seen.at.link_confirm_accum, secs),
                        ..seen.at
                    },
                    link_estimate: estimate,
                    link_confirmed: true,
                    ..seen
                };
                lemma_picked(
                    waiting,
                    binary64::product(estimate, binary64::ratio(75, 100)),
                    now,
                );
                lemma_picked(
                    seen,
                    binary64::product(
                        if seen.link_confirmed {
                            seen.link_estimate
                        } else {
                            binary64::product(seen.source_bps, binary64::ratio(3, 10))
                        },
                        binary64::ratio(75, 100),
                    ),
                    now,
                );
            }
        },
        Regime::Probing => {},
        Regime::Encode => {
            let loaded = Machine {
                at: Standing {
                    down_accum: binary64::sum(seen.at.down_accum, secs),
                    ..seen.at
                },
                ..seen
            };
            lemma_first_open(loaded, now, m.at.current + 1);
        },
    }
}

/// However a machine got where it is, the next measurement leaves it with a
/// ladder that exists; passing on means that ladder 0 is current and stable,
/// encoding that another ladder is, and an observation that the stable ladder is
/// further down.
pub proof fn law_states(m: Machine, s: Sample, dt: u128, now: u128)
    requires
        m.wf(),
        s.backlog_bytes <= i64::MAX,
    ensures
        ({
            let next = m.updated(s, dt, now).0;
            &&& next.wf()
            &&& next.max_index == m.max_index
            &&& next.at.current <= m.max_index
            &&& match next.at.regime {
                Regime::Direct => next.at.current == 0 && next.at.last_stable == 0,
                Regime::Encode => next.at.current == next.at.last_stable && next.at.current >= 1,
                Regime::Probing => next.at.current < next.at.last_stable,
            }
        }),
{
    law_decisions(m, s, dt, now);
}

/// What may be done with a machine.
pub enum Call {
    Update { sample: Sample, dt: u128, now: u128 },
    Probe { target: usize, backlog_bytes: u64, now: u128 },
    Confirm { backlog_bytes: u64 },
    Rollback,
    Fail { target: usize, now: u128 },
}

impl Call {
    /// Whether the bytes that it speaks of can be counted.
    pub open spec fn counts(self) -> bool {
        match self {
            Call::Update { sample, .. } => sample.backlog_bytes <= i64::MAX,
            Call::Probe { backlog_bytes, .. } => backlog_bytes <= i64::MAX,
            Call::Confirm { backlog_bytes } => backlog_bytes <= i64::MAX,
            _ => true,
        }
    }
}

impl Machine {
    /// The state after a call.
    pub open spec fn step(self, call: Call) -> Machine {
        match call {
            Call::Update { sample, dt, now } => self.updated(sample, dt, now).0,
            Call::Probe { target, backlog_bytes, now } => if self.may_probe(target, now) {
                self.probed(target, backlog_bytes, now)
            } else {
                self
            },
            Call::Confirm { backlog_bytes } => self.confirmed(backlog_bytes),
            Call::Rollback => self.rolled_back(),
            Call::Fail { target, now } => self.failed(target, now),
        }
    }

    /// The state after a course of calls.
    pub open spec fn after(self, calls: Seq<Call>) -> Machine
        decreases calls.len(),
    {
        if calls.len() == 0 {
            self
        } else {
            self.after(calls.drop_last()).step(calls.last())
        }
    }
}

/// Every state that a new machine can get to is in order.
pub proof fn law_reachable_states(
    cfg: CongestionCfg,
    max_index: usize,
    ladder_bps: Seq<u64>,
    startup_ladder: usize,
    start: u128,
    calls: Seq<Call>,
)
    requires
        binary64::nanoseconds(cfg.down_cooldown_s) is Some,
        forall|i: int| 0 <= i < calls.len() ==> (#[trigger] calls[i]).counts(),
    ensures
        ({
            let m = Machine::started(cfg, max_index, ladder_bps, startup_ladder, start).after(calls);
            m.wf() && m.max_index == max_index
        }),
    decreases calls.len(),
{
    if calls.len() > 0 {
        let earlier = calls.drop_last();
        assert forall|i: int| 0 <= i < earlier.len() implies (#[trigger] earlier[i]).counts() by {
            assert(calls[i].counts());
        }
        law_reachable_states(cfg, max_index, ladder_bps, startup_ladder, start, earlier);
        assert(calls[calls.len() - 1].counts());
        let m = Machine::started(cfg, max_index, ladder_bps, startup_ladder, start).after(earlier);
        if let Call::Update { sample, dt, now } = calls.last() {
            law_states(m, sample, dt, now);
        }
    }
}

/// Undoing a change that was just decided gives back the ladder, the regime,
/// the observation, the waiting times, the locks and the failure counts.
pub proof fn law_rollback_undoes(m: Machine, s: Sample, dt: u128, now: u128)
    requires
        m.wf(),
        m.updated(s, dt, now).1 != Decision::Hold,
    ensures
        ({
            let next = m.updated(s, dt, now).0;
            let back = next.rolled_back();
            &&& next.pending is Some
            &&& back.pending is None
            &&& back.at == Standing {
                prev_backlog_bytes: back.at.prev_backlog_bytes,
                rate_ewma: back.at.rate_ewma,
                link_confirm_accum: back.at.link_confirm_accum,
                stable_accum: back.at.stable_accum,
                down_accum: back.at.down_accum,
                ..m.at
            }
        }),
{
}

/// Undoing an early observation gives everything back.
pub proof fn law_rollback_undoes_probe(m: Machine, target: usize, backlog_bytes: u64, now: u128)
    ensures
        m.probed(target, backlog_bytes, now).rolled_back() == (Machine { pending: None, ..m }),
{
}

/// A ladder whose change failed is left alone for a minute at least: it is
/// neither observed early nor stepped to.
pub proof fn law_failed_ladder_rests(
    m: Machine,
    target: usize,
    now: u128,
    s: Sample,
    dt: u128,
    then: u128,
)
    requires
        m.wf(),
        clock::in_range(now),
        now <= then < now + 60_000_000_000,
    ensures
        ({
            let failed = m.failed(target, now);
            let decision = failed.updated(s, dt, then).1;
            &&& failed.at.is_locked(target, then)
            &&& !failed.may_probe(target, then)
            &&& decision != Decision::StepDown(target)
            &&& decision != Decision::StepUp(target)
        }),
{
    let failed = m.failed(target, now);
    assert(failed.wf());
    assert(backoff(m.rolled_back().at.failures(target) as int) >= 60);
    law_decisions(failed, s, dt, then);
}

/// After the third failed upgrade in a row there is none for half an hour.
pub proof fn law_upgrades_pause(
    m: Machine,
    ladder: usize,
    now: u128,
    s: Sample,
    dt: u128,
    then: u128,
    target: usize,
)
    requires
        m.wf(),
        m.at.consecutive_up_fails >= 2,
        clock::in_range(now),
        now <= then < now + 1_800_000_000_000,
    ensures
        ({
            let paused = Machine { at: m.at.locked(now, ladder, true), ..m };
            &&& !paused.may_probe(target, then)
            &&& !(paused.updated(s, dt, then).1 is StepUp)
        }),
{
    let paused = Machine { at: m.at.locked(now, ladder, true), ..m };
    assert(paused.wf());
    law_decisions(paused, s, dt, then);
}

/// Without players nothing is decided, and no time counts towards a decision.
pub proof fn law_idle_holds(m: Machine, s: Sample, dt: u128, now: u128)
    requires
        !s.has_active_clients,
    ensures
        ({
            let (next, decision) = m.updated(s, dt, now);
            &&& decision == Decision::Hold
            &&& next.at.current == m.at.current
            &&& next.at.regime == m.at.regime
            &&& next.at.stable_accum == binary64::naught()
            &&& next.at.down_accum == binary64::naught()
            &&& next.at.link_confirm_accum == binary64::naught()
            &&& next.pending == m.pending
        }),
{
}

/// While encoding, there is no step down within the time after the last one,
/// nor within the time after a failed observation, unless the queue is nearly
/// full.
pub proof fn law_downshift_waits(m: Machine, s: Sample, dt: u128, now: u128)
    requires
        m.at.regime == Regime::Encode,
        clock::ahead(m.at.down_cooldown_until, now) || clock::ahead(
            m.at.stable_protect_until,
            now,
        ),
        !binary64::ratio(85, 100).not_above(s.backlog_ratio),
    ensures
        !(m.updated(s, dt, now).1 is StepDown),
{
}

/// A ladder under observation is not given up within two seconds, and one that
/// is given up rests and counts as a failed upgrade.
pub proof fn law_observation(m: Machine, s: Sample, dt: u128, now: u128)
    requires
        m.wf(),
        m.at.regime == Regime::Probing,
    ensures
        ({
            let (next, decision) = m.updated(s, dt, now);
            &&& binary64::seconds(clock::elapsed(now, m.at.last_change_at) as int).below(
                binary64::whole(2),
            ) ==> decision == Decision::Hold
            &&& decision is RevertDown ==> {
                &&& next.at.locked_until.dom().contains(m.at.current)
                &&& next.at.consecutive_up_fails == m.at.upgrade_failures()
                &&& next.at.stable_protect_until == later(now, 15)
            }
            &&& decision == Decision::Hold && next.at.regime != Regime::Probing ==> {
                &&& next.at.last_stable == m.at.current
                &&& next.at.consecutive_up_fails == 0
                &&& !next.at.is_locked(m.at.current, now)
            }
        }),
{
}

/// The rest after a failure grows with the number of failures, from one minute
/// up to ten.
pub proof fn law_backoff_grows(a: int, b: int)
    requires
        a <= b,
    ensures
        60 <= backoff(a) <= backoff(b) <= 600,
{
}

proof fn lemma_lower_open(m: Machine, now: u128, open: usize, i: int)
    requires
        0 <= i <= open <= m.max_index,
        !m.at.is_locked(open, now),
    ensures
        m.first_open(now, i) is Some,
    decreases open - i,
{
    if i < open {
        lemma_lower_open(m, now, open, i + 1);
    }
}

/// Where the connection does not keep up, the machine steps down: at once when
/// the queue is nearly full, else when the overload has lasted as long as is
/// configured; provided that some lower ladder is not left alone.
pub proof fn law_overload_steps_down(m: Machine, s: Sample, dt: u128, now: u128, open: usize)
    requires
        m.wf(),
        s.has_active_clients,
        m.at.current < open <= m.max_index,
        !m.at.is_locked(open, now),
        match m.at.regime {
            Regime::Direct => binary64::ratio(85, 100).not_above(s.backlog_ratio),
            Regime::Encode => {
                let secs = binary64::seconds(dt as int);
                let seen = m.observed(s, secs);
                seen.overloaded(s, now) && seen.step_down_due(
                    s,
                    binary64::sum(m.at.down_accum, secs),
                )
            },
            Regime::Probing => false,
        },
    ensures
        m.updated(s, dt, now).1 is StepDown,
{
    let secs = binary64::seconds(dt as int);
    let seen = m.observed(s, secs);
    match m.at.regime {
        Regime::Direct => {
            let estimate = if seen.link_confirmed {
                seen.link_estimate
            } else {
                binary64::product(seen.source_bps, binary64::ratio(3, 10))
            };
            law_pick_succeeds(
                seen,
                binary64::product(estimate, binary64::ratio(75, 100)),
                now,
                open,
            );
        },
        Regime::Encode => {
            let loaded = Machine {
                at: Standing { down_accum: binary64::sum(seen.at.down_accum, secs), ..seen.at },
                ..seen
            };
            lemma_lower_open(loaded, now, open, m.at.current + 1);
        },
        Regime::Probing => {},
    }
}

/// Where the backlog has been steady as long as is configured, an encoding
/// machine steps up by one, unless upgrades are paused or the ladder above is
/// left alone.
pub proof fn law_steady_steps_up(m: Machine, s: Sample, dt: u128, now: u128)
    requires
        m.wf(),
        s.has_active_clients,
        m.at.regime == Regime::Encode,
        !clock::ahead(m.at.up_disabled_until, now),
        !m.at.is_locked((m.at.current - 1) as usize, now),
        ({
            let secs = binary64::seconds(dt as int);
            let seen = m.observed(s, secs);
            &&& !seen.overloaded(s, now)
            &&& seen.steady(s, now)
            &&& binary64::greater(m.cfg.up_hold_s, binary64::whole(1)).not_above(
                binary64::sum(m.at.stable_accum, secs),
            )
        }),
    ensures
        m.updated(s, dt, now).1 == Decision::StepUp((m.at.current - 1) as usize),
{
}

/// Where the ladder under observation holds until the end of the observation,
/// it is the new stable ladder.
pub proof fn law_observation_settles(m: Machine, s: Sample, dt: u128, now: u128)
    requires
        m.wf(),
        s.has_active_clients,
        m.at.regime == Regime::Probing,
        !m.observed(s, binary64::seconds(dt as int)).probe_failed(s, m.at.current, now),
        now >= m.at.probe_until->0,
    ensures
        ({
            let (next, decision) = m.updated(s, dt, now);
            &&& decision == Decision::Hold
            &&& next.at.current == m.at.current
            &&& next.at.last_stable == m.at.current
            &&& next.at.regime == Machine::regime_of(m.at.current)
        }),
{
}

} // verus!
