//! A playing session: which stream is sent, when it is measured, and what is
//! done when it breaks.
//!
//! The session itself reads and writes nothing. It says what to do next
//! ([`Session::next`]), is told how that went, and keeps the state between.

use crate::binary64;
use crate::binary64::Binary64;
use crate::clock;
use crate::clock::{seconds_since, since};
use crate::config;
use crate::config::{ladder_rates, Config, Run};
use crate::congestion::Sample;
use crate::ladder;
use crate::prepare;
use crate::prepare::{Preparation, Prepared, PrepareError, ReadOutcome};
use crate::preroll;
use crate::preroll::{enqueue_complete_ts_packets, pending_write_bytes};
use crate::splice;
use crate::state;
use crate::state::{CongestionCfg, Decision, Machine, Regime, StateMachine};
use crate::streambuf::{SendResult, BUF_CAP};
use std::collections::VecDeque;
use vstd::prelude::*;

verus! {

/// A stream that is ready to be sent.
pub struct ReadyStream {
    /// The ladder that it belongs to.
    pub ladder: usize,
    /// What has been read of it.
    pub chunks: VecDeque<Vec<u8>>,
    /// The start of a packet whose rest comes later.
    pub tail: Vec<u8>,
    /// The bytes per second that it puts out.
    pub rate: u64,
}

/// What to do next.
pub enum Action {
    /// Send the chunk, and tell the session how it was received.
    Send(Vec<u8>),
    /// Read the stream, or take the stream that replaces it, where that is
    /// ready first.
    Read,
    /// Wait for the recovery.
    AwaitRecovery,
    /// End the session.
    Stop,
}

/// The state of a session.
pub struct Session {
    pub congestion: CongestionCfg,
    pub ladder_bps: Vec<u64>,
    /// The time between two measurements.
    pub sample_interval: u128,
    pub startup_hold_s: Binary64,
    pub started_at: u128,
    pub last_sample: u128,
    /// The ladder that is being sent.
    pub cur_ladder: usize,
    /// The bytes per second that it puts out.
    pub active_bps: u64,
    /// Whether there is a stream to read.
    pub active: bool,
    /// The start of a packet whose rest has not been read.
    pub ts_tail: Vec<u8>,
    /// What has been read and not sent.
    pub pending_writes: VecDeque<Vec<u8>>,
    pub prev_backlog_bytes: u64,
    /// Whether the first move to ladder 0 has been tried.
    pub startup_direct_attempted: bool,
    /// The ladder whose stream is being prepared to replace this one.
    pub pending_switch: Option<usize>,
    /// Whether a stream is being prepared because this one broke.
    pub pending_recovery: bool,
    pub sm: StateMachine,
}

// ---------------------------------------------------------------------------
// Model
// ---------------------------------------------------------------------------

/// What a session stands for.
#[verifier::ext_equal]
pub struct Relay {
    pub congestion: CongestionCfg,
    pub rates: Seq<u64>,
    pub sample_interval: u128,
    pub startup_hold: Binary64,
    pub started_at: u128,
    pub last_sample: u128,
    pub ladder: usize,
    pub rate: u64,
    pub active: bool,
    pub tail: Seq<u8>,
    pub writes: Seq<Seq<u8>>,
    pub backlog: u64,
    pub startup_tried: bool,
    pub switching: Option<usize>,
    pub recovering: bool,
    pub machine: Machine,
}

impl View for Session {
    type V = Relay;

    open spec fn view(&self) -> Relay {
        Relay {
            congestion: self.congestion,
            rates: self.ladder_bps@,
            sample_interval: self.sample_interval,
            startup_hold: self.startup_hold_s,
            started_at: self.started_at,
            last_sample: self.last_sample,
            ladder: self.cur_ladder,
            rate: self.active_bps,
            active: self.active,
            tail: self.ts_tail@,
            writes: preroll::bytes_of(self.pending_writes@),
            backlog: self.prev_backlog_bytes,
            startup_tried: self.startup_direct_attempted,
            switching: self.pending_switch,
            recovering: self.pending_recovery,
            machine: self.sm@,
        }
    }
}

/// What a stream that is ready stands for.
pub struct Arrival {
    pub ladder: usize,
    pub chunks: Seq<Seq<u8>>,
    pub tail: Seq<u8>,
    pub rate: u64,
}

impl View for ReadyStream {
    type V = Arrival;

    open spec fn view(&self) -> Arrival {
        Arrival {
            ladder: self.ladder,
            chunks: preroll::bytes_of(self.chunks@),
            tail: self.tail@,
            rate: self.rate,
        }
    }
}

/// Whether a stream is broken after a read that ended so.
pub open spec fn breaks(outcome: ReadOutcome) -> bool {
    prepare::is_end(outcome) || outcome is Failed
}

/// The smaller of two numbers of chunks.
pub open spec fn at_most(chunks: int, cap: int) -> int {
    if chunks <= cap {
        chunks
    } else {
        cap
    }
}

/// Whether the interval between measurements and the wait after a step down can
/// be measured.
pub open spec fn waits_measurable(cfg: Config) -> bool {
    &&& binary64::nanoseconds(binary64::greater(cfg.sample_interval_s, binary64::ratio(5, 10)))
        is Some
    &&& binary64::nanoseconds(cfg.congestion.down_cooldown_s) is Some
}

/// Whether the times of a configuration can be measured: those and the time for
/// a new stream.
pub open spec fn measurable(cfg: Config) -> bool {
    &&& waits_measurable(cfg)
    &&& ladder::configured_timeout(cfg.switch_timeout_s) is Some
    &&& !cfg.switch_timeout_s.nan()
}

impl Relay {
    /// What every session keeps while it runs: either there is a stream or one
    /// is being prepared in its place; and the ladder that is sent is the one
    /// that the state machine stands on, or stood on before a change that is
    /// under way.
    pub open spec fn wf(self) -> bool {
        &&& self.machine.wf()
        &&& self.rates.len() == self.machine.max_index + 1
        &&& self.machine.ladder_bps == self.rates
        &&& self.machine.cfg == self.congestion
        &&& self.ladder < self.rates.len()
        &&& self.backlog <= i64::MAX
        &&& self.active == !self.recovering
        &&& self.recovering ==> self.switching is None
        &&& self.active ==> match self.switching {
            Some(target) => {
                &&& self.machine.at.current == target
                &&& self.machine.pending matches Some(before) && before.current == self.ladder
            },
            None => self.machine.at.current == self.ladder,
        }
    }

    /// A session that starts with a stream.
    pub open spec fn started(cfg: Config, first: Arrival, now: u128) -> Relay {
        let congestion = <CongestionCfg as vstd::std_specs::convert::FromSpec<&Config>>::from_spec(
            &cfg,
        );
        let rates = config::output_rates(cfg.ladder@);
        Relay {
            congestion,
            rates,
            sample_interval: binary64::nanoseconds(
                binary64::greater(cfg.sample_interval_s, binary64::ratio(5, 10)),
            )->0 as u128,
            startup_hold: cfg.startup_hold_s,
            started_at: now,
            last_sample: now,
            ladder: first.ladder,
            rate: first.rate,
            active: true,
            tail: first.tail,
            writes: first.chunks,
            backlog: 0,
            startup_tried: first.ladder == 0 || cfg.startup_hold_s.not_above(binary64::naught()),
            switching: None,
            recovering: false,
            machine: Machine::started(
                congestion,
                (rates.len() - 1) as usize,
                rates,
                first.ladder,
                now,
            ),
        }
    }

    /// The bytes that wait, those in the queue to the player and those before.
    pub open spec fn waiting(self, queued_bytes: u64) -> int {
        queued_bytes + preroll::joined(self.writes).len()
    }

    /// The session once the stream that replaces another is there: what was
    /// not sent of the old one is dropped.
    pub open spec fn switched(self, new: Arrival, queued_bytes: u64) -> Relay {
        let backlog = Relay { writes: new.chunks, ..self }.waiting(queued_bytes) as u64;
        Relay {
            writes: new.chunks,
            tail: new.tail,
            ladder: new.ladder,
            rate: new.rate,
            backlog,
            switching: None,
            machine: self.machine.confirmed(backlog),
            ..self
        }
    }

    /// The session once the stream that was to replace another has failed: the
    /// old one goes on.
    pub open spec fn switch_failed(self, now: u128) -> Relay {
        Relay {
            switching: None,
            machine: self.machine.failed(self.switching->0, now),
            ..self
        }
    }

    /// The session once a broken stream has been replaced: what was not sent
    /// comes first, and the state machine starts anew.
    pub open spec fn recovered(self, new: Arrival, queued_bytes: u64, now: u128) -> Relay {
        let writes = self.writes + new.chunks;
        Relay {
            writes,
            tail: new.tail,
            ladder: new.ladder,
            rate: new.rate,
            active: true,
            recovering: false,
            startup_tried: true,
            backlog: Relay { writes, ..self }.waiting(queued_bytes) as u64,
            last_sample: now,
            machine: Machine::started(
                self.congestion,
                (self.rates.len() - 1) as usize,
                self.rates,
                new.ladder,
                now,
            ),
            ..self
        }
    }

    /// The session once its stream broke.
    pub open spec fn broken(self) -> Relay {
        Relay { switching: None, active: false, recovering: true, ..self }
    }

    /// The session with data of its stream.
    pub open spec fn with_data(self, data: Seq<u8>) -> Relay {
        let bytes = self.tail + data;
        Relay {
            writes: preroll::with_packets(self.writes, bytes),
            tail: bytes.skip(preroll::whole(bytes.len() as int)),
            ..self
        }
    }

    /// The session with its first chunk taken out to be sent.
    pub open spec fn without_first(self) -> Relay {
        Relay { writes: self.writes.skip(1), ..self }
    }

    /// The session with a chunk that found no place.
    pub open spec fn handed_back(self, chunk: Seq<u8>) -> Relay {
        Relay { writes: seq![chunk] + self.writes, ..self }
    }

    /// The session after a read of its stream, and whether a recovery is to be
    /// started.
    pub open spec fn after_read(self, outcome: ReadOutcome) -> (Relay, bool) {
        if breaks(outcome) {
            if self.recovering {
                (self, false)
            } else {
                (self.broken(), true)
            }
        } else {
            match outcome {
                ReadOutcome::Data(data) => (self.with_data(data@), false),
                _ => (self, false),
            }
        }
    }

    /// The session that found no stream in the place of a broken one.
    pub open spec fn given_up(self) -> Relay {
        Relay { recovering: false, ..self }
    }

    /// Whether it is time to measure.
    pub open spec fn due(self, now: u128) -> bool {
        clock::elapsed(now, self.last_sample) >= self.sample_interval
    }

    /// The ladder that a measurement asks for.
    pub open spec fn asks_for(
        self,
        queued_chunks: usize,
        queued_bytes: u64,
        drained: u64,
        now: u128,
    ) -> Option<usize> {
        if self.switching is Some || self.recovering {
            None
        } else {
            self.sampled(queued_chunks, queued_bytes, drained, now).switching
        }
    }

    /// The share of the places for chunks that are taken, those beyond the
    /// queue counted as if they stood in it.
    pub open spec fn fill(self, queued_chunks: usize) -> int {
        at_most(queued_chunks + self.writes.len(), BUF_CAP as int)
    }

    /// The measurement at a moment.
    pub open spec fn measured(
        self,
        queued_chunks: usize,
        queued_bytes: u64,
        drained: u64,
        now: u128,
    ) -> Sample {
        let dt = clock::elapsed(now, self.last_sample);
        Sample {
            backlog_ratio: binary64::quotient(
                binary64::whole(self.fill(queued_chunks)),
                binary64::whole(BUF_CAP as int),
            ),
            backlog_bytes: self.waiting(queued_bytes) as u64,
            backlog_delta: (self.waiting(queued_bytes) - self.backlog) as i64,
            drain_bps: binary64::truncated_u64(
                binary64::quotient(binary64::whole(drained as int), binary64::seconds(dt as int)),
            ) as u64,
            prod_bps: self.rate,
            has_active_clients: drained > 0 || self.fill(queued_chunks) > 0,
        }
    }

    /// Whether the first move to ladder 0 is to be tried: once, some time after
    /// the start, while the player takes data and little of it waits.
    pub open spec fn tries_direct(self, s: Sample, drained: u64, now: u128) -> bool {
        &&& !self.startup_tried
        &&& self.ladder > 0
        &&& self.startup_hold.not_above(
            binary64::seconds(clock::elapsed(now, self.started_at) as int),
        )
        &&& drained > 0
        &&& s.backlog_ratio.below(binary64::ratio(20, 100))
        &&& s.backlog_delta <= 0
    }

    /// The state machine and its decision after a measurement.
    pub open spec fn decided(self, s: Sample, drained: u64, now: u128) -> (Machine, Decision) {
        let dt = clock::elapsed(now, self.last_sample);
        if self.tries_direct(s, drained, now) && self.machine.may_probe(0, now) {
            (self.machine.probed(0, s.backlog_bytes, now), Decision::StepUp(0))
        } else {
            self.machine.updated(s, dt, now)
        }
    }

    /// The ladder that a decision moves to, where that is another one.
    pub open spec fn target(self, decision: Decision) -> Option<usize> {
        match decision {
            Decision::StepDown(t) | Decision::RevertDown(t) | Decision::StepUp(t) => {
                if t != self.ladder {
                    Some(t)
                } else {
                    None
                }
            },
            Decision::Hold => None,
        }
    }

    /// The session after a measurement. While a stream is being prepared,
    /// nothing is decided.
    pub open spec fn sampled(
        self,
        queued_chunks: usize,
        queued_bytes: u64,
        drained: u64,
        now: u128,
    ) -> Relay {
        let s = self.measured(queued_chunks, queued_bytes, drained, now);
        let seen = Relay { last_sample: now, backlog: s.backlog_bytes, ..self };
        if self.switching is Some || self.recovering {
            seen
        } else {
            let (machine, decision) = self.decided(s, drained, now);
            Relay {
                machine,
                startup_tried: self.startup_tried || self.tries_direct(s, drained, now),
                switching: self.target(decision),
                ..seen
            }
        }
    }
}

// ---------------------------------------------------------------------------
// Execution
// ---------------------------------------------------------------------------

/// Whether the times of a configuration can be measured.
pub fn times_measurable(cfg: &Config) -> (yes: bool)
    ensures
        yes == measurable(*cfg),
{
    let interval = cfg.sample_interval_s.max(Binary64::ratio(5, 10)).to_nanos();
    let cooldown = cfg.congestion.down_cooldown_s.to_nanos();
    let timeout = cfg.switch_timeout_s.max(Binary64::ratio(1, 10)).to_nanos();
    let number = cfg.switch_timeout_s.le(cfg.switch_timeout_s);
    interval.is_some() && cooldown.is_some() && timeout.is_some() && number
}

/// What the stream that a preparation for a ladder ends in stands for.
pub open spec fn arrival_of(preparation: Prepared, run: Run, ladder: usize) -> Option<Arrival> {
    match preparation.result() {
        Some(chunks) => Some(
            Arrival {
                ladder,
                chunks,
                tail: preparation.tail,
                rate: config::output_rate(run) as u64,
            },
        ),
        None => None,
    }
}

/// The stream that a preparation for a ladder ends in: its chunks, and the rate
/// that the ladder puts out.
pub fn ready_stream(preparation: Preparation, run: &Run, ladder: usize) -> (result: Result<
    ReadyStream,
    PrepareError,
>)
    ensures
        match (result, preparation@.result()) {
            (Ok(stream), Some(chunks)) => {
                &&& stream.ladder == ladder
                &&& stream@.chunks == chunks
                &&& stream@.tail == preparation@.tail
                &&& stream.rate == config::output_rate(*run)
            },
            (Err(error), None) => error@ == prepare::Trouble::NoKeyframeInTime,
            _ => false,
        },
        match (result, arrival_of(preparation@, *run, ladder)) {
            (Ok(stream), Some(arrival)) => stream@ == arrival,
            (Err(_), None) => true,
            _ => false,
        },
{
    proof {
        config::law_output_rate(*run);
    }
    let rate = run.output_bps();
    match preparation.finish() {
        Ok((chunks, tail)) => Ok(ReadyStream { ladder, chunks, tail, rate }),
        Err(error) => Err(error),
    }
}

impl Session {
    /// A session that starts with a stream.
    pub fn new(cfg: &Config, first: ReadyStream, now: u128) -> (session: Session)
        requires
            waits_measurable(*cfg),
            now >= 1_000_000_000_000,
            first.ladder < cfg.ladder@.len(),
        ensures
            session@ == Relay::started(*cfg, first@, now),
            session@.wf(),
    {
        let congestion = CongestionCfg::from(cfg);
        let ladder_bps = ladder_rates(&cfg.ladder);
        let sm = StateMachine::new(
            congestion,
            ladder_bps.len() - 1,
            ladder_rates(&cfg.ladder),
            first.ladder,
            now,
        );
        let sample_interval = cfg.sample_interval_s.max(Binary64::ratio(5, 10)).to_nanos().unwrap();
        Session {
            congestion,
            ladder_bps,
            sample_interval,
            startup_hold_s: cfg.startup_hold_s,
            started_at: now,
            last_sample: now,
            cur_ladder: first.ladder,
            active_bps: first.rate,
            active: true,
            ts_tail: first.tail,
            pending_writes: first.chunks,
            prev_backlog_bytes: 0,
            startup_direct_attempted: first.ladder == 0 || cfg.startup_hold_s.le(Binary64::zero()),
            pending_switch: None,
            pending_recovery: false,
            sm,
        }
    }

    /// What to do next. A chunk to be sent is taken out of those that wait.
    pub fn next(&mut self) -> (action: Action)
        ensures
            match action {
                Action::Send(chunk) => {
                    &&& final(self)@ == old(self)@.without_first()
                    &&& old(self)@.writes.len() > 0
                    &&& chunk@ == old(self)@.writes[0]
                    &&& final(self)@ == (Relay { writes: old(self)@.writes.skip(1), ..old(self)@ })
                },
                Action::Read => {
                    &&& old(self)@.writes.len() == 0
                    &&& old(self)@.active
                    &&& final(self)@ == old(self)@
                },
                Action::AwaitRecovery => {
                    &&& old(self)@.writes.len() == 0
                    &&& !old(self)@.active
                    &&& old(self)@.recovering
                    &&& final(self)@ == old(self)@
                },
                Action::Stop => {
                    &&& old(self)@.writes.len() == 0
                    &&& !old(self)@.active
                    &&& !old(self)@.recovering
                    &&& final(self)@ == old(self)@
                },
            },
            action is Send <==> old(self)@.writes.len() > 0,
            old(self)@.wf() ==> final(self)@.wf() && !(action is Stop),
    {
        match self.pending_writes.pop_front() {
            Some(chunk) => {
                assert(self@.writes =~= old(self)@.writes.skip(1));
                Action::Send(chunk)
            },
            None => {
                if self.active {
                    Action::Read
                } else if self.pending_recovery {
                    Action::AwaitRecovery
                } else {
                    Action::Stop
                }
            },
        }
    }

    /// Takes in how a chunk was received. A chunk that found no place waits
    /// again, before the others. Says whether the session goes on, which it
    /// does unless the player is gone.
    pub fn sent(&mut self, result: SendResult) -> (goes_on: bool)
        ensures
            goes_on == !(result is Closed),
            result matches SendResult::Full(chunk) ==> final(self)@ == old(self)@.handed_back(
                chunk@,
            ),
            final(self)@ == match result {
                SendResult::Full(chunk) => Relay {
                    writes: seq![chunk@] + old(self)@.writes,
                    ..old(self)@
                },
                _ => old(self)@,
            },
            old(self)@.wf() ==> final(self)@.wf(),
    {
        match result {
            SendResult::Sent => true,
            SendResult::Closed => false,
            SendResult::Full(chunk) => {
                self.pending_writes.push_front(chunk);
                assert(self@.writes =~= seq![chunk@] + old(self)@.writes);
                true
            },
        }
    }

    /// Takes in how a read of the stream ended. Says whether a recovery is to be
    /// started: the stream ended or failed, and there is none yet. A stream that
    /// was being prepared to replace it is then given up.
    pub fn read(&mut self, outcome: ReadOutcome) -> (recover: bool)
        ensures
            (final(self)@, recover) == old(self)@.after_read(outcome),
            recover == (breaks(outcome) && !old(self)@.recovering),
            final(self)@ == if recover {
                old(self)@.broken()
            } else {
                match outcome {
                    ReadOutcome::Data(data) => if data@.len() > 0 {
                        old(self)@.with_data(data@)
                    } else {
                        old(self)@
                    },
                    _ => old(self)@,
                }
            },
            old(self)@.wf() ==> final(self)@.wf(),
    {
        match outcome {
            ReadOutcome::Data(data) => {
                if data.len() > 0 {
                    enqueue_complete_ts_packets(
                        data.as_slice(),
                        &mut self.ts_tail,
                        &mut self.pending_writes,
                    );
                    false
                } else {
                    self.start_active_recovery_if_needed()
                }
            },
            ReadOutcome::End | ReadOutcome::Failed(_) => self.start_active_recovery_if_needed(),
            ReadOutcome::TimedOut => false,
        }
    }

    fn start_active_recovery_if_needed(&mut self) -> (recover: bool)
        ensures
            recover == !old(self)@.recovering,
            final(self)@ == if old(self)@.recovering {
                old(self)@
            } else {
                old(self)@.broken()
            },
            old(self)@.wf() ==> final(self)@.wf(),
    {
        if self.pending_recovery {
            return false;
        }
        self.pending_switch = None;
        self.active = false;
        self.pending_recovery = true;
        true
    }

    /// The stream that was prepared takes over. What waits of the old one, here
    /// and in the queue to the player, is dropped; `queued_bytes` is what waits
    /// in the queue after that.
    pub fn switch_ready(&mut self, new: ReadyStream, queued_bytes: u64)
        requires
            old(self)@.switching == Some(new.ladder),
            queued_bytes + preroll::joined(new@.chunks).len() <= u64::MAX,
        ensures
            final(self)@ == old(self)@.switched(new@, queued_bytes),
            old(self)@.wf() && final(self)@.backlog <= i64::MAX ==> final(self)@.wf(),
    {
        self.pending_switch = None;
        self.pending_writes = new.chunks;
        self.ts_tail = new.tail;
        self.cur_ladder = new.ladder;
        self.active_bps = new.rate;
        let backlog_bytes = queued_bytes + pending_write_bytes(&self.pending_writes);
        self.prev_backlog_bytes = backlog_bytes;
        self.sm.confirm_switch(backlog_bytes);
    }

    /// The stream that was being prepared has failed; the old one goes on.
    pub fn switch_failed(&mut self, now: u128)
        requires
            old(self)@.switching is Some,
            clock::in_range(now),
        ensures
            final(self)@ == old(self)@.switch_failed(now),
            old(self)@.wf() ==> final(self)@.wf(),
    {
        let target = self.pending_switch.unwrap();
        self.pending_switch = None;
        self.sm.rollback_failed_switch(target, now);
    }

    /// Takes in how the recovery ended: with a stream, or without any. Says
    /// whether the session goes on, which it does with a stream.
    pub fn recovery_done(&mut self, new: Option<ReadyStream>, queued_bytes: u64, now: u128) -> (
        goes_on: bool
    )
        requires
            old(self)@.recovering,
            new matches Some(stream) ==> {
                &&& now >= 1_000_000_000_000
                &&& stream.ladder < old(self)@.rates.len()
                &&& queued_bytes + preroll::joined(old(self)@.writes + stream@.chunks).len()
                    <= u64::MAX
            },
        ensures
            goes_on == (new is Some),
            new is None ==> final(self)@ == old(self)@.given_up(),
            final(self)@ == match new {
                Some(stream) => old(self)@.recovered(stream@, queued_bytes, now),
                None => Relay { recovering: false, ..old(self)@ },
            },
            old(self)@.wf() && goes_on && final(self)@.backlog <= i64::MAX ==> final(self)@.wf(),
    {
        self.pending_recovery = false;
        match new {
            None => false,
            Some(stream) => {
                let ghost chunks = stream@.chunks;
                let mut chunks_left = stream.chunks;
                self.pending_writes.append(&mut chunks_left);
                assert(self@.writes =~= old(self)@.writes + chunks);
                self.ts_tail = stream.tail;
                self.cur_ladder = stream.ladder;
                self.active_bps = stream.rate;
                self.active = true;
                let ladder_bps = self.ladder_bps.clone();
                assert(ladder_bps@ =~= self.ladder_bps@);
                self.sm = StateMachine::new(
                    self.congestion,
                    self.ladder_bps.len() - 1,
                    ladder_bps,
                    stream.ladder,
                    now,
                );
                self.startup_direct_attempted = true;
                let backlog_bytes = queued_bytes + pending_write_bytes(&self.pending_writes);
                self.prev_backlog_bytes = backlog_bytes;
                self.last_sample = now;
                true
            },
        }
    }

    /// Whether it is time to measure.
    pub fn sample_due(&self, now: u128) -> (due: bool)
        ensures
            due == self@.due(now),
            due == (clock::elapsed(now, self@.last_sample) >= self@.sample_interval),
    {
        since(now, self.last_sample) >= self.sample_interval
    }

    /// Measures: `queued_chunks` and `queued_bytes` wait in the queue to the
    /// player, which took `drained` bytes since the last measurement. Says which
    /// ladder to prepare, if any.
    pub fn sample(&mut self, queued_chunks: usize, queued_bytes: u64, drained: u64, now: u128) -> (
        target: Option<usize>
    )
        requires
            old(self)@.wf(),
            old(self)@.waiting(queued_bytes) <= i64::MAX,
            clock::in_range(now),
        ensures
            final(self)@ == old(self)@.sampled(queued_chunks, queued_bytes, drained, now),
            target == old(self)@.asks_for(queued_chunks, queued_bytes, drained, now),
            target == if old(self)@.switching is Some {
                None
            } else {
                final(self)@.switching
            },
            target matches Some(t) ==> t < final(self)@.rates.len() && t != final(self)@.ladder,
            final(self)@.wf(),
    {
        let ghost before = self@;
        let dt = since(now, self.last_sample);
        self.last_sample = now;
        let waiting_chunks = queued_chunks.saturating_add(self.pending_writes.len());
        let backlog_chunks: usize = if waiting_chunks <= BUF_CAP {
            waiting_chunks
        } else {
            BUF_CAP
        };
        let backlog_bytes = queued_bytes + pending_write_bytes(&self.pending_writes);
        let backlog_ratio = Binary64::from_u64(backlog_chunks as u64).over(
            Binary64::from_u64(BUF_CAP as u64),
        );
        let drain_bps = Binary64::from_u64(drained).over(Binary64::from_nanos(dt)).to_u64();
        let backlog_delta: i64 = backlog_bytes as i64 - self.prev_backlog_bytes as i64;
        self.prev_backlog_bytes = backlog_bytes;
        let sample = Sample {
            backlog_ratio,
            backlog_bytes,
            backlog_delta,
            drain_bps,
            prod_bps: self.active_bps,
            has_active_clients: drained > 0 || backlog_chunks > 0,
        };
        assert(sample == before.measured(queued_chunks, queued_bytes, drained, now));
        if self.pending_switch.is_some() || self.pending_recovery {
            return None;
        }
        let tries_direct = !self.startup_direct_attempted && self.cur_ladder > 0
            && self.startup_hold_s.le(seconds_since(now, self.started_at)) && drained > 0
            && backlog_ratio.lt(Binary64::ratio(20, 100)) && backlog_delta <= 0;
        assert(tries_direct == before.tries_direct(sample, drained, now));
        let probe = if tries_direct {
            self.startup_direct_attempted = true;
            self.sm.request_startup_probe(0, backlog_bytes, now)
        } else {
            None
        };
        let decision = match probe {
            Some(decision) => decision,
            None => self.sm.update(&sample, dt, now),
        };
        assert((self.sm@, decision) == before.decided(sample, drained, now));
        proof {
            state::law_decisions(before.machine, sample, dt, now);
            if decision != Decision::Hold {
                if tries_direct && before.machine.may_probe(0, now) {
                    state::law_rollback_undoes_probe(
                        before.machine,
                        0,
                        backlog_bytes,
                        now,
                    );
                } else {
                    state::law_rollback_undoes(before.machine, sample, dt, now);
                }
            }
        }
        let target = match decision {
            Decision::StepDown(t) | Decision::RevertDown(t) | Decision::StepUp(t) => {
                if t != self.cur_ladder {
                    Some(t)
                } else {
                    None
                }
            },
            Decision::Hold => None,
        };
        self.pending_switch = target;
        target
    }
}

// ---------------------------------------------------------------------------
// Laws
// ---------------------------------------------------------------------------

/// A chunk that found no place is sent before all others.
pub proof fn law_chunk_waits_again(r: Relay)
    requires
        r.writes.len() > 0,
    ensures
        seq![r.writes[0]] + r.writes.skip(1) == r.writes,
{
    assert(seq![r.writes[0]] + r.writes.skip(1) =~= r.writes);
}

/// While a stream is being prepared, a measurement decides nothing.
pub proof fn law_no_decision_under_way(
    r: Relay,
    queued_chunks: usize,
    queued_bytes: u64,
    drained: u64,
    now: u128,
)
    requires
        r.switching is Some || r.recovering,
    ensures
        ({
            let next = r.sampled(queued_chunks, queued_bytes, drained, now);
            &&& next.machine == r.machine
            &&& next.switching == r.switching
            &&& next.ladder == r.ladder
            &&& next.startup_tried == r.startup_tried
        }),
{
}

/// A change that fails leaves the stream as it was: the session sends the same
/// ladder on, the state machine is back on it, and the ladder that failed is
/// not prepared again within a minute. (The return from a failed observation
/// may be prepared again at once.)
pub proof fn law_failed_switch_goes_on(
    r: Relay,
    now: u128,
    queued_chunks: usize,
    queued_bytes: u64,
    drained: u64,
    then: u128,
)
    requires
        r.wf(),
        r.active,
        r.switching is Some,
        clock::in_range(now),
        now <= then < now + 60_000_000_000,
        r.machine.pending->0.regime == Regime::Encode || r.machine.pending->0.regime
            == Regime::Direct,
    ensures
        ({
            let failed = r.switch_failed(now);
            let next = failed.sampled(queued_chunks, queued_bytes, drained, then);
            &&& failed.ladder == r.ladder
            &&& failed.rate == r.rate
            &&& failed.writes == r.writes
            &&& failed.tail == r.tail
            &&& failed.machine.at.current == r.ladder
            &&& next.switching != r.switching
        }),
{
    let failed = r.switch_failed(now);
    let target = r.switching->0;
    let s = failed.measured(queued_chunks, queued_bytes, drained, then);
    let dt = clock::elapsed(then, failed.last_sample);
    state::law_failed_ladder_rests(r.machine, target, now, s, dt, then);
    state::law_decisions(failed.machine, s, dt, then);
}

/// While a stream is being prepared to replace another, the old one goes on: it
/// is read and sent, and its ladder stays.
pub proof fn law_old_stream_goes_on(
    r: Relay,
    queued_chunks: usize,
    queued_bytes: u64,
    drained: u64,
    now: u128,
)
    requires
        r.wf(),
        r.switching is Some,
    ensures
        r.active,
        !r.recovering,
        r.sampled(queued_chunks, queued_bytes, drained, now).ladder == r.ladder,
        r.sampled(queued_chunks, queued_bytes, drained, now).writes == r.writes,
        r.sampled(queued_chunks, queued_bytes, drained, now).active,
{
}

/// A change replaces what waits; a recovery keeps it and goes on behind it.
pub proof fn law_waiting_data(r: Relay, new: Arrival, queued_bytes: u64, now: u128)
    ensures
        r.switched(new, queued_bytes).writes == new.chunks,
        preroll::joined(r.recovered(new, queued_bytes, now).writes) == preroll::joined(r.writes)
            + preroll::joined(new.chunks),
{
    preroll::lemma_joined_append(r.writes, new.chunks);
}

/// Nothing that is read of a stream is lost or changed on the way: the packets
/// to be sent and the rest are the data so far.
pub proof fn law_stream_bytes_kept(r: Relay, data: Seq<u8>)
    ensures
        preroll::joined(r.with_data(data).writes) + r.with_data(data).tail == preroll::joined(
            r.writes,
        ) + r.tail + data,
{
    preroll::law_packetizer_keeps_bytes(r.writes, r.tail, data);
}

/// What may happen to a session.
pub enum Event {
    /// The first chunk that waits was sent.
    Sent,
    /// The first chunk that waits found no place and was handed back.
    Full,
    /// Data of the stream was read.
    Data(Seq<u8>),
    /// The stream broke.
    Broke,
    /// The stream that replaces it was ready.
    Switched { new: Arrival, queued_bytes: u64 },
    /// The stream that was to replace it failed.
    SwitchFailed { now: u128 },
    /// A stream in the place of a broken one was ready.
    Recovered { new: Arrival, queued_bytes: u64, now: u128 },
    /// The session was measured.
    Sampled { queued_chunks: usize, queued_bytes: u64, drained: u64, now: u128 },
}

impl Event {
    /// Whether a stream that arrives is made of chunks that can be sent.
    pub open spec fn brings_whole_packets(self) -> bool {
        match self {
            Event::Switched { new, .. } => splice::sendable(new.chunks),
            Event::Recovered { new, .. } => splice::sendable(new.chunks),
            _ => true,
        }
    }
}

impl Relay {
    /// The session after an event.
    pub open spec fn step(self, event: Event) -> Relay {
        match event {
            Event::Sent => if self.writes.len() > 0 {
                self.without_first()
            } else {
                self
            },
            Event::Full => if self.writes.len() > 0 {
                self.without_first().handed_back(self.writes[0])
            } else {
                self
            },
            Event::Data(data) => self.with_data(data),
            Event::Broke => self.broken(),
            Event::Switched { new, queued_bytes } => self.switched(new, queued_bytes),
            Event::SwitchFailed { now } => self.switch_failed(now),
            Event::Recovered { new, queued_bytes, now } => self.recovered(new, queued_bytes, now),
            Event::Sampled { queued_chunks, queued_bytes, drained, now } => self.sampled(
                queued_chunks,
                queued_bytes,
                drained,
                now,
            ),
        }
    }

    /// The session after a course of events.
    pub open spec fn after(self, events: Seq<Event>) -> Relay
        decreases events.len(),
    {
        if events.len() == 0 {
            self
        } else {
            self.after(events.drop_last()).step(events.last())
        }
    }
}

/// Whatever happens in a session, every chunk that waits to be sent is whole
/// packets and not empty, across changes and recoveries too, if the streams that
/// it starts with and that arrive are so.
pub proof fn law_session_sends_whole_packets(r: Relay, events: Seq<Event>)
    requires
        splice::sendable(r.writes),
        forall|i: int|
            0 <= i < events.len() ==> (#[trigger] events[i]).brings_whole_packets(),
    ensures
        splice::sendable(r.after(events).writes),
    decreases events.len(),
{
    if events.len() > 0 {
        let earlier = events.drop_last();
        assert forall|i: int| 0 <= i < earlier.len() implies (
        #[trigger] earlier[i]).brings_whole_packets() by {
            assert(events[i].brings_whole_packets());
        }
        law_session_sends_whole_packets(r, earlier);
        assert(events[events.len() - 1].brings_whole_packets());
        let before = r.after(earlier);
        let next = before.step(events.last());
        assert forall|i: int| 0 <= i < next.writes.len() implies (#[trigger] next.writes[i]).len() > 0
            && next.writes[i].len() % 188 == 0 by {
            lemma_step_sendable(before, events.last(), i);
        }
    }
}

proof fn lemma_step_sendable(r: Relay, event: Event, i: int)
    requires
        splice::sendable(r.writes),
        event.brings_whole_packets(),
        0 <= i < r.step(event).writes.len(),
    ensures
        r.step(event).writes[i].len() > 0,
        r.step(event).writes[i].len() % 188 == 0,
{
    match event {
        Event::Sent => {
            if r.writes.len() > 0 {
                assert(r.step(event).writes[i] == r.writes[i + 1]);
            }
        },
        Event::Full => {
            if r.writes.len() > 0 {
                law_chunk_waits_again(r);
            }
        },
        Event::Data(data) => {
            if i < r.writes.len() {
                assert(r.step(event).writes[i] == r.writes[i]);
            }
        },
        Event::Recovered { new, .. } => {
            if i < r.writes.len() {
                assert(r.step(event).writes[i] == r.writes[i]);
            } else {
                assert(r.step(event).writes[i] == new.chunks[i - r.writes.len()]);
            }
        },
        _ => {},
    }
}

/// A chunk at the front, such as one that was handed back, stays there unchanged
/// until it is sent or a change replaces what waits.
pub proof fn law_front_chunk_stays(r: Relay, event: Event)
    requires
        r.writes.len() > 0,
        !(event is Sent),
        !(event is Switched),
    ensures
        r.step(event).writes.len() > 0,
        r.step(event).writes[0] == r.writes[0],
{
}

/// The first move to ladder 0 is tried at most once, and never after a
/// recovery.
pub proof fn law_direct_tried_once(
    r: Relay,
    s: Sample,
    drained: u64,
    now: u128,
    queued_chunks: usize,
    queued_bytes: u64,
    new: Arrival,
)
    ensures
        r.startup_tried ==> !r.tries_direct(s, drained, now),
        r.startup_tried ==> r.sampled(queued_chunks, queued_bytes, drained, now).startup_tried,
        r.recovered(new, queued_bytes, now).startup_tried,
        r.switched(new, queued_bytes).startup_tried == r.startup_tried,
        r.broken().startup_tried == r.startup_tried,
        r.active && r.switching is None && r.tries_direct(
            r.measured(queued_chunks, queued_bytes, drained, now),
            drained,
            now,
        ) && !r.recovering ==> r.sampled(
            queued_chunks,
            queued_bytes,
            drained,
            now,
        ).startup_tried,
{
}

} // verus!
