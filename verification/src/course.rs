//! The course of a session: what is measured, what a measurement leads to, and
//! that the player gets the bytes of one stream after the other, each in order.

use crate::binary64;
use crate::clock;
use crate::config;
use crate::config::{Config, Run};
use crate::congestion::Sample;
use crate::prepare::{Prepared, ReadOutcome};
use crate::preroll::joined;
use crate::session::{arrival_of, breaks, measurable, Arrival, Event, Relay};
use crate::state::{Decision, Machine, Regime, Standing};
use crate::steering;
use vstd::prelude::*;

verus! {

// ---------------------------------------------------------------------------
// Bytes
// ---------------------------------------------------------------------------

/// What is still to be sent: the chunks that wait, and the start of the packet
/// behind them.
pub open spec fn to_send(r: Relay) -> Seq<u8> {
    joined(r.writes) + r.tail
}

/// Data of the stream goes behind what is to be sent, and less than a packet of
/// it waits for more. What waited already stays as it is.
pub proof fn law_data_goes_behind(r: Relay, data: Seq<u8>)
    ensures
        to_send(r.with_data(data)) == to_send(r) + data,
        r.with_data(data).tail.len() < 188,
        r.with_data(data).writes.len() <= r.writes.len() + 1,
        r.with_data(data).writes.take(r.writes.len() as int) == r.writes,
        r.with_data(data) == (Relay {
            writes: r.with_data(data).writes,
            tail: r.with_data(data).tail,
            ..r
        }),
{
    crate::preroll::law_packetizer_keeps_bytes(r.writes, r.tail, data);
    assert(r.with_data(data).writes.take(r.writes.len() as int) =~= r.writes);
    assert(joined(r.writes) + (r.tail + data) =~= to_send(r) + data);
    assert(joined(r.writes) + r.tail + data =~= to_send(r) + data);
}

/// After a change the bytes to be sent are those of the new stream alone, in
/// order: what was prepared, the start of the next packet, and the data that is
/// read then. Nothing of the old stream is among them.
pub proof fn law_new_stream_alone(r: Relay, new: Arrival, queued_bytes: u64, data: Seq<u8>)
    ensures
        to_send(r.switched(new, queued_bytes)) == joined(new.chunks) + new.tail,
        to_send(r.switched(new, queued_bytes).with_data(data)) == joined(new.chunks) + new.tail
            + data,
{
    law_data_goes_behind(r.switched(new, queued_bytes), data);
}

/// After a recovery the whole packets of the broken stream that wait come first,
/// then those of the new stream and the data that is read then. The start of a
/// packet that the broken stream left is dropped.
pub proof fn law_recovered_stream_follows(
    r: Relay,
    new: Arrival,
    queued_bytes: u64,
    now: u128,
    data: Seq<u8>,
)
    ensures
        to_send(r.recovered(new, queued_bytes, now)) == joined(r.writes) + joined(new.chunks)
            + new.tail,
        to_send(r.recovered(new, queued_bytes, now).with_data(data)) == joined(r.writes) + joined(
            new.chunks,
        ) + new.tail + data,
{
    crate::preroll::lemma_joined_append(r.writes, new.chunks);
    law_data_goes_behind(r.recovered(new, queued_bytes, now), data);
}

/// Whether the stream stays the same in an event.
pub open spec fn same_stream(event: Event) -> bool {
    !(event is Switched) && !(event is Recovered)
}

/// What is read of the stream in a course of events.
pub open spec fn read_in(events: Seq<Event>) -> Seq<u8>
    decreases events.len(),
{
    if events.len() == 0 {
        seq![]
    } else {
        let earlier = read_in(events.drop_last());
        match events.last() {
            Event::Data(data) => earlier + data,
            _ => earlier,
        }
    }
}

/// What is sent to the player in a course of events.
pub open spec fn sent_in(r: Relay, events: Seq<Event>) -> Seq<u8>
    decreases events.len(),
{
    if events.len() == 0 {
        seq![]
    } else {
        let earlier = sent_in(r, events.drop_last());
        let writes = r.after(events.drop_last()).writes;
        if events.last() is Sent && writes.len() > 0 {
            earlier + writes[0]
        } else {
            earlier
        }
    }
}

/// The player gets the bytes of a stream in order and without a gap, whatever
/// else happens: what was sent, with what is still to be sent, is what there was
/// and what was read.
#[verifier::spinoff_prover]
pub proof fn law_stream_goes_through(r: Relay, events: Seq<Event>)
    requires
        forall|i: int| 0 <= i < events.len() ==> same_stream(#[trigger] events[i]),
    ensures
        sent_in(r, events) + to_send(r.after(events)) == to_send(r) + read_in(events),
    decreases events.len(),
{
    if events.len() == 0 {
        assert(sent_in(r, events) + to_send(r.after(events)) =~= to_send(r) + read_in(events));
    } else {
        let earlier = events.drop_last();
        let event = events.last();
        assert forall|i: int| 0 <= i < earlier.len() implies same_stream(#[trigger] earlier[i]) by {
            assert(same_stream(events[i]));
        }
        assert(same_stream(events[events.len() - 1]));
        law_stream_goes_through(r, earlier);
        let before = r.after(earlier);
        lemma_event_bytes(before, event);
        assert(r.after(events) == before.step(event));
        let (sent, read) = (sent_in(r, earlier), read_in(earlier));
        assert(sent + to_send(before) == to_send(r) + read);
        let out = if event is Sent && before.writes.len() > 0 {
            before.writes[0]
        } else {
            Seq::<u8>::empty()
        };
        let more = match event {
            Event::Data(data) => data,
            _ => Seq::<u8>::empty(),
        };
        assert(sent_in(r, events) =~= sent + out);
        assert(read_in(events) =~= read + more);
        lemma_behind_each_other(
            sent,
            out,
            to_send(before.step(event)),
            to_send(before),
            to_send(r),
            read,
            more,
        );
    }
}

proof fn lemma_behind_each_other(
    sent: Seq<u8>,
    out: Seq<u8>,
    left: Seq<u8>,
    before: Seq<u8>,
    start: Seq<u8>,
    read: Seq<u8>,
    more: Seq<u8>,
)
    requires
        sent + before == start + read,
        out + left == before + more,
    ensures
        (sent + out) + left == start + (read + more),
{
    assert((sent + out) + left =~= sent + (out + left));
    assert(sent + (before + more) =~= (sent + before) + more);
    assert((start + read) + more =~= start + (read + more));
}

/// What an event sends, with what is to be sent then, is what was to be sent and
/// what it reads.
#[verifier::spinoff_prover]
proof fn lemma_event_bytes(r: Relay, event: Event)
    requires
        same_stream(event),
    ensures
        (if event is Sent && r.writes.len() > 0 {
            r.writes[0]
        } else {
            Seq::<u8>::empty()
        }) + to_send(r.step(event)) == to_send(r) + match event {
            Event::Data(data) => data,
            _ => Seq::<u8>::empty(),
        },
{
    let next = r.step(event);
    let none = Seq::<u8>::empty();
    assert(none + to_send(next) =~= to_send(next));
    assert(to_send(r) + none =~= to_send(r));
    match event {
        Event::Data(data) => {
            law_data_goes_behind(r, data);
        },
        Event::Sent => {
            if r.writes.len() > 0 {
                crate::preroll::lemma_joined_first(r.writes);
                assert(r.writes[0] + to_send(next) =~= to_send(r));
            }
        },
        Event::Full => {
            if r.writes.len() > 0 {
                crate::session::law_chunk_waits_again(r);
            }
        },
        Event::Sampled { queued_chunks, queued_bytes, drained, now } => {
            law_sampled(r, queued_chunks, queued_bytes, drained, now);
            assert(next.writes == r.writes && next.tail == r.tail);
        },
        _ => {
            assert(next.writes == r.writes && next.tail == r.tail);
        },
    }
}

// ---------------------------------------------------------------------------
// Changes
// ---------------------------------------------------------------------------

/// A new session sends the stream that it starts with, has measured nothing, and
/// waits for nothing. The first move to ladder 0 is still to be tried, unless the
/// session starts there or the time before it is not positive.
pub proof fn law_new_session(cfg: Config, first: Arrival, now: u128)
    ensures
        ({
            let r = Relay::started(cfg, first, now);
            &&& r.writes == first.chunks && r.tail == first.tail
            &&& r.ladder == first.ladder && r.rate == first.rate
            &&& r.active && !r.recovering && r.switching is None
            &&& r.started_at == now && r.last_sample == now && r.backlog == 0
            &&& r.startup_hold == cfg.startup_hold_s
            &&& r.startup_tried <==> first.ladder == 0 || cfg.startup_hold_s.not_above(
                binary64::naught(),
            )
            &&& r.rates.len() == cfg.ladder@.len()
            &&& forall|i: int|
                0 <= i < r.rates.len() ==> #[trigger] r.rates[i] == config::output_rate(
                    cfg.ladder@[i],
                ) as u64
            &&& r.sample_interval == binary64::nanoseconds(
                binary64::greater(cfg.sample_interval_s, binary64::ratio(5, 10)),
            )->0 as u128
            &&& r.congestion.down_ratio == cfg.congestion.down_ratio
            &&& r.congestion.down_hold_s == cfg.congestion.down_hold_s
            &&& r.congestion.up_ratio == cfg.congestion.up_ratio
            &&& r.congestion.up_hold_s == cfg.congestion.up_hold_s
            &&& r.congestion.up_cooldown_s == cfg.congestion.up_cooldown_s
            &&& r.congestion.down_cooldown_s == cfg.congestion.down_cooldown_s
            &&& r.machine == Machine::started(
                r.congestion,
                (cfg.ladder@.len() - 1) as usize,
                r.rates,
                first.ladder,
                now,
            )
        }),
{
}

/// The stream that was prepared takes over with its ladder and its rate, and the
/// state machine confirms the change with the bytes that wait then. Nothing else
/// changes.
pub proof fn law_switched(r: Relay, new: Arrival, queued_bytes: u64)
    requires
        queued_bytes + joined(new.chunks).len() <= u64::MAX,
    ensures
        ({
            let next = r.switched(new, queued_bytes);
            &&& next.backlog == queued_bytes + joined(new.chunks).len()
            &&& next == Relay {
                writes: new.chunks,
                tail: new.tail,
                ladder: new.ladder,
                rate: new.rate,
                switching: None,
                backlog: next.backlog,
                machine: Machine {
                    at: Standing {
                        prev_backlog_bytes: next.backlog,
                        rate_ewma: binary64::naught(),
                        ..r.machine.at
                    },
                    pending: None,
                    ..r.machine
                },
                ..r
            }
        }),
{
}

/// Where the prepared stream fails, the old one goes on unchanged, the state
/// machine goes back to where it stood and leaves the ladder alone for a while.
pub proof fn law_switch_failed(r: Relay, now: u128)
    requires
        r.switching is Some,
        r.machine.pending is Some,
    ensures
        ({
            let before = r.machine.pending->0;
            r.switch_failed(now) == Relay {
                switching: None,
                machine: Machine {
                    at: steering::with_failure(
                        before,
                        r.switching->0,
                        now,
                        r.switching->0 < before.current,
                    ),
                    pending: None,
                    ..r.machine
                },
                ..r
            }
        }),
{
    steering::law_change_ends(r.machine, 0, r.switching->0, now);
}

/// A stream that breaks is given up, and with it the one that was to replace it;
/// what waits is kept. Once another stream is there it goes on with its ladder
/// and its rate, is measured from then on, and the state machine starts anew on
/// that ladder, without another early move to ladder 0.
pub proof fn law_broken_and_recovered(r: Relay, new: Arrival, queued_bytes: u64, now: u128)
    requires
        queued_bytes + joined(r.writes + new.chunks).len() <= u64::MAX,
    ensures
        r.broken() == (Relay { active: false, recovering: true, switching: None, ..r }),
        ({
            let next = r.recovered(new, queued_bytes, now);
            &&& next.backlog == queued_bytes + joined(r.writes).len() + joined(new.chunks).len()
            &&& next == Relay {
                writes: r.writes + new.chunks,
                tail: new.tail,
                ladder: new.ladder,
                rate: new.rate,
                active: true,
                recovering: false,
                startup_tried: true,
                last_sample: now,
                backlog: next.backlog,
                machine: Machine::started(
                    r.congestion,
                    (r.rates.len() - 1) as usize,
                    r.rates,
                    new.ladder,
                    now,
                ),
                ..r
            }
        }),
{
    crate::preroll::lemma_joined_append(r.writes, new.chunks);
}

// ---------------------------------------------------------------------------
// Measurements
// ---------------------------------------------------------------------------

/// What a measurement says: how many of the 64 places for chunks are taken, how
/// many bytes wait and how many more than the last time, how many the player took
/// in a second, and what the ladder puts out. The player counts as active where
/// it took something or something waits.
#[verifier::spinoff_prover]
pub proof fn law_measured(
    r: Relay,
    queued_chunks: usize,
    queued_bytes: u64,
    drained: u64,
    now: u128,
)
    requires
        queued_bytes + joined(r.writes).len() <= i64::MAX,
        r.backlog <= i64::MAX,
    ensures
        ({
            let s = r.measured(queued_chunks, queued_bytes, drained, now);
            let taken = if queued_chunks + r.writes.len() < 64 {
                queued_chunks + r.writes.len()
            } else {
                64
            };
            &&& s.backlog_ratio == binary64::quotient(binary64::whole(taken), binary64::whole(64))
            &&& s.backlog_bytes == queued_bytes + joined(r.writes).len()
            &&& s.backlog_delta == queued_bytes + joined(r.writes).len() - r.backlog
            &&& s.drain_bps == binary64::truncated_u64(
                binary64::quotient(
                    binary64::whole(drained as int),
                    steering::passed(r.last_sample, now),
                ),
            )
            &&& s.prod_bps == r.rate
            &&& s.has_active_clients <==> drained > 0 || queued_chunks > 0 || r.writes.len() > 0
        }),
{
    binary64::law_truncated_u64(
        binary64::quotient(binary64::whole(drained as int), steering::passed(r.last_sample, now)),
    );
}

/// Sending takes the first chunk out and nothing else; a chunk that found no place
/// goes back to where it was taken out, and the session is as before.
pub proof fn law_chunk_comes_back(r: Relay)
    requires
        r.writes.len() > 0,
    ensures
        r.without_first() == (Relay { writes: r.without_first().writes, ..r }),
        seq![r.writes[0]] + r.without_first().writes == r.writes,
        r.without_first().handed_back(r.writes[0]) == r,
{
    assert(seq![r.writes[0]] + r.writes.skip(1) =~= r.writes);
}

/// A read that breaks the stream starts a recovery, where none is under way; data
/// goes behind what is to be sent; and a read that takes too long changes nothing.
pub proof fn law_reads(r: Relay, outcome: ReadOutcome)
    ensures
        ({
            let (next, recover) = r.after_read(outcome);
            let over = match outcome {
                ReadOutcome::Data(data) => data@.len() == 0,
                ReadOutcome::End => true,
                ReadOutcome::Failed(_) => true,
                ReadOutcome::TimedOut => false,
            };
            &&& recover <==> over && !r.recovering
            &&& recover ==> next == Relay {
                active: false,
                recovering: true,
                switching: None,
                ..r
            }
            &&& over && r.recovering ==> next == r
            &&& outcome is TimedOut ==> next == r
            &&& outcome matches ReadOutcome::Data(data) ==> !over ==> next == r.with_data(data@)
        }),
{
}

/// A session without a stream in the place of the broken one ends, once what waits
/// is sent.
pub proof fn law_given_up(r: Relay)
    ensures
        r.given_up() == (Relay { recovering: false, ..r }),
{
}

/// The session is measured again as soon as the interval has passed since the last
/// time.
pub proof fn law_measured_again(r: Relay, now: u128)
    ensures
        r.due(now) <==> now >= r.last_sample + r.sample_interval || r.sample_interval == 0,
{
}

/// A measurement asks for the ladder that is then to be prepared, and for none
/// where one is being prepared already or the stream is broken.
pub proof fn law_asks_for(
    r: Relay,
    queued_chunks: usize,
    queued_bytes: u64,
    drained: u64,
    now: u128,
)
    ensures
        ({
            let asked = r.asks_for(queued_chunks, queued_bytes, drained, now);
            &&& r.switching is Some || r.recovering ==> asked is None
            &&& r.switching is None && !r.recovering ==> asked == r.sampled(
                queued_chunks,
                queued_bytes,
                drained,
                now,
            ).switching
        }),
{
}

/// A prepared stream arrives with the ladder it was prepared for, with what was
/// prepared and the start of the packet behind it, and with the rate of the
/// ladder.
pub proof fn law_arrival(p: Prepared, run: Run, ladder: usize)
    ensures
        arrival_of(p, run, ladder) is Some <==> p.result() is Some,
        p.result() matches Some(chunks) ==> {
            let arrival = arrival_of(p, run, ladder)->0;
            &&& arrival.ladder == ladder
            &&& arrival.chunks == chunks
            &&& arrival.tail == p.tail
            &&& arrival.rate == config::output_rate(run)
        },
{
    config::law_output_rate(run);
}

/// A stream is broken once a read of it ends it, fails, or brings nothing; one
/// that brings data or takes too long does not break it.
pub proof fn law_breaks(outcome: ReadOutcome)
    ensures
        breaks(outcome) == match outcome {
            ReadOutcome::Data(data) => data@.len() == 0,
            ReadOutcome::End => true,
            ReadOutcome::Failed(_) => true,
            ReadOutcome::TimedOut => false,
        },
{
}

/// The first move to ladder 0 is tried once: while another ladder is sent, so
/// long after the start as is configured, where the player takes data, less than
/// a fifth of the places for chunks are taken and no more bytes wait than before.
pub proof fn law_first_move_tried(r: Relay, s: Sample, drained: u64, now: u128)
    ensures
        r.tries_direct(s, drained, now) <==> {
            &&& !r.startup_tried
            &&& r.ladder != 0
            &&& r.startup_hold.not_above(steering::passed(r.started_at, now))
            &&& drained != 0
            &&& s.backlog_ratio.below(binary64::ratio(20, 100))
            &&& s.backlog_delta <= 0
        },
{
}

/// What a measurement leads to. It counts in any case: as the last one, with the
/// bytes that wait. Where a stream is being prepared, that is all. Else the first
/// move to ladder 0 is made where it is tried and the state machine allows it,
/// and the state machine decides where not; a ladder other than the one that is
/// sent is then to be prepared.
#[verifier::spinoff_prover]
pub proof fn law_sampled(
    r: Relay,
    queued_chunks: usize,
    queued_bytes: u64,
    drained: u64,
    now: u128,
)
    ensures
        ({
            let s = r.measured(queued_chunks, queued_bytes, drained, now);
            let next = r.sampled(queued_chunks, queued_bytes, drained, now);
            let tries = r.tries_direct(s, drained, now);
            let dt = if r.last_sample <= now {
                (now - r.last_sample) as u128
            } else {
                0
            };
            let (machine, decision) = r.machine.updated(s, dt, now);
            &&& r.switching is Some || r.recovering ==> next == Relay {
                last_sample: now,
                backlog: s.backlog_bytes,
                ..r
            }
            &&& r.switching is None && !r.recovering ==> {
                &&& next == Relay {
                    last_sample: now,
                    backlog: s.backlog_bytes,
                    startup_tried: r.startup_tried || tries,
                    machine: next.machine,
                    switching: next.switching,
                    ..r
                }
                &&& tries && r.machine.may_probe(0, now) ==> {
                    &&& next.machine == r.machine.probed(0, s.backlog_bytes, now)
                    &&& next.switching == Some(0usize)
                }
                &&& !(tries && r.machine.may_probe(0, now)) ==> {
                    &&& next.machine == machine
                    &&& decision == Decision::Hold ==> next.switching is None
                    &&& decision matches Decision::StepDown(t) ==> next.switching == if t
                        != r.ladder {
                        Some(t)
                    } else {
                        None
                    }
                    &&& decision matches Decision::RevertDown(t) ==> next.switching == if t
                        != r.ladder {
                        Some(t)
                    } else {
                        None
                    }
                    &&& decision matches Decision::StepUp(t) ==> next.switching == if t != r.ladder {
                        Some(t)
                    } else {
                        None
                    }
                }
            }
        }),
{
}

/// Where the queue is nearly full (55 of its 64 places or more are taken), no
/// stream is being prepared and a lower ladder may be used, a session that passes
/// the source on or encodes it asks for a lower ladder: however much the player
/// took, and also where it took nothing.
#[verifier::spinoff_prover]
pub proof fn law_full_queue_steps_down(
    r: Relay,
    queued_chunks: usize,
    queued_bytes: u64,
    drained: u64,
    now: u128,
    open: usize,
)
    requires
        r.wf(),
        r.active,
        r.switching is None,
        r.machine.at.regime == Regime::Direct || r.machine.at.regime == Regime::Encode,
        queued_chunks + r.writes.len() >= 55,
        r.ladder < open < r.rates.len(),
        steering::free(r.machine.at, open as int, now),
    ensures
        ({
            let next = r.sampled(queued_chunks, queued_bytes, drained, now);
            next.switching matches Some(t) && r.ladder < t < r.rates.len()
        }),
{
    let s = r.measured(queued_chunks, queued_bytes, drained, now);
    let taken = if queued_chunks + r.writes.len() < 64 {
        queued_chunks + r.writes.len()
    } else {
        64
    };
    let dt = clock::elapsed(now, r.last_sample);
    let (machine, decision) = r.machine.updated(s, dt, now);
    binary64::law_fractions_ordered(85, 100, taken, 64);
    binary64::law_fractions_ordered(20, 100, taken, 64);
    assert(s.backlog_ratio == binary64::ratio(taken, 64));
    assert(steering::nearly_full(s));
    assert(!r.tries_direct(s, drained, now));
    assert(s.has_active_clients);
    if r.machine.at.regime == Regime::Direct {
        steering::law_passing_on(r.machine, s, dt, now);
    } else {
        steering::law_encoding(r.machine, s, dt, now);
    }
    assert(decision is StepDown);
}

/// The times of a configuration can be measured where they are numbers that are not
/// negative and below two to the power of 64 seconds: the interval between
/// measurements, half a second at least; the rest after a step down; and the time for
/// a new stream, a tenth of a second at least.
pub proof fn law_measurable(cfg: Config)
    ensures
        measurable(cfg) <==> {
            &&& binary64::nanoseconds(
                binary64::greater(cfg.sample_interval_s, binary64::ratio(5, 10)),
            ) is Some
            &&& binary64::nanoseconds(cfg.congestion.down_cooldown_s) is Some
            &&& binary64::nanoseconds(
                binary64::greater(cfg.switch_timeout_s, binary64::ratio(1, 10)),
            ) is Some
            &&& !cfg.switch_timeout_s.nan()
        },
{
}

} // verus!
