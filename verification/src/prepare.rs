//! Preparing a stream before it takes over: reading until its keyframes are
//! there, and cutting it so that a player can join at once.
//!
//! What is read comes from outside. A [`Preparation`] is told how each read
//! ended and says what to do next.

use crate::config::Run;
use crate::keyframe;
use crate::ladder;
use crate::ladder::{copy_preroll_limit, required_preroll_keyframes};
use crate::preroll;
use crate::preroll::{
    drop_initial_non_video_elementary_continuations, enqueue_complete_ts_packets,
    mark_initial_discontinuity, pending_has_video_keyframes, prepend_discontinuity_packets,
    trim_pending_to_nth_video_keyframe, trim_pending_to_nth_video_keyframe_pes,
};
use crate::text;
use crate::text::{push_decimal, push_text, same_text};
use std::collections::VecDeque;
use vstd::prelude::*;

verus! {

/// How long a read may wait for data once the first has come, in nanoseconds.
pub const SWITCH_PREROLL_IDLE: u128 = 250_000_000;

/// How a read ended.
pub enum ReadOutcome {
    /// With data.
    Data(Vec<u8>),
    /// With the end of the stream.
    End,
    /// With an error, described by a text.
    Failed(String),
    /// Not in time.
    TimedOut,
}

/// Whether a read that ended so was the end of the stream.
pub open spec fn is_end(outcome: ReadOutcome) -> bool {
    match outcome {
        ReadOutcome::Data(data) => data@.len() == 0,
        ReadOutcome::End => true,
        _ => false,
    }
}

/// Why a stream could not be prepared.
#[derive(Debug)]
pub enum PrepareError {
    /// It ended before any data.
    EndAtOnce,
    /// The first read failed.
    FirstReadFailed(String),
    /// No data came in time.
    NothingInTime,
    /// The keyframes did not come within so many bytes.
    LimitExceeded(usize),
    /// It ended before the preparation did.
    EndDuring,
    /// A later read failed.
    ReadFailed(String),
    /// The keyframes did not come in time.
    NoKeyframeInTime,
}

/// What to do next.
pub enum Next {
    /// Read, and wait for so many nanoseconds at most.
    Read(u128),
    /// Finish: enough has been read.
    Finish,
    /// Give up.
    Fail(PrepareError),
}

/// A stream that is being prepared.
pub struct Preparation {
    /// Whether the source is passed on.
    pub copies: bool,
    /// How many keyframes must come.
    pub keyframes: usize,
    /// How many bytes to read at least.
    pub goal: usize,
    /// How long the preparation may take, in nanoseconds.
    pub timeout: u128,
    /// The whole packets so far.
    pub chunks: VecDeque<Vec<u8>>,
    /// The start of a packet whose rest has not come.
    pub tail: Vec<u8>,
    /// The bytes read so far.
    pub total: usize,
}

// ---------------------------------------------------------------------------
// Model
// ---------------------------------------------------------------------------

/// What a preparation stands for.
#[verifier::ext_equal]
pub struct Prepared {
    pub copies: bool,
    pub keyframes: int,
    pub goal: usize,
    pub timeout: int,
    pub chunks: Seq<Seq<u8>>,
    pub tail: Seq<u8>,
    pub total: usize,
}

impl View for Preparation {
    type V = Prepared;

    open spec fn view(&self) -> Prepared {
        Prepared {
            copies: self.copies,
            keyframes: self.keyframes as int,
            goal: self.goal,
            timeout: self.timeout as int,
            chunks: preroll::bytes_of(self.chunks@),
            tail: self.tail@,
            total: self.total,
        }
    }
}

/// What an error stands for.
pub enum Trouble {
    EndAtOnce,
    FirstReadFailed(Seq<char>),
    NothingInTime,
    LimitExceeded(int),
    EndDuring,
    ReadFailed(Seq<char>),
    NoKeyframeInTime,
}

impl View for PrepareError {
    type V = Trouble;

    open spec fn view(&self) -> Trouble {
        match self {
            PrepareError::EndAtOnce => Trouble::EndAtOnce,
            PrepareError::FirstReadFailed(text) => Trouble::FirstReadFailed(text@),
            PrepareError::NothingInTime => Trouble::NothingInTime,
            PrepareError::LimitExceeded(limit) => Trouble::LimitExceeded(*limit as int),
            PrepareError::EndDuring => Trouble::EndDuring,
            PrepareError::ReadFailed(text) => Trouble::ReadFailed(text@),
            PrepareError::NoKeyframeInTime => Trouble::NoKeyframeInTime,
        }
    }
}

/// What the next step stands for.
pub enum Plan {
    Read(int),
    Finish,
    Fail(Trouble),
}

impl View for Next {
    type V = Plan;

    open spec fn view(&self) -> Plan {
        match self {
            Next::Read(wait) => Plan::Read(*wait as int),
            Next::Finish => Plan::Finish,
            Next::Fail(error) => Plan::Fail(error@),
        }
    }
}

impl Prepared {
    /// A preparation at its start.
    pub open spec fn fresh(run: Run, timeout: int, goal: usize) -> Prepared {
        Prepared {
            copies: run.mode@ == "copy"@,
            keyframes: ladder::keyframes_needed(run),
            goal,
            timeout,
            chunks: seq![],
            tail: seq![],
            total: 0,
        }
    }

    /// Whether the keyframes have come.
    pub open spec fn has_keyframes(self) -> bool {
        keyframe::keyframe_span(preroll::joined(self.chunks), self.keyframes) is Some
    }

    /// The preparation with more data.
    pub open spec fn with_data(self, data: Seq<u8>) -> Prepared {
        let bytes = self.tail + data;
        Prepared {
            chunks: preroll::with_packets(self.chunks, bytes),
            tail: bytes.skip(preroll::whole(bytes.len() as int)),
            total: if self.total + data.len() <= usize::MAX {
                (self.total + data.len()) as usize
            } else {
                usize::MAX
            },
            ..self
        }
    }

    /// What to do next, `elapsed` nanoseconds after the start.
    pub open spec fn plan(self, elapsed: int) -> Plan {
        if self.total >= self.goal && self.has_keyframes() {
            Plan::Finish
        } else if self.total >= ladder::byte_limit(self.goal) {
            Plan::Fail(Trouble::LimitExceeded(ladder::byte_limit(self.goal) as int))
        } else if elapsed >= self.timeout {
            Plan::Finish
        } else if self.timeout - elapsed < SWITCH_PREROLL_IDLE {
            Plan::Read(self.timeout - elapsed)
        } else {
            Plan::Read(SWITCH_PREROLL_IDLE as int)
        }
    }

    /// The preparation once a read has ended.
    pub open spec fn after(self, outcome: ReadOutcome) -> Prepared {
        match outcome {
            ReadOutcome::Data(data) => self.with_data(data@),
            _ => self,
        }
    }

    /// What to do once a read has ended, `elapsed` nanoseconds after the start.
    pub open spec fn plan_after(self, outcome: ReadOutcome, elapsed: int) -> Plan {
        let first = self.total == 0;
        if is_end(outcome) {
            Plan::Fail(
                if first {
                    Trouble::EndAtOnce
                } else {
                    Trouble::EndDuring
                },
            )
        } else {
            match outcome {
                ReadOutcome::Failed(text) => Plan::Fail(
                    if first {
                        Trouble::FirstReadFailed(text@)
                    } else {
                        Trouble::ReadFailed(text@)
                    },
                ),
                ReadOutcome::TimedOut => if first {
                    Plan::Fail(Trouble::NothingInTime)
                } else if self.has_keyframes() {
                    Plan::Finish
                } else {
                    self.plan(elapsed)
                },
                _ => self.after(outcome).plan(elapsed),
            }
        }
    }

    /// What has been read from the last of the keyframes on.
    pub open spec fn cut(self) -> Option<Seq<u8>> {
        let flat = preroll::joined(self.chunks);
        if self.copies {
            preroll::from_keyframe(flat, self.keyframes)
        } else {
            preroll::from_keyframe_unit(flat, self.keyframes)
        }
    }

    /// The chunks for the player: from the last of the keyframes on, without
    /// parts of other units, and announced as a discontinuity.
    pub open spec fn result(self) -> Option<Seq<Seq<u8>>> {
        match self.cut() {
            Some(bytes) => Some(
                preroll::with_announcements(preroll::marked(preroll::cleaned(seq![bytes]))),
            ),
            None => None,
        }
    }
}

/// The text of an error.
pub open spec fn trouble_message(trouble: Trouble) -> Seq<char> {
    match trouble {
        Trouble::EndAtOnce => "EOF immediately"@,
        Trouble::FirstReadFailed(text) => "read err: "@ + text,
        Trouble::NothingInTime => "first frame timeout"@,
        Trouble::LimitExceeded(limit) => "preroll exceeded "@ + text::decimal(limit)
            + " bytes before IDR"@,
        Trouble::EndDuring => "EOF during preroll"@,
        Trouble::ReadFailed(text) => "read err during preroll: "@ + text,
        Trouble::NoKeyframeInTime => "preroll reached timeout before IDR"@,
    }
}

// ---------------------------------------------------------------------------
// Execution
// ---------------------------------------------------------------------------

impl PrepareError {
    /// The text of the error.
    pub fn message(&self) -> (message: String)
        ensures
            message@ == trouble_message(self@),
    {
        let mut message = String::new();
        match self {
            PrepareError::EndAtOnce => push_text(&mut message, "EOF immediately"),
            PrepareError::FirstReadFailed(text) => {
                push_text(&mut message, "read err: ");
                push_text(&mut message, text.as_str());
            },
            PrepareError::NothingInTime => push_text(&mut message, "first frame timeout"),
            PrepareError::LimitExceeded(limit) => {
                push_text(&mut message, "preroll exceeded ");
                push_decimal(&mut message, *limit as u64);
                push_text(&mut message, " bytes before IDR");
            },
            PrepareError::EndDuring => push_text(&mut message, "EOF during preroll"),
            PrepareError::ReadFailed(text) => {
                push_text(&mut message, "read err during preroll: ");
                push_text(&mut message, text.as_str());
            },
            PrepareError::NoKeyframeInTime => push_text(
                &mut message,
                "preroll reached timeout before IDR",
            ),
        }
        assert(message@ =~= trouble_message(self@));
        message
    }
}

impl Preparation {
    /// Starts to prepare a stream. The first read may wait for the whole time.
    pub fn new(run: &Run, timeout: u128, preroll_bytes: usize) -> (preparation: Preparation)
        ensures
            preparation@ == Prepared::fresh(*run, timeout as int, preroll_bytes),
    {
        let preparation = Preparation {
            copies: same_text(run.mode.as_str(), "copy"),
            keyframes: required_preroll_keyframes(run),
            goal: preroll_bytes,
            timeout,
            chunks: VecDeque::new(),
            tail: Vec::new(),
            total: 0,
        };
        assert(preparation@ =~= Prepared::fresh(*run, timeout as int, preroll_bytes));
        preparation
    }

    fn has_keyframes(&self) -> (yes: bool)
        ensures
            yes == self@.has_keyframes(),
    {
        pending_has_video_keyframes(&self.chunks, self.keyframes)
    }

    fn next(&self, elapsed: u128) -> (next: Next)
        ensures
            next@ == self@.plan(elapsed as int),
    {
        if self.total >= self.goal && self.has_keyframes() {
            return Next::Finish;
        }
        let limit = copy_preroll_limit(self.goal);
        if self.total >= limit {
            return Next::Fail(PrepareError::LimitExceeded(limit));
        }
        if elapsed >= self.timeout {
            return Next::Finish;
        }
        let remaining = self.timeout - elapsed;
        if remaining < SWITCH_PREROLL_IDLE {
            Next::Read(remaining)
        } else {
            Next::Read(SWITCH_PREROLL_IDLE)
        }
    }

    /// Takes in how a read ended, `elapsed` nanoseconds after the start, and
    /// says what to do next.
    pub fn take(&mut self, outcome: ReadOutcome, elapsed: u128) -> (next: Next)
        ensures
            final(self)@ == old(self)@.after(outcome),
            next@ == old(self)@.plan_after(outcome, elapsed as int),
    {
        let first = self.total == 0;
        match outcome {
            ReadOutcome::Data(data) => {
                enqueue_complete_ts_packets(data.as_slice(), &mut self.tail, &mut self.chunks);
                self.total = self.total.saturating_add(data.len());
                assert(self@ =~= old(self)@.with_data(data@));
                if data.len() > 0 {
                    self.next(elapsed)
                } else if first {
                    Next::Fail(PrepareError::EndAtOnce)
                } else {
                    Next::Fail(PrepareError::EndDuring)
                }
            },
            ReadOutcome::End => if first {
                Next::Fail(PrepareError::EndAtOnce)
            } else {
                Next::Fail(PrepareError::EndDuring)
            },
            ReadOutcome::Failed(text) => if first {
                Next::Fail(PrepareError::FirstReadFailed(text))
            } else {
                Next::Fail(PrepareError::ReadFailed(text))
            },
            ReadOutcome::TimedOut => if first {
                Next::Fail(PrepareError::NothingInTime)
            } else if self.has_keyframes() {
                Next::Finish
            } else {
                self.next(elapsed)
            },
        }
    }

    /// The chunks for the player, and the start of a packet whose rest comes
    /// later.
    pub fn finish(self) -> (result: Result<(VecDeque<Vec<u8>>, Vec<u8>), PrepareError>)
        ensures
            match (result, self@.result()) {
                (Ok((chunks, tail)), Some(expected)) => {
                    &&& preroll::bytes_of(chunks@) == expected
                    &&& tail@ == self@.tail
                },
                (Err(error), None) => error@ == Trouble::NoKeyframeInTime,
                _ => false,
            },
    {
        let trimmed = if self.copies {
            trim_pending_to_nth_video_keyframe(self.chunks, self.keyframes)
        } else {
            trim_pending_to_nth_video_keyframe_pes(self.chunks, self.keyframes)
        };
        match trimmed {
            None => Err(PrepareError::NoKeyframeInTime),
            Some(trimmed) => {
                proof {
                    assert(preroll::bytes_of(trimmed@) =~= seq![trimmed@[0]@]);
                }
                let mut chunks = drop_initial_non_video_elementary_continuations(trimmed);
                mark_initial_discontinuity(&mut chunks);
                prepend_discontinuity_packets(&mut chunks);
                Ok((chunks, self.tail))
            },
        }
    }
}

// ---------------------------------------------------------------------------
// Laws
// ---------------------------------------------------------------------------

/// A read never waits beyond the time for the whole preparation, nor longer
/// than a quarter of a second once data has come.
pub proof fn law_reads_end_in_time(p: Prepared, outcome: ReadOutcome, elapsed: int)
    ensures
        p.plan_after(outcome, elapsed) matches Plan::Read(wait) ==> 0 < wait
            <= SWITCH_PREROLL_IDLE && elapsed + wait <= p.timeout,
{
}

/// A preparation that is within its limits goes on or ends well; it never
/// gives up by itself before the limit of bytes.
pub proof fn law_gives_up_only_beyond_limit(p: Prepared, data: Vec<u8>, elapsed: int)
    requires
        data@.len() > 0,
        p.total + data@.len() < ladder::byte_limit(p.goal),
    ensures
        !(p.plan_after(ReadOutcome::Data(data), elapsed) is Fail),
{
}

/// Nothing that is read is lost: the packets and the rest are the data so far.
pub proof fn law_preparation_keeps_bytes(p: Prepared, data: Seq<u8>)
    ensures
        preroll::joined(p.with_data(data).chunks) + p.with_data(data).tail == preroll::joined(
            p.chunks,
        ) + p.tail + data,
        p.with_data(data).tail.len() < 188,
{
    preroll::law_packetizer_keeps_bytes(p.chunks, p.tail, data);
}

/// A preparation starts with nothing read. Where the source is passed on, one
/// keyframe must come, else two.
pub proof fn law_preparation_starts(run: Run, timeout: int, goal: usize)
    ensures
        ({
            let p = Prepared::fresh(run, timeout, goal);
            &&& p.copies <==> run.mode@ == "copy"@
            &&& run.mode@ == "copy"@ ==> p.keyframes == 1
            &&& run.mode@ != "copy"@ ==> p.keyframes == 2
            &&& p.goal == goal && p.timeout == timeout
            &&& p.chunks.len() == 0 && p.tail.len() == 0 && p.total == 0
        }),
{
}

/// The bytes in which the keyframes must come: eight mebibytes, or the goal where
/// that is more.
pub open spec fn most_bytes(goal: usize) -> int {
    if goal > 8_388_608 {
        goal as int
    } else {
        8_388_608
    }
}

/// After data, the preparation is ready once as much as is asked for has been
/// read and the keyframes are in it. It fails where more bytes than are allowed
/// have come before that. It ends when its time is over, and else reads on: for a
/// quarter of a second, or for the time that is left where that is less.
pub proof fn law_plan(p: Prepared, elapsed: int)
    ensures
        ({
            let ready = p.total >= p.goal && keyframe::keyframe_span(
                preroll::joined(p.chunks),
                p.keyframes,
            ) is Some;
            let limit = most_bytes(p.goal);
            &&& ready ==> p.plan(elapsed) == Plan::Finish
            &&& !ready && p.total >= limit ==> p.plan(elapsed) == Plan::Fail(
                Trouble::LimitExceeded(limit),
            )
            &&& !ready && p.total < limit && elapsed >= p.timeout ==> p.plan(elapsed)
                == Plan::Finish
            &&& !ready && p.total < limit && elapsed < p.timeout ==> p.plan(elapsed) == Plan::Read(
                if p.timeout - elapsed < 250_000_000 {
                    p.timeout - elapsed
                } else {
                    250_000_000
                },
            )
        }),
{
}

/// What a read leads to. Data is kept and counted. The end of the stream and an
/// error end the preparation, with another error where nothing was read before.
/// A read that takes too long ends it where nothing was read before, and finishes
/// it where the keyframes are there; else the preparation goes on.
pub proof fn law_read_outcomes(p: Prepared, outcome: ReadOutcome, elapsed: int)
    ensures
        match outcome {
            ReadOutcome::Data(data) => {
                let next = p.after(outcome);
                &&& next == Prepared { chunks: next.chunks, tail: next.tail, total: next.total, ..p }
                &&& preroll::joined(next.chunks) + next.tail == preroll::joined(p.chunks) + p.tail
                    + data@
                &&& next.tail.len() < 188
                &&& next.chunks.len() <= p.chunks.len() + 1
                &&& next.chunks.take(p.chunks.len() as int) == p.chunks
                &&& p.total + data@.len() <= usize::MAX ==> next.total == p.total + data@.len()
                &&& p.total + data@.len() > usize::MAX ==> next.total == usize::MAX
                &&& p.plan_after(outcome, elapsed) == if data@.len() > 0 {
                    next.plan(elapsed)
                } else if p.total == 0 {
                    Plan::Fail(Trouble::EndAtOnce)
                } else {
                    Plan::Fail(Trouble::EndDuring)
                }
            },
            ReadOutcome::End => {
                &&& p.after(outcome) == p
                &&& p.plan_after(outcome, elapsed) == if p.total == 0 {
                    Plan::Fail(Trouble::EndAtOnce)
                } else {
                    Plan::Fail(Trouble::EndDuring)
                }
            },
            ReadOutcome::Failed(text) => {
                &&& p.after(outcome) == p
                &&& p.plan_after(outcome, elapsed) == if p.total == 0 {
                    Plan::Fail(Trouble::FirstReadFailed(text@))
                } else {
                    Plan::Fail(Trouble::ReadFailed(text@))
                }
            },
            ReadOutcome::TimedOut => {
                &&& p.after(outcome) == p
                &&& p.plan_after(outcome, elapsed) == if p.total == 0 {
                    Plan::Fail(Trouble::NothingInTime)
                } else if keyframe::keyframe_span(preroll::joined(p.chunks), p.keyframes) is Some {
                    Plan::Finish
                } else {
                    p.plan(elapsed)
                }
            },
        },
{
    if let ReadOutcome::Data(data) = outcome {
        preroll::law_packetizer_keeps_bytes(p.chunks, p.tail, data@);
        let next = p.after(outcome);
        assert(next.chunks.take(p.chunks.len() as int) =~= p.chunks);
    }
}

/// A prepared stream is cut at its keyframe, at the prelude where the source is
/// passed on and at the payload unit where it is encoded; then cleaned, then
/// marked, then announced. There is none where it cannot be cut.
pub proof fn law_prepared(p: Prepared)
    ensures
        ({
            let flat = preroll::joined(p.chunks);
            let cut = if p.copies {
                preroll::from_keyframe(flat, p.keyframes)
            } else {
                preroll::from_keyframe_unit(flat, p.keyframes)
            };
            &&& p.cut() == cut
            &&& cut is None ==> p.result() is None
            &&& cut is Some ==> p.result() == Some(
                preroll::with_announcements(preroll::marked(preroll::cleaned(seq![cut->0]))),
            )
        }),
{
}

/// What is said of each error.
pub proof fn law_messages(text: Seq<char>, limit: int)
    ensures
        trouble_message(Trouble::EndAtOnce) == "EOF immediately"@,
        trouble_message(Trouble::FirstReadFailed(text)) == "read err: "@ + text,
        trouble_message(Trouble::NothingInTime) == "first frame timeout"@,
        trouble_message(Trouble::LimitExceeded(limit)) == "preroll exceeded "@ + text::decimal(
            limit,
        ) + " bytes before IDR"@,
        trouble_message(Trouble::EndDuring) == "EOF during preroll"@,
        trouble_message(Trouble::ReadFailed(text)) == "read err during preroll: "@ + text,
        trouble_message(Trouble::NoKeyframeInTime) == "preroll reached timeout before IDR"@,
{
}

} // verus!
