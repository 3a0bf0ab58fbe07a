//! The queue between a session and its player.
//!
//! A session puts chunks in and the player takes them out. The bytes that wait
//! and those that were taken are counted: they are what congestion is told by.

use crate::preroll;
use std::collections::VecDeque;
use vstd::prelude::*;

verus! {

/// What is done with the queue.
pub enum Step {
    /// A chunk is put in, where there is place.
    Put(Seq<u8>),
    /// The first chunk is taken out, where there is one.
    Take,
    /// The stream ends.
    Close,
    /// What waits is dropped.
    Clear,
    /// The bytes that the player took are asked for.
    Ask,
}

/// How many chunks may wait.
pub const BUF_CAP: usize = 64;

/// How a chunk was received by the queue.
#[derive(Debug, PartialEq)]
pub enum SendResult {
    /// It waits for the player.
    Sent,
    /// The player is gone.
    Closed,
    /// There is no place; the chunk comes back.
    Full(Vec<u8>),
}

/// What the player gets.
#[derive(Debug, PartialEq)]
pub enum RecvResult {
    /// The next chunk.
    Data(Vec<u8>),
    /// Nothing waits, and more may come.
    Empty,
    /// Nothing waits, and nothing will come.
    Closed,
}

/// The queue.
pub struct StreamBuf {
    pub queue: VecDeque<Vec<u8>>,
    pub closed: bool,
    /// The bytes that the player took since they were last asked for.
    pub drained_bytes: u64,
    /// The bytes that wait.
    pub backlog_bytes: u64,
}

/// What the queue stands for.
#[verifier::ext_equal]
pub struct Pipe {
    pub queue: Seq<Seq<u8>>,
    pub closed: bool,
    pub drained: u64,
    pub backlog: u64,
}

/// A count of bytes as it is kept: it starts again after the largest `u64`.
pub open spec fn counted(bytes: int) -> u64 {
    (bytes % 0x1_0000_0000_0000_0000) as u64
}

impl Pipe {
    /// What every queue keeps: it is not overfull, and the bytes that wait are
    /// counted.
    pub open spec fn wf(self) -> bool {
        &&& self.queue.len() <= BUF_CAP
        &&& self.backlog == counted(preroll::joined(self.queue).len() as int)
    }

    /// The queue with one more chunk.
    pub open spec fn with_chunk(self, data: Seq<u8>) -> Pipe {
        Pipe {
            queue: self.queue.push(data),
            backlog: counted(self.backlog + data.len()),
            ..self
        }
    }

    /// Whether a chunk can be put in.
    pub open spec fn takes_more(self) -> bool {
        !self.closed && self.queue.len() < BUF_CAP
    }

    /// The queue after a step.
    pub open spec fn step(self, step: Step) -> Pipe {
        match step {
            Step::Put(data) => if self.takes_more() {
                self.with_chunk(data)
            } else {
                self
            },
            Step::Take => if self.queue.len() > 0 {
                self.without_first()
            } else {
                self
            },
            Step::Close => Pipe { closed: true, ..self },
            Step::Clear => Pipe { queue: seq![], backlog: 0, ..self },
            Step::Ask => Pipe { drained: 0, ..self },
        }
    }

    /// The queue without its first chunk.
    pub open spec fn without_first(self) -> Pipe {
        Pipe {
            queue: self.queue.skip(1),
            drained: counted(self.drained + self.queue[0].len()),
            backlog: counted(self.backlog - self.queue[0].len()),
            ..self
        }
    }
}

impl View for StreamBuf {
    type V = Pipe;

    open spec fn view(&self) -> Pipe {
        Pipe {
            queue: preroll::bytes_of(self.queue@),
            closed: self.closed,
            drained: self.drained_bytes,
            backlog: self.backlog_bytes,
        }
    }
}

impl StreamBuf {
    /// An empty queue.
    pub fn new() -> (buf: StreamBuf)
        ensures
            buf@ == (Pipe { queue: seq![], closed: false, drained: 0, backlog: 0 }),
            buf@.wf(),
    {
        let buf = StreamBuf {
            queue: VecDeque::new(),
            closed: false,
            drained_bytes: 0,
            backlog_bytes: 0,
        };
        assert(buf@.queue =~= seq![]);
        buf
    }

    /// Puts a chunk in, where the player is there and there is place.
    pub fn try_send(&mut self, data: Vec<u8>) -> (result: SendResult)
        ensures
            final(self)@ == old(self)@.step(Step::Put(data@)),
            result is Sent <==> old(self)@.takes_more(),
            old(self)@.closed ==> result is Closed && final(self)@ == old(self)@,
            !old(self)@.closed && old(self)@.queue.len() < BUF_CAP ==> result is Sent && final(self)@
                == old(self)@.with_chunk(data@),
            !old(self)@.closed && old(self)@.queue.len() >= BUF_CAP ==> {
                &&& result matches SendResult::Full(back) && back@ == data@
                &&& final(self)@ == old(self)@
            },
            old(self)@.wf() ==> final(self)@.wf(),
    {
        if self.closed {
            return SendResult::Closed;
        }
        if self.queue.len() >= BUF_CAP {
            return SendResult::Full(data);
        }
        let ghost before = self@;
        let ghost chunk = data@;
        self.backlog_bytes = self.backlog_bytes.wrapping_add(data.len() as u64);
        self.queue.push_back(data);
        proof {
            assert(self@.queue =~= before.queue.push(chunk));
            assert(self@.queue.drop_last() =~= before.queue);
        }
        SendResult::Sent
    }

    /// Takes the first chunk out.
    pub fn try_recv(&mut self) -> (result: RecvResult)
        ensures
            final(self)@ == old(self)@.step(Step::Take),
            result is Data <==> old(self)@.queue.len() > 0,
            old(self)@.queue.len() > 0 ==> {
                &&& result matches RecvResult::Data(data) && data@ == old(self)@.queue[0]
                &&& final(self)@ == old(self)@.without_first()
            },
            old(self)@.queue.len() == 0 ==> {
                &&& result is Closed <==> old(self)@.closed
                &&& result is Empty <==> !old(self)@.closed
                &&& final(self)@ == old(self)@
            },
            old(self)@.wf() ==> final(self)@.wf(),
    {
        let ghost before = self@;
        match self.queue.pop_front() {
            Some(data) => {
                let len = data.len() as u64;
                self.drained_bytes = self.drained_bytes.wrapping_add(len);
                self.backlog_bytes = self.backlog_bytes.wrapping_sub(len);
                proof {
                    assert(self@.queue =~= before.queue.skip(1));
                    preroll::lemma_joined_first(before.queue);
                }
                RecvResult::Data(data)
            },
            None => {
                if self.closed {
                    RecvResult::Closed
                } else {
                    RecvResult::Empty
                }
            },
        }
    }

    /// How many chunks wait.
    pub fn backlog(&self) -> (chunks: usize)
        ensures
            chunks == self@.queue.len(),
    {
        self.queue.len()
    }

    /// How many bytes wait.
    pub fn backlog_bytes(&self) -> (bytes: u64)
        ensures
            bytes == self@.backlog,
    {
        self.backlog_bytes
    }

    /// Ends the stream: nothing more can be put in.
    pub fn close(&mut self)
        ensures
            final(self)@ == old(self)@.step(Step::Close),
            final(self)@ == (Pipe { closed: true, ..old(self)@ }),
            old(self)@.wf() ==> final(self)@.wf(),
    {
        self.closed = true;
    }

    /// Drops what waits.
    pub fn clear(&mut self)
        ensures
            final(self)@ == old(self)@.step(Step::Clear),
            final(self)@ == (Pipe { queue: seq![], backlog: 0, ..old(self)@ }),
            final(self)@.wf(),
    {
        self.queue.clear();
        self.backlog_bytes = 0;
        assert(self@.queue =~= seq![]);
    }

    /// The bytes that the player took since this was last asked.
    pub fn take_drained(&mut self) -> (bytes: u64)
        ensures
            bytes == old(self)@.drained,
            final(self)@ == old(self)@.step(Step::Ask),
            final(self)@ == (Pipe { drained: 0, ..old(self)@ }),
            old(self)@.wf() ==> final(self)@.wf(),
    {
        let bytes = self.drained_bytes;
        self.drained_bytes = 0;
        bytes
    }
}

// ---------------------------------------------------------------------------
// Laws
// ---------------------------------------------------------------------------

/// The bytes come out in the order in which they were put in, and none is lost
/// on the way.
pub proof fn law_bytes_in_order(pipe: Pipe, data: Seq<u8>)
    requires
        pipe.wf(),
    ensures
        preroll::joined(pipe.with_chunk(data).queue) == preroll::joined(pipe.queue) + data,
        pipe.queue.len() > 0 ==> pipe.queue[0] + preroll::joined(pipe.without_first().queue)
            == preroll::joined(pipe.queue),
        pipe.queue.len() > 0 ==> pipe.with_chunk(data).without_first().queue
            == pipe.without_first().with_chunk(data).queue,
        pipe.queue.len() == 0 ==> pipe.with_chunk(data).queue[0] == data,
{
    assert(pipe.queue.push(data).drop_last() =~= pipe.queue);
    if pipe.queue.len() > 0 {
        preroll::lemma_joined_first(pipe.queue);
        assert(pipe.queue.push(data).skip(1) =~= pipe.queue.skip(1).push(data));
    }
}

/// Up to 64 chunks wait. The bytes that wait are counted, and what the player took
/// is counted until it is asked for; the counts start again after two to the power
/// of 64.
pub proof fn law_bytes_counted(pipe: Pipe, data: Seq<u8>)
    requires
        pipe.wf(),
    ensures
        pipe.queue.len() <= 64,
        BUF_CAP == 64,
        preroll::joined(pipe.queue).len() <= u64::MAX ==> pipe.backlog == preroll::joined(
            pipe.queue,
        ).len(),
        pipe.with_chunk(data).queue == pipe.queue.push(data),
        pipe.with_chunk(data).drained == pipe.drained,
        pipe.with_chunk(data).closed == pipe.closed,
        pipe.backlog + data.len() <= u64::MAX ==> pipe.with_chunk(data).backlog == pipe.backlog
            + data.len(),
        pipe.queue.len() > 0 ==> {
            let next = pipe.without_first();
            &&& next.queue == pipe.queue.skip(1)
            &&& next.closed == pipe.closed
            &&& pipe.drained + pipe.queue[0].len() <= u64::MAX ==> next.drained == pipe.drained
                + pipe.queue[0].len()
            &&& pipe.queue[0].len() <= pipe.backlog ==> next.backlog == pipe.backlog
                - pipe.queue[0].len()
        },
{
}

/// A chunk can be put in while the queue is open and fewer than 64 wait. Putting one
/// in and taking one out change the chunks and the counts; ending the stream keeps
/// what waits; dropping it keeps what the player took, and asking for that starts the
/// count anew.
pub proof fn law_steps(pipe: Pipe, data: Seq<u8>)
    ensures
        pipe.takes_more() <==> !pipe.closed && pipe.queue.len() < 64,
        pipe.takes_more() ==> pipe.step(Step::Put(data)) == pipe.with_chunk(data),
        !pipe.takes_more() ==> pipe.step(Step::Put(data)) == pipe,
        pipe.queue.len() > 0 ==> pipe.step(Step::Take) == pipe.without_first(),
        pipe.queue.len() == 0 ==> pipe.step(Step::Take) == pipe,
        pipe.step(Step::Close) == (Pipe { closed: true, ..pipe }),
        pipe.step(Step::Clear).queue.len() == 0,
        pipe.step(Step::Clear).backlog == 0,
        pipe.step(Step::Clear).drained == pipe.drained,
        pipe.step(Step::Clear).closed == pipe.closed,
        pipe.step(Step::Ask) == (Pipe { drained: 0, ..pipe }),
{
}

impl Pipe {
    /// The queue after some steps.
    pub open spec fn after(self, steps: Seq<Step>) -> Pipe
        decreases steps.len(),
    {
        if steps.len() == 0 {
            self
        } else {
            self.after(steps.drop_last()).step(steps.last())
        }
    }

    /// The bytes that were put in.
    pub open spec fn put_in(self, steps: Seq<Step>) -> Seq<u8>
        decreases steps.len(),
    {
        if steps.len() == 0 {
            seq![]
        } else {
            let before = self.after(steps.drop_last());
            let earlier = self.put_in(steps.drop_last());
            match steps.last() {
                Step::Put(data) => if !before.closed && before.queue.len() < 64 {
                    earlier + data
                } else {
                    earlier
                },
                _ => earlier,
            }
        }
    }

    /// The bytes that were taken out.
    pub open spec fn taken_out(self, steps: Seq<Step>) -> Seq<u8>
        decreases steps.len(),
    {
        if steps.len() == 0 {
            seq![]
        } else {
            let before = self.after(steps.drop_last());
            let earlier = self.taken_out(steps.drop_last());
            if steps.last() is Take && before.queue.len() > 0 {
                earlier + before.queue[0]
            } else {
                earlier
            }
        }
    }
}

/// The player takes out what was put in, in order and without a gap, however the
/// two take turns and also after the end of the stream: what was taken, with what
/// waits, is what waited before and what was put in. Never more than 64 chunks wait.
pub proof fn law_queue_goes_through(pipe: Pipe, steps: Seq<Step>)
    requires
        pipe.queue.len() <= 64,
        forall|i: int| 0 <= i < steps.len() ==> !(#[trigger] steps[i] is Clear),
    ensures
        pipe.taken_out(steps) + preroll::joined(pipe.after(steps).queue) == preroll::joined(
            pipe.queue,
        ) + pipe.put_in(steps),
        pipe.after(steps).queue.len() <= 64,
    decreases steps.len(),
{
    let start = preroll::joined(pipe.queue);
    let none = Seq::<u8>::empty();
    if steps.len() == 0 {
        assert(none + start =~= start + none);
    } else {
        let front = steps.drop_last();
        assert forall|i: int| 0 <= i < front.len() implies !(#[trigger] front[i] is Clear) by {
            assert(!(steps[i] is Clear));
        }
        assert(!(steps[steps.len() - 1] is Clear));
        let before = pipe.after(front);
        let held = preroll::joined(before.queue);
        law_queue_goes_through(pipe, front);
        match steps.last() {
            Step::Put(data) => {
                if !before.closed && before.queue.len() < 64 {
                    assert(before.queue.push(data).drop_last() =~= before.queue);
                    assert(preroll::joined(before.queue.push(data)) == held + data);
                    assert(pipe.taken_out(front) + (held + data) =~= (pipe.taken_out(front) + held)
                        + data);
                    assert(start + (pipe.put_in(front) + data) =~= (start + pipe.put_in(front))
                        + data);
                }
            },
            Step::Take => {
                if before.queue.len() > 0 {
                    let rest = preroll::joined(before.queue.skip(1));
                    preroll::lemma_joined_first(before.queue);
                    assert((pipe.taken_out(front) + before.queue[0]) + rest =~= pipe.taken_out(front)
                        + (before.queue[0] + rest));
                }
            },
            _ => {},
        }
    }
}

/// Nothing comes behind the end of a stream: whatever is done then, nothing more is
/// put in.
pub proof fn law_closed_stays_closed(pipe: Pipe, steps: Seq<Step>)
    requires
        pipe.closed,
    ensures
        pipe.after(steps).closed,
        pipe.put_in(steps).len() == 0,
    decreases steps.len(),
{
    if steps.len() > 0 {
        law_closed_stays_closed(pipe, steps.drop_last());
    }
}

} // verus!
