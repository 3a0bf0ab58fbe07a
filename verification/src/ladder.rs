//! Choices around a ladder: the order in which ladders are tried, and how long
//! and how much of a new stream is read.

use crate::binary64;
use crate::binary64::Binary64;
use crate::clock::SECOND;
use crate::config::Run;
use crate::text::same_text;
use vstd::prelude::*;

verus! {

/// The bytes of a new stream in which its keyframes must come.
pub const COPY_PREROLL_BYTE_LIMIT: usize = 8_388_608;

/// The first identifier for a video stream.
pub const VIDEO_PID_BASE: u16 = 0x0200;

/// How many identifiers for video streams there are.
pub const VIDEO_PID_COUNT: u16 = 0x0600;

// ---------------------------------------------------------------------------
// Order
// ---------------------------------------------------------------------------

/// The ladders from `first` (at most the last) to the last, then those before.
pub open spec fn order_from(len: int, first: int) -> Seq<usize> {
    let start = if first < len {
        first
    } else {
        len - 1
    };
    Seq::new(
        len as nat,
        |i: int|
            if start + i < len {
                (start + i) as usize
            } else {
                (start + i - len) as usize
            },
    )
}

fn rotation(len: usize, first: usize) -> (order: Vec<usize>)
    ensures
        order@ == order_from(len as int, first as int),
{
    let mut order: Vec<usize> = Vec::new();
    if len == 0 {
        assert(order@ =~= order_from(len as int, first as int));
        return order;
    }
    let start = if first < len {
        first
    } else {
        len - 1
    };
    let mut i = start;
    while i < len
        invariant
            start <= i <= len,
            start == (if first < len {
                first as int
            } else {
                len - 1
            }),
            order@ =~= order_from(len as int, first as int).take(i - start),
        decreases len - i,
    {
        order.push(i);
        i = i + 1;
    }
    let mut k: usize = 0;
    while k < start
        invariant
            k <= start < len,
            start == (if first < len {
                first as int
            } else {
                len - 1
            }),
            order@ =~= order_from(len as int, first as int).take(len - start + k),
        decreases start - k,
    {
        order.push(k);
        k = k + 1;
    }
    assert(order@ =~= order_from(len as int, first as int));
    order
}

/// The order in which ladders are tried at the start: the configured one, those
/// with lower bitrates, then those with higher ones.
pub fn startup_order(len: usize, startup_ladder: usize) -> (order: Vec<usize>)
    ensures
        order@ == order_from(len as int, startup_ladder as int),
{
    rotation(len, startup_ladder)
}

/// The order in which ladders are tried after an interruption: the current one,
/// those with lower bitrates, then those with higher ones.
pub fn recovery_order(len: usize, current_ladder: usize) -> (order: Vec<usize>)
    ensures
        order@ == order_from(len as int, current_ladder as int),
{
    rotation(len, current_ladder)
}

/// Every ladder is tried, none twice, and the first is the one asked for, or
/// the last where there is no such ladder.
pub proof fn law_order_tries_all(len: int, first: int)
    requires
        0 < len <= usize::MAX,
        0 <= first,
    ensures
        order_from(len, first).len() == len,
        order_from(len, first)[0] == if first < len {
            first
        } else {
            len - 1
        },
        forall|i: int|
            0 <= i < len ==> (#[trigger] order_from(len, first)[i]) < len,
        forall|ladder: usize| ladder < len ==> order_from(len, first).contains(ladder),
        order_from(len, first).no_duplicates(),
{
    let order = order_from(len, first);
    let start = if first < len {
        first
    } else {
        len - 1
    };
    assert forall|ladder: usize| ladder < len implies order.contains(ladder) by {
        if ladder >= start {
            assert(order[ladder - start] == ladder);
        } else {
            assert(order[ladder - start + len] == ladder);
        }
    }
}

/// The ladders that are tried one after the other until one can be started.
pub struct Attempts {
    pub order: Vec<usize>,
    /// How many have been tried.
    pub tried: usize,
    /// Why the last of them failed.
    pub last_error: Option<String>,
}

impl Attempts {
    /// The ladder that is tried next, where there is one.
    pub open spec fn upcoming(self) -> Option<usize> {
        if self.tried < self.order@.len() {
            Some(self.order@[self.tried as int])
        } else {
            None
        }
    }

    /// The attempts with one more tried, where there is one.
    pub open spec fn advanced(self) -> Attempts {
        if self.tried < self.order@.len() {
            Attempts { tried: (self.tried + 1) as usize, ..self }
        } else {
            self
        }
    }

    /// Why none could be started.
    pub open spec fn why(self) -> Seq<char> {
        match self.last_error {
            Some(error) => error@,
            None => "empty ladder"@,
        }
    }

    /// The attempts at the start of a session.
    pub fn startup(len: usize, startup_ladder: usize) -> (attempts: Attempts)
        ensures
            attempts.order@ == order_from(len as int, startup_ladder as int),
            attempts.tried == 0,
            attempts.last_error is None,
    {
        Attempts { order: startup_order(len, startup_ladder), tried: 0, last_error: None }
    }

    /// The attempts after an interruption.
    pub fn recovery(len: usize, current_ladder: usize) -> (attempts: Attempts)
        ensures
            attempts.order@ == order_from(len as int, current_ladder as int),
            attempts.tried == 0,
            attempts.last_error is None,
    {
        Attempts { order: recovery_order(len, current_ladder), tried: 0, last_error: None }
    }

    /// The next ladder to try, until all have been tried.
    pub fn next_ladder(&mut self) -> (ladder: Option<usize>)
        ensures
            ladder == old(self).upcoming(),
            *final(self) == old(self).advanced(),
            old(self).tried < old(self).order@.len() ==> {
                &&& ladder == Some(old(self).order@[old(self).tried as int])
                &&& *final(self) == (Attempts {
                    tried: (old(self).tried + 1) as usize,
                    ..*old(self)
                })
            },
            old(self).tried >= old(self).order@.len() ==> ladder is None && *final(self) == *old(
                self,
            ),
    {
        if self.tried < self.order.len() {
            let ladder = self.order[self.tried];
            self.tried = self.tried + 1;
            Some(ladder)
        } else {
            None
        }
    }

    /// Takes in why a ladder failed.
    pub fn failed(&mut self, error: String)
        ensures
            *final(self) == (Attempts { last_error: Some(error), ..*old(self) }),
    {
        self.last_error = Some(error);
    }

    /// Why none could be started.
    pub fn reason(self) -> (reason: String)
        ensures
            reason@ == self.why(),
            reason@ == match self.last_error {
                Some(error) => error@,
                None => "empty ladder"@,
            },
    {
        match self.last_error {
            Some(error) => error,
            None => "empty ladder".to_owned(),
        }
    }
}

// ---------------------------------------------------------------------------
// Limits
// ---------------------------------------------------------------------------

/// How many keyframes must have come before a stream of the ladder takes over:
/// one where the source is passed on, else two.
pub open spec fn keyframes_needed(run: Run) -> int {
    if run.mode@ == "copy"@ {
        1
    } else {
        2
    }
}

/// How many keyframes must have come before a stream of the ladder takes over.
pub fn required_preroll_keyframes(run: &Run) -> (count: usize)
    ensures
        count == keyframes_needed(*run),
{
    if same_text(run.mode.as_str(), "copy") {
        1
    } else {
        2
    }
}

/// The bytes in which the keyframes must come: eight mebibytes, or the goal
/// where that is more.
pub open spec fn byte_limit(goal: usize) -> usize {
    if goal > COPY_PREROLL_BYTE_LIMIT {
        goal
    } else {
        COPY_PREROLL_BYTE_LIMIT
    }
}

/// The bytes in which the keyframes must come.
pub fn copy_preroll_limit(preroll_goal: usize) -> (limit: usize)
    ensures
        limit == byte_limit(preroll_goal),
{
    if preroll_goal > COPY_PREROLL_BYTE_LIMIT {
        preroll_goal
    } else {
        COPY_PREROLL_BYTE_LIMIT
    }
}

/// How much of a stream that replaces another is read before, given the configured
/// bytes.
pub open spec fn replacement_goal(preroll_bytes: usize) -> usize {
    if preroll_bytes < 65_536 {
        65_536
    } else if preroll_bytes > 2_097_152 {
        2_097_152
    } else {
        preroll_bytes
    }
}

/// How much of a stream that replaces another is read before: the configured
/// bytes, between 64 kibibytes and two mebibytes.
pub fn switch_preroll_goal(preroll_bytes: usize) -> (goal: usize)
    ensures
        goal == replacement_goal(preroll_bytes),
        goal == if preroll_bytes < 65_536 {
            65_536
        } else if preroll_bytes > 2_097_152 {
            2_097_152
        } else {
            preroll_bytes
        },
{
    if preroll_bytes < 65_536 {
        65_536
    } else if preroll_bytes > 2_097_152 {
        2_097_152
    } else {
        preroll_bytes
    }
}

/// The configured time for the first data, at least a tenth of a second.
pub open spec fn configured_timeout(switch_timeout_s: Binary64) -> Option<int> {
    binary64::nanoseconds(binary64::greater(switch_timeout_s, binary64::ratio(1, 10)))
}

/// How long a first stream may take, given the configured time.
pub open spec fn first_timeout(run: Run, configured: int) -> int {
    if run.mode@ == "copy"@ {
        if configured < 3_000_000_000 {
            configured
        } else {
            3_000_000_000
        }
    } else if configured < 8_000_000_000 {
        8_000_000_000
    } else if configured > 12_000_000_000 {
        12_000_000_000
    } else {
        configured
    }
}

/// How long a first stream may take: the configured time, but at most three
/// seconds where the source is passed on, and between eight and twelve seconds
/// where it is encoded.
pub fn initial_output_timeout(run: &Run, switch_timeout_s: Binary64) -> (timeout: u128)
    requires
        configured_timeout(switch_timeout_s) is Some,
    ensures
        timeout == first_timeout(*run, configured_timeout(switch_timeout_s)->0),
        ({
            let configured = configured_timeout(switch_timeout_s)->0;
            timeout == if run.mode@ == "copy"@ {
                if configured < 3_000_000_000 {
                    configured
                } else {
                    3_000_000_000
                }
            } else if configured < 8_000_000_000 {
                8_000_000_000
            } else if configured > 12_000_000_000 {
                12_000_000_000
            } else {
                configured
            }
        }),
{
    let configured = switch_timeout_s.max(Binary64::ratio(1, 10)).to_nanos().unwrap();
    if same_text(run.mode.as_str(), "copy") {
        if configured < 3 * SECOND {
            configured
        } else {
            3 * SECOND
        }
    } else if configured < 8 * SECOND {
        8 * SECOND
    } else if configured > 12 * SECOND {
        12 * SECOND
    } else {
        configured
    }
}

/// How long a stream that replaces another may take: the configured time,
/// between two and thirty seconds.
pub open spec fn replacement_timeout(switch_timeout_s: Binary64) -> Option<int> {
    binary64::nanoseconds(
        binary64::clamped(switch_timeout_s, binary64::whole(2), binary64::whole(30)),
    )
}

/// How long a stream that replaces another may take.
pub fn switch_timeout(switch_timeout_s: Binary64) -> (timeout: u128)
    requires
        !switch_timeout_s.nan(),
    ensures
        replacement_timeout(switch_timeout_s) == Some(timeout as int),
        2_000_000_000 <= timeout <= 30_000_000_000,
{
    let clamped = switch_timeout_s.clamp(Binary64::from_u64(2), Binary64::from_u64(30));
    proof {
        binary64::lemma_bounded_nanoseconds(switch_timeout_s);
    }
    clamped.to_nanos().unwrap()
}

/// The identifier for the video of the `count`th stream, counted from zero.
pub open spec fn video_pid(count: int) -> int {
    VIDEO_PID_BASE + (count % 0x0600) * 2
}

/// The identifier for the video of the `count`th stream, counted from zero.
pub fn next_video_pid(count: u16) -> (pid: u16)
    ensures
        pid == video_pid(count as int),
{
    VIDEO_PID_BASE + (count % VIDEO_PID_COUNT) * 2
}

/// The identifiers are valid for a stream, and differ between streams that are
/// less than 1536 apart.
pub proof fn law_video_pids_differ(a: int, b: int)
    requires
        0 <= a < b < a + VIDEO_PID_COUNT,
    ensures
        0x0200 <= video_pid(a) < 0x0e00,
        video_pid(a) != video_pid(b),
{
}

/// The ladders are tried one after the other downwards, and after the last from
/// ladder 0 on.
pub proof fn law_order_goes_down(len: int, first: int, i: int)
    requires
        0 < len <= usize::MAX,
        0 <= first,
        0 <= i,
        i + 1 < len,
    ensures
        order_from(len, first)[i + 1] == if order_from(len, first)[i] + 1 < len {
            order_from(len, first)[i] + 1
        } else {
            0
        },
        order_from(0, first).len() == 0,
{
}

/// The reason is that of the last attempt that failed; without any, that there is
/// no ladder.
pub proof fn law_reason(attempts: Attempts, error: String)
    ensures
        (Attempts { last_error: Some(error), ..attempts }).why() == error@,
        (Attempts { last_error: None, ..attempts }).why() == "empty ladder"@,
{
}

/// The attempts after some of them have been made.
pub open spec fn attempts_after(attempts: Attempts, n: int) -> Attempts
    decreases n,
{
    if n <= 0 {
        attempts
    } else {
        attempts_after(attempts, n - 1).advanced()
    }
}

/// The ladders are tried in their order, each once, and then no more.
pub proof fn law_attempts(attempts: Attempts, n: int)
    requires
        attempts.tried == 0,
        0 <= n,
    ensures
        n < attempts.order@.len() ==> attempts_after(attempts, n).upcoming() == Some(
            attempts.order@[n],
        ),
        n >= attempts.order@.len() ==> attempts_after(attempts, n).upcoming() is None,
        attempts_after(attempts, n).order == attempts.order,
        attempts_after(attempts, n).last_error == attempts.last_error,
    decreases n,
{
    lemma_attempts(attempts, n);
}

proof fn lemma_attempts(attempts: Attempts, n: int)
    requires
        attempts.tried == 0,
        0 <= n,
    ensures
        attempts_after(attempts, n).order == attempts.order,
        attempts_after(attempts, n).last_error == attempts.last_error,
        attempts_after(attempts, n).tried == if n < attempts.order@.len() {
            n
        } else {
            attempts.order@.len() as int
        },
    decreases n,
{
    if n > 0 {
        lemma_attempts(attempts, n - 1);
        assert(attempts.order@.len() == attempts.order.len());
    }
}

/// Where the source is passed on, one keyframe is enough; an encoded stream needs
/// two.
pub proof fn law_keyframes_needed(run: Run)
    ensures
        run.mode@ == "copy"@ ==> keyframes_needed(run) == 1,
        run.mode@ != "copy"@ ==> keyframes_needed(run) == 2,
{
}

/// Of a stream that replaces another the configured bytes are read, but at least 64
/// kibibytes and at most two mebibytes: the number between these that is nearest to
/// what is configured.
pub proof fn law_replacement_goal(preroll_bytes: usize)
    ensures
        64 * 1024 <= replacement_goal(preroll_bytes) <= 2 * 1024 * 1024,
        64 * 1024 <= preroll_bytes <= 2 * 1024 * 1024 ==> replacement_goal(preroll_bytes)
            == preroll_bytes,
        preroll_bytes <= 64 * 1024 ==> replacement_goal(preroll_bytes) == 64 * 1024,
        preroll_bytes >= 2 * 1024 * 1024 ==> replacement_goal(preroll_bytes) == 2 * 1024 * 1024,
{
}

/// A first stream may take the configured time: at most three seconds where the
/// source is passed on, and between eight and twelve seconds where it is encoded.
pub proof fn law_first_timeout(run: Run, configured: int)
    ensures
        run.mode@ == "copy"@ ==> first_timeout(run, configured) <= 3_000_000_000,
        run.mode@ == "copy"@ && configured <= 3_000_000_000 ==> first_timeout(run, configured)
            == configured,
        run.mode@ == "copy"@ && configured >= 3_000_000_000 ==> first_timeout(run, configured)
            == 3_000_000_000,
        run.mode@ != "copy"@ ==> 8_000_000_000 <= first_timeout(run, configured) <= 12_000_000_000,
        run.mode@ != "copy"@ && 8_000_000_000 <= configured <= 12_000_000_000 ==> first_timeout(
            run,
            configured,
        ) == configured,
        run.mode@ != "copy"@ && configured <= 8_000_000_000 ==> first_timeout(run, configured)
            == 8_000_000_000,
        run.mode@ != "copy"@ && configured >= 12_000_000_000 ==> first_timeout(run, configured)
            == 12_000_000_000,
{
}

/// The limit of bytes is the greater of eight mebibytes and the goal.
pub proof fn law_byte_limit(goal: usize)
    ensures
        byte_limit(goal) >= 8 * 1024 * 1024,
        byte_limit(goal) >= goal,
        byte_limit(goal) == 8 * 1024 * 1024 || byte_limit(goal) == goal,
{
}

/// The configured time counts as it is, and as a tenth of a second where it is less
/// than that or no number.
pub proof fn law_configured_timeout(switch_timeout_s: Binary64)
    ensures
        binary64::ratio(1, 10).not_above(switch_timeout_s) ==> configured_timeout(switch_timeout_s)
            == binary64::nanoseconds(switch_timeout_s),
        switch_timeout_s.nan() || switch_timeout_s.below(binary64::ratio(1, 10))
            ==> configured_timeout(switch_timeout_s) == binary64::nanoseconds(
            binary64::ratio(1, 10),
        ),
{
}

/// The time for a stream that replaces another is the configured one between two
/// and thirty seconds, and the bound where that is beyond one.
pub proof fn law_replacement_timeout(switch_timeout_s: Binary64)
    requires
        !switch_timeout_s.nan(),
    ensures
        binary64::whole(2).not_above(switch_timeout_s) && switch_timeout_s.not_above(
            binary64::whole(30),
        ) ==> replacement_timeout(switch_timeout_s) == binary64::nanoseconds(switch_timeout_s),
        switch_timeout_s.below(binary64::whole(2)) ==> replacement_timeout(switch_timeout_s)
            == Some(2_000_000_000int),
        binary64::whole(30).below(switch_timeout_s) ==> replacement_timeout(switch_timeout_s)
            == Some(30_000_000_000int),
{
    binary64::law_whole_exact(2);
    binary64::law_whole_exact(30);
    lemma_whole_seconds(2);
    lemma_whole_seconds(30);
}

proof fn lemma_whole_seconds(v: int)
    requires
        0 <= v < 1000,
    ensures
        binary64::nanoseconds(binary64::whole(v)) == Some(v * 1_000_000_000),
{
    binary64::law_whole_exact(v);
    vstd::arithmetic::power2::lemma_pow2_pos(1074);
    let u = binary64::unit();
    let num = v * u * 1_000_000_000;
    assert(num == (v * 1_000_000_000) * u) by (nonlinear_arith)
        requires
            num == v * u * 1_000_000_000,
    ;
    vstd::arithmetic::div_mod::lemma_div_multiples_vanish(v * 1_000_000_000, u);
    vstd::arithmetic::div_mod::lemma_mod_multiples_basic(v * 1_000_000_000, u);
    assert(u * (v * 1_000_000_000) == (v * 1_000_000_000) * u) by (nonlinear_arith);
    assert(v * u >= 0) by (nonlinear_arith)
        requires
            0 <= v,
            0 < u,
    ;
}

/// The identifiers for videos are the even ones from 0x200 on, 1536 of them, one
/// after the other and then from the start.
pub proof fn law_video_pids(count: int)
    requires
        0 <= count,
    ensures
        video_pid(0) == 0x200,
        video_pid(count + 1) == video_pid(count) + 2 || (video_pid(count) == 0xdfe && video_pid(
            count + 1,
        ) == 0x200),
        video_pid(count) % 2 == 0,
        0x200 <= video_pid(count) <= 0xdfe,
{
}

} // verus!
