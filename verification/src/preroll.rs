//! What is done to the first output of a transcoder before it is sent: bytes
//! are cut into whole packets, everything before a keyframe is dropped, and
//! the jump in the stream is announced to the player.

use crate::keyframe;
use crate::keyframe::find_nth_video_keyframe_span;
use crate::mpegts;
use crate::mpegts::{
    elementary_pids, packet_slice, parse_pat_for_pmt_pid, section_from_packet, ts_pid, video_stream,
    TS_PACKET_SIZE,
};
use std::collections::{HashSet, VecDeque};
use vstd::array::array_as_slice;
use vstd::prelude::*;
use vstd::slice::{slice_subrange, slice_to_vec};

verus! {

broadcast use vstd::std_specs::hash::group_hash_axioms;

// ---------------------------------------------------------------------------
// Chunks
// ---------------------------------------------------------------------------

/// The bytes of each chunk.
pub open spec fn bytes_of(chunks: Seq<Vec<u8>>) -> Seq<Seq<u8>> {
    Seq::new(chunks.len(), |i: int| chunks[i]@)
}

/// All chunks one after the other.
pub open spec fn joined(chunks: Seq<Seq<u8>>) -> Seq<u8>
    decreases chunks.len(),
{
    if chunks.len() == 0 {
        seq![]
    } else {
        joined(chunks.drop_last()) + chunks.last()
    }
}

/// The first chunk comes first.
pub proof fn lemma_joined_first(chunks: Seq<Seq<u8>>)
    requires
        chunks.len() > 0,
    ensures
        joined(chunks) == chunks[0] + joined(chunks.skip(1)),
    decreases chunks.len(),
{
    if chunks.len() == 1 {
        assert(chunks.drop_last() =~= seq![]);
        assert(chunks.skip(1) =~= seq![]);
        assert(joined(chunks) =~= chunks[0] + joined(chunks.skip(1)));
    } else {
        lemma_joined_first(chunks.drop_last());
        assert(chunks.skip(1).drop_last() =~= chunks.drop_last().skip(1));
        assert(joined(chunks) =~= chunks[0] + joined(chunks.skip(1)));
    }
}

/// Chunks behind chunks.
pub proof fn lemma_joined_append(a: Seq<Seq<u8>>, b: Seq<Seq<u8>>)
    ensures
        joined(a + b) == joined(a) + joined(b),
    decreases b.len(),
{
    if b.len() == 0 {
        assert(a + b =~= a);
        assert(joined(a + b) =~= joined(a) + joined(b));
    } else {
        lemma_joined_append(a, b.drop_last());
        assert((a + b).drop_last() =~= a + b.drop_last());
        assert(joined(a + b) =~= joined(a) + joined(b));
    }
}

/// How many of `len` bytes are in whole packets.
pub open spec fn whole(len: int) -> int {
    len / 188 * 188
}

/// `chunks` with the whole packets of `bytes` behind them as one more chunk;
/// without any whole packet there is none.
pub open spec fn with_packets(chunks: Seq<Seq<u8>>, bytes: Seq<u8>) -> Seq<Seq<u8>> {
    if bytes.len() < TS_PACKET_SIZE {
        chunks
    } else {
        chunks.push(bytes.take(whole(bytes.len() as int)))
    }
}

/// The number of bytes that wait to be sent, up to the largest `u64`.
pub fn pending_write_bytes(pending_writes: &VecDeque<Vec<u8>>) -> (bytes: u64)
    ensures
        bytes == if joined(bytes_of(pending_writes@)).len() <= u64::MAX {
            joined(bytes_of(pending_writes@)).len()
        } else {
            u64::MAX as nat
        },
{
    let ghost chunks = bytes_of(pending_writes@);
    let mut bytes: u64 = 0;
    let mut i: usize = 0;
    while i < pending_writes.len()
        invariant
            i <= pending_writes@.len(),
            chunks == bytes_of(pending_writes@),
            bytes == if joined(chunks.take(i as int)).len() <= u64::MAX {
                joined(chunks.take(i as int)).len()
            } else {
                u64::MAX as nat
            },
        decreases pending_writes@.len() - i,
    {
        proof {
            assert(chunks.take(i + 1).drop_last() =~= chunks.take(i as int));
        }
        bytes = bytes.saturating_add(pending_writes[i].len() as u64);
        i = i + 1;
    }
    assert(chunks.take(i as int) =~= chunks);
    bytes
}

/// Puts the whole packets of `tail` and `data` behind the chunks that wait;
/// what is left over of a packet becomes the new tail.
pub fn enqueue_complete_ts_packets(
    data: &[u8],
    tail: &mut Vec<u8>,
    pending_writes: &mut VecDeque<Vec<u8>>,
)
    ensures
        bytes_of(final(pending_writes)@) == with_packets(
            bytes_of(old(pending_writes)@),
            old(tail)@ + data@,
        ),
        final(tail)@ == (old(tail)@ + data@).skip(whole((old(tail)@ + data@).len() as int)),
{
    let ghost all = tail@ + data@;
    let ghost chunks = bytes_of(pending_writes@);
    if tail.len() == 0 && data.len() >= TS_PACKET_SIZE && data.len() % TS_PACKET_SIZE == 0 {
        let chunk = slice_to_vec(data);
        proof {
            assert(all =~= data@);
            assert(all.take(whole(all.len() as int)) =~= chunk@);
            assert(all.skip(whole(all.len() as int)) =~= tail@);
        }
        pending_writes.push_back(chunk);
        assert(bytes_of(pending_writes@) =~= chunks.push(all.take(whole(all.len() as int))));
        return;
    }
    tail.extend_from_slice(data);
    assert(tail@ =~= all);
    let complete_len = tail.len() / TS_PACKET_SIZE * TS_PACKET_SIZE;
    assert(complete_len == whole(all.len() as int));
    if complete_len > 0 {
        let mut rest = tail.split_off(complete_len);
        core::mem::swap(tail, &mut rest);
        pending_writes.push_back(rest);
        assert(bytes_of(pending_writes@) =~= chunks.push(all.take(whole(all.len() as int))));
    }
    assert(tail@ =~= all.skip(whole(all.len() as int)));
}

/// Cutting into packets loses, adds and reorders nothing, and what is held
/// back is less than a packet.
pub proof fn law_packetizer_keeps_bytes(chunks: Seq<Seq<u8>>, tail: Seq<u8>, data: Seq<u8>)
    ensures
        joined(with_packets(chunks, tail + data)) + (tail + data).skip(
            whole((tail + data).len() as int),
        ) == joined(chunks) + tail + data,
        (tail + data).skip(whole((tail + data).len() as int)).len() < TS_PACKET_SIZE,
{
    let all = tail + data;
    let n = whole(all.len() as int);
    if all.len() < TS_PACKET_SIZE {
        assert(all.skip(n) =~= all);
    } else {
        assert(chunks.push(all.take(n)).drop_last() =~= chunks);
        assert(all.take(n) + all.skip(n) =~= all);
    }
    assert(joined(with_packets(chunks, all)) + all.skip(n) =~= joined(chunks) + tail + data);
}

/// All chunks that wait, in one piece.
pub fn flatten_pending(pending: &VecDeque<Vec<u8>>) -> (flat: Vec<u8>)
    ensures
        flat@ == joined(bytes_of(pending@)),
{
    let ghost chunks = bytes_of(pending@);
    let mut flat: Vec<u8> = Vec::new();
    let mut i: usize = 0;
    while i < pending.len()
        invariant
            i <= pending@.len(),
            chunks == bytes_of(pending@),
            flat@ == joined(chunks.take(i as int)),
        decreases pending@.len() - i,
    {
        let ghost before = flat@;
        flat.extend_from_slice(pending[i].as_slice());
        proof {
            assert(flat@ =~= before + chunks[i as int]);
            assert(chunks.take(i + 1).drop_last() =~= chunks.take(i as int));
        }
        i = i + 1;
    }
    assert(chunks.take(i as int) =~= chunks);
    flat
}

// ---------------------------------------------------------------------------
// Trimming
// ---------------------------------------------------------------------------

/// Where the last packet with index at most `k` starts of which `holds` is
/// true.
pub open spec fn latest_packet(data: Seq<u8>, holds: spec_fn(Seq<u8>) -> bool, k: int) -> Option<
    int,
>
    decreases k + 1,
{
    if k < 0 {
        None
    } else if k < mpegts::packet_count(data) && holds(mpegts::packet_at(data, k)) {
        Some(k * 188)
    } else {
        latest_packet(data, holds, k - 1)
    }
}

/// The last program association packet up to the packet of byte `before`.
pub open spec fn latest_pat(data: Seq<u8>, before: int) -> Option<int> {
    latest_packet(data, |packet: Seq<u8>| mpegts::pid_of(packet) == Some(0u16), before / 188)
}

/// The last program map packet up to the packet of byte `before`, of the
/// program that the association packet at `pat_start` names.
pub open spec fn latest_pmt(data: Seq<u8>, before: int, pat_start: int) -> Option<int> {
    if pat_start + 188 > data.len() {
        None
    } else {
        match mpegts::pmt_pid_of(data.subrange(pat_start, pat_start + 188)) {
            None => None,
            Some(pmt_pid) => latest_packet(
                data,
                |packet: Seq<u8>| mpegts::section_of(packet, pmt_pid, 0x02) is Some,
                before / 188,
            ),
        }
    }
}

/// The last packet of stream `pid` that starts a payload unit, up to the
/// packet of byte `before`.
pub open spec fn latest_pes_start(data: Seq<u8>, before: int, pid: u16) -> Option<int> {
    latest_packet(
        data,
        |packet: Seq<u8>| mpegts::pid_of(packet) == Some(pid) && mpegts::starts_unit(packet),
        before / 188,
    )
}

/// Whether an optional position is the given one.
pub open spec fn same_position(found: Option<usize>, expected: Option<int>) -> bool {
    match (found, expected) {
        (Some(a), Some(b)) => a == b,
        (None, None) => true,
        _ => false,
    }
}

pub proof fn lemma_latest_packet(data: Seq<u8>, holds: spec_fn(Seq<u8>) -> bool, k: int)
    ensures
        latest_packet(data, holds, k) matches Some(at) ==> 0 <= at && at + 188 <= data.len() && at
            <= k * 188 && at % 188 == 0,
        k >= mpegts::packet_count(data) ==> latest_packet(data, holds, k) == latest_packet(
            data,
            holds,
            mpegts::packet_count(data) - 1,
        ),
    decreases k + 1,
{
    if k >= 0 {
        lemma_latest_packet(data, holds, k - 1);
    }
}

/// The index behind the last packet that has to be looked at.
fn search_end(data: &[u8], before_packet: usize) -> (end: usize)
    ensures
        end <= mpegts::packet_count(data@),
        forall|holds: spec_fn(Seq<u8>) -> bool|
            #[trigger] latest_packet(data@, holds, before_packet as int / 188) == latest_packet(
                data@,
                holds,
                end - 1,
            ),
{
    let count = data.len() / TS_PACKET_SIZE;
    let last = before_packet / TS_PACKET_SIZE;
    proof {
        assert forall|holds: spec_fn(Seq<u8>) -> bool|
            #[trigger] latest_packet(data@, holds, before_packet as int / 188) == latest_packet(
                data@,
                holds,
                (if last < count {
                    last as int
                } else {
                    count - 1
                }),
            ) by {
            lemma_latest_packet(data@, holds, last as int);
        }
    }
    if last < count {
        last + 1
    } else {
        count
    }
}

/// Where the last program association packet starts, up to the packet of byte
/// `before_packet`.
pub fn latest_pat_before(data: &[u8], before_packet: usize) -> (start: Option<usize>)
    ensures
        same_position(start, latest_pat(data@, before_packet as int)),
{
    let ghost holds = |packet: Seq<u8>| mpegts::pid_of(packet) == Some(0u16);
    let mut k = search_end(data, before_packet);
    while k > 0
        invariant
            k <= mpegts::packet_count(data@),
            holds == (|packet: Seq<u8>| mpegts::pid_of(packet) == Some(0u16)),
            latest_pat(data@, before_packet as int) == latest_packet(data@, holds, k - 1),
        decreases k,
    {
        k = k - 1;
        proof {
            mpegts::lemma_packet_bounds(data@, k as int);
            assert(data@.len() == data.len());
        }
        if let Some(pid) = ts_pid(packet_slice(data, k)) {
            if pid == 0 {
                return Some(k * 188);
            }
        }
    }
    None
}

/// Where the last program map packet starts, up to the packet of byte
/// `before_packet`, of the program that the association packet at `pat_start`
/// names.
pub fn latest_pmt_before(data: &[u8], before_packet: usize, pat_start: usize) -> (start: Option<
    usize,
>)
    ensures
        same_position(start, latest_pmt(data@, before_packet as int, pat_start as int)),
{
    if pat_start > data.len() || data.len() - pat_start < TS_PACKET_SIZE {
        return None;
    }
    let pat = slice_subrange(data, pat_start, pat_start + TS_PACKET_SIZE);
    let pmt_pid = match parse_pat_for_pmt_pid(pat) {
        Some(pid) => pid,
        None => return None,
    };
    let ghost holds = |packet: Seq<u8>| mpegts::section_of(packet, pmt_pid, 0x02) is Some;
    let mut k = search_end(data, before_packet);
    while k > 0
        invariant
            k <= mpegts::packet_count(data@),
            holds == (|packet: Seq<u8>| mpegts::section_of(packet, pmt_pid, 0x02) is Some),
            latest_pmt(data@, before_packet as int, pat_start as int) == latest_packet(
                data@,
                holds,
                k - 1,
            ),
        decreases k,
    {
        k = k - 1;
        proof {
            mpegts::lemma_packet_bounds(data@, k as int);
            assert(data@.len() == data.len());
        }
        if section_from_packet(packet_slice(data, k), pmt_pid, 0x02).is_some() {
            return Some(k * 188);
        }
    }
    None
}

/// Where the last packet of stream `pid` that starts a payload unit starts, up
/// to the packet of byte `before_packet`.
pub fn latest_pes_start_before(data: &[u8], before_packet: usize, pid: u16) -> (start: Option<
    usize,
>)
    ensures
        same_position(start, latest_pes_start(data@, before_packet as int, pid)),
{
    let ghost holds = |packet: Seq<u8>|
        mpegts::pid_of(packet) == Some(pid) && mpegts::starts_unit(packet);
    let mut k = search_end(data, before_packet);
    while k > 0
        invariant
            k <= mpegts::packet_count(data@),
            holds == (|packet: Seq<u8>|
                mpegts::pid_of(packet) == Some(pid) && mpegts::starts_unit(packet)),
            latest_pes_start(data@, before_packet as int, pid) == latest_packet(
                data@,
                holds,
                k - 1,
            ),
        decreases k,
    {
        k = k - 1;
        proof {
            mpegts::lemma_packet_bounds(data@, k as int);
            assert(data@.len() == data.len());
        }
        let packet = packet_slice(data, k);
        if let Some(found) = ts_pid(packet) {
            if found == pid && packet[1] / 64 % 2 == 1 {
                return Some(k * 188);
            }
        }
    }
    None
}

/// The packet starts from `start` up to (not including) `end`.
pub open spec fn packet_starts(start: int, end: int) -> Seq<int>
    decreases (if start < end { end - start } else { 0 }),
{
    if start >= end {
        seq![]
    } else {
        seq![start] + packet_starts(start + 188, end)
    }
}

/// The packet starts of all ranges, as far as they lie before `before`.
pub open spec fn range_starts(ranges: Seq<(usize, usize)>, before: int) -> Seq<int>
    decreases ranges.len(),
{
    if ranges.len() == 0 {
        seq![]
    } else {
        let last = ranges.last();
        range_starts(ranges.drop_last(), before) + packet_starts(
            last.0 as int,
            if last.1 < before {
                last.1 as int
            } else {
                before
            },
        )
    }
}

/// The values of `starts`, each where it occurs first.
pub open spec fn distinct(starts: Seq<int>) -> Seq<int>
    decreases starts.len(),
{
    if starts.len() == 0 {
        seq![]
    } else {
        let earlier = distinct(starts.drop_last());
        if earlier.contains(starts.last()) {
            earlier
        } else {
            earlier.push(starts.last())
        }
    }
}

/// The packets of `flat` at the given starts, one after the other.
pub open spec fn packets_at(flat: Seq<u8>, starts: Seq<int>) -> Seq<u8>
    decreases starts.len(),
{
    if starts.len() == 0 {
        seq![]
    } else {
        packets_at(flat, starts.drop_last()) + flat.subrange(starts.last(), starts.last() + 188)
    }
}

/// The starts up to the first whose packet is not whole.
pub open spec fn leading_whole(flat: Seq<u8>, starts: Seq<int>) -> Seq<int>
    decreases starts.len(),
{
    if starts.len() == 0 {
        seq![]
    } else {
        let earlier = leading_whole(flat, starts.drop_last());
        if earlier.len() + 1 == starts.len() && starts.last() + 188 <= flat.len() {
            starts
        } else {
            earlier
        }
    }
}

/// The starts of the packets that hold parameter sets, each once.
pub open spec fn parameter_starts(ranges: Seq<(usize, usize)>, before: int) -> Seq<int> {
    distinct(range_starts(ranges, before))
}

proof fn lemma_packet_starts_extend(start: int, at: int, end: int)
    requires
        start <= at < end,
        (at - start) % 188 == 0,
    ensures
        packet_starts(start, at + 188) == packet_starts(start, at).push(at),
    decreases at - start,
{
    if start < at {
        lemma_packet_starts_extend(start + 188, at, end);
        assert(packet_starts(start, at + 188) =~= packet_starts(start, at).push(at));
    } else {
        assert(packet_starts(start + 188, at + 188) =~= seq![]);
        assert(packet_starts(start, at + 188) =~= packet_starts(start, at).push(at));
    }
}

/// The starts up to `mid`, then those from `mid` on.
proof fn lemma_packet_starts_split(start: int, mid: int, end: int)
    requires
        start <= mid,
        (mid - start) % 188 == 0,
        start < mid ==> mid - 188 < end,
    ensures
        packet_starts(start, end) == packet_starts(start, mid) + packet_starts(mid, end),
    decreases mid - start,
{
    if start < mid {
        lemma_packet_starts_split(start + 188, mid, end);
    }
    assert(packet_starts(start, end) =~= packet_starts(start, mid) + packet_starts(mid, end));
}

/// The starts of the first `i` ranges come first.
proof fn lemma_range_starts_prefix(ranges: Seq<(usize, usize)>, i: int, before: int) -> (rest: Seq<
    int,
>)
    requires
        0 <= i <= ranges.len(),
    ensures
        range_starts(ranges, before) == range_starts(ranges.take(i), before) + rest,
    decreases ranges.len(),
{
    if i == ranges.len() {
        assert(ranges.take(i) =~= ranges);
        assert(range_starts(ranges, before) =~= range_starts(ranges, before) + seq![]);
        seq![]
    } else {
        let earlier = lemma_range_starts_prefix(ranges.drop_last(), i, before);
        assert(ranges.drop_last().take(i) =~= ranges.take(i));
        let last = ranges.last();
        let rest = earlier + packet_starts(
            last.0 as int,
            if last.1 < before {
                last.1 as int
            } else {
                before
            },
        );
        assert(range_starts(ranges, before) =~= range_starts(ranges.take(i), before) + rest);
        rest
    }
}

proof fn lemma_push_contains(s: Seq<int>, v: int, x: int)
    ensures
        s.push(v).contains(x) <==> s.contains(x) || x == v,
{
    assert(s.push(v)[s.len() as int] == v);
    if s.contains(x) {
        let i = choose|i: int| 0 <= i < s.len() && s[i] == x;
        assert(s.push(v)[i] == x);
    }
}

proof fn lemma_distinct_extends(a: Seq<int>, b: Seq<int>)
    ensures
        distinct(a).len() <= distinct(a + b).len(),
        distinct(a + b).take(distinct(a).len() as int) == distinct(a),
    decreases b.len(),
{
    if b.len() == 0 {
        assert(a + b =~= a);
        assert(distinct(a).take(distinct(a).len() as int) =~= distinct(a));
    } else {
        lemma_distinct_extends(a, b.drop_last());
        assert((a + b).drop_last() =~= a + b.drop_last());
        let n = distinct(a).len() as int;
        assert(distinct(a + b).take(n) =~= distinct(a + b.drop_last()).take(n));
    }
}

proof fn lemma_leading_whole(flat: Seq<u8>, starts: Seq<int>, n: int)
    requires
        0 <= n <= starts.len(),
        forall|i: int| 0 <= i < n ==> #[trigger] starts[i] + 188 <= flat.len(),
        n < starts.len() ==> starts[n] + 188 > flat.len(),
    ensures
        leading_whole(flat, starts) == starts.take(n),
    decreases starts.len(),
{
    if starts.len() > 0 {
        let earlier = starts.drop_last();
        if n == starts.len() {
            lemma_leading_whole(flat, earlier, n - 1);
            assert(starts.take(n) =~= starts);
        } else {
            lemma_leading_whole(flat, earlier, n);
            assert(earlier.take(n) =~= starts.take(n));
        }
    } else {
        assert(starts.take(0) =~= seq![]);
    }
}

/// Appends the packets of `ranges` that lie before `before_packet`, each
/// packet once and in the order of the ranges. Stops with `None` at a packet
/// that is not whole.
#[verifier::loop_isolation(false)]
pub fn append_parameter_ranges(
    flat: &[u8],
    trimmed: &mut Vec<u8>,
    ranges: &[(usize, usize)],
    before_packet: usize,
) -> (done: Option<()>)
    ensures
        ({
            let starts = parameter_starts(ranges@, before_packet as int);
            let taken = leading_whole(flat@, starts);
            &&& final(trimmed)@ == old(trimmed)@ + packets_at(flat@, taken)
            &&& done is Some <==> taken.len() == starts.len()
        }),
{
    let ghost before = trimmed@;
    let ghost starts = parameter_starts(ranges@, before_packet as int);
    let mut added: HashSet<usize> = HashSet::new();
    let mut r: usize = 0;
    let ghost mut seen: Seq<int> = seq![];
    assert(ranges@.take(0) =~= seq![]);
    assert(packets_at(flat@, distinct(seen)) =~= seq![]);
    while r < ranges.len()
        invariant
            r <= ranges@.len(),
            seen == range_starts(ranges@.take(r as int), before_packet as int),
            forall|x: usize| added@.contains(x) <==> #[trigger] distinct(seen).contains(x as int),
            trimmed@ == before + packets_at(flat@, distinct(seen)),
            forall|i: int|
                0 <= i < distinct(seen).len() ==> #[trigger] distinct(seen)[i] + 188 <= flat@.len(),
        decreases ranges@.len() - r,
    {
        let (start, end) = ranges[r];
        let limit = if end < before_packet {
            end
        } else {
            before_packet
        };
        let ghost base = seen;
        let mut at = start;
        let ghost mut reached = start as int;
        assert(ranges@.take(r + 1).drop_last() =~= ranges@.take(r as int));
        assert(seen =~= base + packet_starts(start as int, reached));
        let mut done = at >= limit;
        while !done
            invariant
                done ==> reached >= limit && (reached == start || reached - 188 < limit),
                !done ==> at == reached && at < limit,
                reached >= start,
                (reached - start) % 188 == 0,
                reached == start || reached - 188 < limit,
                seen =~= base + packet_starts(start as int, reached),
                forall|x: usize|
                    added@.contains(x) <==> #[trigger] distinct(seen).contains(x as int),
                trimmed@ == before + packets_at(flat@, distinct(seen)),
                forall|i: int|
                    0 <= i < distinct(seen).len() ==> #[trigger] distinct(seen)[i] + 188
                        <= flat@.len(),
            decreases (if done { 0int } else { 1 + limit - at }),
        {
            let ghost next = seen.push(at as int);
            proof {
                lemma_packet_starts_extend(start as int, at as int, limit as int);
                assert(next =~= base + packet_starts(start as int, reached + 188));
                assert(next.drop_last() =~= seen);
            }
            if added.insert(at) {
                proof {
                    assert(!distinct(seen).contains(at as int));
                    assert(distinct(next) == distinct(seen).push(at as int));
                    assert(distinct(next).drop_last() =~= distinct(seen));
                    assert forall|x: usize|
                        added@.contains(x) <==> #[trigger] distinct(next).contains(x as int) by {
                        lemma_push_contains(distinct(seen), at as int, x as int);
                        assert(distinct(seen).contains(x as int) || x != at || added@.contains(x));
                    }
                }
                if at > flat.len() || flat.len() - at < TS_PACKET_SIZE {
                    proof {
                        lemma_packet_starts_split(start as int, reached + 188, limit as int);
                        let rest = lemma_range_starts_prefix(ranges@, r + 1, before_packet as int);
                        let tail = packet_starts(reached + 188, limit as int) + rest;
                        assert(range_starts(ranges@, before_packet as int) =~= next + tail);
                        lemma_distinct_extends(next, tail);
                        let n = distinct(seen).len() as int;
                        assert(starts.take(n + 1) == distinct(next));
                        assert(starts[n] == starts.take(n + 1)[n]);
                        assert forall|i: int| 0 <= i < n implies #[trigger] starts[i] + 188
                            <= flat@.len() by {
                            assert(starts[i] == starts.take(n + 1)[i]);
                            assert(distinct(seen)[i] == distinct(next)[i]);
                        }
                        lemma_leading_whole(flat@, starts, n);
                        assert(starts.take(n) =~= distinct(seen));
                    }
                    return None;
                }
                let ghost so_far = trimmed@;
                trimmed.extend_from_slice(slice_subrange(flat, at, at + TS_PACKET_SIZE));
                proof {
                    assert(trimmed@ =~= so_far + flat@.subrange(at as int, at + 188));
                    assert(trimmed@ =~= before + packets_at(flat@, distinct(next)));
                }
            } else {
                assert(distinct(next) == distinct(seen));
            }
            proof {
                seen = next;
                reached = reached + 188;
            }
            if limit - at > TS_PACKET_SIZE {
                at = at + TS_PACKET_SIZE;
            } else {
                done = true;
            }
        }
        proof {
            lemma_packet_starts_split(start as int, reached, limit as int);
            assert(seen =~= range_starts(ranges@.take(r + 1), before_packet as int));
        }
        r = r + 1;
    }
    proof {
        assert(ranges@.take(r as int) =~= ranges@);
        lemma_leading_whole(flat@, starts, starts.len() as int);
        assert(starts.take(starts.len() as int) =~= starts);
    }
    Some(())
}

/// The last program association packet up to the packet of byte `before`, and
/// the last program map packet that belongs to it.
pub open spec fn tables_before(flat: Seq<u8>, before: int) -> Seq<u8> {
    match latest_pat(flat, before) {
        None => seq![],
        Some(pat) => flat.subrange(pat, pat + 188) + match latest_pmt(flat, before, pat) {
            None => seq![],
            Some(pmt) => flat.subrange(pmt, pmt + 188),
        },
    }
}

/// `flat` from the prelude of its `n`-th keyframe on, behind the tables and the
/// packets of the parameter sets that are in force there.
pub open spec fn from_keyframe(flat: Seq<u8>, n: int) -> Option<Seq<u8>> {
    match keyframe::keyframe_span(flat, n) {
        None => None,
        Some(span) => Some(
            tables_before(flat, whole(span.keyframe)) + packets_at(
                flat,
                parameter_starts(span.ranges, whole(span.prelude)),
            ) + flat.skip(whole(span.prelude)),
        ),
    }
}

/// `flat` from the payload unit of the announced video on that holds its
/// `n`-th keyframe, behind the tables.
pub open spec fn from_keyframe_unit(flat: Seq<u8>, n: int) -> Option<Seq<u8>> {
    match keyframe::keyframe_span(flat, n) {
        None => None,
        Some(span) => match span.video_pid {
            None => None,
            Some(pid) => match latest_pes_start(flat, whole(span.keyframe), pid) {
                None => None,
                Some(start) => Some(
                    tables_before(flat, whole(span.keyframe)) + flat.skip(start),
                ),
            },
        },
    }
}

/// Whether `chunks` is nothing, or one chunk with the expected bytes.
pub open spec fn single_chunk(chunks: Option<Seq<Vec<u8>>>, expected: Option<Seq<u8>>) -> bool {
    match (chunks, expected) {
        (Some(chunks), Some(bytes)) => bytes_of(chunks) == seq![bytes],
        (None, None) => true,
        _ => false,
    }
}

/// The contents of a queue that may be missing.
pub open spec fn contents(pending: Option<VecDeque<Vec<u8>>>) -> Option<Seq<Vec<u8>>> {
    match pending {
        Some(pending) => Some(pending@),
        None => None,
    }
}

pub proof fn lemma_parameter_starts(ranges: Seq<(usize, usize)>, before: int)
    requires
        before % 188 == 0,
        forall|i: int| 0 <= i < ranges.len() ==> (#[trigger] ranges[i]).0 % 188 == 0,
    ensures
        forall|i: int|
            0 <= i < parameter_starts(ranges, before).len() ==> #[trigger] parameter_starts(
                ranges,
                before,
            )[i] + 188 <= before,
{
    lemma_range_starts_bound(ranges, before);
    lemma_distinct_bound(range_starts(ranges, before), before);
}

proof fn lemma_packet_starts_bound(start: int, end: int, before: int)
    requires
        start % 188 == 0,
        end <= before,
        before % 188 == 0,
    ensures
        forall|i: int|
            0 <= i < packet_starts(start, end).len() ==> #[trigger] packet_starts(start, end)[i]
                + 188 <= before,
    decreases (if start < end { end - start } else { 0 }),
{
    if start < end {
        lemma_packet_starts_bound(start + 188, end, before);
        let rest = packet_starts(start + 188, end);
        assert forall|i: int| 0 <= i < packet_starts(start, end).len() implies
            #[trigger] packet_starts(start, end)[i] + 188 <= before by {
            if i > 0 {
                assert(packet_starts(start, end)[i] == rest[i - 1]);
            }
        }
    } else {
        assert(packet_starts(start, end).len() == 0);
    }
}

proof fn lemma_range_starts_bound(ranges: Seq<(usize, usize)>, before: int)
    requires
        before % 188 == 0,
        forall|i: int| 0 <= i < ranges.len() ==> (#[trigger] ranges[i]).0 % 188 == 0,
    ensures
        forall|i: int|
            0 <= i < range_starts(ranges, before).len() ==> #[trigger] range_starts(
                ranges,
                before,
            )[i] + 188 <= before,
    decreases ranges.len(),
{
    if ranges.len() > 0 {
        lemma_range_starts_bound(ranges.drop_last(), before);
        let last = ranges.last();
        assert(ranges[ranges.len() - 1].0 % 188 == 0);
        let end = if last.1 < before {
            last.1 as int
        } else {
            before
        };
        lemma_packet_starts_bound(last.0 as int, end, before);
        let earlier = range_starts(ranges.drop_last(), before);
        let here = packet_starts(last.0 as int, end);
        assert forall|i: int| 0 <= i < range_starts(ranges, before).len() implies
            #[trigger] range_starts(ranges, before)[i] + 188 <= before by {
            if i < earlier.len() {
                assert(range_starts(ranges, before)[i] == earlier[i]);
            } else {
                assert(range_starts(ranges, before)[i] == here[i - earlier.len()]);
            }
        }
    } else {
        assert(range_starts(ranges, before).len() == 0);
    }
}

proof fn lemma_distinct_bound(starts: Seq<int>, before: int)
    requires
        forall|i: int| 0 <= i < starts.len() ==> #[trigger] starts[i] + 188 <= before,
    ensures
        forall|i: int|
            0 <= i < distinct(starts).len() ==> #[trigger] distinct(starts)[i] + 188 <= before,
    decreases starts.len(),
{
    if starts.len() > 0 {
        lemma_distinct_bound(starts.drop_last(), before);
        assert(starts[starts.len() - 1] + 188 <= before);
        let earlier = distinct(starts.drop_last());
        assert forall|i: int| 0 <= i < distinct(starts).len() implies
            #[trigger] distinct(starts)[i] + 188 <= before by {
            if i < earlier.len() {
                assert(distinct(starts)[i] == earlier[i]);
            }
        }
    } else {
        assert(distinct(starts).len() == 0);
    }
}

/// Appends the tables that are in force at byte `before`.
fn append_tables(flat: &[u8], trimmed: &mut Vec<u8>, before: usize)
    ensures
        final(trimmed)@ == old(trimmed)@ + tables_before(flat@, before as int),
{
    let ghost start = trimmed@;
    if let Some(pat) = latest_pat_before(flat, before) {
        proof {
            lemma_latest_packet(
                flat@,
                |packet: Seq<u8>| mpegts::pid_of(packet) == Some(0u16),
                before as int / 188,
            );
            assert(flat@.len() == flat.len());
        }
        trimmed.extend_from_slice(slice_subrange(flat, pat, pat + TS_PACKET_SIZE));
        assert(trimmed@ =~= start + flat@.subrange(pat as int, pat + 188));
        if let Some(pmt) = latest_pmt_before(flat, before, pat) {
            proof {
                let pmt_pid = mpegts::pmt_pid_of(flat@.subrange(pat as int, pat + 188))->0;
                lemma_latest_packet(
                    flat@,
                    |packet: Seq<u8>| mpegts::section_of(packet, pmt_pid, 0x02) is Some,
                    before as int / 188,
                );
            }
            trimmed.extend_from_slice(slice_subrange(flat, pmt, pmt + TS_PACKET_SIZE));
        }
    }
    assert(trimmed@ =~= start + tables_before(flat@, before as int));
}

/// Cuts what waits down to its keyframe with number `keyframe_count`, keeping
/// the tables and parameter sets that the keyframe needs.
pub fn trim_pending_to_nth_video_keyframe(
    pending: VecDeque<Vec<u8>>,
    keyframe_count: usize,
) -> (trimmed: Option<VecDeque<Vec<u8>>>)
    ensures
        single_chunk(
            contents(trimmed),
            from_keyframe(joined(bytes_of(pending@)), keyframe_count as int),
        ),
{
    let flat = flatten_pending(&pending);
    let span = match find_nth_video_keyframe_span(&flat, keyframe_count) {
        Some(span) => span,
        None => return None,
    };
    let keyframe_packet = span.keyframe_offset / TS_PACKET_SIZE * TS_PACKET_SIZE;
    let prelude_packet = span.prelude_offset / TS_PACKET_SIZE * TS_PACKET_SIZE;
    proof {
        assert(flat@.len() == flat.len());
        keyframe::law_keyframe_span_inside(flat@, keyframe_count as int);
        let starts = parameter_starts(span.parameter_ranges@, prelude_packet as int);
        lemma_parameter_starts(span.parameter_ranges@, prelude_packet as int);
        lemma_leading_whole(flat@, starts, starts.len() as int);
        assert(starts.take(starts.len() as int) =~= starts);
    }
    let mut trimmed: Vec<u8> = Vec::new();
    append_tables(&flat, &mut trimmed, keyframe_packet);
    append_parameter_ranges(&flat, &mut trimmed, &span.parameter_ranges, prelude_packet);
    let ghost head = trimmed@;
    trimmed.extend_from_slice(slice_subrange(flat.as_slice(), prelude_packet, flat.len()));
    proof {
        assert(trimmed@ =~= head + flat@.skip(prelude_packet as int));
        assert(trimmed@ =~= from_keyframe(flat@, keyframe_count as int)->0);
    }
    Some(one_chunk(trimmed))
}

/// Cuts what waits down to the payload unit that holds its keyframe with
/// number `keyframe_count`, keeping the tables in force.
pub fn trim_pending_to_nth_video_keyframe_pes(
    pending: VecDeque<Vec<u8>>,
    keyframe_count: usize,
) -> (trimmed: Option<VecDeque<Vec<u8>>>)
    ensures
        single_chunk(
            contents(trimmed),
            from_keyframe_unit(joined(bytes_of(pending@)), keyframe_count as int),
        ),
{
    let flat = flatten_pending(&pending);
    let span = match find_nth_video_keyframe_span(&flat, keyframe_count) {
        Some(span) => span,
        None => return None,
    };
    let keyframe_packet = span.keyframe_offset / TS_PACKET_SIZE * TS_PACKET_SIZE;
    let video_pid = match span.video_pid {
        Some(pid) => pid,
        None => return None,
    };
    let pes_start = match latest_pes_start_before(&flat, keyframe_packet, video_pid) {
        Some(start) => start,
        None => return None,
    };
    proof {
        assert(flat@.len() == flat.len());
        lemma_latest_packet(
            flat@,
            |packet: Seq<u8>| mpegts::pid_of(packet) == Some(video_pid) && mpegts::starts_unit(packet),
            keyframe_packet as int / 188,
        );
    }
    let mut trimmed: Vec<u8> = Vec::new();
    append_tables(&flat, &mut trimmed, keyframe_packet);
    let ghost head = trimmed@;
    trimmed.extend_from_slice(slice_subrange(flat.as_slice(), pes_start, flat.len()));
    proof {
        assert(trimmed@ =~= head + flat@.skip(pes_start as int));
        assert(trimmed@ =~= from_keyframe_unit(flat@, keyframe_count as int)->0);
    }
    Some(one_chunk(trimmed))
}

/// A queue with one chunk.
fn one_chunk(chunk: Vec<u8>) -> (queue: VecDeque<Vec<u8>>)
    ensures
        bytes_of(queue@) == seq![chunk@],
{
    let mut queue: VecDeque<Vec<u8>> = VecDeque::new();
    queue.push_back(chunk);
    assert(bytes_of(queue@) =~= seq![chunk@]);
    queue
}

/// Whether what waits holds at least `count` keyframes.
pub fn pending_has_video_keyframes(pending: &VecDeque<Vec<u8>>, count: usize) -> (yes: bool)
    ensures
        yes == (keyframe::keyframe_span(joined(bytes_of(pending@)), count as int) is Some),
{
    find_nth_video_keyframe_span(&flatten_pending(pending), count).is_some()
}

/// Whether what waits holds a keyframe.
pub fn pending_has_video_keyframe(pending: &VecDeque<Vec<u8>>) -> (yes: bool)
    ensures
        yes == (keyframe::keyframe_span(joined(bytes_of(pending@)), 1) is Some),
{
    pending_has_video_keyframes(pending, 1)
}

/// Cuts what waits down to its first keyframe.
pub fn trim_pending_to_video_keyframe(pending: VecDeque<Vec<u8>>) -> (trimmed: Option<
    VecDeque<Vec<u8>>,
>)
    ensures
        single_chunk(contents(trimmed), from_keyframe(joined(bytes_of(pending@)), 1)),
{
    trim_pending_to_nth_video_keyframe(pending, 1)
}

// ---------------------------------------------------------------------------
// Cleaning and marking
// ---------------------------------------------------------------------------

/// Whether packet `k` stays: it carries a stream outside `pids`, or a unit of
/// its stream has started by then.
pub open spec fn is_kept(data: Seq<u8>, pids: Set<u16>, k: int) -> bool {
    match mpegts::pid_of(mpegts::packet_at(data, k)) {
        None => false,
        Some(pid) => !pids.contains(pid) || unit_started(data, pid, k + 1),
    }
}

/// Whether one of the first `k` packets starts a unit of stream `pid`.
pub open spec fn unit_started(data: Seq<u8>, pid: u16, k: int) -> bool {
    exists|j: int|
        0 <= j < k && mpegts::pid_of(#[trigger] mpegts::packet_at(data, j)) == Some(pid)
            && mpegts::starts_unit(mpegts::packet_at(data, j))
}

/// Those of the first `k` packets that stay.
pub open spec fn kept_upto(data: Seq<u8>, pids: Set<u16>, k: int) -> Seq<u8>
    decreases k,
{
    if k <= 0 {
        seq![]
    } else if is_kept(data, pids, k - 1) {
        kept_upto(data, pids, k - 1) + mpegts::packet_at(data, k - 1)
    } else {
        kept_upto(data, pids, k - 1)
    }
}

/// The announced elementary streams other than the video.
pub open spec fn other_streams(flat: Seq<u8>, video: u16) -> Set<u16> {
    mpegts::elementary_in(flat).remove(video)
}

/// The chunks without what continues a unit of sound or data that started
/// before them. Without an announced video, or with no other stream beside
/// it, they stay as they are.
pub open spec fn cleaned(chunks: Seq<Seq<u8>>) -> Seq<Seq<u8>> {
    let flat = joined(chunks);
    match mpegts::video_in(flat) {
        None => chunks,
        Some(video) => if other_streams(flat, video.pid).is_empty() {
            chunks
        } else {
            seq![kept_upto(flat, other_streams(flat, video.pid), mpegts::packet_count(flat))]
        },
    }
}

/// Drops what continues units of sound or data that started before the first
/// packet.
pub fn drop_initial_non_video_elementary_continuations(pending: VecDeque<Vec<u8>>) -> (res: VecDeque<
    Vec<u8>,
>)
    ensures
        bytes_of(res@) == cleaned(bytes_of(pending@)),
{
    let flat = flatten_pending(&pending);
    let video = match video_stream(&flat) {
        Some(video) => video,
        None => return pending,
    };
    let mut pids = elementary_pids(&flat);
    pids.remove(&video.pid);
    assert(pids@ =~= other_streams(flat@, video.pid));
    if pids.is_empty() {
        return pending;
    }
    let mut started: HashSet<u16> = HashSet::new();
    let mut kept: Vec<u8> = Vec::new();
    let count = flat.len() / TS_PACKET_SIZE;
    let mut k: usize = 0;
    while k < count
        invariant
            k <= count == mpegts::packet_count(flat@),
            pids@ == other_streams(flat@, video.pid),
            kept@ == kept_upto(flat@, pids@, k as int),
            forall|pid: u16|
                pids@.contains(pid) ==> (#[trigger] started@.contains(pid) <==> unit_started(
                    flat@,
                    pid,
                    k as int,
                )),
        decreases count - k,
    {
        let packet = packet_slice(&flat, k);
        let ghost kept_before = kept@;
        let ghost started_before = started@;
        let found = ts_pid(packet);
        let fresh = packet[1] / 64 % 2 == 1;
        proof {
            assert forall|pid: u16| #[trigger] unit_started(flat@, pid, k + 1) <==> unit_started(
                flat@,
                pid,
                k as int,
            ) || (found == Some(pid) && fresh) by {
                assert(packet@ == mpegts::packet_at(flat@, k as int));
            }
        }
        if let Some(pid) = found {
            if !pids.contains(&pid) {
                kept.extend_from_slice(packet);
                assert(kept@ =~= kept_before + packet@);
            } else if started.contains(&pid) || fresh {
                if fresh {
                    started.insert(pid);
                }
                kept.extend_from_slice(packet);
                assert(kept@ =~= kept_before + packet@);
            }
        }
        proof {
            assert forall|pid: u16| pids@.contains(pid) implies (#[trigger] started@.contains(pid)
                <==> unit_started(flat@, pid, k + 1)) by {
                assert(started_before.contains(pid) <==> unit_started(flat@, pid, k as int));
            }
        }
        k = k + 1;
    }
    one_chunk(kept)
}

/// `byte` with its highest bit set.
pub open spec fn with_high_bit(byte: u8) -> u8 {
    if byte < 128 {
        (byte + 128) as u8
    } else {
        byte
    }
}

/// Whether a packet has an adaptation field with flags in it.
pub open spec fn has_flags(packet: Seq<u8>) -> bool {
    &&& packet.len() >= TS_PACKET_SIZE
    &&& packet[0] == 0x47
    &&& mpegts::adaptation_control(packet) >= 2
    &&& packet[4] >= 1
}

/// A packet with its discontinuity flag set, where it has flags.
pub open spec fn flagged(packet: Seq<u8>) -> Seq<u8> {
    if has_flags(packet) {
        packet.update(5, with_high_bit(packet[5]))
    } else {
        packet
    }
}

/// Sets the discontinuity flag of a packet, where it has flags; tells whether
/// it has.
pub fn set_discontinuity_indicator(packet: &mut [u8]) -> (done: bool)
    ensures
        final(packet)@ == flagged(old(packet)@),
        done == has_flags(old(packet)@),
{
    if packet.len() < TS_PACKET_SIZE || packet[0] != 0x47 {
        return false;
    }
    let control = packet[3] / 16 % 4;
    if control < 2 || packet[4] < 1 {
        return false;
    }
    if packet[5] < 128 {
        packet[5] = packet[5] + 128;
    } else {
        assert(packet@.update(5, packet@[5]) =~= packet@);
    }
    true
}

/// A packet without payload that announces a discontinuity of stream `pid`.
pub open spec fn discontinuity_of(pid: u16, counter: u8) -> Seq<u8> {
    seq![
        0x47u8,
        (pid as int / 256 % 32) as u8,
        (pid as int % 256) as u8,
        (0x20 + counter as int % 16) as u8,
        183u8,
        0x80u8,
    ] + Seq::new(182, |i: int| 0xffu8)
}

/// A packet without payload that announces a discontinuity of stream `pid`.
pub fn discontinuity_packet(pid: u16, continuity_counter: u8) -> (packet: [u8; 188])
    ensures
        packet@ == discontinuity_of(pid, continuity_counter),
{
    let mut packet: [u8; 188] = [0xff;188];
    packet[0] = 0x47;
    packet[1] = (pid / 256 % 32) as u8;
    packet[2] = (pid % 256) as u8;
    packet[3] = 0x20 + continuity_counter % 16;
    packet[4] = 183;
    packet[5] = 0x80;
    assert(packet@ =~= discontinuity_of(pid, continuity_counter));
    packet
}

/// Whether a packet before packet `k` of chunk `i` carries stream `pid`.
pub open spec fn seen_before(chunks: Seq<Seq<u8>>, i: int, k: int, pid: u16) -> bool {
    exists|a: int, b: int|
        0 <= a < chunks.len() && 0 <= b < mpegts::packet_count(chunks[a]) && (a < i || (a == i && b
            < k)) && mpegts::pid_of(#[trigger] mpegts::packet_at(chunks[a], b)) == Some(pid)
}

/// Whether packet `k` of chunk `i` is the first of its stream.
pub open spec fn is_first(chunks: Seq<Seq<u8>>, i: int, k: int) -> bool {
    match mpegts::pid_of(mpegts::packet_at(chunks[i], k)) {
        None => false,
        Some(pid) => !seen_before(chunks, i, k, pid),
    }
}

/// The first `k` packets of chunk `i` with the first packet of each stream
/// flagged.
pub open spec fn marked_upto(chunks: Seq<Seq<u8>>, i: int, k: int) -> Seq<u8>
    decreases k,
{
    if k <= 0 {
        seq![]
    } else {
        marked_upto(chunks, i, k - 1) + if is_first(chunks, i, k - 1) {
            flagged(mpegts::packet_at(chunks[i], k - 1))
        } else {
            mpegts::packet_at(chunks[i], k - 1)
        }
    }
}

/// Chunk `i` with the first packet of each stream flagged; what is behind its
/// whole packets stays.
pub open spec fn marked_chunk(chunks: Seq<Seq<u8>>, i: int) -> Seq<u8> {
    marked_upto(chunks, i, mpegts::packet_count(chunks[i])) + chunks[i].skip(
        whole(chunks[i].len() as int),
    )
}

/// The chunks with the first packet of each stream flagged as discontinuous.
pub open spec fn marked(chunks: Seq<Seq<u8>>) -> Seq<Seq<u8>> {
    Seq::new(chunks.len(), |i: int| marked_chunk(chunks, i))
}

proof fn lemma_seen_step(chunks: Seq<Seq<u8>>, i: int, k: int)
    requires
        0 <= i < chunks.len(),
        0 <= k < mpegts::packet_count(chunks[i]),
    ensures
        forall|pid: u16| #[trigger]
            seen_before(chunks, i, k + 1, pid) <==> seen_before(chunks, i, k, pid) || mpegts::pid_of(
                mpegts::packet_at(chunks[i], k),
            ) == Some(pid),
{
    assert forall|pid: u16| #[trigger]
        seen_before(chunks, i, k + 1, pid) <==> seen_before(chunks, i, k, pid) || mpegts::pid_of(
            mpegts::packet_at(chunks[i], k),
        ) == Some(pid) by {
        if seen_before(chunks, i, k + 1, pid) {
            let (a, b) = choose|a: int, b: int|
                0 <= a < chunks.len() && 0 <= b < mpegts::packet_count(chunks[a]) && (a < i || (a
                    == i && b < k + 1)) && mpegts::pid_of(
                    #[trigger] mpegts::packet_at(chunks[a], b),
                ) == Some(pid);
            assert(a == i && b == k || seen_before(chunks, i, k, pid));
        }
        if seen_before(chunks, i, k, pid) {
            let (a, b) = choose|a: int, b: int|
                0 <= a < chunks.len() && 0 <= b < mpegts::packet_count(chunks[a]) && (a < i || (a
                    == i && b < k)) && mpegts::pid_of(#[trigger] mpegts::packet_at(chunks[a], b))
                    == Some(pid);
            assert(mpegts::pid_of(mpegts::packet_at(chunks[a], b)) == Some(pid));
        }
    }
}

proof fn lemma_seen_next_chunk(chunks: Seq<Seq<u8>>, i: int)
    requires
        0 <= i < chunks.len(),
    ensures
        forall|pid: u16| #[trigger]
            seen_before(chunks, i + 1, 0, pid) <==> seen_before(
                chunks,
                i,
                mpegts::packet_count(chunks[i]),
                pid,
            ),
{
    assert forall|pid: u16| #[trigger]
        seen_before(chunks, i + 1, 0, pid) <==> seen_before(
            chunks,
            i,
            mpegts::packet_count(chunks[i]),
            pid,
        ) by {
        if seen_before(chunks, i + 1, 0, pid) {
            let (a, b) = choose|a: int, b: int|
                0 <= a < chunks.len() && 0 <= b < mpegts::packet_count(chunks[a]) && (a < i + 1 || (
                a == i + 1 && b < 0)) && mpegts::pid_of(#[trigger] mpegts::packet_at(chunks[a], b))
                    == Some(pid);
            assert(mpegts::pid_of(mpegts::packet_at(chunks[a], b)) == Some(pid));
        }
    }
}

/// Flags the first packet of each stream in one chunk.
fn mark_chunk(
    chunk: &mut Vec<u8>,
    seen_pids: &mut HashSet<u16>,
    Ghost(chunks): Ghost<Seq<Seq<u8>>>,
    Ghost(i): Ghost<int>,
)
    requires
        0 <= i < chunks.len(),
        old(chunk)@ == chunks[i],
        forall|pid: u16|
            #[trigger] old(seen_pids)@.contains(pid) <==> seen_before(chunks, i, 0, pid),
    ensures
        final(chunk)@ == marked_chunk(chunks, i),
        forall|pid: u16|
            #[trigger] final(seen_pids)@.contains(pid) <==> seen_before(chunks, i + 1, 0, pid),
{
    let count = chunk.len() / TS_PACKET_SIZE;
    let mut k: usize = 0;
    assert(chunk@ =~= marked_upto(chunks, i, 0) + chunks[i].skip(0));
    while k < count
        invariant
            0 <= i < chunks.len(),
            k <= count == mpegts::packet_count(chunks[i]),
            chunk@.len() == chunks[i].len(),
            marked_upto(chunks, i, k as int).len() == k * 188,
            chunk@ == marked_upto(chunks, i, k as int) + chunks[i].skip(k * 188),
            forall|pid: u16|
                #[trigger] seen_pids@.contains(pid) <==> seen_before(chunks, i, k as int, pid),
        decreases count - k,
    {
        proof {
            mpegts::lemma_packet_bounds(chunks[i], k as int);
            lemma_seen_step(chunks, i, k as int);
            assert(chunk@.len() == chunk.len());
        }
        let ghost before = chunk@;
        let ghost packet = mpegts::packet_at(chunks[i], k as int);
        assert(before.subrange(k * 188, k * 188 + 188) =~= packet);
        let found = ts_pid(slice_subrange(chunk.as_slice(), k * 188, k * 188 + 188));
        if let Some(pid) = found {
            if seen_pids.insert(pid) {
                let (_, rest) = chunk.as_mut_slice().split_at_mut(k * 188);
                let (first, _) = rest.split_at_mut(188);
                set_discontinuity_indicator(first);
            }
        }
        proof {
            let now = if is_first(chunks, i, k as int) {
                flagged(packet)
            } else {
                packet
            };
            assert(now.len() == 188);
            assert(chunk@ =~= before.subrange(0, k * 188) + now + before.skip(k * 188 + 188));
            assert(chunk@ =~= marked_upto(chunks, i, k + 1) + chunks[i].skip((k + 1) * 188));
        }
        k = k + 1;
    }
    proof {
        lemma_seen_next_chunk(chunks, i);
    }
}

/// Flags the first packet of each stream as discontinuous, where the packet
/// has room for it.
pub fn mark_initial_discontinuity(pending: &mut VecDeque<Vec<u8>>)
    ensures
        bytes_of(final(pending)@) == marked(bytes_of(old(pending)@)),
{
    let ghost chunks = bytes_of(pending@);
    let ghost start = pending@;
    let mut seen_pids: HashSet<u16> = HashSet::new();
    let count = pending.len();
    let mut i: usize = 0;
    assert(start.skip(0) =~= start);
    while i < count
        invariant
            i <= count == chunks.len(),
            start.len() == count,
            chunks == bytes_of(start),
            pending@.len() == count,
            forall|j: int|
                0 <= j < count - i ==> #[trigger] pending@[j] == start[i + j],
            forall|j: int|
                0 <= j < i ==> (#[trigger] pending@[count - i + j])@ == marked_chunk(chunks, j),
            forall|pid: u16|
                #[trigger] seen_pids@.contains(pid) <==> seen_before(chunks, i as int, 0, pid),
        decreases count - i,
    {
        let ghost before = pending@;
        if let Some(mut chunk) = pending.pop_front() {
            assert(chunk == before[0] && before[0] == start[i as int]);
            mark_chunk(&mut chunk, &mut seen_pids, Ghost(chunks), Ghost(i as int));
            pending.push_back(chunk);
            proof {
                assert forall|j: int| 0 <= j < count - (i + 1) implies #[trigger] pending@[j]
                    == start[i + 1 + j] by {
                    assert(pending@[j] == before[j + 1]);
                }
                assert forall|j: int| 0 <= j < i + 1 implies (#[trigger] pending@[count - (i + 1)
                    + j])@ == marked_chunk(chunks, j) by {
                    if j < i {
                        assert(pending@[count - (i + 1) + j] == before[count - i + j]);
                    }
                }
            }
        }
        i = i + 1;
    }
    proof {
        assert forall|j: int| 0 <= j < count implies (#[trigger] bytes_of(pending@)[j]) == marked(
            chunks,
        )[j] by {
            assert(pending@[count - i + j]@ == marked_chunk(chunks, j));
        }
        assert(bytes_of(pending@) =~= marked(chunks));
    }
}

/// One discontinuity packet for each stream that starts among the first `k`
/// packets of chunk `i`, with the counter of the stream's first packet.
pub open spec fn announced_upto(chunks: Seq<Seq<u8>>, i: int, k: int) -> Seq<u8>
    decreases k,
{
    if k <= 0 {
        seq![]
    } else {
        let packet = mpegts::packet_at(chunks[i], k - 1);
        announced_upto(chunks, i, k - 1) + if is_first(chunks, i, k - 1) {
            discontinuity_of(mpegts::pid_of(packet)->0, packet[3])
        } else {
            seq![]
        }
    }
}

/// One discontinuity packet for each stream of the first `i` chunks.
pub open spec fn announced(chunks: Seq<Seq<u8>>, i: int) -> Seq<u8>
    decreases i,
{
    if i <= 0 {
        seq![]
    } else {
        announced(chunks, i - 1) + announced_upto(
            chunks,
            i - 1,
            mpegts::packet_count(chunks[i - 1]),
        )
    }
}

/// The chunks behind a chunk with one discontinuity packet for each of their
/// streams; without any stream they stay as they are.
pub open spec fn with_announcements(chunks: Seq<Seq<u8>>) -> Seq<Seq<u8>> {
    let prefix = announced(chunks, chunks.len() as int);
    if prefix.len() == 0 {
        chunks
    } else {
        seq![prefix] + chunks
    }
}

/// Puts a chunk in front that announces a discontinuity of each stream.
pub fn prepend_discontinuity_packets(pending: &mut VecDeque<Vec<u8>>)
    ensures
        bytes_of(final(pending)@) == with_announcements(bytes_of(old(pending)@)),
{
    let ghost chunks = bytes_of(pending@);
    let mut seen_pids: HashSet<u16> = HashSet::new();
    let mut prefix: Vec<u8> = Vec::new();
    let mut i: usize = 0;
    while i < pending.len()
        invariant
            chunks == bytes_of(pending@),
            i <= pending@.len(),
            prefix@ == announced(chunks, i as int),
            forall|pid: u16|
                #[trigger] seen_pids@.contains(pid) <==> seen_before(chunks, i as int, 0, pid),
        decreases pending@.len() - i,
    {
        let chunk = &pending[i];
        let count = chunk.len() / TS_PACKET_SIZE;
        let mut k: usize = 0;
        assert(prefix@ =~= announced(chunks, i as int) + announced_upto(chunks, i as int, 0));
        while k < count
            invariant
                0 <= i < chunks.len(),
                chunk@ == chunks[i as int],
                k <= count == mpegts::packet_count(chunks[i as int]),
                prefix@ == announced(chunks, i as int) + announced_upto(
                    chunks,
                    i as int,
                    k as int,
                ),
                forall|pid: u16|
                    #[trigger] seen_pids@.contains(pid) <==> seen_before(
                        chunks,
                        i as int,
                        k as int,
                        pid,
                    ),
            decreases count - k,
        {
            proof {
                lemma_seen_step(chunks, i as int, k as int);
            }
            let ghost before = prefix@;
            let packet = packet_slice(chunk.as_slice(), k);
            if let Some(pid) = ts_pid(packet) {
                if seen_pids.insert(pid) {
                    let announcement = discontinuity_packet(pid, packet[3]);
                    prefix.extend_from_slice(array_as_slice(&announcement));
                    assert(prefix@ =~= before + discontinuity_of(pid, packet@[3]));
                }
            }
            assert(prefix@ =~= announced(chunks, i as int) + announced_upto(
                chunks,
                i as int,
                k + 1,
            ));
            k = k + 1;
        }
        proof {
            lemma_seen_next_chunk(chunks, i as int);
        }
        i = i + 1;
    }
    if prefix.len() > 0 {
        pending.push_front(prefix);
        assert(bytes_of(pending@) =~= seq![prefix@] + chunks);
    }
}

/// Announcing goes by the streams alone: flagging packets first changes
/// neither which streams there are nor what is put in front for them.
pub proof fn law_marking_keeps_announcements(chunks: Seq<Seq<u8>>, i: int)
    requires
        0 <= i <= chunks.len(),
    ensures
        announced(marked(chunks), i) == announced(chunks, i),
    decreases i,
{
    if i > 0 {
        law_marking_keeps_announcements(chunks, i - 1);
        let count = mpegts::packet_count(chunks[i - 1]);
        lemma_marked_len(chunks, i - 1, count);
        lemma_marking_keeps_chunk(chunks, i - 1, count);
    }
}

pub proof fn lemma_marked_len(chunks: Seq<Seq<u8>>, i: int, k: int)
    requires
        0 <= i < chunks.len(),
        0 <= k <= mpegts::packet_count(chunks[i]),
    ensures
        marked_upto(chunks, i, k).len() == k * 188,
        k == mpegts::packet_count(chunks[i]) ==> marked_chunk(chunks, i).len() == chunks[i].len(),
        forall|b: int|
            0 <= b < k ==> #[trigger] mpegts::packet_at(marked_upto(chunks, i, k), b) == if is_first(
                chunks,
                i,
                b,
            ) {
                flagged(mpegts::packet_at(chunks[i], b))
            } else {
                mpegts::packet_at(chunks[i], b)
            },
    decreases k,
{
    if k > 0 {
        lemma_marked_len(chunks, i, k - 1);
        mpegts::lemma_packet_bounds(chunks[i], k - 1);
        let before = marked_upto(chunks, i, k - 1);
        let all = marked_upto(chunks, i, k);
        let packet = mpegts::packet_at(chunks[i], k - 1);
        assert(flagged(packet).len() == 188);
        assert forall|b: int| 0 <= b < k implies #[trigger] mpegts::packet_at(all, b) == if is_first(
            chunks,
            i,
            b,
        ) {
            flagged(mpegts::packet_at(chunks[i], b))
        } else {
            mpegts::packet_at(chunks[i], b)
        } by {
            if b < k - 1 {
                assert(mpegts::packet_at(all, b) =~= mpegts::packet_at(before, b));
            } else {
                assert(mpegts::packet_at(all, b) =~= if is_first(chunks, i, b) {
                    flagged(packet)
                } else {
                    packet
                });
            }
        }
    }
}

/// Flagging keeps the identifier and the counter of every packet.
proof fn lemma_marked_packet(chunks: Seq<Seq<u8>>, i: int, b: int)
    requires
        0 <= i < chunks.len(),
        0 <= b < mpegts::packet_count(chunks[i]),
    ensures
        mpegts::packet_count(marked(chunks)[i]) == mpegts::packet_count(chunks[i]),
        mpegts::pid_of(mpegts::packet_at(marked(chunks)[i], b)) == mpegts::pid_of(
            mpegts::packet_at(chunks[i], b),
        ),
        mpegts::packet_at(marked(chunks)[i], b)[3] == mpegts::packet_at(chunks[i], b)[3],
{
    let count = mpegts::packet_count(chunks[i]);
    lemma_marked_len(chunks, i, count);
    mpegts::lemma_packet_bounds(chunks[i], b);
    assert(mpegts::packet_at(marked(chunks)[i], b) =~= mpegts::packet_at(
        marked_upto(chunks, i, count),
        b,
    ));
}

proof fn lemma_marking_keeps_seen(chunks: Seq<Seq<u8>>, i: int, k: int, pid: u16)
    requires
        0 <= i < chunks.len(),
    ensures
        seen_before(marked(chunks), i, k, pid) == seen_before(chunks, i, k, pid),
{
    let after = marked(chunks);
    if seen_before(chunks, i, k, pid) {
        let (a, b) = choose|a: int, b: int|
            0 <= a < chunks.len() && 0 <= b < mpegts::packet_count(chunks[a]) && (a < i || (a == i
                && b < k)) && mpegts::pid_of(#[trigger] mpegts::packet_at(chunks[a], b)) == Some(
                pid,
            );
        lemma_marked_packet(chunks, a, b);
        assert(mpegts::pid_of(mpegts::packet_at(after[a], b)) == Some(pid));
    }
    if seen_before(after, i, k, pid) {
        let (a, b) = choose|a: int, b: int|
            0 <= a < after.len() && 0 <= b < mpegts::packet_count(after[a]) && (a < i || (a == i
                && b < k)) && mpegts::pid_of(#[trigger] mpegts::packet_at(after[a], b)) == Some(pid);
        lemma_marked_len(chunks, a, mpegts::packet_count(chunks[a]));
        lemma_marked_packet(chunks, a, b);
        assert(mpegts::pid_of(mpegts::packet_at(chunks[a], b)) == Some(pid));
    }
}

proof fn lemma_marking_keeps_chunk(chunks: Seq<Seq<u8>>, i: int, k: int)
    requires
        0 <= i < chunks.len(),
        0 <= k <= mpegts::packet_count(chunks[i]),
    ensures
        announced_upto(marked(chunks), i, k) == announced_upto(chunks, i, k),
    decreases k,
{
    if k > 0 {
        lemma_marking_keeps_chunk(chunks, i, k - 1);
        lemma_marked_packet(chunks, i, k - 1);
        if let Some(pid) = mpegts::pid_of(mpegts::packet_at(chunks[i], k - 1)) {
            lemma_marking_keeps_seen(chunks, i, k - 1, pid);
        }
    }
}

} // verus!
