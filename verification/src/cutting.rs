//! What a stream is cut down to before it takes over, packet by packet: the
//! tables and parameter sets in force, everything from the keyframe on, without
//! parts of units, and marked as a discontinuity.

use crate::keyframe;
use crate::mpegts;
use crate::preroll;
use crate::tables;
use vstd::prelude::*;

verus! {

/// The packet of the data with number `k`.
pub open spec fn packet(data: Seq<u8>, k: int) -> Seq<u8> {
    data.subrange(188 * k, 188 * k + 188)
}

/// Whether data holds packet `k` whole.
pub open spec fn holds_packet(data: Seq<u8>, k: int) -> bool {
    0 <= k && 188 * k + 188 <= data.len()
}

// ---------------------------------------------------------------------------
// Tables
// ---------------------------------------------------------------------------

proof fn lemma_latest(data: Seq<u8>, holds: spec_fn(Seq<u8>) -> bool, k: int)
    ensures
        match preroll::latest_packet(data, holds, k) {
            Some(at) => {
                &&& at % 188 == 0
                &&& 0 <= at <= 188 * k
                &&& holds_packet(data, at / 188)
                &&& holds(packet(data, at / 188))
                &&& forall|j: int|
                    at / 188 < j <= k && holds_packet(data, j) ==> !holds(#[trigger] packet(data, j))
            },
            None => forall|j: int|
                0 <= j <= k && holds_packet(data, j) ==> !holds(#[trigger] packet(data, j)),
        },
    decreases k + 1,
{
    if k >= 0 {
        lemma_latest(data, holds, k - 1);
        assert(mpegts::packet_at(data, k) == packet(data, k));
    }
}

/// The last association packet up to a place is a packet of stream zero, and no
/// packet between it and the packet of that place is.
pub proof fn law_latest_association(data: Seq<u8>, before: int)
    requires
        0 <= before,
    ensures
        match preroll::latest_pat(data, before) {
            Some(at) => {
                &&& at % 188 == 0
                &&& 0 <= at <= before
                &&& holds_packet(data, at / 188)
                &&& mpegts::pid_of(packet(data, at / 188)) == Some(0u16)
                &&& forall|j: int|
                    at / 188 < j <= before / 188 && holds_packet(data, j) ==> mpegts::pid_of(
                        #[trigger] packet(data, j),
                    ) != Some(0u16)
            },
            None => forall|j: int|
                0 <= j <= before / 188 && holds_packet(data, j) ==> mpegts::pid_of(
                    #[trigger] packet(data, j),
                ) != Some(0u16),
        },
{
    lemma_latest(
        data,
        |packet: Seq<u8>| mpegts::pid_of(packet) == Some(0u16),
        before / 188,
    );
}

/// The last map packet up to a place holds a map section of the program that an
/// association packet names, and no packet between it and the packet of that
/// place does. There is none where that packet names no program.
pub proof fn law_latest_map(data: Seq<u8>, before: int, pat_start: int)
    requires
        0 <= before,
        0 <= pat_start,
        pat_start + 188 <= data.len(),
    ensures
        match mpegts::pmt_pid_of(data.subrange(pat_start, pat_start + 188)) {
            None => preroll::latest_pmt(data, before, pat_start) is None,
            Some(pmt_pid) => match preroll::latest_pmt(data, before, pat_start) {
                Some(at) => {
                    &&& at % 188 == 0
                    &&& 0 <= at <= before
                    &&& holds_packet(data, at / 188)
                    &&& mpegts::section_of(packet(data, at / 188), pmt_pid, 0x02) is Some
                    &&& forall|j: int|
                        at / 188 < j <= before / 188 && holds_packet(data, j)
                            ==> mpegts::section_of(#[trigger] packet(data, j), pmt_pid, 0x02) is None
                },
                None => forall|j: int|
                    0 <= j <= before / 188 && holds_packet(data, j) ==> mpegts::section_of(
                        #[trigger] packet(data, j),
                        pmt_pid,
                        0x02,
                    ) is None,
            },
        },
{
    if let Some(pmt_pid) = mpegts::pmt_pid_of(data.subrange(pat_start, pat_start + 188)) {
        lemma_latest(
            data,
            |packet: Seq<u8>| mpegts::section_of(packet, pmt_pid, 0x02) is Some,
            before / 188,
        );
    }
}

/// The last packet up to a place that starts a unit of a stream does so, and no
/// packet between it and the packet of that place does.
pub proof fn law_latest_unit(data: Seq<u8>, before: int, pid: u16)
    requires
        0 <= before,
    ensures
        match preroll::latest_pes_start(data, before, pid) {
            Some(at) => {
                &&& at % 188 == 0
                &&& 0 <= at <= before
                &&& holds_packet(data, at / 188)
                &&& mpegts::pid_of(packet(data, at / 188)) == Some(pid)
                &&& packet(data, at / 188)[1] & 0x40 != 0
                &&& forall|j: int|
                    at / 188 < j <= before / 188 && holds_packet(data, j) ==> !(mpegts::pid_of(
                        #[trigger] packet(data, j),
                    ) == Some(pid) && packet(data, j)[1] & 0x40 != 0)
            },
            None => forall|j: int|
                0 <= j <= before / 188 && holds_packet(data, j) ==> !(mpegts::pid_of(
                    #[trigger] packet(data, j),
                ) == Some(pid) && packet(data, j)[1] & 0x40 != 0),
        },
{
    lemma_latest(
        data,
        |packet: Seq<u8>| mpegts::pid_of(packet) == Some(pid) && mpegts::starts_unit(packet),
        before / 188,
    );
    if let Some(at) = preroll::latest_pes_start(data, before, pid) {
        tables::law_unit_start(packet(data, at / 188));
    }
    assert forall|j: int| 0 <= j && holds_packet(data, j) implies mpegts::starts_unit(
        #[trigger] packet(data, j),
    ) == (packet(data, j)[1] & 0x40 != 0) by {
        tables::law_unit_start(packet(data, j));
    }
}

/// The tables in force at a place are the last association packet up to there,
/// and behind it the last map packet of the program that it names.
pub proof fn law_tables_in_force(flat: Seq<u8>, before: int)
    ensures
        preroll::tables_before(flat, before) == match preroll::latest_pat(flat, before) {
            None => Seq::<u8>::empty(),
            Some(pat) => match preroll::latest_pmt(flat, before, pat) {
                None => flat.subrange(pat, pat + 188),
                Some(pmt) => flat.subrange(pat, pat + 188) + flat.subrange(pmt, pmt + 188),
            },
        },
{
    if let Some(pat) = preroll::latest_pat(flat, before) {
        assert(flat.subrange(pat, pat + 188) + Seq::<u8>::empty() =~= flat.subrange(
            pat,
            pat + 188,
        ));
    }
}

// ---------------------------------------------------------------------------
// Parameter sets
// ---------------------------------------------------------------------------

/// Whether a packet starts at `p`, in a range of packets and before `before`.
pub open spec fn in_range(range: (usize, usize), before: int, p: int) -> bool {
    range.0 <= p && p < range.1 && p < before && (p - range.0) % 188 == 0
}

proof fn lemma_starts_listed(start: int, end: int, p: int)
    ensures
        preroll::packet_starts(start, end).contains(p) <==> start <= p < end && (p - start) % 188
            == 0,
    decreases (if start < end { end - start } else { 0 }),
{
    let all = preroll::packet_starts(start, end);
    if start < end {
        let rest = preroll::packet_starts(start + 188, end);
        lemma_starts_listed(start + 188, end, p);
        assert(all[0] == start);
        if all.contains(p) {
            let i = all.index_of(p);
            if i > 0 {
                assert(rest[i - 1] == p);
            }
        }
        if rest.contains(p) {
            let i = rest.index_of(p);
            assert(all[i + 1] == p);
        }
        if start <= p < end && (p - start) % 188 == 0 && p != start {
            assert(start + 188 <= p && (p - (start + 188)) % 188 == 0);
        }
    }
}

proof fn lemma_ranges_listed(ranges: Seq<(usize, usize)>, before: int, p: int)
    ensures
        preroll::range_starts(ranges, before).contains(p) <==> exists|i: int|
            0 <= i < ranges.len() && in_range(#[trigger] ranges[i], before, p),
    decreases ranges.len(),
{
    let all = preroll::range_starts(ranges, before);
    if ranges.len() > 0 {
        let last = ranges.last();
        let end = if last.1 < before {
            last.1 as int
        } else {
            before
        };
        let earlier = preroll::range_starts(ranges.drop_last(), before);
        let here = preroll::packet_starts(last.0 as int, end);
        lemma_ranges_listed(ranges.drop_last(), before, p);
        lemma_starts_listed(last.0 as int, end, p);
        assert(all == earlier + here);
        if all.contains(p) {
            let i = all.index_of(p);
            if i < earlier.len() {
                assert(earlier[i] == p);
                let j = choose|j: int|
                    0 <= j < ranges.drop_last().len() && in_range(
                        #[trigger] ranges.drop_last()[j],
                        before,
                        p,
                    );
                assert(in_range(ranges[j], before, p));
            } else {
                assert(here[i - earlier.len()] == p);
                assert(in_range(ranges[ranges.len() - 1], before, p));
            }
        }
        if exists|i: int| 0 <= i < ranges.len() && in_range(#[trigger] ranges[i], before, p) {
            let i = choose|i: int| 0 <= i < ranges.len() && in_range(#[trigger] ranges[i], before, p);
            if i < ranges.len() - 1 {
                assert(in_range(ranges.drop_last()[i], before, p));
                let j = earlier.index_of(p);
                assert(all[j] == p);
            } else {
                let j = here.index_of(p);
                assert(all[earlier.len() + j] == p);
            }
        }
    }
}

proof fn lemma_distinct(starts: Seq<int>, p: int)
    ensures
        preroll::distinct(starts).contains(p) <==> starts.contains(p),
        preroll::distinct(starts).no_duplicates(),
        preroll::distinct(starts).len() <= starts.len(),
    decreases starts.len(),
{
    if starts.len() > 0 {
        let front = starts.drop_last();
        let last = starts.last();
        let earlier = preroll::distinct(front);
        lemma_distinct(front, p);
        lemma_distinct(front, last);
        assert(starts[starts.len() - 1] == last);
        if starts.contains(p) {
            let i = starts.index_of(p);
            if i < front.len() {
                assert(front[i] == p);
            }
        }
        if front.contains(p) {
            let i = front.index_of(p);
            assert(starts[i] == p);
        }
        if !earlier.contains(last) {
            let all = earlier.push(last);
            assert(all[earlier.len() as int] == last);
            if all.contains(p) {
                let i = all.index_of(p);
                if i < earlier.len() {
                    assert(earlier[i] == p);
                }
            }
            if earlier.contains(p) {
                let i = earlier.index_of(p);
                assert(all[i] == p);
            }
        }
    }
}

/// The packets of the parameter sets: each packet of the ranges that starts
/// before the cut, once.
pub proof fn law_parameter_packets(ranges: Seq<(usize, usize)>, before: int, p: int)
    ensures
        preroll::parameter_starts(ranges, before).contains(p) <==> exists|i: int|
            0 <= i < ranges.len() && in_range(#[trigger] ranges[i], before, p),
        preroll::parameter_starts(ranges, before).no_duplicates(),
{
    lemma_ranges_listed(ranges, before, p);
    lemma_distinct(preroll::range_starts(ranges, before), p);
}

spec fn rising(s: Seq<int>) -> bool {
    forall|i: int, j: int| 0 <= i < j < s.len() ==> #[trigger] s[i] < #[trigger] s[j]
}

proof fn lemma_starts_rise(start: int, end: int)
    ensures
        rising(preroll::packet_starts(start, end)),
        forall|i: int|
            0 <= i < preroll::packet_starts(start, end).len() ==> start
                <= #[trigger] preroll::packet_starts(start, end)[i],
    decreases (if start < end { end - start } else { 0 }),
{
    let all = preroll::packet_starts(start, end);
    if start < end {
        let rest = preroll::packet_starts(start + 188, end);
        lemma_starts_rise(start + 188, end);
        assert forall|i: int| 0 <= i < all.len() implies start <= #[trigger] all[i] by {
            if i > 0 {
                assert(all[i] == rest[i - 1]);
            }
        }
        assert forall|i: int, j: int| 0 <= i < j < all.len() implies #[trigger] all[i]
            < #[trigger] all[j] by {
            assert(all[j] == rest[j - 1]);
            if i > 0 {
                assert(all[i] == rest[i - 1]);
            }
        }
    } else {
        assert(all.len() == 0);
    }
}

proof fn lemma_distinct_behind(a: Seq<int>, b: Seq<int>)
    requires
        rising(b),
    ensures
        ({
            let old_ones = preroll::distinct(a);
            let all = preroll::distinct(a + b);
            &&& old_ones.len() <= all.len()
            &&& all.take(old_ones.len() as int) == old_ones
            &&& rising(all.skip(old_ones.len() as int))
            &&& forall|i: int|
                old_ones.len() <= i < all.len() ==> b.len() > 0 && #[trigger] all[i]
                    <= b[b.len() - 1]
        }),
    decreases b.len(),
{
    let old_ones = preroll::distinct(a);
    let n = old_ones.len() as int;
    if b.len() == 0 {
        assert(a + b =~= a);
        assert(old_ones.take(n) =~= old_ones);
    } else {
        let front = b.drop_last();
        let last = b[b.len() - 1];
        assert forall|i: int, j: int| 0 <= i < j < front.len() implies #[trigger] front[i]
            < #[trigger] front[j] by {
            assert(b[i] < b[j]);
        }
        lemma_distinct_behind(a, front);
        assert((a + b).drop_last() =~= a + front);
        let earlier = preroll::distinct(a + front);
        let all = preroll::distinct(a + b);
        assert(front.len() > 0 ==> front[front.len() - 1] == b[b.len() - 2] && b[b.len() - 2]
            < last);
        assert(all == earlier || all == earlier.push(last));
        assert(all.take(n) =~= earlier.take(n));
        assert forall|i: int, j: int| 0 <= i < j < all.skip(n).len() implies
            #[trigger] all.skip(n)[i] < #[trigger] all.skip(n)[j] by {
            if n + j < earlier.len() {
                assert(all.skip(n)[i] == earlier.skip(n)[i]);
                assert(all.skip(n)[j] == earlier.skip(n)[j]);
            } else {
                assert(all[n + i] == earlier[n + i]);
                assert(earlier[n + i] <= front[front.len() - 1]);
            }
        }
        assert forall|i: int| n <= i < all.len() implies b.len() > 0 && #[trigger] all[i] <= last by {
            if i < earlier.len() {
                assert(all[i] == earlier[i]);
            }
        }
    }
}

/// The packets of one range more come behind the others, in the order in which they
/// stand in the stream.
pub proof fn law_parameter_packets_in_order(
    ranges: Seq<(usize, usize)>,
    range: (usize, usize),
    before: int,
    i: int,
    j: int,
)
    ensures
        preroll::parameter_starts(Seq::empty(), before).len() == 0,
        ({
            let old_ones = preroll::parameter_starts(ranges, before);
            let all = preroll::parameter_starts(ranges.push(range), before);
            &&& old_ones.len() <= all.len()
            &&& all.take(old_ones.len() as int) == old_ones
            &&& old_ones.len() <= i < j < all.len() ==> all[i] < all[j]
        }),
{
    let end = if range.1 < before {
        range.1 as int
    } else {
        before
    };
    let a = preroll::range_starts(ranges, before);
    let b = preroll::packet_starts(range.0 as int, end);
    assert(ranges.push(range).drop_last() =~= ranges);
    assert(preroll::range_starts(ranges.push(range), before) == a + b);
    lemma_starts_rise(range.0 as int, end);
    lemma_distinct_behind(a, b);
    let n = preroll::distinct(a).len() as int;
    let all = preroll::distinct(a + b);
    if n <= i < j < all.len() {
        assert(all.skip(n)[i - n] == all[i]);
        assert(all.skip(n)[j - n] == all[j]);
    }
    assert(preroll::range_starts(Seq::empty(), before).len() == 0);
}

/// The packets at some starts are these packets, in that order.
pub proof fn law_packets_picked(flat: Seq<u8>, starts: Seq<int>, k: int)
    requires
        0 <= k < starts.len(),
        forall|i: int| 0 <= i < starts.len() ==> 0 <= #[trigger] starts[i] <= flat.len() - 188,
    ensures
        preroll::packets_at(flat, starts).len() == 188 * starts.len(),
        packet(preroll::packets_at(flat, starts), k) == flat.subrange(starts[k], starts[k] + 188),
    decreases starts.len(),
{
    let front = starts.drop_last();
    let all = preroll::packets_at(flat, starts);
    let earlier = preroll::packets_at(flat, front);
    assert(0 <= starts[starts.len() - 1] <= flat.len() - 188);
    assert forall|i: int| 0 <= i < front.len() implies 0 <= #[trigger] front[i] <= flat.len() - 188 by {
        assert(0 <= starts[i] <= flat.len() - 188);
    }
    if front.len() > 0 {
        let j = if k < front.len() {
            k
        } else {
            0
        };
        law_packets_picked(flat, front, j);
    }
    assert(earlier.len() == 188 * front.len());
    if k < front.len() {
        assert(packet(all, k) =~= packet(earlier, k));
        assert(front[k] == starts[k]);
    } else {
        assert(packet(all, k) =~= flat.subrange(starts[k], starts[k] + 188));
    }
}

/// Of a list of starts those are taken that stand before the first whose packet
/// is not whole: a packet is taken where it and all before it are whole.
pub proof fn law_whole_packets_taken(flat: Seq<u8>, starts: Seq<int>)
    ensures
        ({
            let taken = preroll::leading_whole(flat, starts);
            &&& taken.len() <= starts.len()
            &&& taken == starts.take(taken.len() as int)
            &&& forall|i: int| 0 <= i < taken.len() ==> #[trigger] starts[i] + 188 <= flat.len()
            &&& taken.len() < starts.len() ==> starts[taken.len() as int] + 188 > flat.len()
        }),
    decreases starts.len(),
{
    if starts.len() > 0 {
        let front = starts.drop_last();
        law_whole_packets_taken(flat, front);
        let earlier = preroll::leading_whole(flat, front);
        let taken = preroll::leading_whole(flat, starts);
        assert forall|i: int| 0 <= i < earlier.len() implies #[trigger] starts[i] + 188
            <= flat.len() by {
            assert(front[i] + 188 <= flat.len());
        }
        if earlier.len() < front.len() {
            assert(front[earlier.len() as int] == starts[earlier.len() as int]);
        }
        assert(taken =~= starts.take(taken.len() as int));
    } else {
        assert(starts.take(0) =~= preroll::leading_whole(flat, starts));
    }
}

// ---------------------------------------------------------------------------
// Cuts
// ---------------------------------------------------------------------------

/// A stream that is passed on is cut at the packet in which the prelude of the
/// keyframe starts: the tables in force at the keyframe come first, then the
/// packets of the parameter sets from before the cut, then everything from the
/// cut on. It can be cut exactly where it has the keyframe.
pub proof fn law_cut_at_keyframe(flat: Seq<u8>, n: int)
    ensures
        match (keyframe::keyframe_span(flat, n), preroll::from_keyframe(flat, n)) {
            (Some(span), Some(cut)) => {
                let start = span.prelude / 188 * 188;
                cut == preroll::tables_before(flat, span.keyframe / 188 * 188)
                    + preroll::packets_at(flat, preroll::parameter_starts(span.ranges, start))
                    + flat.skip(start)
            },
            (None, None) => true,
            _ => false,
        },
{
}

/// An encoded stream is cut at the packet that starts the unit of the announced
/// video with the keyframe: the tables in force at the keyframe come first, then
/// everything from that packet on. It can be cut exactly where it has the
/// keyframe, announces a video, and has such a packet.
pub proof fn law_cut_at_unit(flat: Seq<u8>, n: int)
    ensures
        keyframe::keyframe_span(flat, n) is None ==> preroll::from_keyframe_unit(flat, n) is None,
        keyframe::keyframe_span(flat, n) matches Some(span) ==> {
            let place = span.keyframe / 188 * 188;
            &&& span.video_pid is None ==> preroll::from_keyframe_unit(flat, n) is None
            &&& span.video_pid matches Some(pid) ==> match preroll::latest_pes_start(
                flat,
                place,
                pid,
            ) {
                Some(start) => preroll::from_keyframe_unit(flat, n) == Some(
                    preroll::tables_before(flat, place) + flat.skip(start),
                ),
                None => preroll::from_keyframe_unit(flat, n) is None,
            }
        },
{
}

// ---------------------------------------------------------------------------
// Cleaning
// ---------------------------------------------------------------------------

/// Whether packet `k` stays: it is of a stream that is not cleaned, or it or a
/// packet before it starts a unit of its stream.
pub open spec fn stays(data: Seq<u8>, pids: Set<u16>, k: int) -> bool {
    mpegts::pid_of(packet(data, k)) matches Some(pid) && (pids.contains(pid) ==> exists|j: int|
        0 <= j <= k && mpegts::pid_of(#[trigger] packet(data, j)) == Some(pid) && packet(
            data,
            j,
        )[1] & 0x40 != 0)
}

/// Cleaning goes packet by packet: one that stays goes behind those before it,
/// and any other is left out.
pub proof fn law_cleaned_packets(data: Seq<u8>, pids: Set<u16>, k: int)
    requires
        holds_packet(data, k),
    ensures
        preroll::kept_upto(data, pids, 0).len() == 0,
        preroll::kept_upto(data, pids, k + 1) == preroll::kept_upto(data, pids, k) + if stays(
            data,
            pids,
            k,
        ) {
            packet(data, k)
        } else {
            Seq::<u8>::empty()
        },
{
    assert forall|j: int| 0 <= j <= k implies mpegts::packet_at(data, j) == #[trigger] packet(
        data,
        j,
    ) && mpegts::starts_unit(packet(data, j)) == (packet(data, j)[1] & 0x40 != 0) by {
        tables::law_unit_start(packet(data, j));
    }
    assert(mpegts::packet_at(data, k) == packet(data, k));
    if let Some(pid) = mpegts::pid_of(packet(data, k)) {
        if preroll::unit_started(data, pid, k + 1) {
            let j = choose|j: int|
                0 <= j < k + 1 && mpegts::pid_of(#[trigger] mpegts::packet_at(data, j)) == Some(pid)
                    && mpegts::starts_unit(mpegts::packet_at(data, j));
            assert(mpegts::pid_of(packet(data, j)) == Some(pid));
        }
        if stays(data, pids, k) && pids.contains(pid) {
            let j = choose|j: int|
                0 <= j <= k && mpegts::pid_of(#[trigger] packet(data, j)) == Some(pid) && packet(
                    data,
                    j,
                )[1] & 0x40 != 0;
            assert(mpegts::pid_of(mpegts::packet_at(data, j)) == Some(pid));
        }
    }
    assert(preroll::is_kept(data, pids, k) == stays(data, pids, k));
    assert(preroll::kept_upto(data, pids, k) + Seq::<u8>::empty() =~= preroll::kept_upto(
        data,
        pids,
        k,
    ));
}

/// The announced streams other than the video are cleaned, in all chunks
/// together; without an announced video, or without other streams, nothing is.
pub proof fn law_streams_cleaned(chunks: Seq<Seq<u8>>)
    ensures
        ({
            let flat = preroll::joined(chunks);
            match mpegts::video_in(flat) {
                None => preroll::cleaned(chunks) == chunks,
                Some(video) => {
                    let others = mpegts::elementary_in(flat).remove(video.pid);
                    &&& others == Set::<u16>::empty() ==> preroll::cleaned(chunks) == chunks
                    &&& others != Set::<u16>::empty() ==> preroll::cleaned(chunks) == seq![
                        preroll::kept_upto(flat, others, flat.len() as int / 188),
                    ]
                },
            }
        }),
{
    let flat = preroll::joined(chunks);
    if let Some(video) = mpegts::video_in(flat) {
        let others = mpegts::elementary_in(flat).remove(video.pid);
        if others.is_empty() {
            assert(others =~= Set::<u16>::empty());
        }
    }
}

// ---------------------------------------------------------------------------
// Marking and announcing
// ---------------------------------------------------------------------------

/// Whether packet `k` of chunk `i` is the first of its stream: no packet of an
/// earlier chunk, nor an earlier one of this chunk, is of that stream.
pub open spec fn first_of_stream(chunks: Seq<Seq<u8>>, i: int, k: int) -> bool {
    mpegts::pid_of(packet(chunks[i], k)) matches Some(pid) && forall|a: int, b: int|
        0 <= a <= i && holds_packet(chunks[a], b) && (a < i || b < k) ==> mpegts::pid_of(
            #[trigger] packet(chunks[a], b),
        ) != Some(pid)
}

proof fn lemma_first_of_stream(chunks: Seq<Seq<u8>>, i: int, k: int)
    requires
        0 <= i < chunks.len(),
        holds_packet(chunks[i], k),
    ensures
        preroll::is_first(chunks, i, k) == first_of_stream(chunks, i, k),
{
    assert(mpegts::packet_at(chunks[i], k) == packet(chunks[i], k));
    if let Some(pid) = mpegts::pid_of(packet(chunks[i], k)) {
        if preroll::seen_before(chunks, i, k, pid) {
            let (a, b) = choose|a: int, b: int|
                0 <= a < chunks.len() && 0 <= b < mpegts::packet_count(chunks[a]) && (a < i || (a
                    == i && b < k)) && mpegts::pid_of(#[trigger] mpegts::packet_at(chunks[a], b))
                    == Some(pid);
            assert(mpegts::pid_of(packet(chunks[a], b)) == Some(pid));
            assert(holds_packet(chunks[a], b));
        }
        if !first_of_stream(chunks, i, k) {
            let (a, b) = choose|a: int, b: int|
                0 <= a <= i && holds_packet(chunks[a], b) && (a < i || b < k) && mpegts::pid_of(
                    #[trigger] packet(chunks[a], b),
                ) == Some(pid);
            assert(mpegts::pid_of(mpegts::packet_at(chunks[a], b)) == Some(pid));
            assert(0 <= b < mpegts::packet_count(chunks[a]));
        }
    }
}

/// Whether a packet has an adaptation field with flags: bit 5 of the fourth byte
/// is set, and the field is not empty.
pub open spec fn flags_there(packet: Seq<u8>) -> bool {
    packet.len() >= 188 && packet[0] == 0x47 && (packet[3] >> 5) & 1 == 1 && packet[4] > 0
}

/// A packet with flags gets its discontinuity flag set, the highest bit of its
/// sixth byte, and nothing else; a packet without flags stays.
pub proof fn law_flagged(packet: Seq<u8>)
    ensures
        preroll::has_flags(packet) == flags_there(packet),
        preroll::flagged(packet).len() == packet.len(),
        flags_there(packet) ==> preroll::flagged(packet)[5] == packet[5] | 0x80,
        !flags_there(packet) ==> preroll::flagged(packet) == packet,
        forall|i: int|
            0 <= i < packet.len() && i != 5 ==> #[trigger] preroll::flagged(packet)[i] == packet[i],
{
    let control = packet[3];
    let flags = packet[5];
    assert((control >> 5) & 1 == 1 <==> control / 16 % 4 >= 2) by (bit_vector);
    assert(flags | 0x80 == if flags < 128 {
        (flags + 128) as u8
    } else {
        flags
    }) by (bit_vector);
}

/// Marking flags the first packet of each stream and leaves every other as it
/// is.
pub proof fn law_marked_packets(chunks: Seq<Seq<u8>>, i: int, k: int)
    requires
        0 <= i < chunks.len(),
        holds_packet(chunks[i], k),
    ensures
        preroll::marked(chunks).len() == chunks.len(),
        preroll::marked(chunks)[i].len() == chunks[i].len(),
        packet(preroll::marked(chunks)[i], k) == if first_of_stream(chunks, i, k) {
            preroll::flagged(packet(chunks[i], k))
        } else {
            packet(chunks[i], k)
        },
        preroll::marked(chunks)[i].skip(188 * (chunks[i].len() as int / 188)) == chunks[i].skip(
            188 * (chunks[i].len() as int / 188),
        ),
{
    let count = mpegts::packet_count(chunks[i]);
    let done = preroll::marked_upto(chunks, i, count);
    let now = preroll::marked(chunks)[i];
    preroll::lemma_marked_len(chunks, i, count);
    lemma_first_of_stream(chunks, i, k);
    assert(mpegts::packet_at(done, k) == if preroll::is_first(chunks, i, k) {
        preroll::flagged(mpegts::packet_at(chunks[i], k))
    } else {
        mpegts::packet_at(chunks[i], k)
    });
    assert(packet(now, k) =~= mpegts::packet_at(done, k));
    assert(now.skip(188 * count) =~= chunks[i].skip(188 * count));
}

/// What announces a discontinuity is a packet of its stream without payload: an
/// adaptation field that fills it, with the discontinuity flag alone and then
/// stuffing, and the counter of the stream.
pub proof fn law_announcement_bytes(pid: u16, counter: u8, i: int)
    requires
        6 <= i < 188,
    ensures
        ({
            let p = preroll::discontinuity_of(pid, counter);
            &&& p.len() == 188
            &&& p[0] == 0x47
            &&& p[1] & 0xe0 == 0
            &&& tables::thirteen_bits(p[1], p[2]) == pid & 0x1fff
            &&& p[3] == 0x20 | (counter & 0x0f)
            &&& p[4] == 183
            &&& p[5] == 0x80
            &&& p[i] == 0xff
        }),
{
    let p = preroll::discontinuity_of(pid, counter);
    tables::law_stream_of_packet(p);
    assert(pid & 0x1fff == pid % 8192) by (bit_vector);
    assert(mpegts::pid_of(p) == Some(mpegts::pid_bits(p[1], p[2])));
    assert(0x20 | (counter & 0x0f) == 0x20 + counter % 16) by (bit_vector);
    let high = p[1];
    assert(high < 32);
    assert(high & 0xe0 == 0) by (bit_vector)
        requires
            high < 32,
    ;
}

/// Announcements go packet by packet: the first packet of each stream adds one,
/// with its counter, and any other adds none.
pub proof fn law_announced_packets(chunks: Seq<Seq<u8>>, i: int, k: int)
    requires
        0 <= i < chunks.len(),
        holds_packet(chunks[i], k),
    ensures
        preroll::announced_upto(chunks, i, 0).len() == 0,
        preroll::announced_upto(chunks, i, k + 1) == preroll::announced_upto(chunks, i, k)
            + if first_of_stream(chunks, i, k) {
            preroll::discontinuity_of(
                tables::thirteen_bits(packet(chunks[i], k)[1], packet(chunks[i], k)[2]),
                packet(chunks[i], k)[3],
            )
        } else {
            Seq::<u8>::empty()
        },
{
    lemma_first_of_stream(chunks, i, k);
    tables::law_stream_of_packet(packet(chunks[i], k));
    assert(mpegts::packet_at(chunks[i], k) == packet(chunks[i], k));
}

/// The announcements of all chunks, chunk by chunk, stand in a chunk of their own
/// before the others; where there are none, there is no such chunk.
pub proof fn law_announced_chunks(chunks: Seq<Seq<u8>>, i: int)
    ensures
        preroll::announced(chunks, 0).len() == 0,
        0 <= i < chunks.len() ==> preroll::announced(chunks, i + 1) == preroll::announced(chunks, i)
            + preroll::announced_upto(chunks, i, chunks[i].len() as int / 188),
        ({
            let front = preroll::announced(chunks, chunks.len() as int);
            preroll::with_announcements(chunks) == if front.len() > 0 {
                seq![front] + chunks
            } else {
                chunks
            }
        }),
{
}

} // verus!
