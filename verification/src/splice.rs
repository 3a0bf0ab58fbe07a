//! What holds of a stream that is cut and marked so that a player can join it.

use crate::keyframe;
use crate::mpegts;
use crate::mpegts::{VideoCodec, VideoStream};
use crate::prepare::Prepared;
use crate::preroll;
use vstd::prelude::*;

verus! {

// ---------------------------------------------------------------------------
// The keyframe is still there
// ---------------------------------------------------------------------------

/// Packets behind whole packets.
proof fn lemma_packet_behind(a: Seq<u8>, b: Seq<u8>, j: int)
    requires
        a.len() % 188 == 0,
    ensures
        0 <= j < mpegts::packet_count(b) ==> mpegts::packet_at(a + b, a.len() / 188 + j)
            == mpegts::packet_at(b, j),
        0 <= j < mpegts::packet_count(a) ==> mpegts::packet_at(a + b, j) == mpegts::packet_at(a, j),
        mpegts::packet_count(a + b) == mpegts::packet_count(a) + mpegts::packet_count(b),
{
    if 0 <= j < mpegts::packet_count(b) {
        assert(mpegts::packet_at(a + b, a.len() / 188 + j) =~= mpegts::packet_at(b, j));
    }
    if 0 <= j < mpegts::packet_count(a) {
        assert(mpegts::packet_at(a + b, j) =~= mpegts::packet_at(a, j));
    }
}

/// The payload of the packets at the front.
proof fn lemma_payload_front(a: Seq<u8>, b: Seq<u8>, filter: Option<u16>, k: int)
    requires
        a.len() % 188 == 0,
        0 <= k <= mpegts::packet_count(a),
    ensures
        keyframe::payload_upto(a + b, filter, k) == keyframe::payload_upto(a, filter, k),
    decreases k,
{
    if k > 0 {
        lemma_payload_front(a, b, filter, k - 1);
        lemma_packet_behind(a, b, k - 1);
    }
}

/// The payload of packets behind whole packets.
proof fn lemma_payload_behind(a: Seq<u8>, b: Seq<u8>, filter: Option<u16>, k: int)
    requires
        a.len() % 188 == 0,
        0 <= k <= mpegts::packet_count(b),
    ensures
        keyframe::payload_upto(a + b, filter, mpegts::packet_count(a) + k)
            == keyframe::payload_in(a, filter) + keyframe::payload_upto(b, filter, k),
    decreases k,
{
    if k > 0 {
        lemma_payload_behind(a, b, filter, k - 1);
        lemma_packet_behind(a, b, k - 1);
        assert(keyframe::payload_upto(a + b, filter, mpegts::packet_count(a) + k)
            =~= keyframe::payload_in(a, filter) + keyframe::payload_upto(b, filter, k));
    } else {
        lemma_payload_front(a, b, filter, mpegts::packet_count(a));
        assert(keyframe::payload_in(a, filter) + keyframe::payload_upto(b, filter, k)
            =~= keyframe::payload_in(a, filter));
    }
}

/// A start code is found as a code that ends where it ends, wherever the search
/// starts before it.
proof fn lemma_code_found(payload: Seq<u8>, from: int, at: int) -> (k: int)
    requires
        payload.len() <= usize::MAX,
        0 <= from <= at,
        at + 5 < payload.len(),
        payload[at] == 0,
        payload[at + 1] == 0,
        payload[at + 2] == 1,
    ensures
        0 <= k < keyframe::start_codes_from(payload, from).len(),
        keyframe::start_codes_from(payload, from)[k].0 + keyframe::start_codes_from(
            payload,
            from,
        )[k].1 == at + 3,
    decreases at - from,
{
    let here = keyframe::start_code_at(payload, from);
    let all = keyframe::start_codes_from(payload, from);
    if from == at {
        assert(all[0] == (at as usize, 3usize));
        0
    } else if here == 0 {
        lemma_code_found(payload, from + 1, at)
    } else if here == 4 && at == from + 1 {
        assert(all[0] == (from as usize, 4usize));
        0
    } else {
        let k = lemma_code_found(payload, from + here, at);
        assert(all[k + 1] == keyframe::start_codes_from(payload, from + here)[k]);
        k + 1
    }
}

/// What a start code in the list looks like in the payload.
proof fn lemma_code_bytes(payload: Seq<u8>, from: int, k: int)
    requires
        payload.len() <= usize::MAX,
        0 <= from,
        0 <= k < keyframe::start_codes_from(payload, from).len(),
    ensures
        ({
            let code = keyframe::start_codes_from(payload, from)[k];
            let end = code.0 + code.1;
            &&& from <= code.0
            &&& 3 <= code.1
            &&& end + 2 < payload.len()
            &&& payload[end - 3] == 0
            &&& payload[end - 2] == 0
            &&& payload[end - 1] == 1
        }),
    decreases payload.len() - from,
{
    let here = keyframe::start_code_at(payload, from);
    let all = keyframe::start_codes_from(payload, from);
    if here == 0 {
        lemma_code_bytes(payload, from + 1, k);
    } else if k > 0 {
        lemma_code_bytes(payload, from + here, k - 1);
        assert(all[k] == keyframe::start_codes_from(payload, from + here)[k - 1]);
    } else {
        assert(all[0] == (from as usize, here as usize));
    }
}

/// A keyframe among the units is found.
proof fn lemma_keyframe_found(
    codec: VideoCodec,
    payload: Seq<u8>,
    nals: Seq<(usize, usize)>,
    k: int,
    at: int,
)
    requires
        0 <= k <= at < nals.len(),
        keyframe::keyframe_byte(codec, keyframe::nal_byte(payload, nals, at)),
    ensures
        keyframe::nth_keyframe(codec, payload, nals, 1, k) is Some,
    decreases at - k,
{
    if k < at {
        lemma_keyframe_found(codec, payload, nals, k + 1, at);
    }
}

/// Data that is cut at a packet before a keyframe, and given other whole packets
/// in front, still has a keyframe, if the same stream is searched in the same
/// way.
#[verifier::spinoff_prover]
#[verifier::rlimit(50)]
proof fn lemma_keyframe_survives(flat: Seq<u8>, n: int, cut: int, head: Seq<u8>)
    requires
        flat.len() <= usize::MAX,
        (head + flat.skip(cut)).len() <= usize::MAX,
        head.len() % 188 == 0,
        cut % 188 == 0,
        keyframe::keyframe_span(flat, n) matches Some(span) && 0 <= cut <= span.keyframe,
        keyframe::searched_stream(head + flat.skip(cut)) == keyframe::searched_stream(flat),
        keyframe::searched_codec(head + flat.skip(cut)) == keyframe::searched_codec(flat),
    ensures
        keyframe::keyframe_span(head + flat.skip(cut), 1) is Some,
{
    let filter = keyframe::searched_stream(flat);
    let codec = keyframe::searched_codec(flat);
    let rest = flat.skip(cut);
    let front = flat.take(cut);
    let out = head + rest;
    let payload = keyframe::payload_in(flat, filter);
    let offsets = keyframe::offsets_in(flat, filter);
    let nals = keyframe::start_codes(payload);
    let k = keyframe::keyframe_unit(flat, n)->0;
    let count = mpegts::packet_count(flat);

    keyframe::law_keyframe_span_inside(flat, n);
    keyframe::lemma_nth_keyframe(codec, payload, nals, n, 0);
    keyframe::law_payload_offsets(flat, filter, count);
    keyframe::lemma_offsets_len(flat, filter, count);
    keyframe::lemma_start_codes(payload, 0);
    lemma_code_bytes(payload, 0, k);
    let at = nals[k].0 as int;
    let end = at + nals[k].1;
    assert(nals[k] == keyframe::start_codes_from(payload, 0)[k]);

    // The payload before the cut ends before the keyframe.
    assert(front + rest =~= flat);
    lemma_packet_behind(front, rest, 0);
    lemma_payload_behind(front, rest, filter, mpegts::packet_count(rest));
    lemma_payload_front(front, rest, filter, mpegts::packet_count(front));
    let before = keyframe::payload_in(front, filter);
    let shared = keyframe::payload_in(rest, filter);
    assert(payload == before + shared);
    assert(before.len() <= at) by {
        keyframe::law_payload_offsets(flat, filter, mpegts::packet_count(front));
        lemma_offsets_front(flat, filter, mpegts::packet_count(front), count);
        if at < before.len() {
            assert(keyframe::offsets_upto(flat, filter, mpegts::packet_count(front))[at] < cut);
            assert(offsets[at] < cut);
        }
    }

    // The payload of the result ends in the same way.
    lemma_packet_behind(head, rest, 0);
    lemma_payload_behind(head, rest, filter, mpegts::packet_count(rest));
    let new_payload = keyframe::payload_in(out, filter);
    let lead = keyframe::payload_in(head, filter);
    assert(new_payload == lead + shared);
    keyframe::lemma_offsets_len(out, filter, mpegts::packet_count(out));
    let shift = lead.len() - before.len();
    assert forall|i: int| before.len() <= i < payload.len() implies payload[i] == #[trigger]
        new_payload[i + shift] by {
        assert(payload[i] == shared[i - before.len()]);
    }
    assert(end - 3 >= at);
    assert(payload[end - 3] == new_payload[end - 3 + shift]);
    assert(payload[end - 2] == new_payload[end - 2 + shift]);
    assert(payload[end - 1] == new_payload[end - 1 + shift]);
    assert(payload[end] == new_payload[end + shift]);
    let found = lemma_code_found(new_payload, 0, end - 3 + shift);
    let new_nals = keyframe::start_codes(new_payload);
    assert(keyframe::nal_byte(new_payload, new_nals, found) == payload[end]);
    lemma_keyframe_found(codec, new_payload, new_nals, 0, found);
}

/// The offsets of the first packets come first.
proof fn lemma_offsets_front(data: Seq<u8>, filter: Option<u16>, k: int, count: int)
    requires
        0 <= k <= count,
    ensures
        keyframe::offsets_upto(data, filter, k).len() <= keyframe::offsets_upto(
            data,
            filter,
            count,
        ).len(),
        forall|i: int|
            0 <= i < keyframe::offsets_upto(data, filter, k).len() ==> #[trigger]
                keyframe::offsets_upto(data, filter, k)[i] == keyframe::offsets_upto(
                data,
                filter,
                count,
            )[i],
    decreases count,
{
    if k < count {
        lemma_offsets_front(data, filter, k, count - 1);
    }
}

/// The tables in front are whole packets.
proof fn lemma_tables_whole(flat: Seq<u8>, before: int)
    requires
        0 <= before,
    ensures
        preroll::tables_before(flat, before).len() % 188 == 0,
{
    preroll::lemma_latest_packet(
        flat,
        |packet: Seq<u8>| mpegts::pid_of(packet) == Some(0u16),
        before / 188,
    );
    if let Some(pat) = preroll::latest_pat(flat, before) {
        if let Some(pmt_pid) = mpegts::pmt_pid_of(flat.subrange(pat, pat + 188)) {
            preroll::lemma_latest_packet(
                flat,
                |packet: Seq<u8>| mpegts::section_of(packet, pmt_pid, 0x02) is Some,
                before / 188,
            );
        }
    }
}

/// Packets that are picked are whole packets.
proof fn lemma_picked_whole(flat: Seq<u8>, starts: Seq<int>)
    requires
        forall|i: int|
            0 <= i < starts.len() ==> 0 <= #[trigger] starts[i] && starts[i] + 188 <= flat.len(),
    ensures
        preroll::packets_at(flat, starts).len() == 188 * starts.len(),
    decreases starts.len(),
{
    if starts.len() > 0 {
        assert(0 <= starts[starts.len() - 1]);
        lemma_picked_whole(flat, starts.drop_last());
    }
}

proof fn lemma_packet_starts_positive(start: int, end: int)
    requires
        0 <= start,
    ensures
        forall|i: int|
            0 <= i < preroll::packet_starts(start, end).len() ==> 0
                <= #[trigger] preroll::packet_starts(start, end)[i],
    decreases (if start < end { end - start } else { 0 }),
{
    if start < end {
        lemma_packet_starts_positive(start + 188, end);
        let rest = preroll::packet_starts(start + 188, end);
        let all = preroll::packet_starts(start, end);
        assert forall|i: int| 0 <= i < all.len() implies 0 <= #[trigger] all[i] by {
            if i > 0 {
                assert(all[i] == rest[i - 1]);
            }
        }
    } else {
        assert(preroll::packet_starts(start, end).len() == 0);
    }
}

proof fn lemma_range_starts_positive(ranges: Seq<(usize, usize)>, before: int)
    ensures
        forall|i: int|
            0 <= i < preroll::range_starts(ranges, before).len() ==> 0
                <= #[trigger] preroll::range_starts(ranges, before)[i],
    decreases ranges.len(),
{
    let all = preroll::range_starts(ranges, before);
    if ranges.len() > 0 {
        lemma_range_starts_positive(ranges.drop_last(), before);
        let last = ranges.last();
        let end = if last.1 < before {
            last.1 as int
        } else {
            before
        };
        lemma_packet_starts_positive(last.0 as int, end);
        let earlier = preroll::range_starts(ranges.drop_last(), before);
        let here = preroll::packet_starts(last.0 as int, end);
        assert forall|i: int| 0 <= i < all.len() implies 0 <= #[trigger] all[i] by {
            if i < earlier.len() {
                assert(all[i] == earlier[i]);
            } else {
                assert(all[i] == here[i - earlier.len()]);
            }
        }
    } else {
        assert(all.len() == 0);
    }
}

proof fn lemma_distinct_positive(starts: Seq<int>)
    requires
        forall|i: int| 0 <= i < starts.len() ==> 0 <= #[trigger] starts[i],
    ensures
        forall|i: int|
            0 <= i < preroll::distinct(starts).len() ==> 0 <= #[trigger] preroll::distinct(
                starts,
            )[i],
    decreases starts.len(),
{
    let all = preroll::distinct(starts);
    if starts.len() > 0 {
        lemma_distinct_positive(starts.drop_last());
        assert(0 <= starts[starts.len() - 1]);
        let earlier = preroll::distinct(starts.drop_last());
        assert forall|i: int| 0 <= i < all.len() implies 0 <= #[trigger] all[i] by {
            if i < earlier.len() {
                assert(all[i] == earlier[i]);
            }
        }
    } else {
        assert(all.len() == 0);
    }
}

/// What stands in front of a keyframe is whole packets.
proof fn lemma_head_whole(flat: Seq<u8>, n: int)
    requires
        flat.len() <= usize::MAX,
        keyframe::keyframe_span(flat, n) is Some,
    ensures
        ({
            let span = keyframe::keyframe_span(flat, n)->0;
            let head = preroll::tables_before(flat, preroll::whole(span.keyframe))
                + preroll::packets_at(
                flat,
                preroll::parameter_starts(span.ranges, preroll::whole(span.prelude)),
            );
            &&& head.len() % 188 == 0
            &&& 0 <= preroll::whole(span.prelude) <= span.prelude <= span.keyframe < flat.len()
            &&& preroll::whole(span.prelude) % 188 == 0
        }),
{
    let span = keyframe::keyframe_span(flat, n)->0;
    let before = preroll::whole(span.prelude);
    let starts = preroll::parameter_starts(span.ranges, before);
    keyframe::law_keyframe_span_inside(flat, n);
    lemma_tables_whole(flat, preroll::whole(span.keyframe));
    preroll::lemma_parameter_starts(span.ranges, before);
    lemma_range_starts_positive(span.ranges, before);
    lemma_distinct_positive(preroll::range_starts(span.ranges, before));
    lemma_picked_whole(flat, starts);
}

/// A stream that is cut at a keyframe starts at one: it still has a keyframe,
/// if what its tables announce is what the whole stream announced.
pub proof fn law_cut_keeps_keyframe(flat: Seq<u8>, n: int)
    requires
        flat.len() <= usize::MAX,
        preroll::from_keyframe(flat, n) matches Some(cut) && {
            &&& cut.len() <= usize::MAX
            &&& keyframe::searched_stream(cut) == keyframe::searched_stream(flat)
            &&& keyframe::searched_codec(cut) == keyframe::searched_codec(flat)
        },
    ensures
        keyframe::keyframe_span(preroll::from_keyframe(flat, n)->0, 1) is Some,
{
    let span = keyframe::keyframe_span(flat, n)->0;
    let head = preroll::tables_before(flat, preroll::whole(span.keyframe)) + preroll::packets_at(
        flat,
        preroll::parameter_starts(span.ranges, preroll::whole(span.prelude)),
    );
    lemma_head_whole(flat, n);
    lemma_keyframe_survives(flat, n, preroll::whole(span.prelude), head);
}

/// The same holds of a stream that is cut at the payload unit of a keyframe.
pub proof fn law_unit_cut_keeps_keyframe(flat: Seq<u8>, n: int)
    requires
        flat.len() <= usize::MAX,
        preroll::from_keyframe_unit(flat, n) matches Some(cut) && {
            &&& cut.len() <= usize::MAX
            &&& keyframe::searched_stream(cut) == keyframe::searched_stream(flat)
            &&& keyframe::searched_codec(cut) == keyframe::searched_codec(flat)
        },
    ensures
        keyframe::keyframe_span(preroll::from_keyframe_unit(flat, n)->0, 1) is Some,
{
    let span = keyframe::keyframe_span(flat, n)->0;
    let at = preroll::whole(span.keyframe);
    lemma_unit_start(flat, n);
    lemma_tables_whole(flat, at);
    lemma_keyframe_survives(
        flat,
        n,
        preroll::latest_pes_start(flat, at, span.video_pid->0)->0,
        preroll::tables_before(flat, at),
    );
}

/// Where the payload unit of a keyframe starts.
proof fn lemma_unit_start(flat: Seq<u8>, n: int)
    requires
        flat.len() <= usize::MAX,
        preroll::from_keyframe_unit(flat, n) is Some,
    ensures
        ({
            let span = keyframe::keyframe_span(flat, n)->0;
            let start = preroll::latest_pes_start(
                flat,
                preroll::whole(span.keyframe),
                span.video_pid->0,
            )->0;
            &&& 0 <= start <= span.keyframe < flat.len()
            &&& start % 188 == 0
        }),
{
    let span = keyframe::keyframe_span(flat, n)->0;
    let pid = span.video_pid->0;
    keyframe::law_keyframe_span_inside(flat, n);
    preroll::lemma_latest_packet(
        flat,
        |packet: Seq<u8>| mpegts::pid_of(packet) == Some(pid) && mpegts::starts_unit(packet),
        preroll::whole(span.keyframe) / 188,
    );
}

proof fn lemma_whole_sum(a: int, b: int)
    requires
        a % 188 == 0,
        b % 188 == 0,
    ensures
        (a + b) % 188 == 0,
{
}

proof fn lemma_cut_whole(flat: Seq<u8>, n: int)
    requires
        flat.len() <= usize::MAX,
        flat.len() % 188 == 0,
        preroll::from_keyframe(flat, n) is Some,
    ensures
        preroll::from_keyframe(flat, n)->0.len() % 188 == 0,
{
    let span = keyframe::keyframe_span(flat, n)->0;
    let before = preroll::whole(span.prelude);
    let head = preroll::tables_before(flat, preroll::whole(span.keyframe)) + preroll::packets_at(
        flat,
        preroll::parameter_starts(span.ranges, before),
    );
    lemma_head_whole(flat, n);
    lemma_whole_sum(head.len() as int, flat.len() - before);
}

proof fn lemma_unit_cut_whole(flat: Seq<u8>, n: int)
    requires
        flat.len() <= usize::MAX,
        flat.len() % 188 == 0,
        preroll::from_keyframe_unit(flat, n) is Some,
    ensures
        preroll::from_keyframe_unit(flat, n)->0.len() % 188 == 0,
{
    let span = keyframe::keyframe_span(flat, n)->0;
    let at = preroll::whole(span.keyframe);
    let head = preroll::tables_before(flat, at);
    let start = preroll::latest_pes_start(flat, at, span.video_pid->0)->0;
    lemma_unit_start(flat, n);
    lemma_tables_whole(flat, at);
    lemma_whole_sum(head.len() as int, flat.len() - start);
}

/// A stream of whole packets is cut into whole packets.
pub proof fn law_cut_is_whole(flat: Seq<u8>, n: int)
    requires
        flat.len() <= usize::MAX,
        flat.len() % 188 == 0,
    ensures
        preroll::from_keyframe(flat, n) matches Some(cut) ==> cut.len() % 188 == 0,
        preroll::from_keyframe_unit(flat, n) matches Some(cut) ==> cut.len() % 188 == 0,
{
    if preroll::from_keyframe(flat, n) is Some {
        lemma_cut_whole(flat, n);
    }
    if preroll::from_keyframe_unit(flat, n) is Some {
        lemma_unit_cut_whole(flat, n);
    }
}

// ---------------------------------------------------------------------------
// Streams whose tables do not change
// ---------------------------------------------------------------------------

/// Whether every association packet of a stream names the map `pmt_pid`, and
/// every packet of that map announces `video`.
#[verifier::opaque]
pub open spec fn steady_tables(data: Seq<u8>, pmt_pid: u16, video: VideoStream) -> bool {
    forall|k: int|
        #![trigger mpegts::packet_at(data, k)]
        0 <= k < mpegts::packet_count(data) ==> {
            let packet = mpegts::packet_at(data, k);
            &&& mpegts::pid_of(packet) == Some(0u16) ==> mpegts::pmt_pid_of(packet) == Some(pmt_pid)
            &&& mpegts::section_of(packet, pmt_pid, 0x02) is Some ==> mpegts::video_of(
                packet,
                pmt_pid,
            ) == Some(video)
        }
}

proof fn lemma_steady_map(data: Seq<u8>, pmt_pid: u16, video: VideoStream, k: int, at: int)
    requires
        steady_tables(data, pmt_pid, video),
        0 <= k <= at < mpegts::packet_count(data),
        mpegts::pmt_pid_of(mpegts::packet_at(data, at)) is Some,
    ensures
        mpegts::pmt_pid_from(data, k) == Some(pmt_pid),
    decreases at - k,
{
    reveal(steady_tables);
    let packet = mpegts::packet_at(data, k);
    if mpegts::pmt_pid_of(packet) is None {
        lemma_steady_map(data, pmt_pid, video, k + 1, at);
    }
}

proof fn lemma_steady_video(data: Seq<u8>, pmt_pid: u16, video: VideoStream, k: int, at: int)
    requires
        steady_tables(data, pmt_pid, video),
        0 <= k <= at < mpegts::packet_count(data),
        mpegts::section_of(mpegts::packet_at(data, at), pmt_pid, 0x02) is Some,
    ensures
        mpegts::video_from(data, pmt_pid, k) == Some(video),
    decreases at - k,
{
    reveal(steady_tables);
    let packet = mpegts::packet_at(data, k);
    if mpegts::video_of(packet, pmt_pid) is None {
        assert(mpegts::video_of(mpegts::packet_at(data, at), pmt_pid) == Some(video));
        lemma_steady_video(data, pmt_pid, video, k + 1, at);
    }
}

/// A packet of a stream without payload has none.
proof fn lemma_silent_packet(data: Seq<u8>, filter: Option<u16>, k: int, upto: int)
    requires
        0 <= k < upto,
        keyframe::payload_upto(data, filter, upto).len() == 0,
    ensures
        keyframe::packet_payload(mpegts::packet_at(data, k), filter).len() == 0,
    decreases upto,
{
    if k < upto - 1 {
        lemma_silent_packet(data, filter, k, upto - 1);
    }
}

proof fn lemma_silent_slice(flat: Seq<u8>, filter: Option<u16>, start: int)
    requires
        keyframe::payload_in(flat, filter).len() == 0,
        0 <= start,
        start + 188 <= flat.len(),
        start % 188 == 0,
    ensures
        keyframe::payload_in(flat.subrange(start, start + 188), filter).len() == 0,
{
    let slice = flat.subrange(start, start + 188);
    lemma_silent_packet(flat, filter, start / 188, mpegts::packet_count(flat));
    assert(mpegts::packet_at(slice, 0) =~= mpegts::packet_at(flat, start / 188));
    assert(keyframe::payload_upto(slice, filter, 0).len() == 0);
    assert(keyframe::payload_in(slice, filter).len() == 0);
}

/// The payload of whole packets and of what is behind them.
proof fn lemma_payload_sum(a: Seq<u8>, b: Seq<u8>, filter: Option<u16>)
    requires
        a.len() % 188 == 0,
    ensures
        keyframe::payload_in(a + b, filter).len() == keyframe::payload_in(a, filter).len()
            + keyframe::payload_in(b, filter).len(),
{
    lemma_packet_behind(a, b, 0);
    lemma_payload_behind(a, b, filter, mpegts::packet_count(b));
}

proof fn lemma_silent_picked(flat: Seq<u8>, filter: Option<u16>, starts: Seq<int>)
    requires
        keyframe::payload_in(flat, filter).len() == 0,
        forall|i: int|
            0 <= i < starts.len() ==> 0 <= #[trigger] starts[i] && starts[i] + 188 <= flat.len()
                && starts[i] % 188 == 0,
    ensures
        keyframe::payload_in(preroll::packets_at(flat, starts), filter).len() == 0,
    decreases starts.len(),
{
    if starts.len() > 0 {
        let last = starts[starts.len() - 1];
        lemma_silent_picked(flat, filter, starts.drop_last());
        lemma_picked_whole(flat, starts.drop_last());
        lemma_silent_slice(flat, filter, last);
        lemma_payload_sum(
            preroll::packets_at(flat, starts.drop_last()),
            flat.subrange(last, last + 188),
            filter,
        );
    } else {
        assert(keyframe::payload_upto(preroll::packets_at(flat, starts), filter, 0).len() == 0);
    }
}

proof fn lemma_packet_starts_aligned(start: int, end: int)
    requires
        start % 188 == 0,
    ensures
        forall|i: int|
            0 <= i < preroll::packet_starts(start, end).len() ==> #[trigger] preroll::packet_starts(
                start,
                end,
            )[i] % 188 == 0,
    decreases (if start < end { end - start } else { 0 }),
{
    let all = preroll::packet_starts(start, end);
    if start < end {
        lemma_packet_starts_aligned(start + 188, end);
        let rest = preroll::packet_starts(start + 188, end);
        assert forall|i: int| 0 <= i < all.len() implies #[trigger] all[i] % 188 == 0 by {
            if i > 0 {
                assert(all[i] == rest[i - 1]);
            }
        }
    } else {
        assert(all.len() == 0);
    }
}

proof fn lemma_range_starts_aligned(ranges: Seq<(usize, usize)>, before: int)
    requires
        forall|i: int| 0 <= i < ranges.len() ==> (#[trigger] ranges[i]).0 % 188 == 0,
    ensures
        forall|i: int|
            0 <= i < preroll::range_starts(ranges, before).len() ==> #[trigger]
                preroll::range_starts(ranges, before)[i] % 188 == 0,
    decreases ranges.len(),
{
    let all = preroll::range_starts(ranges, before);
    if ranges.len() > 0 {
        lemma_range_starts_aligned(ranges.drop_last(), before);
        let last = ranges.last();
        assert(ranges[ranges.len() - 1].0 % 188 == 0);
        let end = if last.1 < before {
            last.1 as int
        } else {
            before
        };
        lemma_packet_starts_aligned(last.0 as int, end);
        let earlier = preroll::range_starts(ranges.drop_last(), before);
        let here = preroll::packet_starts(last.0 as int, end);
        assert forall|i: int| 0 <= i < all.len() implies #[trigger] all[i] % 188 == 0 by {
            if i < earlier.len() {
                assert(all[i] == earlier[i]);
            } else {
                assert(all[i] == here[i - earlier.len()]);
            }
        }
    } else {
        assert(all.len() == 0);
    }
}

proof fn lemma_distinct_aligned(starts: Seq<int>)
    requires
        forall|i: int| 0 <= i < starts.len() ==> #[trigger] starts[i] % 188 == 0,
    ensures
        forall|i: int|
            0 <= i < preroll::distinct(starts).len() ==> #[trigger] preroll::distinct(starts)[i]
                % 188 == 0,
    decreases starts.len(),
{
    let all = preroll::distinct(starts);
    if starts.len() > 0 {
        lemma_distinct_aligned(starts.drop_last());
        assert(starts[starts.len() - 1] % 188 == 0);
        let earlier = preroll::distinct(starts.drop_last());
        assert forall|i: int| 0 <= i < all.len() implies #[trigger] all[i] % 188 == 0 by {
            if i < earlier.len() {
                assert(all[i] == earlier[i]);
            }
        }
    } else {
        assert(all.len() == 0);
    }
}

/// The same video is announced where the tables stand in front, and its payload
/// is found in the same cases.
proof fn lemma_steady_search(
    flat: Seq<u8>,
    at: int,
    cut: int,
    more: Seq<u8>,
    pmt_pid: u16,
    video: VideoStream,
)
    requires
        steady_tables(flat, pmt_pid, video),
        0 <= at,
        preroll::latest_pat(flat, at) matches Some(pat) && preroll::latest_pmt(flat, at, pat) is Some,
        0 <= cut <= flat.len(),
        cut % 188 == 0,
        more.len() % 188 == 0,
        keyframe::payload_in(flat, Some(video.pid)).len() == 0 ==> keyframe::payload_in(
            more,
            Some(video.pid),
        ).len() == 0,
        keyframe::payload_in(flat, Some(video.pid)).len() > 0 ==> keyframe::payload_in(
            flat.skip(cut),
            Some(video.pid),
        ).len() > 0,
    ensures
        ({
            let out = preroll::tables_before(flat, at) + more + flat.skip(cut);
            &&& keyframe::searched_stream(out) == keyframe::searched_stream(flat)
            &&& keyframe::searched_codec(out) == keyframe::searched_codec(flat)
            &&& mpegts::video_in(flat) == Some(video)
        }),
{
    let pat = preroll::latest_pat(flat, at)->0;
    let pmt = preroll::latest_pmt(flat, at, pat)->0;
    let rest = flat.skip(cut);
    let first = flat.subrange(pat, pat + 188);
    let second = flat.subrange(pmt, pmt + 188);
    lemma_steady_found(flat, at, pmt_pid, video);
    assert(preroll::tables_before(flat, at) == first + second);
    lemma_tables_announce(first, second, more + rest, pmt_pid, video);
    assert(first + second + more + rest =~= first + second + (more + rest));
    lemma_silent_alike(flat, pat, pmt, more, cut, Some(video.pid));
}

/// Payload is found in a stream with some of its packets in front in the same
/// cases as in the stream.
#[verifier::spinoff_prover]
proof fn lemma_silent_alike(
    flat: Seq<u8>,
    pat: int,
    pmt: int,
    more: Seq<u8>,
    cut: int,
    filter: Option<u16>,
)
    requires
        0 <= pat && pat + 188 <= flat.len() && pat % 188 == 0,
        0 <= pmt && pmt + 188 <= flat.len() && pmt % 188 == 0,
        0 <= cut <= flat.len(),
        cut % 188 == 0,
        more.len() % 188 == 0,
        keyframe::payload_in(flat, filter).len() == 0 ==> keyframe::payload_in(more, filter).len()
            == 0,
        keyframe::payload_in(flat, filter).len() > 0 ==> keyframe::payload_in(
            flat.skip(cut),
            filter,
        ).len() > 0,
    ensures
        ({
            let out = flat.subrange(pat, pat + 188) + flat.subrange(pmt, pmt + 188) + more
                + flat.skip(cut);
            keyframe::payload_in(out, filter).len() == 0 <==> keyframe::payload_in(
                flat,
                filter,
            ).len() == 0
        }),
{
    let rest = flat.skip(cut);
    let front = flat.take(cut);
    let first = flat.subrange(pat, pat + 188);
    let second = flat.subrange(pmt, pmt + 188);
    let tables = first + second;
    let head = tables + more;
    assert(head.len() == 376 + more.len());
    assert((376 + more.len()) % 188 == 0);
    lemma_payload_sum(head, rest, filter);
    lemma_payload_sum(tables, more, filter);
    lemma_payload_sum(first, second, filter);
    lemma_payload_sum(front, rest, filter);
    assert(front + rest =~= flat);
    let all = keyframe::payload_in(flat, filter).len();
    if all == 0 {
        lemma_silent_slice(flat, filter, pat);
        lemma_silent_slice(flat, filter, pmt);
        assert(keyframe::payload_in(head + rest, filter).len() == 0);
    } else {
        assert(keyframe::payload_in(head + rest, filter).len() > 0);
    }
}

/// The tables that are found, and what the stream announces.
proof fn lemma_steady_found(flat: Seq<u8>, at: int, pmt_pid: u16, video: VideoStream)
    requires
        steady_tables(flat, pmt_pid, video),
        0 <= at,
        preroll::latest_pat(flat, at) matches Some(pat) && preroll::latest_pmt(flat, at, pat) is Some,
    ensures
        ({
            let pat = preroll::latest_pat(flat, at)->0;
            let pmt = preroll::latest_pmt(flat, at, pat)->0;
            &&& 0 <= pat && pat + 188 <= flat.len() && pat % 188 == 0
            &&& 0 <= pmt && pmt + 188 <= flat.len() && pmt % 188 == 0
            &&& mpegts::pmt_pid_of(flat.subrange(pat, pat + 188)) == Some(pmt_pid)
            &&& mpegts::video_of(flat.subrange(pmt, pmt + 188), pmt_pid) == Some(video)
            &&& mpegts::video_in(flat) == Some(video)
        }),
{
    reveal(steady_tables);
    let pat = preroll::latest_pat(flat, at)->0;
    let pmt = preroll::latest_pmt(flat, at, pat)->0;
    lemma_latest_says(
        flat,
        |packet: Seq<u8>| mpegts::pid_of(packet) == Some(0u16),
        at / 188,
    );
    assert(flat.subrange(pat, pat + 188) =~= mpegts::packet_at(flat, pat / 188));
    assert(mpegts::pmt_pid_of(mpegts::packet_at(flat, pat / 188)) == Some(pmt_pid));
    lemma_latest_says(
        flat,
        |packet: Seq<u8>| mpegts::section_of(packet, pmt_pid, 0x02) is Some,
        at / 188,
    );
    assert(flat.subrange(pmt, pmt + 188) =~= mpegts::packet_at(flat, pmt / 188));
    lemma_steady_map(flat, pmt_pid, video, 0, pat / 188);
    lemma_steady_video(flat, pmt_pid, video, 0, pmt / 188);
}

/// Tables in front announce the video.
proof fn lemma_tables_announce(
    first: Seq<u8>,
    second: Seq<u8>,
    rest: Seq<u8>,
    pmt_pid: u16,
    video: VideoStream,
)
    requires
        first.len() == 188,
        second.len() == 188,
        mpegts::pmt_pid_of(first) == Some(pmt_pid),
        mpegts::video_of(second, pmt_pid) == Some(video),
    ensures
        mpegts::video_in(first + second + rest) == Some(video),
{
    let out = first + second + rest;
    assert(mpegts::packet_at(out, 0) =~= first);
    assert(mpegts::packet_at(out, 1) =~= second);
    assert(mpegts::pmt_pid_from(out, 0) == Some(pmt_pid));
    assert(mpegts::section_of(first, pmt_pid, 0x02) is None);
    assert(mpegts::video_of(first, pmt_pid) is None);
    assert(mpegts::video_from(out, pmt_pid, 1) == Some(video));
}

/// What is said of the packet that is found.
proof fn lemma_latest_says(flat: Seq<u8>, holds: spec_fn(Seq<u8>) -> bool, k: int)
    ensures
        preroll::latest_packet(flat, holds, k) matches Some(start) ==> {
            &&& 0 <= start && start + 188 <= flat.len() && start % 188 == 0
            &&& holds(mpegts::packet_at(flat, start / 188))
        },
    decreases k + 1,
{
    if k >= 0 {
        lemma_latest_says(flat, holds, k - 1);
        if k < mpegts::packet_count(flat) {
            mpegts::lemma_packet_bounds(flat, k);
        }
    }
}

/// A keyframe behind the cut leaves payload behind the cut.
proof fn lemma_keyframe_behind(flat: Seq<u8>, n: int, cut: int)
    requires
        flat.len() <= usize::MAX,
        cut % 188 == 0,
        keyframe::keyframe_span(flat, n) matches Some(span) && 0 <= cut <= span.keyframe,
    ensures
        keyframe::payload_in(flat.skip(cut), keyframe::searched_stream(flat)).len() > 0,
{
    let filter = keyframe::searched_stream(flat);
    let codec = keyframe::searched_codec(flat);
    let rest = flat.skip(cut);
    let front = flat.take(cut);
    let payload = keyframe::payload_in(flat, filter);
    let nals = keyframe::start_codes(payload);
    let k = keyframe::keyframe_unit(flat, n)->0;
    let count = mpegts::packet_count(flat);
    let at = nals[k].0 as int;
    keyframe::law_keyframe_span_inside(flat, n);
    keyframe::lemma_nth_keyframe(codec, payload, nals, n, 0);
    keyframe::law_payload_offsets(flat, filter, count);
    keyframe::lemma_offsets_len(flat, filter, count);
    keyframe::lemma_start_codes(payload, 0);
    assert(nals[k] == keyframe::start_codes_from(payload, 0)[k]);
    assert(front + rest =~= flat);
    lemma_packet_behind(front, rest, 0);
    lemma_payload_behind(front, rest, filter, mpegts::packet_count(rest));
    lemma_payload_front(front, rest, filter, mpegts::packet_count(front));
    keyframe::law_payload_offsets(flat, filter, mpegts::packet_count(front));
    lemma_offsets_front(flat, filter, mpegts::packet_count(front), count);
    let before = keyframe::payload_in(front, filter);
    if at < before.len() {
        assert(keyframe::offsets_upto(flat, filter, mpegts::packet_count(front))[at] < cut);
        assert(keyframe::offsets_in(flat, filter)[at] < cut);
    }
}

/// Whether the tables of a stream do not change and stand before a keyframe.
pub open spec fn tables_lead(
    flat: Seq<u8>,
    n: int,
    pmt_pid: u16,
    video: VideoStream,
) -> bool {
    &&& steady_tables(flat, pmt_pid, video)
    &&& keyframe::keyframe_span(flat, n) matches Some(span) && preroll::latest_pat(
        flat,
        preroll::whole(span.keyframe),
    ) matches Some(pat) && preroll::latest_pmt(flat, preroll::whole(span.keyframe), pat) is Some
}

/// The packets of the parameter sets have no payload of a stream without any.
proof fn lemma_silent_parameters(flat: Seq<u8>, n: int, filter: Option<u16>)
    requires
        flat.len() <= usize::MAX,
        keyframe::keyframe_span(flat, n) is Some,
    ensures
        ({
            let span = keyframe::keyframe_span(flat, n)->0;
            let picked = preroll::packets_at(
                flat,
                preroll::parameter_starts(span.ranges, preroll::whole(span.prelude)),
            );
            &&& picked.len() % 188 == 0
            &&& keyframe::payload_in(flat, filter).len() == 0 ==> keyframe::payload_in(
                picked,
                filter,
            ).len() == 0
        }),
{
    let span = keyframe::keyframe_span(flat, n)->0;
    let before = preroll::whole(span.prelude);
    let starts = preroll::parameter_starts(span.ranges, before);
    keyframe::law_keyframe_span_inside(flat, n);
    preroll::lemma_parameter_starts(span.ranges, before);
    lemma_range_starts_positive(span.ranges, before);
    lemma_distinct_positive(preroll::range_starts(span.ranges, before));
    lemma_range_starts_aligned(span.ranges, before);
    lemma_distinct_aligned(preroll::range_starts(span.ranges, before));
    lemma_picked_whole(flat, starts);
    if keyframe::payload_in(flat, filter).len() == 0 {
        lemma_silent_picked(flat, filter, starts);
    }
}

/// Behind a cut before a keyframe, payload of the announced video is found where
/// it is found at all.
proof fn lemma_steady_behind(
    flat: Seq<u8>,
    n: int,
    cut: int,
    pmt_pid: u16,
    video: VideoStream,
)
    requires
        flat.len() <= usize::MAX,
        tables_lead(flat, n, pmt_pid, video),
        0 <= cut <= keyframe::keyframe_span(flat, n)->0.keyframe,
        cut % 188 == 0,
    ensures
        cut <= flat.len(),
        0 <= preroll::whole(keyframe::keyframe_span(flat, n)->0.keyframe),
        keyframe::payload_in(flat, Some(video.pid)).len() > 0 ==> keyframe::payload_in(
            flat.skip(cut),
            Some(video.pid),
        ).len() > 0,
{
    keyframe::law_keyframe_span_inside(flat, n);
    lemma_steady_found(
        flat,
        preroll::whole(keyframe::keyframe_span(flat, n)->0.keyframe),
        pmt_pid,
        video,
    );
    lemma_keyframe_behind(flat, n, cut);
}

/// A stream whose tables do not change and stand before the keyframe can be cut
/// there: what is cut still has the keyframe.
pub proof fn law_steady_cut_keeps_keyframe(
    flat: Seq<u8>,
    n: int,
    pmt_pid: u16,
    video: VideoStream,
)
    requires
        flat.len() <= usize::MAX,
        tables_lead(flat, n, pmt_pid, video),
        preroll::from_keyframe(flat, n)->0.len() <= usize::MAX,
    ensures
        preroll::from_keyframe(flat, n) is Some,
        keyframe::keyframe_span(preroll::from_keyframe(flat, n)->0, 1) is Some,
{
    let span = keyframe::keyframe_span(flat, n)->0;
    let before = preroll::whole(span.prelude);
    lemma_head_whole(flat, n);
    lemma_silent_parameters(flat, n, Some(video.pid));
    lemma_steady_behind(flat, n, before, pmt_pid, video);
    lemma_steady_search(
        flat,
        preroll::whole(span.keyframe),
        before,
        preroll::packets_at(flat, preroll::parameter_starts(span.ranges, before)),
        pmt_pid,
        video,
    );
    law_cut_keeps_keyframe(flat, n);
}

/// The same holds of a cut at the payload unit of the keyframe.
pub proof fn law_steady_unit_cut_keeps_keyframe(
    flat: Seq<u8>,
    n: int,
    pmt_pid: u16,
    video: VideoStream,
)
    requires
        flat.len() <= usize::MAX,
        tables_lead(flat, n, pmt_pid, video),
        preroll::from_keyframe_unit(flat, n) matches Some(cut) && cut.len() <= usize::MAX,
    ensures
        keyframe::keyframe_span(preroll::from_keyframe_unit(flat, n)->0, 1) is Some,
{
    let span = keyframe::keyframe_span(flat, n)->0;
    let at = preroll::whole(span.keyframe);
    let none = Seq::<u8>::empty();
    let start = preroll::latest_pes_start(flat, at, span.video_pid->0)->0;
    lemma_unit_start(flat, n);
    lemma_steady_behind(flat, n, start, pmt_pid, video);
    assert(keyframe::payload_upto(none, Some(video.pid), 0).len() == 0);
    lemma_steady_search(flat, at, start, none, pmt_pid, video);
    assert(preroll::tables_before(flat, at) + none =~= preroll::tables_before(flat, at));
    law_unit_cut_keeps_keyframe(flat, n);
}

// ---------------------------------------------------------------------------
// Cleaning
// ---------------------------------------------------------------------------

proof fn lemma_kept_whole(data: Seq<u8>, pids: Set<u16>, k: int)
    requires
        0 <= k <= mpegts::packet_count(data),
    ensures
        preroll::kept_upto(data, pids, k).len() % 188 == 0,
    decreases k,
{
    if k > 0 {
        lemma_kept_whole(data, pids, k - 1);
        mpegts::lemma_packet_bounds(data, k - 1);
    }
}

/// One packet more.
proof fn lemma_one_more(kept: Seq<u8>, packet: Seq<u8>)
    requires
        kept.len() % 188 == 0,
        packet.len() == 188,
    ensures
        mpegts::packet_count(kept + packet) == mpegts::packet_count(kept) + 1,
        mpegts::packet_at(kept + packet, mpegts::packet_count(kept)) == packet,
        forall|b: int|
            0 <= b < mpegts::packet_count(kept) ==> #[trigger] mpegts::packet_at(kept + packet, b)
                == mpegts::packet_at(kept, b),
{
    lemma_packet_behind(kept, packet, 0);
    assert(mpegts::packet_at(packet, 0) =~= packet);
    assert forall|b: int| 0 <= b < mpegts::packet_count(kept) implies #[trigger] mpegts::packet_at(
        kept + packet,
        b,
    ) == mpegts::packet_at(kept, b) by {
        lemma_packet_behind(kept, packet, b);
    }
}

proof fn lemma_cleaning_keeps(data: Seq<u8>, pids: Set<u16>, pid: u16, k: int)
    requires
        0 <= k <= mpegts::packet_count(data),
        !pids.contains(pid),
    ensures
        keyframe::payload_in(preroll::kept_upto(data, pids, k), Some(pid))
            == keyframe::payload_upto(data, Some(pid), k),
    decreases k,
{
    if k > 0 {
        lemma_cleaning_keeps(data, pids, pid, k - 1);
        lemma_kept_whole(data, pids, k - 1);
        mpegts::lemma_packet_bounds(data, k - 1);
        let kept = preroll::kept_upto(data, pids, k - 1);
        let packet = mpegts::packet_at(data, k - 1);
        if preroll::is_kept(data, pids, k - 1) {
            lemma_one_more(kept, packet);
            lemma_payload_front(kept, packet, Some(pid), mpegts::packet_count(kept));
        } else {
            assert(keyframe::packet_payload(packet, Some(pid)) =~= seq![]);
            assert(keyframe::payload_upto(data, Some(pid), k) =~= keyframe::payload_upto(
                data,
                Some(pid),
                k - 1,
            ));
        }
    }
}

/// Cleaning loses nothing of the video, nor of any stream that is not cleaned.
pub proof fn law_cleaning_keeps_video(data: Seq<u8>, pids: Set<u16>, pid: u16)
    requires
        !pids.contains(pid),
    ensures
        keyframe::payload_in(
            preroll::kept_upto(data, pids, mpegts::packet_count(data)),
            Some(pid),
        ) == keyframe::payload_in(data, Some(pid)),
{
    lemma_cleaning_keeps(data, pids, pid, mpegts::packet_count(data));
}

proof fn lemma_started_later(data: Seq<u8>, more: Seq<u8>, pid: u16, j: int, k: int)
    requires
        data.len() % 188 == 0,
        more.len() == 188,
        0 <= j <= mpegts::packet_count(data),
        j <= k,
        preroll::unit_started(data, pid, j),
    ensures
        preroll::unit_started(data + more, pid, k),
{
    lemma_one_more(data, more);
    let b = choose|b: int|
        0 <= b < j && mpegts::pid_of(#[trigger] mpegts::packet_at(data, b)) == Some(pid)
            && mpegts::starts_unit(mpegts::packet_at(data, b));
    assert(mpegts::packet_at(data + more, b) == mpegts::packet_at(data, b));
}

proof fn lemma_cleaned_starts(data: Seq<u8>, pids: Set<u16>, k: int)
    requires
        0 <= k <= mpegts::packet_count(data),
    ensures
        ({
            let kept = preroll::kept_upto(data, pids, k);
            &&& forall|b: int|
                0 <= b < mpegts::packet_count(kept) ==> (mpegts::pid_of(
                    #[trigger] mpegts::packet_at(kept, b),
                ) matches Some(pid) ==> pids.contains(pid) ==> preroll::unit_started(
                    kept,
                    pid,
                    b + 1,
                ))
            &&& forall|pid: u16|
                pids.contains(pid) && #[trigger] preroll::unit_started(data, pid, k)
                    ==> preroll::unit_started(kept, pid, mpegts::packet_count(kept))
        }),
    decreases k,
{
    let all = preroll::kept_upto(data, pids, k);
    if k > 0 {
        lemma_cleaned_starts(data, pids, k - 1);
        lemma_kept_whole(data, pids, k - 1);
        mpegts::lemma_packet_bounds(data, k - 1);
        let kept = preroll::kept_upto(data, pids, k - 1);
        let count = mpegts::packet_count(kept);
        let packet = mpegts::packet_at(data, k - 1);
        assert forall|pid: u16|
            pids.contains(pid) && #[trigger] preroll::unit_started(data, pid, k) implies
            preroll::unit_started(all, pid, mpegts::packet_count(all)) by {
            if mpegts::pid_of(packet) == Some(pid) {
                lemma_one_more(kept, packet);
                if mpegts::starts_unit(packet) {
                    assert(mpegts::packet_at(all, count) == packet);
                } else {
                    assert(preroll::unit_started(data, pid, k - 1));
                    lemma_started_later(kept, packet, pid, count, count + 1);
                }
            } else {
                assert(preroll::unit_started(data, pid, k - 1));
                if preroll::is_kept(data, pids, k - 1) {
                    lemma_one_more(kept, packet);
                    lemma_started_later(kept, packet, pid, count, count + 1);
                }
            }
        }
        assert forall|b: int| 0 <= b < mpegts::packet_count(all) implies (mpegts::pid_of(
            #[trigger] mpegts::packet_at(all, b),
        ) matches Some(pid) ==> pids.contains(pid) ==> preroll::unit_started(all, pid, b + 1)) by {
            if preroll::is_kept(data, pids, k - 1) {
                lemma_one_more(kept, packet);
                if let Some(pid) = mpegts::pid_of(mpegts::packet_at(all, b)) {
                    if b < count {
                        assert(mpegts::packet_at(all, b) == mpegts::packet_at(kept, b));
                        if pids.contains(pid) {
                            lemma_started_later(kept, packet, pid, b + 1, b + 1);
                        }
                    }
                }
            }
        }
    } else {
        assert(all.len() == 0);
    }
}

/// After cleaning, the first packet of each stream that is cleaned starts a
/// unit: no unit comes without its start.
pub proof fn law_cleaned_starts_units(data: Seq<u8>, pids: Set<u16>, b: int, pid: u16)
    requires
        ({
            let kept = preroll::kept_upto(data, pids, mpegts::packet_count(data));
            &&& 0 <= b < mpegts::packet_count(kept)
            &&& mpegts::pid_of(mpegts::packet_at(kept, b)) == Some(pid)
        }),
        pids.contains(pid),
    ensures
        preroll::unit_started(
            preroll::kept_upto(data, pids, mpegts::packet_count(data)),
            pid,
            b + 1,
        ),
{
    lemma_cleaned_starts(data, pids, mpegts::packet_count(data));
}

// ---------------------------------------------------------------------------
// Marking and announcing
// ---------------------------------------------------------------------------

/// Marking sets the discontinuity flag of the first packet of each stream,
/// where that packet has flags, and changes nothing else.
pub proof fn law_marks_first_packets(chunks: Seq<Seq<u8>>, i: int, k: int)
    requires
        0 <= i < chunks.len(),
        0 <= k < mpegts::packet_count(chunks[i]),
    ensures
        ({
            let packet = mpegts::packet_at(chunks[i], k);
            let now = mpegts::packet_at(preroll::marked(chunks)[i], k);
            &&& preroll::marked(chunks).len() == chunks.len()
            &&& preroll::marked(chunks)[i].len() == chunks[i].len()
            &&& if preroll::is_first(chunks, i, k) && preroll::has_flags(packet) {
                now[5] >= 0x80 && now == packet.update(5, now[5])
            } else {
                now == packet
            }
        }),
{
    let count = mpegts::packet_count(chunks[i]);
    let packet = mpegts::packet_at(chunks[i], k);
    let now = mpegts::packet_at(preroll::marked(chunks)[i], k);
    preroll::lemma_marked_len(chunks, i, count);
    mpegts::lemma_packet_bounds(chunks[i], k);
    assert(now =~= mpegts::packet_at(preroll::marked_upto(chunks, i, count), k));
    if preroll::is_first(chunks, i, k) && preroll::has_flags(packet) {
        assert(now =~= packet.update(5, now[5]));
    }
}

/// The packet that announces the discontinuity of the stream of a packet.
pub open spec fn announcement(chunks: Seq<Seq<u8>>, i: int, k: int) -> Seq<u8> {
    let packet = mpegts::packet_at(chunks[i], k);
    preroll::discontinuity_of(mpegts::pid_of(packet)->0, packet[3])
}

/// An announcement belongs to its stream, sets the discontinuity flag and has
/// no payload.
pub proof fn law_announcement(pid: u16, counter: u8)
    requires
        pid < 0x2000,
    ensures
        ({
            let packet = preroll::discontinuity_of(pid, counter);
            &&& packet.len() == 188
            &&& mpegts::pid_of(packet) == Some(pid)
            &&& preroll::has_flags(packet)
            &&& packet[5] >= 0x80
            &&& mpegts::payload_offset(packet) is None
            &&& packet[3] % 16 == counter % 16
        }),
{
}

proof fn lemma_announced_whole(chunks: Seq<Seq<u8>>, i: int, k: int)
    ensures
        preroll::announced_upto(chunks, i, k).len() % 188 == 0,
    decreases k,
{
    if k > 0 {
        lemma_announced_whole(chunks, i, k - 1);
    }
}

proof fn lemma_all_announced_whole(chunks: Seq<Seq<u8>>, i: int)
    ensures
        preroll::announced(chunks, i).len() % 188 == 0,
    decreases i,
{
    if i > 0 {
        lemma_all_announced_whole(chunks, i - 1);
        lemma_announced_whole(chunks, i - 1, mpegts::packet_count(chunks[i - 1]));
    }
}

proof fn lemma_announced_in_chunk(chunks: Seq<Seq<u8>>, i: int, k: int, upto: int) -> (b: int)
    requires
        0 <= k < upto,
        preroll::is_first(chunks, i, k),
    ensures
        0 <= b < mpegts::packet_count(preroll::announced_upto(chunks, i, upto)),
        mpegts::packet_at(preroll::announced_upto(chunks, i, upto), b) == announcement(
            chunks,
            i,
            k,
        ),
    decreases upto,
{
    let earlier = preroll::announced_upto(chunks, i, upto - 1);
    lemma_announced_whole(chunks, i, upto - 1);
    if k == upto - 1 {
        lemma_one_more(earlier, announcement(chunks, i, k));
        mpegts::packet_count(earlier)
    } else {
        let b = lemma_announced_in_chunk(chunks, i, k, upto - 1);
        if preroll::is_first(chunks, i, upto - 1) {
            lemma_one_more(earlier, announcement(chunks, i, upto - 1));
        } else {
            assert(preroll::announced_upto(chunks, i, upto) =~= earlier);
        }
        b
    }
}

/// Every stream of the chunks is announced, with the counter of its first
/// packet.
pub proof fn law_every_stream_announced(chunks: Seq<Seq<u8>>, i: int, k: int, upto: int) -> (b: int)
    requires
        0 <= i < upto <= chunks.len(),
        0 <= k < mpegts::packet_count(chunks[i]),
        preroll::is_first(chunks, i, k),
    ensures
        0 <= b < mpegts::packet_count(preroll::announced(chunks, upto)),
        mpegts::packet_at(preroll::announced(chunks, upto), b) == announcement(chunks, i, k),
    decreases upto,
{
    let earlier = preroll::announced(chunks, upto - 1);
    let here = preroll::announced_upto(chunks, upto - 1, mpegts::packet_count(chunks[upto - 1]));
    lemma_all_announced_whole(chunks, upto - 1);
    if i == upto - 1 {
        let b = lemma_announced_in_chunk(chunks, i, k, mpegts::packet_count(chunks[i]));
        lemma_packet_behind(earlier, here, b);
        mpegts::packet_count(earlier) + b
    } else {
        let b = law_every_stream_announced(chunks, i, k, upto - 1);
        lemma_packet_behind(earlier, here, b);
        b
    }
}

/// A stream that the chunks carry has a first packet.
pub proof fn law_every_stream_has_a_first_packet(chunks: Seq<Seq<u8>>, a: int, b: int, pid: u16) -> (
    first: (int, int)
)
    requires
        0 <= a < chunks.len(),
        0 <= b < mpegts::packet_count(chunks[a]),
        mpegts::pid_of(mpegts::packet_at(chunks[a], b)) == Some(pid),
    ensures
        0 <= first.0 < chunks.len(),
        0 <= first.1 < mpegts::packet_count(chunks[first.0]),
        mpegts::pid_of(mpegts::packet_at(chunks[first.0], first.1)) == Some(pid),
        preroll::is_first(chunks, first.0, first.1),
    decreases a, b,
{
    if preroll::seen_before(chunks, a, b, pid) {
        let (c, d) = choose|c: int, d: int|
            0 <= c < chunks.len() && 0 <= d < mpegts::packet_count(chunks[c]) && (c < a || (c == a
                && d < b)) && mpegts::pid_of(#[trigger] mpegts::packet_at(chunks[c], d)) == Some(
                pid,
            );
        law_every_stream_has_a_first_packet(chunks, c, d, pid)
    } else {
        (a, b)
    }
}

// ---------------------------------------------------------------------------
// A prepared stream
// ---------------------------------------------------------------------------

/// Whether all chunks are whole packets.
pub open spec fn all_whole(chunks: Seq<Seq<u8>>) -> bool {
    forall|i: int| 0 <= i < chunks.len() ==> (#[trigger] chunks[i]).len() % 188 == 0
}

proof fn lemma_joined_whole(chunks: Seq<Seq<u8>>)
    requires
        all_whole(chunks),
    ensures
        preroll::joined(chunks).len() % 188 == 0,
    decreases chunks.len(),
{
    if chunks.len() > 0 {
        assert(chunks[chunks.len() - 1].len() % 188 == 0);
        assert forall|i: int| 0 <= i < chunks.drop_last().len() implies (
        #[trigger] chunks.drop_last()[i]).len() % 188 == 0 by {
            assert(chunks[i].len() % 188 == 0);
        }
        lemma_joined_whole(chunks.drop_last());
    }
}

/// Reading keeps the packets whole.
pub proof fn law_preparation_stays_whole(p: Prepared, data: Seq<u8>)
    requires
        all_whole(p.chunks),
    ensures
        all_whole(p.with_data(data).chunks),
{
}

/// Whether all chunks are whole packets, and at least one.
pub open spec fn sendable(chunks: Seq<Seq<u8>>) -> bool {
    forall|i: int|
        0 <= i < chunks.len() ==> (#[trigger] chunks[i]).len() > 0 && chunks[i].len() % 188 == 0
}

proof fn lemma_cleaned_whole(cut: Seq<u8>)
    requires
        cut.len() % 188 == 0,
    ensures
        preroll::cleaned(seq![cut]).len() == 1,
        preroll::cleaned(seq![cut])[0].len() % 188 == 0,
{
    let joint = preroll::joined(seq![cut]);
    if let Some(video) = mpegts::video_in(joint) {
        lemma_kept_whole(
            joint,
            preroll::other_streams(joint, video.pid),
            mpegts::packet_count(joint),
        );
    }
}

/// A prepared stream is whole packets, and there is one wherever the keyframes
/// have come and the source is passed on. No chunk of it is empty, except where
/// cleaning drops everything: then there is a single empty chunk.
pub proof fn law_prepared_stream(p: Prepared)
    requires
        all_whole(p.chunks),
        preroll::joined(p.chunks).len() <= usize::MAX,
    ensures
        p.result() matches Some(chunks) ==> {
            let clean = preroll::cleaned(seq![p.cut()->0]);
            &&& all_whole(chunks)
            &&& clean[0].len() > 0 ==> sendable(chunks)
            &&& clean[0].len() == 0 ==> chunks == seq![Seq::<u8>::empty()]
        },
        p.result() is Some ==> p.has_keyframes(),
        p.copies && p.has_keyframes() ==> p.result() is Some,
{
    let flat = preroll::joined(p.chunks);
    lemma_joined_whole(p.chunks);
    law_cut_is_whole(flat, p.keyframes);
    if p.result() is Some {
        let clean = preroll::cleaned(seq![p.cut()->0]);
        lemma_cleaned_whole(p.cut()->0);
        lemma_finished_chunks(clean[0]);
        assert(clean =~= seq![clean[0]]);
    }
}

proof fn lemma_finished_chunks(bytes: Seq<u8>)
    requires
        bytes.len() % 188 == 0,
    ensures
        ({
            let chunks = preroll::with_announcements(preroll::marked(seq![bytes]));
            &&& all_whole(chunks)
            &&& bytes.len() > 0 ==> sendable(chunks)
            &&& bytes.len() == 0 ==> chunks == seq![Seq::<u8>::empty()]
        }),
{
    let marked = preroll::marked(seq![bytes]);
    let front = preroll::announced(marked, 1);
    let chunks = preroll::with_announcements(marked);
    preroll::lemma_marked_len(seq![bytes], 0, mpegts::packet_count(bytes));
    assert(marked[0].len() == bytes.len());
    assert(marked =~= seq![marked[0]]);
    lemma_all_announced_whole(marked, 1);
    if bytes.len() == 0 {
        assert(preroll::announced(marked, 0).len() == 0);
        assert(preroll::announced_upto(marked, 0, 0).len() == 0);
        assert(front.len() == 0);
        assert(chunks =~= seq![Seq::<u8>::empty()]);
    }
    assert forall|i: int| 0 <= i < chunks.len() implies (#[trigger] chunks[i]).len() % 188 == 0 && (
    bytes.len() > 0 ==> chunks[i].len() > 0) by {
        assert(chunks[i] == front || chunks[i] == marked[0]);
    }
}

/// Cleaning leaves something of a stream that is not empty, where the tables do
/// not list the association packets as a stream of their own.
pub proof fn law_cleaning_leaves_something(cut: Seq<u8>)
    requires
        cut.len() > 0,
        mpegts::video_in(cut) matches Some(video) ==> !preroll::other_streams(
            cut,
            video.pid,
        ).contains(0),
    ensures
        preroll::cleaned(seq![cut])[0].len() > 0,
{
    lemma_joined_one(cut);
    if let Some(video) = mpegts::video_in(cut) {
        let pids = preroll::other_streams(cut, video.pid);
        let k = lemma_association_at(cut, 0);
        assert(preroll::is_kept(cut, pids, k));
        lemma_kept_grows(cut, pids, k, mpegts::packet_count(cut));
    }
}

/// Where a map is named, an association packet names it.
proof fn lemma_association_at(data: Seq<u8>, k: int) -> (at: int)
    requires
        0 <= k,
        mpegts::pmt_pid_from(data, k) is Some,
    ensures
        k <= at < mpegts::packet_count(data),
        mpegts::pid_of(mpegts::packet_at(data, at)) == Some(0u16),
    decreases mpegts::packet_count(data) - k,
{
    if mpegts::pmt_pid_of(mpegts::packet_at(data, k)) is Some {
        k
    } else {
        lemma_association_at(data, k + 1)
    }
}

proof fn lemma_kept_grows(data: Seq<u8>, pids: Set<u16>, k: int, upto: int)
    requires
        0 <= k < upto <= mpegts::packet_count(data),
        preroll::is_kept(data, pids, k),
    ensures
        preroll::kept_upto(data, pids, upto).len() > 0,
    decreases upto,
{
    mpegts::lemma_packet_bounds(data, upto - 1);
    if k < upto - 1 {
        lemma_kept_grows(data, pids, k, upto - 1);
    }
}

// ---------------------------------------------------------------------------
// Cleaning, marking and announcing keep the keyframes
// ---------------------------------------------------------------------------

/// The first thing that one of the first `k` packets says.
spec fn first_before<T>(
    data: Seq<u8>,
    says: spec_fn(Seq<u8>) -> Option<T>,
    k: int,
) -> Option<T>
    decreases k,
{
    if k <= 0 {
        None
    } else if first_before(data, says, k - 1) is Some {
        first_before(data, says, k - 1)
    } else {
        says(mpegts::packet_at(data, k - 1))
    }
}

spec fn says_map() -> spec_fn(Seq<u8>) -> Option<u16> {
    |packet: Seq<u8>| mpegts::pmt_pid_of(packet)
}

spec fn says_video(pmt_pid: u16) -> spec_fn(Seq<u8>) -> Option<VideoStream> {
    |packet: Seq<u8>| mpegts::video_of(packet, pmt_pid)
}

proof fn lemma_map_before(data: Seq<u8>, k: int)
    requires
        0 <= k <= mpegts::packet_count(data),
    ensures
        mpegts::pmt_pid_from(data, 0) == if first_before(data, says_map(), k) is Some {
            first_before(data, says_map(), k)
        } else {
            mpegts::pmt_pid_from(data, k)
        },
    decreases k,
{
    if k > 0 {
        lemma_map_before(data, k - 1);
    }
}

proof fn lemma_video_before(data: Seq<u8>, pmt_pid: u16, k: int)
    requires
        0 <= k <= mpegts::packet_count(data),
    ensures
        mpegts::video_from(data, pmt_pid, 0) == if first_before(data, says_video(pmt_pid), k) is Some {
            first_before(data, says_video(pmt_pid), k)
        } else {
            mpegts::video_from(data, pmt_pid, k)
        },
    decreases k,
{
    if k > 0 {
        lemma_video_before(data, pmt_pid, k - 1);
    }
}

/// What packets behind whole packets say.
proof fn lemma_says_front<T>(
    a: Seq<u8>,
    b: Seq<u8>,
    says: spec_fn(Seq<u8>) -> Option<T>,
    k: int,
)
    requires
        a.len() % 188 == 0,
        0 <= k <= mpegts::packet_count(a),
    ensures
        first_before(a + b, says, k) == first_before(a, says, k),
    decreases k,
{
    if k > 0 {
        lemma_says_front(a, b, says, k - 1);
        lemma_packet_behind(a, b, k - 1);
    }
}

/// Packets that say nothing, in front.
proof fn lemma_says_behind<T>(
    a: Seq<u8>,
    b: Seq<u8>,
    says: spec_fn(Seq<u8>) -> Option<T>,
    k: int,
)
    requires
        a.len() % 188 == 0,
        0 <= k <= mpegts::packet_count(b),
        first_before(a, says, mpegts::packet_count(a)) is None,
    ensures
        first_before(a + b, says, mpegts::packet_count(a) + k) == first_before(b, says, k),
    decreases k,
{
    if k > 0 {
        lemma_says_behind(a, b, says, k - 1);
        lemma_packet_behind(a, b, k - 1);
    } else {
        lemma_says_front(a, b, says, mpegts::packet_count(a));
    }
}

/// Cleaning keeps what is said, where the packets that it drops say nothing.
proof fn lemma_says_kept<T>(
    data: Seq<u8>,
    pids: Set<u16>,
    says: spec_fn(Seq<u8>) -> Option<T>,
    k: int,
)
    requires
        0 <= k <= mpegts::packet_count(data),
        forall|j: int|
            0 <= j < k && !preroll::is_kept(data, pids, j) ==> says(
                #[trigger] mpegts::packet_at(data, j),
            ) is None,
    ensures
        ({
            let kept = preroll::kept_upto(data, pids, k);
            first_before(kept, says, mpegts::packet_count(kept)) == first_before(data, says, k)
        }),
    decreases k,
{
    if k > 0 {
        lemma_says_kept(data, pids, says, k - 1);
        lemma_kept_whole(data, pids, k - 1);
        mpegts::lemma_packet_bounds(data, k - 1);
        let kept = preroll::kept_upto(data, pids, k - 1);
        let packet = mpegts::packet_at(data, k - 1);
        if preroll::is_kept(data, pids, k - 1) {
            lemma_one_more(kept, packet);
            lemma_says_front(kept, packet, says, mpegts::packet_count(kept));
        }
    }
}

/// The discontinuity flag changes nothing that is read from a packet.
proof fn lemma_flag_harmless(packet: Seq<u8>, filter: Option<u16>, pmt_pid: u16)
    ensures
        mpegts::pmt_pid_of(preroll::flagged(packet)) == mpegts::pmt_pid_of(packet),
        mpegts::video_of(preroll::flagged(packet), pmt_pid) == mpegts::video_of(packet, pmt_pid),
        keyframe::packet_payload(preroll::flagged(packet), filter) == keyframe::packet_payload(
            packet,
            filter,
        ),
{
    let flagged = preroll::flagged(packet);
    if preroll::has_flags(packet) {
        assert(mpegts::payload_offset(flagged) == mpegts::payload_offset(packet));
        lemma_flag_keeps_section(packet, 0, 0x00);
        lemma_flag_keeps_section(packet, pmt_pid, 0x02);
        if mpegts::payload_offset(packet) is Some {
            let start = mpegts::payload_offset(packet)->0;
            assert(flagged.skip(start) =~= packet.skip(start));
        }
    }
}

proof fn lemma_flag_keeps_section(packet: Seq<u8>, pid: u16, table_id: u8)
    requires
        preroll::has_flags(packet),
    ensures
        mpegts::section_of(preroll::flagged(packet), pid, table_id) == mpegts::section_of(
            packet,
            pid,
            table_id,
        ),
{
    let flagged = preroll::flagged(packet);
    assert(mpegts::section_offset(flagged) == mpegts::section_offset(packet));
    if let Some(start) = mpegts::section_offset(packet) {
        assert(start >= 6);
        if start + 3 <= packet.len() {
            let end = start + 3 + mpegts::length_bits(packet[start + 1], packet[start + 2]);
            if end <= packet.len() {
                assert(flagged.subrange(start, end) =~= packet.subrange(start, end));
            }
        }
    }
}

/// Marking keeps what is said and the payload.
proof fn lemma_marked_same(chunks: Seq<Seq<u8>>, i: int, filter: Option<u16>, pmt_pid: u16, k: int)
    requires
        0 <= i < chunks.len(),
        0 <= k <= mpegts::packet_count(chunks[i]),
    ensures
        ({
            let marked = preroll::marked(chunks)[i];
            &&& marked.len() == chunks[i].len()
            &&& first_before(marked, says_map(), k) == first_before(chunks[i], says_map(), k)
            &&& first_before(marked, says_video(pmt_pid), k) == first_before(
                chunks[i],
                says_video(pmt_pid),
                k,
            )
            &&& keyframe::payload_upto(marked, filter, k) == keyframe::payload_upto(
                chunks[i],
                filter,
                k,
            )
        }),
    decreases k,
{
    preroll::lemma_marked_len(chunks, i, mpegts::packet_count(chunks[i]));
    if k > 0 {
        lemma_marked_same(chunks, i, filter, pmt_pid, k - 1);
        let packet = mpegts::packet_at(chunks[i], k - 1);
        let count = mpegts::packet_count(chunks[i]);
        mpegts::lemma_packet_bounds(chunks[i], k - 1);
        assert(mpegts::packet_at(preroll::marked(chunks)[i], k - 1) =~= mpegts::packet_at(
            preroll::marked_upto(chunks, i, count),
            k - 1,
        ));
        lemma_flag_harmless(packet, filter, pmt_pid);
    }
}

/// An announcement says nothing and has no payload.
proof fn lemma_announced_silent(
    chunks: Seq<Seq<u8>>,
    i: int,
    filter: Option<u16>,
    pmt_pid: u16,
    k: int,
)
    ensures
        ({
            let front = preroll::announced_upto(chunks, i, k);
            let count = mpegts::packet_count(front);
            &&& front.len() % 188 == 0
            &&& first_before(front, says_map(), count) is None
            &&& first_before(front, says_video(pmt_pid), count) is None
            &&& keyframe::payload_in(front, filter) == Seq::<u8>::empty()
        }),
    decreases k,
{
    if k > 0 {
        lemma_announced_silent(chunks, i, filter, pmt_pid, k - 1);
        let earlier = preroll::announced_upto(chunks, i, k - 1);
        if preroll::is_first(chunks, i, k - 1) {
            let more = announcement(chunks, i, k - 1);
            let count = mpegts::packet_count(earlier);
            lemma_one_more(earlier, more);
            assert(mpegts::payload_offset(more) is None);
            lemma_says_front(earlier, more, says_map(), count);
            lemma_says_front(earlier, more, says_video(pmt_pid), count);
            lemma_payload_front(earlier, more, filter, count);
            assert(keyframe::payload_in(earlier + more, filter) =~= seq![]);
        } else {
            assert(preroll::announced_upto(chunks, i, k) =~= earlier);
        }
    }
}

proof fn lemma_joined_one(bytes: Seq<u8>)
    ensures
        preroll::joined(seq![bytes]) == bytes,
{
    assert(seq![bytes].drop_last() =~= seq![]);
    assert(preroll::joined(seq![bytes].drop_last()) =~= seq![]);
    assert(preroll::joined(seq![bytes]) =~= bytes);
}

/// What marking and announcing make of a chunk announces the same video and has
/// the same payload.
proof fn lemma_marked_and_announced(bytes: Seq<u8>, filter: Option<u16>)
    requires
        bytes.len() % 188 == 0,
    ensures
        ({
            let all = preroll::joined(preroll::with_announcements(preroll::marked(seq![bytes])));
            &&& mpegts::pmt_pid_from(all, 0) == mpegts::pmt_pid_from(bytes, 0)
            &&& mpegts::video_in(all) == mpegts::video_in(bytes)
            &&& keyframe::payload_in(all, filter) == keyframe::payload_in(bytes, filter)
        }),
{
    let chunks = seq![bytes];
    let marked = preroll::marked(chunks);
    let body = marked[0];
    let front = preroll::announced(marked, 1);
    let all = preroll::joined(preroll::with_announcements(marked));
    let count = mpegts::packet_count(bytes);
    let pmt_pid = match mpegts::pmt_pid_from(bytes, 0) {
        Some(pid) => pid,
        None => 0,
    };
    assert(marked =~= seq![body]);
    lemma_marked_same(chunks, 0, filter, pmt_pid, count);
    lemma_announced_silent(marked, 0, filter, pmt_pid, mpegts::packet_count(body));
    assert(preroll::announced(marked, 0) =~= seq![]);
    assert(front =~= preroll::announced_upto(marked, 0, mpegts::packet_count(body)));
    lemma_joined_one(body);
    assert(all =~= front + body) by {
        if front.len() > 0 {
            preroll::lemma_joined_first(seq![front] + marked);
            assert((seq![front] + marked).skip(1) =~= marked);
        }
    }
    let before = mpegts::packet_count(front);
    lemma_packet_behind(front, body, 0);
    lemma_says_behind(front, body, says_map(), count);
    lemma_says_behind(front, body, says_video(pmt_pid), count);
    lemma_payload_behind(front, body, filter, count);
    assert(keyframe::payload_in(all, filter) =~= keyframe::payload_in(body, filter));
    lemma_map_before(all, before + count);
    lemma_map_before(bytes, count);
    lemma_video_before(all, pmt_pid, before + count);
    lemma_video_before(bytes, pmt_pid, count);
}

/// Cleaning, marking and announcing keep every keyframe of a stream, where its
/// video is the announced one, or none is announced, and its tables do not list
/// themselves as streams.
pub proof fn law_finishing_keeps_keyframes(cut: Seq<u8>, n: int)
    requires
        cut.len() % 188 == 0,
        mpegts::video_in(cut) matches Some(video) ==> {
            let others = preroll::other_streams(cut, video.pid);
            &&& keyframe::searched_stream(cut) == Some(video.pid)
            &&& !others.contains(0)
            &&& !others.contains(mpegts::pmt_pid_from(cut, 0)->0)
        },
    ensures
        ({
            let finished = preroll::joined(
                preroll::with_announcements(preroll::marked(preroll::cleaned(seq![cut]))),
            );
            &&& keyframe::keyframe_unit(finished, n) == keyframe::keyframe_unit(cut, n)
            &&& keyframe::keyframe_span(finished, n) is Some <==> keyframe::keyframe_span(
                cut,
                n,
            ) is Some
            &&& mpegts::video_in(finished) == mpegts::video_in(cut)
        }),
{
    let clean = preroll::cleaned(seq![cut]);
    let bytes = clean[0];
    let filter = keyframe::searched_stream(cut);
    lemma_joined_one(cut);
    match mpegts::video_in(cut) {
        None => {
            lemma_marked_and_announced(cut, filter);
        },
        Some(video) => {
            let pids = preroll::other_streams(cut, video.pid);
            if pids.is_empty() {
                lemma_marked_and_announced(cut, filter);
            } else {
                let count = mpegts::packet_count(cut);
                let pmt_pid = mpegts::pmt_pid_from(cut, 0)->0;
                lemma_kept_whole(cut, pids, count);
                lemma_says_kept(cut, pids, says_map(), count);
                lemma_says_kept(cut, pids, says_video(pmt_pid), count);
                lemma_cleaning_keeps(cut, pids, video.pid, count);
                lemma_map_before(cut, count);
                lemma_map_before(bytes, mpegts::packet_count(bytes));
                lemma_video_before(cut, pmt_pid, count);
                lemma_video_before(bytes, pmt_pid, mpegts::packet_count(bytes));
                assert(clean =~= seq![bytes]);
                lemma_marked_and_announced(bytes, filter);
            }
        },
    }
}

} // verus!
