//! What is found in the payload of a stream: all of its bytes, its units by
//! their types, and the keyframe with what leads up to it.

use crate::keyframe;
use crate::mpegts;
use crate::mpegts::VideoCodec;
use crate::tables;
use vstd::prelude::*;

verus! {

// ---------------------------------------------------------------------------
// Payload
// ---------------------------------------------------------------------------

/// Where the payload of a packet starts, where it has any.
pub open spec fn payload_place(packet: Seq<u8>) -> int {
    if (packet[3] >> 4) & 3 == 1 {
        4
    } else {
        5 + packet[4]
    }
}

/// Whether a packet has payload of the stream that is asked for; of any stream,
/// where none is.
pub open spec fn contributes(packet: Seq<u8>, filter: Option<u16>) -> bool {
    &&& tables::has_payload(packet)
    &&& filter is Some ==> tables::thirteen_bits(packet[1], packet[2]) == filter->0
}

proof fn lemma_contributes(packet: Seq<u8>, filter: Option<u16>)
    requires
        packet.len() == 188,
    ensures
        keyframe::carries(packet, filter) == contributes(packet, filter),
        contributes(packet, filter) ==> mpegts::payload_offset(packet) == Some(
            payload_place(packet),
        ),
{
    tables::law_stream_of_packet(packet);
    if packet[0] == 0x47 {
        tables::law_payload_start(packet);
        let control = packet[3];
        assert((control >> 4) & 3 <= 3) by (bit_vector);
    }
}

proof fn lemma_complete(data: Seq<u8>, filter: Option<u16>, k: int, p: usize)
    requires
        data.len() <= usize::MAX,
        0 <= k <= mpegts::packet_count(data),
    ensures
        keyframe::offsets_upto(data, filter, k).contains(p) <==> p < 188 * k && {
            let packet = data.subrange(p / 188 * 188, p / 188 * 188 + 188);
            contributes(packet, filter) && p % 188 >= payload_place(packet)
        },
    decreases k,
{
    let all = keyframe::offsets_upto(data, filter, k);
    if k > 0 {
        let earlier = keyframe::offsets_upto(data, filter, k - 1);
        let here = keyframe::packet_offsets(data, filter, k - 1);
        let packet = mpegts::packet_at(data, k - 1);
        lemma_complete(data, filter, k - 1, p);
        mpegts::lemma_packet_bounds(data, k - 1);
        lemma_contributes(packet, filter);
        assert(all == earlier + here);
        if earlier.contains(p) {
            let i = earlier.index_of(p);
            assert(all[i] == p);
        }
        if here.contains(p) {
            let i = here.index_of(p);
            assert(all[earlier.len() + i] == p);
            assert(p / 188 == k - 1);
        }
        if all.contains(p) {
            let i = all.index_of(p);
            if i < earlier.len() {
                assert(earlier[i] == p);
            } else {
                assert(here[i - earlier.len()] == p);
            }
        }
        if 188 * (k - 1) <= p < 188 * k && contributes(packet, filter) && p % 188 >= payload_place(
            packet,
        ) {
            assert(p / 188 == k - 1);
            assert(here[p % 188 - payload_place(packet)] == p);
        }
    }
}

/// The payload of a stream is complete: a byte of the data is in it exactly where
/// its packet has payload of that stream and the byte is part of that.
pub proof fn law_payload_complete(data: Seq<u8>, filter: Option<u16>, p: usize)
    requires
        data.len() <= usize::MAX,
    ensures
        keyframe::offsets_in(data, filter).contains(p) <==> p / 188 < data.len() as int / 188 && {
            let packet = data.subrange(p / 188 * 188, p / 188 * 188 + 188);
            contributes(packet, filter) && p % 188 >= payload_place(packet)
        },
{
    lemma_complete(data, filter, mpegts::packet_count(data), p);
}

/// The payload is the bytes of the data at its offsets, and these rise.
pub proof fn law_payload_in_order(data: Seq<u8>, filter: Option<u16>, i: int, j: int)
    requires
        data.len() <= usize::MAX,
        0 <= i < j < keyframe::offsets_in(data, filter).len(),
    ensures
        keyframe::payload_in(data, filter).len() == keyframe::offsets_in(data, filter).len(),
        keyframe::offsets_in(data, filter)[i] < keyframe::offsets_in(data, filter)[j] < data.len(),
        keyframe::payload_in(data, filter)[i] == data[keyframe::offsets_in(data, filter)[i] as int],
        keyframe::payload_in(data, filter)[j] == data[keyframe::offsets_in(data, filter)[j] as int],
{
    keyframe::law_payload_offsets(data, filter, mpegts::packet_count(data));
}

// ---------------------------------------------------------------------------
// Units
// ---------------------------------------------------------------------------

/// The type of a unit that starts with `byte`: the low five bits in H.264, the
/// six bits behind the first in H.265.
pub open spec fn unit_type(codec: VideoCodec, byte: u8) -> u8 {
    match codec {
        VideoCodec::H264 => byte & 0x1f,
        VideoCodec::H265 => (byte >> 1) & 0x3f,
    }
}

/// Keyframes are the units of type 5 in H.264, and of the types 19 to 21 in
/// H.265.
pub open spec fn is_keyframe(codec: VideoCodec, byte: u8) -> bool {
    match codec {
        VideoCodec::H264 => unit_type(codec, byte) == 5,
        VideoCodec::H265 => 19 <= unit_type(codec, byte) <= 21,
    }
}

/// What leads up to a keyframe: parameter sets, supplements and delimiters, of
/// the types 6 to 9 in H.264, and 32 to 35, 39 and 40 in H.265.
pub open spec fn leads_up(codec: VideoCodec, byte: u8) -> bool {
    let kind = unit_type(codec, byte);
    match codec {
        VideoCodec::H264 => kind == 6 || kind == 7 || kind == 8 || kind == 9,
        VideoCodec::H265 => kind == 32 || kind == 33 || kind == 34 || kind == 35 || kind == 39
            || kind == 40,
    }
}

/// Parameter sets: the types 7 and 8 in H.264, and 32 to 34 in H.265.
pub open spec fn is_parameter_set(codec: VideoCodec, byte: u8) -> bool {
    let kind = unit_type(codec, byte);
    match codec {
        VideoCodec::H264 => kind == 7 || kind == 8,
        VideoCodec::H265 => kind == 32 || kind == 33 || kind == 34,
    }
}

/// Parameter sets that replace those before them: type 7 in H.264, and the types
/// 32 and 33 in H.265.
pub open spec fn replaces_sets(codec: VideoCodec, byte: u8) -> bool {
    let kind = unit_type(codec, byte);
    match codec {
        VideoCodec::H264 => kind == 7,
        VideoCodec::H265 => kind == 32 || kind == 33,
    }
}

/// What a unit is, its type tells.
pub proof fn law_unit_types(codec: VideoCodec, byte: u8)
    ensures
        keyframe::keyframe_byte(codec, byte) == is_keyframe(codec, byte),
        keyframe::prelude_byte(codec, byte) == leads_up(codec, byte),
        keyframe::parameter_byte(codec, byte) == is_parameter_set(codec, byte),
        keyframe::sequence_byte(codec, byte) == replaces_sets(codec, byte),
{
    assert(byte & 0x1f == byte % 32) by (bit_vector);
    assert((byte >> 1) & 0x3f == byte / 2 % 64) by (bit_vector);
}

/// An empty unit is nothing, and any other is what its first byte says.
pub proof fn law_first_byte_tells(nal: Seq<u8>, holds: spec_fn(u8) -> bool)
    ensures
        keyframe::of_first(nal, holds) <==> nal.len() != 0 && holds(nal[0]),
{
}

/// Where two zeros and a one stand in the payload, with three bytes behind them, a
/// start code is found: it takes in one more zero before them, where there is one.
pub proof fn law_start_code_found(payload: Seq<u8>, p: int)
    requires
        payload.len() <= usize::MAX,
        0 <= p,
        p + 5 < payload.len(),
        payload[p] == 0,
        payload[p + 1] == 0,
        payload[p + 2] == 1,
    ensures
        p > 0 && payload[p - 1] == 0 ==> keyframe::start_codes(payload).contains(
            ((p - 1) as usize, 4usize),
        ),
        p == 0 || payload[p - 1] != 0 ==> keyframe::start_codes(payload).contains(
            (p as usize, 3usize),
        ),
{
    keyframe::law_start_codes(payload);
    assert(keyframe::code_core_at(payload, p));
}

/// A start code that is found is three or four bytes, zeros and then a one, with
/// three bytes behind it; and it ends before the next one starts.
pub proof fn law_start_code_real(payload: Seq<u8>, k: int)
    requires
        payload.len() <= usize::MAX,
        0 <= k < keyframe::start_codes(payload).len(),
    ensures
        ({
            let (at, len) = keyframe::start_codes(payload)[k];
            &&& len == 3 || len == 4
            &&& at + len + 2 < payload.len()
            &&& payload[at as int] == 0 && payload[at + 1] == 0
            &&& len == 4 ==> payload[at + 2] == 0
            &&& payload[at + len - 1] == 1
            &&& k + 1 < keyframe::start_codes(payload).len() ==> at + len
                <= keyframe::start_codes(payload)[k + 1].0
        }),
{
    keyframe::law_start_codes(payload);
    let code = keyframe::start_codes(payload)[k];
    let p = code.0 + code.1 - 3;
    assert(keyframe::code_core_at(payload, p));
    assert(code == keyframe::code_around(payload, p));
}

/// The byte behind the start code of a unit.
pub open spec fn type_byte(payload: Seq<u8>, codes: Seq<(usize, usize)>, k: int) -> u8 {
    payload[codes[k].0 + codes[k].1]
}

/// How many of the first `k` units are keyframes.
pub open spec fn keyframes_among(
    codec: VideoCodec,
    payload: Seq<u8>,
    codes: Seq<(usize, usize)>,
    k: int,
) -> int
    decreases k,
{
    if k <= 0 {
        0
    } else {
        keyframes_among(codec, payload, codes, k - 1) + if is_keyframe(
            codec,
            type_byte(payload, codes, k - 1),
        ) {
            1int
        } else {
            0int
        }
    }
}

proof fn lemma_nth_keyframe(
    codec: VideoCodec,
    payload: Seq<u8>,
    codes: Seq<(usize, usize)>,
    n: int,
    k: int,
)
    requires
        1 <= n,
        0 <= k <= codes.len(),
    ensures
        match keyframe::nth_keyframe(codec, payload, codes, n, k) {
            Some(at) => {
                &&& k <= at < codes.len()
                &&& is_keyframe(codec, type_byte(payload, codes, at))
                &&& keyframes_among(codec, payload, codes, at) == keyframes_among(
                    codec,
                    payload,
                    codes,
                    k,
                ) + n - 1
            },
            None => keyframes_among(codec, payload, codes, codes.len() as int)
                < keyframes_among(codec, payload, codes, k) + n,
        },
    decreases codes.len() - k,
{
    if k < codes.len() {
        law_unit_types(codec, type_byte(payload, codes, k));
        if is_keyframe(codec, type_byte(payload, codes, k)) {
            if n > 1 {
                lemma_nth_keyframe(codec, payload, codes, n - 1, k + 1);
            }
        } else {
            lemma_nth_keyframe(codec, payload, codes, n, k + 1);
        }
    }
}

/// The keyframe with number `n` is a keyframe before which there are `n - 1`
/// others; it is found where there are `n` at all.
pub proof fn law_nth_keyframe(
    codec: VideoCodec,
    payload: Seq<u8>,
    codes: Seq<(usize, usize)>,
    n: int,
)
    requires
        1 <= n,
    ensures
        match keyframe::nth_keyframe(codec, payload, codes, n, 0) {
            Some(at) => {
                &&& 0 <= at < codes.len()
                &&& is_keyframe(codec, type_byte(payload, codes, at))
                &&& keyframes_among(codec, payload, codes, at) == n - 1
            },
            None => keyframes_among(codec, payload, codes, codes.len() as int) < n,
        },
{
    lemma_nth_keyframe(codec, payload, codes, n, 0);
}

/// What leads up to unit `k` is the unbroken run of such units just before it:
/// all of them lead up to a keyframe, and the one before them does not.
pub proof fn law_prelude(
    codec: VideoCodec,
    payload: Seq<u8>,
    codes: Seq<(usize, usize)>,
    k: int,
)
    requires
        0 <= k,
    ensures
        ({
            let first = keyframe::prelude_unit(codec, payload, codes, k);
            &&& 0 <= first <= k
            &&& forall|i: int|
                first <= i < k ==> leads_up(codec, #[trigger] type_byte(payload, codes, i))
            &&& first > 0 ==> !leads_up(codec, type_byte(payload, codes, first - 1))
        }),
    decreases k,
{
    if k > 0 {
        law_unit_types(codec, type_byte(payload, codes, k - 1));
        law_prelude(codec, payload, codes, k - 1);
    }
}

/// The parameter sets in force at unit `k`, given where the last of them that
/// replaces others stands (`from`; zero where there is none): a unit before that
/// does not count, and every parameter set from there on does, in order.
pub proof fn law_parameter_sets(
    codec: VideoCodec,
    payload: Seq<u8>,
    offsets: Seq<usize>,
    codes: Seq<(usize, usize)>,
    from: int,
    k: int,
)
    requires
        0 <= from <= k,
        from > 0 ==> from < k && replaces_sets(codec, type_byte(payload, codes, from)),
        forall|i: int|
            from < i < k ==> !replaces_sets(codec, #[trigger] type_byte(payload, codes, i)),
    ensures
        keyframe::parameters_before(codec, payload, offsets, codes, k) == sets_between(
            codec,
            payload,
            offsets,
            codes,
            from,
            k,
        ),
    decreases k,
{
    if k > from {
        let byte = type_byte(payload, codes, k - 1);
        law_unit_types(codec, byte);
        assert(k - 1 > from ==> !replaces_sets(codec, byte));
        if k - 1 > from || from == 0 {
            law_parameter_sets(codec, payload, offsets, codes, from, k - 1);
        }
        if k - 1 == from {
            assert(sets_between(codec, payload, offsets, codes, from, from) =~= seq![]);
            if replaces_sets(codec, byte) {
                assert(keyframe::parameters_before(codec, payload, offsets, codes, k)
                    =~= sets_between(codec, payload, offsets, codes, from, k));
            }
        }
    }
}

/// Where the parameter sets among the units from `from` up to `k` stand, as
/// packets.
pub open spec fn sets_between(
    codec: VideoCodec,
    payload: Seq<u8>,
    offsets: Seq<usize>,
    codes: Seq<(usize, usize)>,
    from: int,
    k: int,
) -> Seq<(usize, usize)>
    decreases k - from,
{
    if k <= from {
        seq![]
    } else {
        let earlier = sets_between(codec, payload, offsets, codes, from, k - 1);
        if is_parameter_set(codec, type_byte(payload, codes, k - 1)) {
            earlier.push(keyframe::unit_packets(payload, offsets, codes, k - 1))
        } else {
            earlier
        }
    }
}

/// The packets of a unit start with the packet of its first byte and end with
/// that of its last, which stands before the next unit, or at the end of the
/// payload.
pub proof fn law_unit_packets(
    payload: Seq<u8>,
    offsets: Seq<usize>,
    codes: Seq<(usize, usize)>,
    k: int,
)
    requires
        payload.len() == offsets.len(),
        0 <= k < codes.len(),
        codes[k].0 < payload.len(),
        k + 1 < codes.len() ==> codes[k].0 < codes[k + 1].0 <= payload.len(),
        forall|i: int| 0 <= i < offsets.len() ==> #[trigger] offsets[i] + 188 <= usize::MAX,
    ensures
        ({
            let range = keyframe::unit_packets(payload, offsets, codes, k);
            let first = offsets[codes[k].0 as int];
            let last = offsets[if k + 1 < codes.len() {
                codes[k + 1].0 - 1
            } else {
                payload.len() - 1
            }];
            &&& range.0 % 188 == 0 && range.1 % 188 == 0
            &&& range.0 <= first < range.0 + 188
            &&& range.1 - 188 <= last < range.1
        }),
{
    let end = if k + 1 < codes.len() {
        codes[k + 1].0 as int
    } else {
        payload.len() as int
    };
    assert(offsets[codes[k].0 as int] + 188 <= usize::MAX);
    assert(offsets[end - 1] + 188 <= usize::MAX);
}

/// The packets of the payload bytes from `start` up to `end`: from the packet of
/// the first to that of the last, which is the last that there is where `end` is
/// beyond it, and the first that there is where `end` is zero.
pub proof fn law_span_packets(offsets: Seq<usize>, start: int, end: int)
    requires
        0 <= start < offsets.len(),
        0 <= end,
        forall|i: int| 0 <= i < offsets.len() ==> #[trigger] offsets[i] + 188 <= usize::MAX,
    ensures
        ({
            let range = keyframe::packets_of_span(offsets, start, end);
            let last = offsets[if end == 0 {
                0
            } else if end <= offsets.len() {
                end - 1
            } else {
                offsets.len() - 1
            }];
            &&& range.0 % 188 == 0 && range.1 % 188 == 0
            &&& range.0 <= offsets[start] < range.0 + 188
            &&& range.1 - 188 <= last < range.1
        }),
{
    assert(offsets[start] + 188 <= usize::MAX);
    assert(offsets[keyframe::last_of_span(offsets, end)] + 188 <= usize::MAX);
}

// ---------------------------------------------------------------------------
// Keyframes
// ---------------------------------------------------------------------------

/// Keyframes are looked for in the announced video by its codec; where none is
/// announced in all streams, as H.264; and in all streams too, by the announced
/// codec, where the announced video has no payload.
pub proof fn law_stream_searched(data: Seq<u8>)
    ensures
        mpegts::video_in(data) is None ==> keyframe::searched_stream(data) is None
            && keyframe::searched_codec(data) == VideoCodec::H264,
        mpegts::video_in(data) matches Some(video) ==> {
            &&& keyframe::searched_codec(data) == video.codec
            &&& keyframe::payload_in(data, Some(video.pid)).len() > 0 ==> keyframe::searched_stream(
                data,
            ) == Some(video.pid)
            &&& keyframe::payload_in(data, Some(video.pid)).len() == 0 ==> keyframe::searched_stream(
                data,
            ) is None
        },
{
}

/// The `n`-th keyframe of a stream: its start code stands at a unit that is a
/// keyframe and has `n - 1` keyframes before it, its prelude starts with the first
/// of the units that lead up to it, and the parameter sets are those in force
/// there. `at` is the number of the unit. There is none exactly where there are
/// fewer keyframes, or where none is asked for.
pub proof fn law_keyframe_found(data: Seq<u8>, n: int) -> (at: int)
    ensures
        ({
            let codec = keyframe::searched_codec(data);
            let payload = keyframe::payload_in(data, keyframe::searched_stream(data));
            let offsets = keyframe::offsets_in(data, keyframe::searched_stream(data));
            let codes = keyframe::start_codes(payload);
            match keyframe::keyframe_span(data, n) {
                Some(span) => {
                    let first = keyframe::prelude_unit(codec, payload, codes, at);
                    &&& 1 <= n
                    &&& 0 <= at < codes.len()
                    &&& is_keyframe(codec, type_byte(payload, codes, at))
                    &&& keyframes_among(codec, payload, codes, at) == n - 1
                    &&& span.keyframe == offsets[codes[at].0 as int]
                    &&& span.prelude == offsets[codes[first].0 as int]
                    &&& span.ranges == keyframe::parameters_before(
                        codec,
                        payload,
                        offsets,
                        codes,
                        at,
                    )
                    &&& mpegts::video_in(data) is None ==> span.video_pid is None
                    &&& mpegts::video_in(data) matches Some(video) ==> span.video_pid == Some(
                        video.pid,
                    )
                },
                None => n <= 0 || keyframes_among(codec, payload, codes, codes.len() as int) < n,
            }
        }),
{
    let codec = keyframe::searched_codec(data);
    let payload = keyframe::payload_in(data, keyframe::searched_stream(data));
    let codes = keyframe::start_codes(payload);
    if n >= 1 {
        law_nth_keyframe(codec, payload, codes, n);
    }
    match keyframe::keyframe_unit(data, n) {
        Some(at) => at,
        None => 0,
    }
}

} // verus!
