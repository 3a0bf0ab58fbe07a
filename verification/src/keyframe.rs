//! Finding video keyframes in a transport stream: the payload of the video
//! stream is put together, cut into NAL units, and searched for the keyframe
//! and for the parameter sets a decoder needs before it.

use crate::mpegts;
use crate::mpegts::{packet_slice, ts_payload_start, ts_pid, video_stream, VideoCodec, VideoStream};
use crate::mpegts::TS_PACKET_SIZE;
use vstd::prelude::*;
use vstd::slice::slice_subrange;

verus! {

/// Where a keyframe and what belongs to it stand in a transport stream, as
/// byte offsets into the stream.
#[derive(Clone, Debug)]
pub struct KeyframeSpan {
    /// The first of the NAL units that lead up to the keyframe.
    pub prelude_offset: usize,
    /// The start code of the keyframe.
    pub keyframe_offset: usize,
    /// The packets that hold the parameter sets in force, as byte ranges.
    pub parameter_ranges: Vec<(usize, usize)>,
    /// The video stream, where the stream announces one.
    pub video_pid: Option<u16>,
}

// ---------------------------------------------------------------------------
// Payload
// ---------------------------------------------------------------------------

/// Whether a packet contributes to the payload of stream `filter` (of every
/// stream, where there is no filter).
pub open spec fn carries(packet: Seq<u8>, filter: Option<u16>) -> bool {
    &&& mpegts::payload_offset(packet) is Some
    &&& filter is Some ==> mpegts::pid_of(packet) == filter
}

/// The payload bytes of a packet for stream `filter`.
pub open spec fn packet_payload(packet: Seq<u8>, filter: Option<u16>) -> Seq<u8> {
    if carries(packet, filter) {
        packet.skip(mpegts::payload_offset(packet)->0)
    } else {
        seq![]
    }
}

/// Where in the data the payload bytes of packet `k` stand.
pub open spec fn packet_offsets(data: Seq<u8>, filter: Option<u16>, k: int) -> Seq<usize> {
    if carries(mpegts::packet_at(data, k), filter) {
        let start = mpegts::payload_offset(mpegts::packet_at(data, k))->0;
        Seq::new((188 - start) as nat, |i: int| (k * 188 + start + i) as usize)
    } else {
        seq![]
    }
}

/// The payload bytes of the first `k` packets.
pub open spec fn payload_upto(data: Seq<u8>, filter: Option<u16>, k: int) -> Seq<u8>
    decreases k,
{
    if k <= 0 {
        seq![]
    } else {
        payload_upto(data, filter, k - 1) + packet_payload(mpegts::packet_at(data, k - 1), filter)
    }
}

/// Where in the data the payload bytes of the first `k` packets stand.
pub open spec fn offsets_upto(data: Seq<u8>, filter: Option<u16>, k: int) -> Seq<usize>
    decreases k,
{
    if k <= 0 {
        seq![]
    } else {
        offsets_upto(data, filter, k - 1) + packet_offsets(data, filter, k - 1)
    }
}

/// The payload of stream `filter` in all packets of the data.
pub open spec fn payload_in(data: Seq<u8>, filter: Option<u16>) -> Seq<u8> {
    payload_upto(data, filter, mpegts::packet_count(data))
}

/// Where in the data the bytes of `payload_in` stand.
pub open spec fn offsets_in(data: Seq<u8>, filter: Option<u16>) -> Seq<usize> {
    offsets_upto(data, filter, mpegts::packet_count(data))
}

/// Every payload byte is the byte of the data at its offset; the offsets
/// ascend and stay inside the whole packets.
pub proof fn law_payload_offsets(data: Seq<u8>, filter: Option<u16>, k: int)
    requires
        data.len() <= usize::MAX,
        0 <= k <= mpegts::packet_count(data),
    ensures
        payload_upto(data, filter, k).len() == offsets_upto(data, filter, k).len(),
        forall|i: int|
            0 <= i < offsets_upto(data, filter, k).len() ==> {
                &&& (#[trigger] offsets_upto(data, filter, k)[i]) < k * 188
                &&& payload_upto(data, filter, k)[i] == data[offsets_upto(data, filter, k)[i] as int]
            },
        forall|i: int, j: int|
            0 <= i < j < offsets_upto(data, filter, k).len() ==> (#[trigger] offsets_upto(
                data,
                filter,
                k,
            )[i]) < (#[trigger] offsets_upto(data, filter, k)[j]),
    decreases k,
{
    if k > 0 {
        law_payload_offsets(data, filter, k - 1);
        mpegts::lemma_packet_bounds(data, k - 1);
        let packet = mpegts::packet_at(data, k - 1);
        let before = offsets_upto(data, filter, k - 1);
        let here = packet_offsets(data, filter, k - 1);
        assert(forall|i: int|
            0 <= i < here.len() ==> (k - 1) * 188 <= (#[trigger] here[i]) < k * 188
                && packet_payload(packet, filter)[i] == data[here[i] as int]);
        assert(offsets_upto(data, filter, k) =~= before + here);
    }
}

/// There is at most one payload byte for each byte of the packets.
pub proof fn lemma_offsets_len(data: Seq<u8>, filter: Option<u16>, k: int)
    requires
        0 <= k <= mpegts::packet_count(data),
    ensures
        payload_upto(data, filter, k).len() <= k * 188,
    decreases k,
{
    if k > 0 {
        lemma_offsets_len(data, filter, k - 1);
        mpegts::lemma_packet_bounds(data, k - 1);
    }
}

/// The payload of stream `pid_filter` (of every stream, where there is none)
/// in the whole packets of `data`, with the offset of each of its bytes.
#[verifier::loop_isolation(false)]
pub fn ts_payload_bytes_with_offsets(data: &[u8], pid_filter: Option<u16>) -> (res: (
    Vec<u8>,
    Vec<usize>,
))
    ensures
        res.0@ == payload_in(data@, pid_filter),
        res.1@ == offsets_in(data@, pid_filter),
{
    let count = data.len() / TS_PACKET_SIZE;
    let mut payload: Vec<u8> = Vec::new();
    let mut offsets: Vec<usize> = Vec::new();
    let mut k: usize = 0;
    while k < count
        invariant
            k <= count == mpegts::packet_count(data@),
            data@.len() == data.len(),
            payload@ =~= payload_upto(data@, pid_filter, k as int),
            offsets@ =~= offsets_upto(data@, pid_filter, k as int),
        decreases count - k,
    {
        proof {
            mpegts::lemma_packet_bounds(data@, k as int);
        }
        let packet = packet_slice(data, k);
        let start = ts_payload_start(packet);
        let wanted = match pid_filter {
            None => true,
            Some(filter) => match ts_pid(packet) {
                Some(pid) => pid == filter,
                None => false,
            },
        };
        let ghost payload_before = payload@;
        let ghost offsets_before = offsets@;
        if let Some(start) = start {
            if wanted {
                let mut i: usize = start;
                while i < TS_PACKET_SIZE
                    invariant
                        start <= i <= TS_PACKET_SIZE,
                        packet@.len() == TS_PACKET_SIZE,
                        k * 188 + 188 <= usize::MAX,
                        payload@ =~= payload_before + packet@.subrange(start as int, i as int),
                        offsets@ =~= offsets_before + Seq::new(
                            (i - start) as nat,
                            |j: int| (k * 188 + start + j) as usize,
                        ),
                    decreases TS_PACKET_SIZE - i,
                {
                    payload.push(packet[i]);
                    offsets.push(k * 188 + i);
                    i = i + 1;
                }
                assert(packet@.subrange(start as int, 188) =~= packet@.skip(start as int));
            }
        }
        k = k + 1;
    }
    (payload, offsets)
}

// ---------------------------------------------------------------------------
// NAL units
// ---------------------------------------------------------------------------

/// The NAL unit type of an H.264 unit that starts with `byte`.
pub open spec fn h264_type(byte: u8) -> int {
    byte as int % 32
}

/// The NAL unit type of an H.265 unit that starts with `byte`.
pub open spec fn h265_type(byte: u8) -> int {
    byte as int / 2 % 64
}

/// A unit that starts with `byte` holds (part of) a picture from which a
/// decoder can start.
pub open spec fn keyframe_byte(codec: VideoCodec, byte: u8) -> bool {
    match codec {
        VideoCodec::H264 => h264_type(byte) == 5,
        VideoCodec::H265 => 19 <= h265_type(byte) <= 21,
    }
}

/// A unit that may stand directly before a keyframe: parameter sets,
/// supplemental information and access unit delimiters.
pub open spec fn prelude_byte(codec: VideoCodec, byte: u8) -> bool {
    match codec {
        VideoCodec::H264 => 6 <= h264_type(byte) <= 9,
        VideoCodec::H265 => 32 <= h265_type(byte) <= 35 || h265_type(byte) == 39 || h265_type(byte)
            == 40,
    }
}

/// A parameter set.
pub open spec fn parameter_byte(codec: VideoCodec, byte: u8) -> bool {
    match codec {
        VideoCodec::H264 => h264_type(byte) == 7 || h264_type(byte) == 8,
        VideoCodec::H265 => 32 <= h265_type(byte) <= 34,
    }
}

/// A parameter set that takes the place of those before it.
pub open spec fn sequence_byte(codec: VideoCodec, byte: u8) -> bool {
    match codec {
        VideoCodec::H264 => h264_type(byte) == 7,
        VideoCodec::H265 => h265_type(byte) == 32 || h265_type(byte) == 33,
    }
}

/// A property of the first byte of a unit; an empty unit has none.
pub open spec fn of_first(nal: Seq<u8>, holds: spec_fn(u8) -> bool) -> bool {
    nal.len() > 0 && holds(nal[0])
}

pub fn is_keyframe_nal(codec: VideoCodec, nal: &[u8]) -> (yes: bool)
    ensures
        yes == of_first(nal@, |byte: u8| keyframe_byte(codec, byte)),
{
    if nal.len() == 0 {
        return false;
    }
    match codec {
        VideoCodec::H264 => nal[0] % 32 == 5,
        VideoCodec::H265 => {
            let kind = nal[0] / 2 % 64;
            19 <= kind && kind <= 21
        },
    }
}

pub fn is_keyframe_prelude_nal(codec: VideoCodec, nal: &[u8]) -> (yes: bool)
    ensures
        yes == of_first(nal@, |byte: u8| prelude_byte(codec, byte)),
{
    if nal.len() == 0 {
        return false;
    }
    match codec {
        VideoCodec::H264 => {
            let kind = nal[0] % 32;
            6 <= kind && kind <= 9
        },
        VideoCodec::H265 => {
            let kind = nal[0] / 2 % 64;
            (32 <= kind && kind <= 35) || kind == 39 || kind == 40
        },
    }
}

pub fn is_parameter_set_nal(codec: VideoCodec, nal: &[u8]) -> (yes: bool)
    ensures
        yes == of_first(nal@, |byte: u8| parameter_byte(codec, byte)),
{
    if nal.len() == 0 {
        return false;
    }
    match codec {
        VideoCodec::H264 => {
            let kind = nal[0] % 32;
            kind == 7 || kind == 8
        },
        VideoCodec::H265 => {
            let kind = nal[0] / 2 % 64;
            32 <= kind && kind <= 34
        },
    }
}

pub fn starts_parameter_sequence(codec: VideoCodec, nal: &[u8]) -> (yes: bool)
    ensures
        yes == of_first(nal@, |byte: u8| sequence_byte(codec, byte)),
{
    if nal.len() == 0 {
        return false;
    }
    match codec {
        VideoCodec::H264 => nal[0] % 32 == 7,
        VideoCodec::H265 => {
            let kind = nal[0] / 2 % 64;
            kind == 32 || kind == 33
        },
    }
}

/// The length of the start code at position `i`: three or four bytes, of
/// which the last is one and the others are zero, with at least three bytes
/// behind it in the payload; zero where there is none.
pub open spec fn start_code_at(payload: Seq<u8>, i: int) -> int {
    if i + 5 < payload.len() && payload[i] == 0 && payload[i + 1] == 0 && payload[i + 2] == 1 {
        3
    } else if i + 6 < payload.len() && payload[i] == 0 && payload[i + 1] == 0 && payload[i + 2] == 0
        && payload[i + 3] == 1 {
        4
    } else {
        0
    }
}

/// The start codes from position `i` on, each with its length; one that
/// starts inside another does not count.
pub open spec fn start_codes_from(payload: Seq<u8>, i: int) -> Seq<(usize, usize)>
    decreases payload.len() - i,
{
    if i + 5 >= payload.len() {
        seq![]
    } else if start_code_at(payload, i) == 0 {
        start_codes_from(payload, i + 1)
    } else {
        seq![(i as usize, start_code_at(payload, i) as usize)] + start_codes_from(
            payload,
            i + start_code_at(payload, i),
        )
    }
}

/// All start codes of a payload.
pub open spec fn start_codes(payload: Seq<u8>) -> Seq<(usize, usize)> {
    start_codes_from(payload, 0)
}

/// The start codes of a payload: the position and the length of each.
pub fn nal_start_codes(payload: &[u8]) -> (starts: Vec<(usize, usize)>)
    ensures
        starts@ == start_codes(payload@),
{
    let mut starts: Vec<(usize, usize)> = Vec::new();
    let mut i: usize = 0;
    let len = payload.len();
    while i < len && len - i > 5
        invariant
            len == payload@.len(),
            i <= len,
            start_codes(payload@) =~= starts@ + start_codes_from(payload@, i as int),
        decreases len - i,
    {
        let code_len: usize = if payload[i] == 0 && payload[i + 1] == 0 && payload[i + 2] == 1 {
            3
        } else if len - i > 6 && payload[i] == 0 && payload[i + 1] == 0 && payload[i + 2] == 0
            && payload[i + 3] == 1 {
            4
        } else {
            0
        };
        if code_len == 0 {
            i = i + 1;
        } else {
            starts.push((i, code_len));
            i = i + code_len;
        }
    }
    assert(start_codes_from(payload@, i as int) =~= seq![]);
    starts
}

/// Start codes lie inside the payload, each followed by at least one byte.
pub proof fn lemma_start_codes(payload: Seq<u8>, i: int)
    requires
        payload.len() <= usize::MAX,
        0 <= i,
    ensures
        forall|k: int|
            0 <= k < start_codes_from(payload, i).len() ==> {
                let code = #[trigger] start_codes_from(payload, i)[k];
                &&& i <= code.0
                &&& 3 <= code.1 <= 4
                &&& code.0 + code.1 < payload.len()
            },
    decreases payload.len() - i,
{
    if i + 5 < payload.len() {
        if start_code_at(payload, i) == 0 {
            lemma_start_codes(payload, i + 1);
            assert(start_codes_from(payload, i) == start_codes_from(payload, i + 1));
        } else {
            let next = i + start_code_at(payload, i);
            let rest = start_codes_from(payload, next);
            let all = start_codes_from(payload, i);
            lemma_start_codes(payload, next);
            assert forall|k: int| 0 <= k < all.len() implies {
                let code = #[trigger] all[k];
                &&& i <= code.0
                &&& 3 <= code.1 <= 4
                &&& code.0 + code.1 < payload.len()
            } by {
                if k > 0 {
                    assert(all[k] == rest[k - 1]);
                }
            }
        }
    } else {
        assert(start_codes_from(payload, i).len() == 0);
    }
}

/// Start codes come in ascending order.
pub proof fn lemma_start_codes_ascend(payload: Seq<u8>, i: int, j: int, k: int)
    requires
        payload.len() <= usize::MAX,
        0 <= i,
        0 <= j <= k < start_codes_from(payload, i).len(),
    ensures
        start_codes_from(payload, i)[j].0 <= start_codes_from(payload, i)[k].0,
    decreases payload.len() - i,
{
    if start_code_at(payload, i) == 0 {
        lemma_start_codes_ascend(payload, i + 1, j, k);
    } else {
        let next = i + start_code_at(payload, i);
        let rest = start_codes_from(payload, next);
        lemma_start_codes(payload, next);
        if j > 0 {
            lemma_start_codes_ascend(payload, next, j - 1, k - 1);
            assert(start_codes_from(payload, i)[j] == rest[j - 1]);
        }
        if k > 0 {
            assert(start_codes_from(payload, i)[k] == rest[k - 1]);
        }
    }
}

/// Whether two zeros and a one stand at position `p`, with at least three bytes
/// behind them.
pub open spec fn code_core_at(payload: Seq<u8>, p: int) -> bool {
    0 <= p && p + 5 < payload.len() && payload[p] == 0 && payload[p + 1] == 0 && payload[p + 2] == 1
}

/// The start code whose last three bytes stand at position `p`: four bytes where
/// one more zero precedes, else three.
pub open spec fn code_around(payload: Seq<u8>, p: int) -> (usize, usize) {
    if p > 0 && payload[p - 1] == 0 {
        ((p - 1) as usize, 4)
    } else {
        (p as usize, 3)
    }
}

/// What is found from position `i` on, where no code reaches over it.
proof fn lemma_codes_from(payload: Seq<u8>, i: int)
    requires
        payload.len() <= usize::MAX,
        0 <= i,
        i > 0 ==> payload[i - 1] != 0 || !code_core_at(payload, i),
    ensures
        ({
            let codes = start_codes_from(payload, i);
            &&& forall|k: int|
                0 <= k < codes.len() ==> {
                    let p = (#[trigger] codes[k]).0 + codes[k].1 - 3;
                    i <= codes[k].0 && code_core_at(payload, p) && codes[k] == code_around(payload, p)
                }
            &&& forall|p: int|
                i <= p && #[trigger] code_core_at(payload, p) ==> codes.contains(
                    code_around(payload, p),
                )
            &&& forall|j: int, k: int|
                0 <= j < k < codes.len() ==> (#[trigger] codes[j]).0 + codes[j].1 <= (
                #[trigger] codes[k]).0
        }),
    decreases payload.len() - i,
{
    let codes = start_codes_from(payload, i);
    if i + 5 >= payload.len() {
        assert(codes.len() == 0);
    } else {
        let here = start_code_at(payload, i);
        let next = if here == 0 {
            i + 1
        } else {
            i + here
        };
        lemma_codes_from(payload, next);
        let rest = start_codes_from(payload, next);
        if here == 0 {
            assert(codes == rest);
        } else {
            let core = i + here - 3;
            assert(code_core_at(payload, core) && code_around(payload, core) == codes[0]);
            assert(codes =~= seq![codes[0]] + rest);
            assert forall|k: int| 0 <= k < codes.len() implies {
                let p = (#[trigger] codes[k]).0 + codes[k].1 - 3;
                i <= codes[k].0 && code_core_at(payload, p) && codes[k] == code_around(payload, p)
            } by {
                if k > 0 {
                    assert(codes[k] == rest[k - 1]);
                }
            }
            assert forall|p: int| i <= p && #[trigger] code_core_at(payload, p) implies codes.contains(
                code_around(payload, p),
            ) by {
                if p < next {
                    assert(p == core);
                    assert(codes[0] == code_around(payload, p));
                } else {
                    let k = rest.index_of(code_around(payload, p));
                    assert(codes[k + 1] == rest[k]);
                }
            }
            assert forall|j: int, k: int| 0 <= j < k < codes.len() implies (#[trigger] codes[j]).0
                + codes[j].1 <= (#[trigger] codes[k]).0 by {
                assert(codes[k] == rest[k - 1]);
                if j > 0 {
                    assert(codes[j] == rest[j - 1]);
                }
            }
        }
    }
}

/// The start codes of a payload are those that stand around two zeros and a one:
/// all of them, in rising order, and nothing else.
pub proof fn law_start_codes(payload: Seq<u8>)
    requires
        payload.len() <= usize::MAX,
    ensures
        forall|p: int| #[trigger]
            code_core_at(payload, p) ==> start_codes(payload).contains(code_around(payload, p)),
        forall|k: int|
            0 <= k < start_codes(payload).len() ==> {
                let code = #[trigger] start_codes(payload)[k];
                let p = code.0 + code.1 - 3;
                code_core_at(payload, p) && code == code_around(payload, p)
            },
        forall|j: int, k: int|
            0 <= j < k < start_codes(payload).len() ==> (#[trigger] start_codes(payload)[j]).0
                + start_codes(payload)[j].1 <= (#[trigger] start_codes(payload)[k]).0,
{
    lemma_codes_from(payload, 0);
}

// ---------------------------------------------------------------------------
// Keyframes
// ---------------------------------------------------------------------------

/// What a `KeyframeSpan` stands for.
pub struct SpanModel {
    pub prelude: int,
    pub keyframe: int,
    pub ranges: Seq<(usize, usize)>,
    pub video_pid: Option<u16>,
}

impl View for KeyframeSpan {
    type V = SpanModel;

    open spec fn view(&self) -> SpanModel {
        SpanModel {
            prelude: self.prelude_offset as int,
            keyframe: self.keyframe_offset as int,
            ranges: self.parameter_ranges@,
            video_pid: self.video_pid,
        }
    }
}

/// The first byte of unit `k`, which tells its type.
pub open spec fn nal_byte(payload: Seq<u8>, nals: Seq<(usize, usize)>, k: int) -> u8 {
    payload[nals[k].0 + nals[k].1]
}

/// The `n`-th keyframe unit at or behind unit `k`.
pub open spec fn nth_keyframe(
    codec: VideoCodec,
    payload: Seq<u8>,
    nals: Seq<(usize, usize)>,
    n: int,
    k: int,
) -> Option<int>
    decreases nals.len() - k,
{
    if k >= nals.len() {
        None
    } else if !keyframe_byte(codec, nal_byte(payload, nals, k)) {
        nth_keyframe(codec, payload, nals, n, k + 1)
    } else if n <= 1 {
        Some(k)
    } else {
        nth_keyframe(codec, payload, nals, n - 1, k + 1)
    }
}

/// The first unit of the unbroken run of prelude units that ends just before
/// unit `k`; `k` itself where there is no such run.
pub open spec fn prelude_unit(
    codec: VideoCodec,
    payload: Seq<u8>,
    nals: Seq<(usize, usize)>,
    k: int,
) -> int
    decreases k,
{
    if k > 0 && prelude_byte(codec, nal_byte(payload, nals, k - 1)) {
        prelude_unit(codec, payload, nals, k - 1)
    } else {
        k
    }
}

/// The last of the payload bytes before `end`, of those that there are.
pub open spec fn last_of_span(offsets: Seq<usize>, end: int) -> int {
    if end <= 0 {
        0
    } else if end > offsets.len() {
        offsets.len() - 1
    } else {
        end - 1
    }
}

/// The packets, as a byte range, that the payload bytes from `start` up to
/// `end` stand in (at least the packet of the byte at `start`'s end).
pub open spec fn packets_of_span(offsets: Seq<usize>, start: int, end: int) -> (usize, usize) {
    (
        (offsets[start] / 188 * 188) as usize,
        ((offsets[last_of_span(offsets, end)] / 188 + 1) * 188) as usize,
    )
}

/// The packets that unit `k` stands in.
pub open spec fn unit_packets(
    payload: Seq<u8>,
    offsets: Seq<usize>,
    nals: Seq<(usize, usize)>,
    k: int,
) -> (usize, usize) {
    packets_of_span(
        offsets,
        nals[k].0 as int,
        if k + 1 < nals.len() {
            nals[k + 1].0 as int
        } else {
            payload.len() as int
        },
    )
}

/// The packets of the parameter sets in force before unit `k`: those from the
/// last set that starts a new sequence on.
pub open spec fn parameters_before(
    codec: VideoCodec,
    payload: Seq<u8>,
    offsets: Seq<usize>,
    nals: Seq<(usize, usize)>,
    k: int,
) -> Seq<(usize, usize)>
    decreases k,
{
    if k <= 0 {
        seq![]
    } else {
        let byte = nal_byte(payload, nals, k - 1);
        let earlier = parameters_before(codec, payload, offsets, nals, k - 1);
        if !parameter_byte(codec, byte) {
            earlier
        } else if sequence_byte(codec, byte) {
            seq![unit_packets(payload, offsets, nals, k - 1)]
        } else {
            earlier.push(unit_packets(payload, offsets, nals, k - 1))
        }
    }
}

/// The stream that is searched for keyframes: the announced video, or every
/// stream where none is announced or the announced one has no payload.
pub open spec fn searched_stream(data: Seq<u8>) -> Option<u16> {
    match mpegts::video_in(data) {
        Some(video) => if payload_in(data, Some(video.pid)).len() == 0 {
            None
        } else {
            Some(video.pid)
        },
        None => None,
    }
}

/// The codec by which units are read: the announced one, else H.264.
pub open spec fn searched_codec(data: Seq<u8>) -> VideoCodec {
    match mpegts::video_in(data) {
        Some(video) => video.codec,
        None => VideoCodec::H264,
    }
}

/// The announced video stream.
pub open spec fn announced_pid(data: Seq<u8>) -> Option<u16> {
    match mpegts::video_in(data) {
        Some(video) => Some(video.pid),
        None => None,
    }
}

/// The payload that is searched for keyframes.
pub open spec fn searched_payload(data: Seq<u8>) -> Seq<u8> {
    payload_in(data, searched_stream(data))
}

/// The unit with the `n`-th keyframe of the data.
pub open spec fn keyframe_unit(data: Seq<u8>, n: int) -> Option<int> {
    let payload = searched_payload(data);
    nth_keyframe(searched_codec(data), payload, start_codes(payload), n, 0)
}

/// The `n`-th keyframe of the data with what leads up to it.
pub open spec fn keyframe_span(data: Seq<u8>, n: int) -> Option<SpanModel> {
    let codec = searched_codec(data);
    let payload = searched_payload(data);
    let offsets = offsets_in(data, searched_stream(data));
    let nals = start_codes(payload);
    if n <= 0 {
        None
    } else {
        match keyframe_unit(data, n) {
            None => None,
            Some(k) => Some(
                SpanModel {
                    prelude: offsets[nals[prelude_unit(codec, payload, nals, k)].0 as int] as int,
                    keyframe: offsets[nals[k].0 as int] as int,
                    ranges: parameters_before(codec, payload, offsets, nals, k),
                    video_pid: announced_pid(data),
                },
            ),
        }
    }
}

/// The packets, as a byte range, that the payload bytes from `start_payload`
/// up to `end_payload` stand in.
pub fn packet_range_for_payload_span(
    offsets: &[usize],
    start_payload: usize,
    end_payload: usize,
) -> (range: Option<(usize, usize)>)
    requires
        start_payload < offsets@.len() ==> (offsets@[last_of_span(offsets@, end_payload as int)]
            / 188 + 1) * 188 <= usize::MAX,
    ensures
        range is Some <==> start_payload < offsets@.len(),
        range is Some ==> range->0 == packets_of_span(
            offsets@,
            start_payload as int,
            end_payload as int,
        ),
{
    if start_payload >= offsets.len() {
        return None;
    }
    let last = if end_payload == 0 {
        0
    } else if end_payload > offsets.len() {
        offsets.len() - 1
    } else {
        end_payload - 1
    };
    Some((offsets[start_payload] / 188 * 188, (offsets[last] / 188 + 1) * 188))
}

proof fn lemma_prelude_unit(
    codec: VideoCodec,
    payload: Seq<u8>,
    nals: Seq<(usize, usize)>,
    k: int,
)
    requires
        0 <= k,
    ensures
        0 <= prelude_unit(codec, payload, nals, k) <= k,
    decreases k,
{
    if k > 0 && prelude_byte(codec, nal_byte(payload, nals, k - 1)) {
        lemma_prelude_unit(codec, payload, nals, k - 1);
    }
}

pub proof fn lemma_nth_keyframe(
    codec: VideoCodec,
    payload: Seq<u8>,
    nals: Seq<(usize, usize)>,
    n: int,
    k: int,
)
    requires
        0 <= k,
    ensures
        nth_keyframe(codec, payload, nals, n, k) matches Some(at) ==> {
            &&& k <= at < nals.len()
            &&& keyframe_byte(codec, nal_byte(payload, nals, at))
        },
    decreases nals.len() - k,
{
    if k < nals.len() {
        lemma_nth_keyframe(codec, payload, nals, n, k + 1);
        lemma_nth_keyframe(codec, payload, nals, n - 1, k + 1);
    }
}

proof fn lemma_parameters_before(
    codec: VideoCodec,
    payload: Seq<u8>,
    offsets: Seq<usize>,
    nals: Seq<(usize, usize)>,
    k: int,
)
    ensures
        forall|i: int|
            0 <= i < parameters_before(codec, payload, offsets, nals, k).len() ==> (
            #[trigger] parameters_before(codec, payload, offsets, nals, k)[i]).0 % 188 == 0,
    decreases k,
{
    if k > 0 {
        lemma_parameters_before(codec, payload, offsets, nals, k - 1);
        let earlier = parameters_before(codec, payload, offsets, nals, k - 1);
        let all = parameters_before(codec, payload, offsets, nals, k);
        let here = unit_packets(payload, offsets, nals, k - 1);
        assert(here.0 % 188 == 0);
        assert(all == earlier || all == seq![here] || all == earlier.push(here));
        assert forall|i: int| 0 <= i < all.len() implies (#[trigger] all[i]).0 % 188 == 0 by {
            if i < earlier.len() && all[i] != here {
                assert(all[i] == earlier[i]);
            }
        }
    } else {
        assert(parameters_before(codec, payload, offsets, nals, k).len() == 0);
    }
}

/// A keyframe lies in the whole packets of the data, its prelude does not
/// start behind it, and parameter sets are given by whole packets.
pub proof fn law_keyframe_span_inside(data: Seq<u8>, n: int)
    requires
        data.len() <= usize::MAX,
    ensures
        keyframe_span(data, n) matches Some(span) ==> {
            &&& 0 <= span.prelude <= span.keyframe < mpegts::packet_count(data) * 188
            &&& forall|i: int| 0 <= i < span.ranges.len() ==> (#[trigger] span.ranges[i]).0 % 188 == 0
        },
{
    if keyframe_span(data, n) is Some {
        let codec = searched_codec(data);
        let payload = searched_payload(data);
        let offsets = offsets_in(data, searched_stream(data));
        let nals = start_codes(payload);
        let k = keyframe_unit(data, n)->0;
        law_payload_offsets(data, searched_stream(data), mpegts::packet_count(data));
        lemma_offsets_len(data, searched_stream(data), mpegts::packet_count(data));
        lemma_start_codes(payload, 0);
        lemma_nth_keyframe(codec, payload, nals, n, 0);
        lemma_prelude_unit(codec, payload, nals, k);
        lemma_parameters_before(codec, payload, offsets, nals, k);
        let lead = prelude_unit(codec, payload, nals, k);
        assert(nals[lead] == start_codes_from(payload, 0)[lead]);
        assert(nals[k] == start_codes_from(payload, 0)[k]);
        lemma_start_codes_ascend(payload, 0, lead, k);
        let p = nals[lead].0 as int;
        let q = nals[k].0 as int;
        assert(offsets[p] < mpegts::packet_count(data) * 188);
        assert(offsets[q] < mpegts::packet_count(data) * 188);
    }
}

/// Start codes that index into a payload with one offset for each byte.
spec fn units_fit(payload: Seq<u8>, offsets: Seq<usize>, nals: Seq<(usize, usize)>) -> bool {
    &&& payload.len() == offsets.len()
    &&& forall|i: int|
        0 <= i < offsets.len() ==> (#[trigger] offsets[i] / 188 + 1) * 188 <= usize::MAX
    &&& forall|k: int|
        0 <= k < nals.len() ==> (#[trigger] nals[k]).0 + nals[k].1 < payload.len()
}

proof fn lemma_units_fit(data: Seq<u8>, filter: Option<u16>)
    requires
        data.len() <= usize::MAX,
    ensures
        units_fit(
            payload_in(data, filter),
            offsets_in(data, filter),
            start_codes(payload_in(data, filter)),
        ),
{
    let count = mpegts::packet_count(data);
    let offsets = offsets_in(data, filter);
    law_payload_offsets(data, filter, count);
    lemma_offsets_len(data, filter, count);
    lemma_start_codes(payload_in(data, filter), 0);
    assert forall|i: int| 0 <= i < offsets.len() implies (#[trigger] offsets[i] / 188 + 1) * 188
        <= usize::MAX by {
        assert(offsets[i] < count * 188);
    }
}

/// The `n`-th keyframe among the units: its own start, the start of its
/// prelude (both as positions in the payload) and the parameter sets in force.
fn find_keyframe_unit(
    codec: VideoCodec,
    payload: &Vec<u8>,
    offsets: &Vec<usize>,
    nals: &Vec<(usize, usize)>,
    n: usize,
) -> (found: Option<(usize, usize, Vec<(usize, usize)>)>)
    requires
        n > 0,
        units_fit(payload@, offsets@, nals@),
    ensures
        match (found, nth_keyframe(codec, payload@, nals@, n as int, 0)) {
            (Some(unit), Some(k)) => {
                let lead = prelude_unit(codec, payload@, nals@, k);
                &&& 0 <= lead <= k < nals@.len()
                &&& unit.0 == nals@[lead].0
                &&& unit.1 == nals@[k].0
                &&& unit.2@ == parameters_before(codec, payload@, offsets@, nals@, k)
            },
            (None, None) => true,
            _ => false,
        },
{
    let mut prelude: Option<usize> = None;
    let mut ranges: Vec<(usize, usize)> = Vec::new();
    let mut seen: usize = 0;
    let mut k: usize = 0;
    while k < nals.len()
        invariant
            units_fit(payload@, offsets@, nals@),
            k <= nals@.len(),
            seen < n,
            nth_keyframe(codec, payload@, nals@, n as int, 0) == nth_keyframe(
                codec,
                payload@,
                nals@,
                n - seen,
                k as int,
            ),
            ranges@ =~= parameters_before(codec, payload@, offsets@, nals@, k as int),
            0 <= prelude_unit(codec, payload@, nals@, k as int) <= k,
            match prelude {
                Some(at) => prelude_unit(codec, payload@, nals@, k as int) < k && at
                    == nals@[prelude_unit(codec, payload@, nals@, k as int)].0,
                None => prelude_unit(codec, payload@, nals@, k as int) == k,
            },
        decreases nals@.len() - k,
    {
        let (at, code_len) = nals[k];
        assert(nals@[k as int] == (at, code_len) && payload@.len() == payload.len());
        let nal = slice_subrange(payload.as_slice(), at + code_len, payload.len());
        assert(nal@[0] == nal_byte(payload@, nals@, k as int));
        if is_keyframe_nal(codec, nal) {
            seen = seen + 1;
            if seen == n {
                let lead = match prelude {
                    Some(lead) => lead,
                    None => at,
                };
                return Some((lead, at, ranges));
            }
            prelude = None;
        } else if is_parameter_set_nal(codec, nal) {
            if starts_parameter_sequence(codec, nal) {
                ranges.clear();
            }
            let next = if k + 1 < nals.len() {
                nals[k + 1].0
            } else {
                payload.len()
            };
            match packet_range_for_payload_span(offsets, at, next) {
                Some(range) => ranges.push(range),
                None => return None,
            }
            if prelude.is_none() {
                prelude = Some(at);
            }
        } else if is_keyframe_prelude_nal(codec, nal) {
            if prelude.is_none() {
                prelude = Some(at);
            }
        } else {
            prelude = None;
        }
        k = k + 1;
    }
    None
}

/// The keyframe with number `keyframe_count` in `data` (the first has number
/// one), with what leads up to it.
pub fn find_nth_video_keyframe_span(data: &[u8], keyframe_count: usize) -> (span: Option<
    KeyframeSpan,
>)
    ensures
        span is Some <==> keyframe_span(data@, keyframe_count as int) is Some,
        span is Some ==> span->0@ == keyframe_span(data@, keyframe_count as int)->0,
{
    if keyframe_count == 0 {
        return None;
    }
    let video = video_stream(data);
    let video_pid = match &video {
        Some(video) => Some(video.pid),
        None => None,
    };
    let codec = match &video {
        Some(video) => video.codec,
        None => VideoCodec::H264,
    };
    let (mut payload, mut offsets) = ts_payload_bytes_with_offsets(data, video_pid);
    if payload.len() == 0 && video.is_some() {
        let all = ts_payload_bytes_with_offsets(data, None);
        payload = all.0;
        offsets = all.1;
    }
    let nals = nal_start_codes(&payload);
    proof {
        assert(data@.len() == data.len());
        lemma_units_fit(data@, searched_stream(data@));
    }
    match find_keyframe_unit(codec, &payload, &offsets, &nals, keyframe_count) {
        Some((lead, at, ranges)) => {
            Some(
                KeyframeSpan {
                    prelude_offset: offsets[lead],
                    keyframe_offset: offsets[at],
                    parameter_ranges: ranges,
                    video_pid,
                },
            )
        },
        None => None,
    }
}

} // verus!
