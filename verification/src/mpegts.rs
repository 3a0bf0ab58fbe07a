//! MPEG transport stream packets: identifiers, payloads and the tables that
//! announce which stream carries the video.

use std::collections::HashSet;
use vstd::prelude::*;
use vstd::slice::slice_subrange;

verus! {

broadcast use vstd::std_specs::hash::group_hash_axioms;

/// Length of a transport stream packet in bytes.
pub const TS_PACKET_SIZE: usize = 188;

/// Video codecs whose keyframes can be recognised.
#[derive(Clone, Copy, Debug, PartialEq, Eq, Structural)]
pub enum VideoCodec {
    H264,
    H265,
}

/// The video stream that a program map announces.
#[derive(Clone, Copy, Debug, PartialEq, Eq, Structural)]
pub struct VideoStream {
    pub pid: u16,
    pub codec: VideoCodec,
}

// ---------------------------------------------------------------------------
// Packets
// ---------------------------------------------------------------------------

/// The identifier a packet carries: thirteen bits over its second and third
/// byte. Only a full packet that starts with the sync byte has one.
pub open spec fn pid_of(packet: Seq<u8>) -> Option<u16> {
    if packet.len() < TS_PACKET_SIZE || packet[0] != 0x47 {
        None
    } else {
        Some(pid_bits(packet[1], packet[2]))
    }
}

/// Thirteen bits: the low five of `high`, then all of `low`.
pub open spec fn pid_bits(high: u8, low: u8) -> u16 {
    ((high as int % 32) * 256 + low as int) as u16
}

/// Twelve bits: the low four of `high`, then all of `low`.
pub open spec fn length_bits(high: u8, low: u8) -> int {
    (high as int % 16) * 256 + low as int
}

/// Whether the packet is marked as the start of a new payload unit.
pub open spec fn starts_unit(packet: Seq<u8>) -> bool {
    packet[1] as int / 64 % 2 == 1
}

/// The adaptation field control of a packet: two bits that say whether an
/// adaptation field (2), a payload (1) or both (3) follow the header.
pub open spec fn adaptation_control(packet: Seq<u8>) -> int {
    packet[3] as int / 16 % 4
}

/// Where the payload of a packet starts, if it has any.
pub open spec fn payload_offset(packet: Seq<u8>) -> Option<int> {
    if packet.len() < TS_PACKET_SIZE || packet[0] != 0x47 {
        None
    } else if adaptation_control(packet) == 1 {
        Some(4int)
    } else if adaptation_control(packet) == 3 && 5 + packet[4] < TS_PACKET_SIZE {
        Some(5 + packet[4])
    } else {
        None
    }
}

/// How many whole packets `data` holds.
pub open spec fn packet_count(data: Seq<u8>) -> int {
    data.len() as int / 188
}

/// The packet of `data` with index `k`.
pub open spec fn packet_at(data: Seq<u8>, k: int) -> Seq<u8> {
    data.subrange(k * 188, (k + 1) * 188)
}

pub fn pid_from(high: u8, low: u8) -> (pid: u16)
    ensures
        pid == pid_bits(high, low),
{
    (high % 32) as u16 * 256 + low as u16
}

pub fn length_from(high: u8, low: u8) -> (len: usize)
    ensures
        len == length_bits(high, low),
        len < 4096,
{
    (high % 16) as usize * 256 + low as usize
}

/// The packet identifier, if `packet` is a full packet in sync.
pub fn ts_pid(packet: &[u8]) -> (pid: Option<u16>)
    ensures
        pid == pid_of(packet@),
{
    if packet.len() < TS_PACKET_SIZE || packet[0] != 0x47 {
        return None;
    }
    Some(pid_from(packet[1], packet[2]))
}

/// Where the payload of a packet starts, if it has any.
pub fn ts_payload_start(packet: &[u8]) -> (start: Option<usize>)
    ensures
        start is Some <==> payload_offset(packet@) is Some,
        start is Some ==> start->0 == payload_offset(packet@)->0,
        start is Some ==> 4 <= start->0 < TS_PACKET_SIZE,
{
    if packet.len() < TS_PACKET_SIZE || packet[0] != 0x47 {
        return None;
    }
    let control = packet[3] / 16 % 4;
    if control == 1 {
        return Some(4);
    }
    if control == 3 {
        let start = 5 + packet[4] as usize;
        if start < TS_PACKET_SIZE {
            return Some(start);
        }
    }
    None
}

/// The whole packet with index `k`.
pub fn packet_slice(data: &[u8], k: usize) -> (packet: &[u8])
    requires
        k < packet_count(data@),
    ensures
        packet@ == packet_at(data@, k as int),
        packet@.len() == TS_PACKET_SIZE,
{
    proof {
        lemma_packet_bounds(data@, k as int);
        assert(data@.len() == data.len());
    }
    slice_subrange(data, k * 188, (k + 1) * 188)
}

/// A packet below the count lies inside the data.
pub proof fn lemma_packet_bounds(data: Seq<u8>, k: int)
    requires
        0 <= k < packet_count(data),
    ensures
        (k + 1) * 188 <= data.len(),
        packet_at(data, k).len() == TS_PACKET_SIZE,
{
}

// ---------------------------------------------------------------------------
// Tables
// ---------------------------------------------------------------------------

/// Where the section inside a packet starts: at the payload, behind the
/// pointer field where the packet starts a new unit.
pub open spec fn section_offset(packet: Seq<u8>) -> Option<int> {
    match payload_offset(packet) {
        None => None,
        Some(start) => if starts_unit(packet) {
            Some(start + 1 + packet[start])
        } else {
            Some(start)
        },
    }
}

/// The section with table `table_id` that a packet of stream `pid` carries
/// whole: a three byte header, whose last twelve bits give the length of the
/// rest, and the rest.
pub open spec fn section_of(packet: Seq<u8>, pid: u16, table_id: u8) -> Option<Seq<u8>> {
    if pid_of(packet) != Some(pid) {
        None
    } else {
        match section_offset(packet) {
            None => None,
            Some(start) => if start + 3 > packet.len() || packet[start] != table_id {
                None
            } else {
                let end = start + 3 + length_bits(packet[start + 1], packet[start + 2]);
                if end > packet.len() {
                    None
                } else {
                    Some(packet.subrange(start, end))
                }
            },
        }
    }
}

/// The length field of a section.
pub open spec fn section_length(section: Seq<u8>) -> int {
    length_bits(section[1], section[2])
}

/// The program map stream of the first program that is no network
/// information, in the entries of `section` from `pos` up to `end`.
pub open spec fn first_program(section: Seq<u8>, pos: int, end: int) -> Option<u16>
    decreases end - pos,
{
    if pos + 4 > end {
        None
    } else if section[pos] != 0 || section[pos + 1] != 0 {
        Some(pid_bits(section[pos + 2], section[pos + 3]))
    } else {
        first_program(section, pos + 4, end)
    }
}

/// The program map stream that a program association packet announces.
pub open spec fn pmt_pid_of(packet: Seq<u8>) -> Option<u16> {
    match section_of(packet, 0, 0x00) {
        None => None,
        Some(section) => if section_length(section) < 4 {
            None
        } else {
            first_program(section, 8, section_length(section) - 1)
        },
    }
}

/// The elementary streams (type and identifier) in the entries of a program
/// map from `pos` up to `end`.
pub open spec fn stream_entries(section: Seq<u8>, pos: int, end: int) -> Seq<(u8, u16)>
    decreases (if pos < end { end - pos } else { 0 }),
{
    if pos + 5 > end {
        seq![]
    } else {
        seq![(section[pos], pid_bits(section[pos + 1], section[pos + 2]))] + stream_entries(
            section,
            pos + 5 + length_bits(section[pos + 3], section[pos + 4]),
            end,
        )
    }
}

/// The elementary streams that a program map packet lists.
pub open spec fn streams_of(packet: Seq<u8>, pmt_pid: u16) -> Option<Seq<(u8, u16)>> {
    match section_of(packet, pmt_pid, 0x02) {
        None => None,
        Some(section) => if section.len() < 12 || section_length(section) < 4 {
            None
        } else {
            Some(
                stream_entries(
                    section,
                    12 + length_bits(section[10], section[11]),
                    section_length(section) - 1,
                ),
            )
        },
    }
}

/// The codec behind a stream type.
pub open spec fn codec_of(stream_type: u8) -> Option<VideoCodec> {
    if stream_type == 0x1b {
        Some(VideoCodec::H264)
    } else if stream_type == 0x24 {
        Some(VideoCodec::H265)
    } else {
        None
    }
}

/// The first entry with a known video codec.
pub open spec fn first_video(entries: Seq<(u8, u16)>) -> Option<VideoStream>
    decreases entries.len(),
{
    if entries.len() == 0 {
        None
    } else {
        match codec_of(entries[0].0) {
            Some(codec) => Some(VideoStream { pid: entries[0].1, codec }),
            None => first_video(entries.skip(1)),
        }
    }
}

/// The video stream that a program map packet announces.
pub open spec fn video_of(packet: Seq<u8>, pmt_pid: u16) -> Option<VideoStream> {
    match streams_of(packet, pmt_pid) {
        None => None,
        Some(entries) => first_video(entries),
    }
}

/// The identifiers of the entries.
pub open spec fn entry_pids(entries: Seq<(u8, u16)>) -> Set<u16>
    decreases entries.len(),
{
    if entries.len() == 0 {
        Set::empty()
    } else {
        entry_pids(entries.skip(1)).insert(entries[0].1)
    }
}

/// The section with table `table_id` that a packet of stream `expected_pid`
/// carries whole.
pub fn section_from_packet(packet: &[u8], expected_pid: u16, table_id: u8) -> (section: Option<
    &[u8],
>)
    ensures
        section is Some <==> section_of(packet@, expected_pid, table_id) is Some,
        section is Some ==> section->0@ == section_of(packet@, expected_pid, table_id)->0,
        section is Some ==> section->0@.len() == 3 + section_length(section->0@),
{
    match ts_pid(packet) {
        Some(pid) => if pid != expected_pid {
            return None;
        },
        None => return None,
    }
    let mut start = match ts_payload_start(packet) {
        Some(start) => start,
        None => return None,
    };
    if packet[1] / 64 % 2 == 1 {
        start = start + 1 + packet[start] as usize;
    }
    if start + 3 > packet.len() || packet[start] != table_id {
        return None;
    }
    let end = start + 3 + length_from(packet[start + 1], packet[start + 2]);
    if end > packet.len() {
        return None;
    }
    Some(slice_subrange(packet, start, end))
}

/// The program map stream that a program association packet announces.
#[verifier::loop_isolation(false)]
pub fn parse_pat_for_pmt_pid(packet: &[u8]) -> (pid: Option<u16>)
    ensures
        pid == pmt_pid_of(packet@),
{
    let section = match section_from_packet(packet, 0, 0x00) {
        Some(section) => section,
        None => return None,
    };
    let section_len = length_from(section[1], section[2]);
    if section_len < 4 {
        return None;
    }
    let end = section_len - 1;
    let mut pos: usize = 8;
    while pos + 4 <= end
        invariant
            8 <= pos <= 4096 + 8,
            end < section@.len(),
            end < 4096,
            first_program(section@, 8, end as int) == first_program(section@, pos as int, end as int),
        decreases (if pos < end { end - pos } else { 0 }),
    {
        if section[pos] != 0 || section[pos + 1] != 0 {
            return Some(pid_from(section[pos + 2], section[pos + 3]));
        }
        pos = pos + 4;
    }
    None
}

/// The video stream that a program map packet announces.
#[verifier::loop_isolation(false)]
pub fn parse_pmt_for_video_stream(packet: &[u8], pmt_pid: u16) -> (video: Option<VideoStream>)
    ensures
        video == video_of(packet@, pmt_pid),
{
    let section = match section_from_packet(packet, pmt_pid, 0x02) {
        Some(section) => section,
        None => return None,
    };
    if section.len() < 12 {
        return None;
    }
    let section_len = length_from(section[1], section[2]);
    if section_len < 4 {
        return None;
    }
    let end = section_len - 1;
    let first = 12 + length_from(section[10], section[11]);
    let mut pos = first;
    while pos + 5 <= end
        invariant
            pos <= 3 * 4096,
            end < section@.len(),
            end < 4096,
            first_video(stream_entries(section@, first as int, end as int)) == first_video(
                stream_entries(section@, pos as int, end as int),
            ),
        decreases (if pos < end { end - pos } else { 0 }),
    {
        let codec = match section[pos] {
            0x1b => Some(VideoCodec::H264),
            0x24 => Some(VideoCodec::H265),
            _ => None,
        };
        let next = pos + 5 + length_from(section[pos + 3], section[pos + 4]);
        proof {
            let entries = stream_entries(section@, pos as int, end as int);
            assert(entries.skip(1) =~= stream_entries(section@, next as int, end as int));
        }
        if let Some(codec) = codec {
            return Some(VideoStream { pid: pid_from(section[pos + 1], section[pos + 2]), codec });
        }
        pos = next;
    }
    None
}

/// The identifiers of all elementary streams that a program map packet lists.
#[verifier::loop_isolation(false)]
pub fn parse_pmt_for_elementary_pids(packet: &[u8], pmt_pid: u16) -> (pids: Option<HashSet<u16>>)
    ensures
        pids is Some <==> streams_of(packet@, pmt_pid) is Some,
        pids is Some ==> pids->0@ == entry_pids(streams_of(packet@, pmt_pid)->0),
{
    let section = match section_from_packet(packet, pmt_pid, 0x02) {
        Some(section) => section,
        None => return None,
    };
    if section.len() < 12 {
        return None;
    }
    let section_len = length_from(section[1], section[2]);
    if section_len < 4 {
        return None;
    }
    let end = section_len - 1;
    let first = 12 + length_from(section[10], section[11]);
    let mut pos = first;
    let mut pids: HashSet<u16> = HashSet::new();
    proof {
        assert(pids@.union(entry_pids(stream_entries(section@, pos as int, end as int)))
            =~= entry_pids(stream_entries(section@, first as int, end as int)));
    }
    while pos + 5 <= end
        invariant
            pos <= 3 * 4096,
            end < section@.len(),
            end < 4096,
            entry_pids(stream_entries(section@, first as int, end as int)) =~= pids@.union(
                entry_pids(stream_entries(section@, pos as int, end as int)),
            ),
        decreases (if pos < end { end - pos } else { 0 }),
    {
        let next = pos + 5 + length_from(section[pos + 3], section[pos + 4]);
        proof {
            let entries = stream_entries(section@, pos as int, end as int);
            assert(entries.skip(1) =~= stream_entries(section@, next as int, end as int));
        }
        pids.insert(pid_from(section[pos + 1], section[pos + 2]));
        pos = next;
    }
    proof {
        assert(stream_entries(section@, pos as int, end as int) =~= seq![]);
    }
    Some(pids)
}

// ---------------------------------------------------------------------------
// Streams
// ---------------------------------------------------------------------------

/// The program map stream named by the first program association packet of
/// `data` at or behind packet `k`.
pub open spec fn pmt_pid_from(data: Seq<u8>, k: int) -> Option<u16>
    decreases packet_count(data) - k,
{
    if k >= packet_count(data) {
        None
    } else if pmt_pid_of(packet_at(data, k)) is Some {
        pmt_pid_of(packet_at(data, k))
    } else {
        pmt_pid_from(data, k + 1)
    }
}

/// The video stream in the first program map packet that announces one, at or
/// behind packet `k`.
pub open spec fn video_from(data: Seq<u8>, pmt_pid: u16, k: int) -> Option<VideoStream>
    decreases packet_count(data) - k,
{
    if k >= packet_count(data) {
        None
    } else if video_of(packet_at(data, k), pmt_pid) is Some {
        video_of(packet_at(data, k), pmt_pid)
    } else {
        video_from(data, pmt_pid, k + 1)
    }
}

/// The elementary streams of the first readable program map packet at or
/// behind packet `k`.
pub open spec fn streams_from(data: Seq<u8>, pmt_pid: u16, k: int) -> Seq<(u8, u16)>
    decreases packet_count(data) - k,
{
    if k >= packet_count(data) {
        seq![]
    } else if streams_of(packet_at(data, k), pmt_pid) is Some {
        streams_of(packet_at(data, k), pmt_pid)->0
    } else {
        streams_from(data, pmt_pid, k + 1)
    }
}

/// The video stream that `data` announces: by the first program map with a
/// video, of the program that the first association packet names.
pub open spec fn video_in(data: Seq<u8>) -> Option<VideoStream> {
    match pmt_pid_from(data, 0) {
        None => None,
        Some(pmt_pid) => video_from(data, pmt_pid, 0),
    }
}

/// The elementary stream identifiers that `data` announces.
pub open spec fn elementary_in(data: Seq<u8>) -> Set<u16> {
    match pmt_pid_from(data, 0) {
        None => Set::empty(),
        Some(pmt_pid) => entry_pids(streams_from(data, pmt_pid, 0)),
    }
}

fn first_pmt_pid(data: &[u8]) -> (pid: Option<u16>)
    ensures
        pid == pmt_pid_from(data@, 0),
{
    let count = data.len() / TS_PACKET_SIZE;
    let mut k: usize = 0;
    while k < count
        invariant
            k <= count == packet_count(data@),
            pmt_pid_from(data@, 0) == pmt_pid_from(data@, k as int),
        decreases count - k,
    {
        let pid = parse_pat_for_pmt_pid(packet_slice(data, k));
        if pid.is_some() {
            return pid;
        }
        k = k + 1;
    }
    None
}

/// The video stream that `data` announces.
#[verifier::loop_isolation(false)]
pub fn video_stream(data: &[u8]) -> (video: Option<VideoStream>)
    ensures
        video == video_in(data@),
{
    let pmt_pid = match first_pmt_pid(data) {
        Some(pid) => pid,
        None => return None,
    };
    let count = data.len() / TS_PACKET_SIZE;
    let mut k: usize = 0;
    while k < count
        invariant
            k <= count == packet_count(data@),
            video_from(data@, pmt_pid, 0) == video_from(data@, pmt_pid, k as int),
        decreases count - k,
    {
        let video = parse_pmt_for_video_stream(packet_slice(data, k), pmt_pid);
        if video.is_some() {
            return video;
        }
        k = k + 1;
    }
    None
}

/// The identifiers of all elementary streams that `data` announces.
#[verifier::loop_isolation(false)]
pub fn elementary_pids(data: &[u8]) -> (pids: HashSet<u16>)
    ensures
        pids@ == elementary_in(data@),
{
    let pmt_pid = match first_pmt_pid(data) {
        Some(pid) => pid,
        None => return HashSet::new(),
    };
    let count = data.len() / TS_PACKET_SIZE;
    let mut k: usize = 0;
    while k < count
        invariant
            k <= count == packet_count(data@),
            streams_from(data@, pmt_pid, 0) == streams_from(data@, pmt_pid, k as int),
        decreases count - k,
    {
        if let Some(pids) = parse_pmt_for_elementary_pids(packet_slice(data, k), pmt_pid) {
            return pids;
        }
        k = k + 1;
    }
    HashSet::new()
}

} // verus!
