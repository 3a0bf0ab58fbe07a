//! What the packets and tables of a transport stream say, however they are laid
//! out.

use crate::mpegts;
use crate::mpegts::{VideoCodec, VideoStream};
use vstd::prelude::*;

verus! {

// ---------------------------------------------------------------------------
// Packets
// ---------------------------------------------------------------------------

/// The low five bits of a byte and all of another, as one number.
pub open spec fn thirteen_bits(high: u8, low: u8) -> u16 {
    ((high as u16 & 0x1f) << 8) | low as u16
}

/// The low four bits of a byte and all of another, as one number.
pub open spec fn twelve_bits(high: u8, low: u8) -> u16 {
    ((high as u16 & 0x0f) << 8) | low as u16
}

proof fn lemma_bits(b: u8)
    ensures
        (b >> 4) & 3 == b as int / 16 % 4,
        b & 0x40 != 0 <==> b as int / 64 % 2 == 1,
{
    assert((b >> 4) & 3 == b / 16 % 4) by (bit_vector);
    assert(b & 0x40 != 0 <==> b / 64 % 2 == 1) by (bit_vector);
}

proof fn lemma_numbers(high: u8, low: u8)
    ensures
        thirteen_bits(high, low) == mpegts::pid_bits(high, low),
        twelve_bits(high, low) == mpegts::length_bits(high, low),
{
    let h = high as u16;
    let l = low as u16;
    assert(((h & 0x1f) << 8) | l == (h % 32) * 256 + l) by (bit_vector)
        requires
            h < 256,
            l < 256,
    ;
    assert(((h & 0x0f) << 8) | l == (h % 16) * 256 + l) by (bit_vector)
        requires
            h < 256,
            l < 256,
    ;
}

/// A packet in sync, of full length, belongs to the stream that the low thirteen
/// bits of its second and third byte number; nothing else is of any stream.
pub proof fn law_stream_of_packet(packet: Seq<u8>)
    ensures
        packet.len() >= 188 && packet[0] == 0x47 ==> mpegts::pid_of(packet) == Some(
            thirteen_bits(packet[1], packet[2]),
        ),
        packet.len() < 188 || packet[0] != 0x47 ==> mpegts::pid_of(packet) is None,
{
    if packet.len() >= 188 {
        lemma_numbers(packet[1], packet[2]);
    }
}

/// Bit 6 of the second byte marks the start of a unit.
pub proof fn law_unit_start(packet: Seq<u8>)
    requires
        packet.len() >= 188,
    ensures
        mpegts::starts_unit(packet) <==> packet[1] & 0x40 != 0,
{
    lemma_bits(packet[1]);
}

/// The payload stands behind the four bytes of the header, and behind the
/// adaptation field where there is one: a byte with its length and so many more.
/// Bit 4 of the fourth byte tells whether there is a payload, bit 5 whether there
/// is an adaptation field.
pub proof fn law_payload_start(packet: Seq<u8>)
    requires
        packet.len() >= 188,
        packet[0] == 0x47,
    ensures
        (packet[3] >> 4) & 3 == 1 ==> mpegts::payload_offset(packet) == Some(4int),
        (packet[3] >> 4) & 3 == 3 && 5 + packet[4] < 188 ==> mpegts::payload_offset(packet) == Some(
            5 + packet[4],
        ),
        (packet[3] >> 4) & 3 == 3 && 5 + packet[4] >= 188 ==> mpegts::payload_offset(packet) is None,
        (packet[3] >> 4) & 3 == 0 || (packet[3] >> 4) & 3 == 2 ==> mpegts::payload_offset(packet)
            is None,
{
    lemma_bits(packet[3]);
}

/// Data is packets of 188 bytes one after the other; what is left over of it is
/// none.
pub proof fn law_packets(data: Seq<u8>, k: int)
    requires
        0 <= k,
    ensures
        k < mpegts::packet_count(data) <==> 188 * k + 188 <= data.len(),
        mpegts::packet_at(data, k) == data.subrange(188 * k, 188 * k + 188),
{
}

// ---------------------------------------------------------------------------
// Sections
// ---------------------------------------------------------------------------

/// Where a section stands in a packet with payload: where the payload starts, or
/// behind the pointer there and as many bytes as it says, where the packet
/// starts a unit.
pub open spec fn section_place(packet: Seq<u8>) -> int {
    let start = if (packet[3] >> 4) & 3 == 1 {
        4
    } else {
        5 + packet[4]
    };
    if packet[1] & 0x40 != 0 {
        start + 1 + packet[start]
    } else {
        start
    }
}

/// Whether a full packet in sync has payload.
pub open spec fn has_payload(packet: Seq<u8>) -> bool {
    &&& packet.len() >= 188
    &&& packet[0] == 0x47
    &&& (packet[3] >> 4) & 3 == 1 || ((packet[3] >> 4) & 3 == 3 && 5 + packet[4] < 188)
}

/// A section that stands whole in a packet of its stream is read: its first byte
/// names the table, and the low twelve bits of the next two say how many bytes
/// follow them.
pub proof fn law_section_read(packet: Seq<u8>, section: Seq<u8>)
    requires
        has_payload(packet),
        section.len() >= 3,
        section.len() == 3 + twelve_bits(section[1], section[2]),
        section_place(packet) + section.len() <= packet.len(),
        packet.subrange(
            section_place(packet),
            section_place(packet) + section.len(),
        ) == section,
    ensures
        mpegts::section_of(packet, thirteen_bits(packet[1], packet[2]), section[0]) == Some(section),
{
    let at = section_place(packet);
    lemma_bits(packet[1]);
    lemma_bits(packet[3]);
    lemma_numbers(packet[1], packet[2]);
    lemma_numbers(section[1], section[2]);
    let there = packet.subrange(at, at + section.len());
    assert(there[0] == packet[at]);
    assert(there[1] == packet[at + 1]);
    assert(there[2] == packet[at + 2]);
}

/// No section is read from a packet of another stream, without payload, of
/// another table, or in which the section does not end.
pub proof fn law_section_refused(packet: Seq<u8>, pid: u16, table_id: u8)
    requires
        packet.len() >= 188,
    ensures
        !has_payload(packet) ==> mpegts::section_of(packet, pid, table_id) is None,
        thirteen_bits(packet[1], packet[2]) != pid ==> mpegts::section_of(packet, pid, table_id)
            is None,
        section_place(packet) + 3 > packet.len() ==> mpegts::section_of(packet, pid, table_id) is None,
        packet[section_place(packet)] != table_id ==> mpegts::section_of(packet, pid, table_id)
            is None,
        section_place(packet) + 3 + twelve_bits(
            packet[section_place(packet) + 1],
            packet[section_place(packet) + 2],
        ) > packet.len() ==> mpegts::section_of(packet, pid, table_id) is None,
{
    let at = section_place(packet);
    lemma_bits(packet[1]);
    lemma_bits(packet[3]);
    lemma_numbers(packet[1], packet[2]);
    lemma_numbers(packet[at + 1], packet[at + 2]);
}

// ---------------------------------------------------------------------------
// Program association
// ---------------------------------------------------------------------------

/// A program of the association table: its number, the stream of its map, and
/// the three bits that are reserved.
pub struct Program {
    pub number: u16,
    pub map_pid: u16,
    pub spare: u8,
}

impl Program {
    pub open spec fn valid(self) -> bool {
        self.map_pid < 0x2000 && self.spare < 8
    }

    /// The four bytes of the program.
    pub open spec fn bytes(self) -> Seq<u8> {
        seq![
            (self.number / 256) as u8,
            (self.number % 256) as u8,
            (self.spare * 32 + self.map_pid / 256) as u8,
            (self.map_pid % 256) as u8,
        ]
    }
}

/// The programs one after the other.
pub open spec fn programs_bytes(programs: Seq<Program>) -> Seq<u8>
    decreases programs.len(),
{
    if programs.len() == 0 {
        seq![]
    } else {
        programs[0].bytes() + programs_bytes(programs.skip(1))
    }
}

proof fn lemma_programs_len(programs: Seq<Program>)
    ensures
        programs_bytes(programs).len() == 4 * programs.len(),
    decreases programs.len(),
{
    if programs.len() > 0 {
        lemma_programs_len(programs.skip(1));
    }
}

proof fn lemma_programs(
    front: Seq<u8>,
    programs: Seq<Program>,
    rest: int,
    behind: Seq<u8>,
    wanted: int,
)
    requires
        0 <= rest < 4,
        rest <= behind.len(),
        0 <= wanted <= programs.len(),
        forall|i: int| 0 <= i < programs.len() ==> (#[trigger] programs[i]).valid(),
        forall|i: int| 0 <= i < wanted ==> (#[trigger] programs[i]).number == 0,
        wanted < programs.len() ==> programs[wanted].number != 0,
    ensures
        mpegts::first_program(
            front + programs_bytes(programs) + behind,
            front.len() as int,
            front.len() + programs_bytes(programs).len() + rest,
        ) == if wanted < programs.len() {
            Some(programs[wanted].map_pid)
        } else {
            None
        },
    decreases programs.len(),
{
    let section = front + programs_bytes(programs) + behind;
    let pos = front.len() as int;
    if programs.len() > 0 {
        let first = programs[0];
        assert(first.valid());
        let others = programs.skip(1);
        assert(section =~= front + first.bytes() + programs_bytes(others) + behind);
        assert(section[pos] == first.bytes()[0]);
        assert(section[pos + 1] == first.bytes()[1]);
        assert(section[pos + 2] == first.bytes()[2]);
        assert(section[pos + 3] == first.bytes()[3]);
        assert(programs_bytes(programs).len() == 4 + programs_bytes(others).len());
        if first.number == 0 {
            assert forall|i: int| 0 <= i < others.len() implies (#[trigger] others[i]).valid() by {
                assert(programs[i + 1].valid());
            }
            assert forall|i: int| 0 <= i < wanted - 1 implies (#[trigger] others[i]).number == 0 by {
                assert(programs[i + 1].number == 0);
            }
            assert(section =~= (front + first.bytes()) + programs_bytes(others) + behind);
            lemma_programs(front + first.bytes(), others, rest, behind, wanted - 1);
        } else {
            assert(wanted == 0);
        }
    }
}

/// An association section with the given programs: a table byte, the length of
/// the rest, five bytes that are not read, the programs, what is too short for
/// another, and four bytes of checksum.
pub open spec fn association_section(
    spare: u8,
    header: Seq<u8>,
    programs: Seq<Program>,
    rest: Seq<u8>,
    checksum: Seq<u8>,
) -> Seq<u8> {
    let len = 5 + programs_bytes(programs).len() + rest.len() + 4;
    seq![0u8, (spare * 16 + len / 256) as u8, (len % 256) as u8] + header + programs_bytes(programs)
        + (rest + checksum)
}

/// A program association packet names the map of its first program with a
/// number: program zero is no program.
pub proof fn law_association_read(
    packet: Seq<u8>,
    spare: u8,
    header: Seq<u8>,
    programs: Seq<Program>,
    rest: Seq<u8>,
    checksum: Seq<u8>,
    wanted: int,
)
    requires
        spare < 16,
        header.len() == 5,
        rest.len() < 4,
        checksum.len() == 4,
        9 + 4 * programs.len() + rest.len() < 4096,
        forall|i: int| 0 <= i < programs.len() ==> (#[trigger] programs[i]).valid(),
        mpegts::section_of(packet, 0, 0x00) == Some(
            association_section(spare, header, programs, rest, checksum),
        ),
        0 <= wanted <= programs.len(),
        forall|i: int| 0 <= i < wanted ==> (#[trigger] programs[i]).number == 0,
        wanted < programs.len() ==> programs[wanted].number != 0,
    ensures
        mpegts::pmt_pid_of(packet) == if wanted < programs.len() {
            Some(programs[wanted].map_pid)
        } else {
            None
        },
{
    let section = association_section(spare, header, programs, rest, checksum);
    let len = 5 + programs_bytes(programs).len() + rest.len() + 4;
    lemma_programs_len(programs);
    let start = seq![0u8, (spare * 16 + len / 256) as u8, (len % 256) as u8] + header;
    assert(section == start + programs_bytes(programs) + (rest + checksum));
    assert(section[1] == (spare * 16 + len / 256) as u8);
    assert(section[2] == (len % 256) as u8);
    lemma_length_field(spare, len as int);
    assert(mpegts::section_length(section) == len);
    lemma_programs(start, programs, rest.len() as int, rest + checksum, wanted);
}

/// A packet without a whole association section, or with one that is too short for
/// its header and checksum, names no map.
pub proof fn law_no_association(packet: Seq<u8>)
    ensures
        mpegts::section_of(packet, 0, 0x00) is None ==> mpegts::pmt_pid_of(packet) is None,
        mpegts::section_of(packet, 0, 0x00) matches Some(section) ==> twelve_bits(
            section[1],
            section[2],
        ) < 9 ==> mpegts::pmt_pid_of(packet) is None,
{
    if let Some(section) = mpegts::section_of(packet, 0, 0x00) {
        lemma_numbers(section[1], section[2]);
    }
}

// ---------------------------------------------------------------------------
// Program map
// ---------------------------------------------------------------------------

/// An elementary stream of a program map: its type, its number, its descriptors
/// and the bits that are reserved before the number and the length.
pub struct Listed {
    pub kind: u8,
    pub pid: u16,
    pub descriptors: Seq<u8>,
    pub spare: u8,
    pub more_spare: u8,
}

impl Listed {
    pub open spec fn valid(self) -> bool {
        self.pid < 0x2000 && self.spare < 8 && self.more_spare < 16 && self.descriptors.len() < 4096
    }

    /// The bytes of the stream: five, and the descriptors, whose length they
    /// end in.
    pub open spec fn bytes(self) -> Seq<u8> {
        seq![
            self.kind,
            (self.spare * 32 + self.pid / 256) as u8,
            (self.pid % 256) as u8,
            (self.more_spare * 16 + self.descriptors.len() / 256) as u8,
            (self.descriptors.len() % 256) as u8,
        ] + self.descriptors
    }
}

/// The streams one after the other.
pub open spec fn listed_bytes(list: Seq<Listed>) -> Seq<u8>
    decreases list.len(),
{
    if list.len() == 0 {
        seq![]
    } else {
        list[0].bytes() + listed_bytes(list.skip(1))
    }
}

/// The types and numbers of the streams.
pub open spec fn kinds(list: Seq<Listed>) -> Seq<(u8, u16)> {
    Seq::new(list.len(), |i: int| (list[i].kind, list[i].pid))
}

/// Whether bytes are no whole stream of a list: fewer than five, or fewer
/// descriptors than they say.
pub open spec fn cut_short(rest: Seq<u8>) -> bool {
    rest.len() < 5 || rest.len() < 5 + twelve_bits(rest[3], rest[4])
}

/// The type and number of a stream whose descriptors are cut short; nothing where
/// not even these are there.
pub open spec fn cut_kind(rest: Seq<u8>) -> Seq<(u8, u16)> {
    if rest.len() < 5 {
        seq![]
    } else {
        seq![(rest[0], thirteen_bits(rest[1], rest[2]))]
    }
}

#[verifier::spinoff_prover]
proof fn lemma_cut_short(front: Seq<u8>, rest: Seq<u8>, behind: Seq<u8>)
    requires
        cut_short(rest),
    ensures
        mpegts::stream_entries(
            front + rest + behind,
            front.len() as int,
            (front.len() + rest.len()) as int,
        ) == cut_kind(rest),
{
    let section = front + rest + behind;
    let pos = front.len() as int;
    let end = pos + rest.len();
    if rest.len() >= 5 {
        assert(section[pos] == rest[0]);
        assert(section[pos + 1] == rest[1]);
        assert(section[pos + 2] == rest[2]);
        assert(section[pos + 3] == rest[3]);
        assert(section[pos + 4] == rest[4]);
        lemma_numbers(rest[1], rest[2]);
        lemma_numbers(rest[3], rest[4]);
        let next = pos + 5 + mpegts::length_bits(rest[3], rest[4]);
        assert(mpegts::stream_entries(section, next, end) =~= seq![]);
    }
    assert(mpegts::stream_entries(section, pos, end) =~= cut_kind(rest));
}

#[verifier::spinoff_prover]
proof fn lemma_listed(front: Seq<u8>, list: Seq<Listed>, rest: Seq<u8>, behind: Seq<u8>)
    requires
        cut_short(rest),
        forall|i: int| 0 <= i < list.len() ==> (#[trigger] list[i]).valid(),
    ensures
        mpegts::stream_entries(
            front + listed_bytes(list) + rest + behind,
            front.len() as int,
            (front.len() + listed_bytes(list).len() + rest.len()) as int,
        ) == kinds(list) + cut_kind(rest),
    decreases list.len(),
{
    let section = front + listed_bytes(list) + rest + behind;
    let pos = front.len() as int;
    let end = pos + listed_bytes(list).len() + rest.len();
    if list.len() == 0 {
        lemma_cut_short(front, rest, behind);
        assert(section =~= front + rest + behind);
        assert(kinds(list) + cut_kind(rest) =~= cut_kind(rest));
    } else {
        let first = list[0];
        assert(first.valid());
        let others = list.skip(1);
        let bytes = first.bytes();
        assert forall|i: int| 0 <= i < others.len() implies (#[trigger] others[i]).valid() by {
            assert(list[i + 1].valid());
        }
        assert(section =~= (front + bytes) + listed_bytes(others) + rest + behind);
        assert(section[pos] == bytes[0]);
        assert(section[pos + 1] == bytes[1]);
        assert(section[pos + 2] == bytes[2]);
        assert(section[pos + 3] == bytes[3]);
        assert(section[pos + 4] == bytes[4]);
        let n = first.descriptors.len() as int;
        assert(bytes.len() == 5 + n);
        lemma_length_field(first.more_spare, n);
        assert(mpegts::length_bits(bytes[3], bytes[4]) == n);
        assert(mpegts::pid_bits(bytes[1], bytes[2]) == first.pid);
        lemma_listed(front + bytes, others, rest, behind);
        assert(kinds(list) + cut_kind(rest) =~= seq![(first.kind, first.pid)] + (kinds(others)
            + cut_kind(rest)));
    }
}

/// A map section with the given streams: a table byte, the length of the rest,
/// seven bytes that are not read, the length of the descriptors of the program
/// and these, the streams, what is no whole stream, and four bytes of checksum.
pub open spec fn map_section(
    spare: u8,
    header: Seq<u8>,
    more_spare: u8,
    descriptors: Seq<u8>,
    list: Seq<Listed>,
    rest: Seq<u8>,
    checksum: Seq<u8>,
) -> Seq<u8> {
    let len = 7 + 2 + descriptors.len() + listed_bytes(list).len() + rest.len() + 4;
    seq![2u8, (spare * 16 + len / 256) as u8, (len % 256) as u8] + header + seq![
        (more_spare * 16 + descriptors.len() / 256) as u8,
        (descriptors.len() % 256) as u8,
    ] + descriptors + listed_bytes(list) + rest + checksum
}

/// A length is read back from its two bytes.
proof fn lemma_length_field(spare: u8, len: int)
    requires
        spare < 16,
        0 <= len < 4096,
    ensures
        mpegts::length_bits((spare * 16 + len / 256) as u8, (len % 256) as u8) == len,
{
}

/// Where the parts of a map section stand.
#[verifier::spinoff_prover]
proof fn lemma_map_section(
    spare: u8,
    header: Seq<u8>,
    more_spare: u8,
    descriptors: Seq<u8>,
    list: Seq<Listed>,
    rest: Seq<u8>,
    checksum: Seq<u8>,
)
    requires
        spare < 16,
        more_spare < 16,
        header.len() == 7,
        checksum.len() == 4,
        13 + descriptors.len() + listed_bytes(list).len() + rest.len() < 4096,
    ensures
        ({
            let section = map_section(spare, header, more_spare, descriptors, list, rest, checksum);
            let len = 13 + descriptors.len() + listed_bytes(list).len() + rest.len();
            &&& section.len() == 3 + len
            &&& section[0] == 2u8
            &&& mpegts::length_bits(section[1], section[2]) == len
            &&& mpegts::length_bits(section[10], section[11]) == descriptors.len()
        }),
{
    let section = map_section(spare, header, more_spare, descriptors, list, rest, checksum);
    let len = 7 + 2 + descriptors.len() + listed_bytes(list).len() + rest.len() + 4;
    assert(section[1] == (spare * 16 + len / 256) as u8);
    assert(section[2] == (len % 256) as u8);
    assert(section[10] == (more_spare * 16 + descriptors.len() / 256) as u8);
    assert(section[11] == (descriptors.len() % 256) as u8);
    lemma_length_field(spare, len as int);
    lemma_length_field(more_spare, descriptors.len() as int);
}

/// The streams that are read from a program map packet are those that its
/// section lists, in their order, whatever descriptors the program and the
/// streams have. One more whose descriptors are cut short counts too; fewer than
/// five bytes are none.
#[verifier::spinoff_prover]
pub proof fn law_map_read(
    packet: Seq<u8>,
    pmt_pid: u16,
    spare: u8,
    header: Seq<u8>,
    more_spare: u8,
    descriptors: Seq<u8>,
    list: Seq<Listed>,
    rest: Seq<u8>,
    checksum: Seq<u8>,
)
    requires
        spare < 16,
        more_spare < 16,
        header.len() == 7,
        checksum.len() == 4,
        cut_short(rest),
        13 + descriptors.len() + listed_bytes(list).len() + rest.len() < 4096,
        forall|i: int| 0 <= i < list.len() ==> (#[trigger] list[i]).valid(),
        mpegts::section_of(packet, pmt_pid, 0x02) == Some(
            map_section(spare, header, more_spare, descriptors, list, rest, checksum),
        ),
    ensures
        mpegts::streams_of(packet, pmt_pid) == Some(kinds(list) + cut_kind(rest)),
{
    let section = map_section(spare, header, more_spare, descriptors, list, rest, checksum);
    let len = 7 + 2 + descriptors.len() + listed_bytes(list).len() + rest.len() + 4;
    let start = seq![2u8, (spare * 16 + len / 256) as u8, (len % 256) as u8] + header + seq![
        (more_spare * 16 + descriptors.len() / 256) as u8,
        (descriptors.len() % 256) as u8,
    ] + descriptors;
    lemma_map_section(spare, header, more_spare, descriptors, list, rest, checksum);
    assert(start.len() == 12 + descriptors.len());
    assert(section == start + listed_bytes(list) + rest + checksum);
    lemma_listed(start, list, rest, checksum);
}

/// A map whose descriptors of the program leave no place for a stream lists none.
pub proof fn law_map_without_streams(packet: Seq<u8>, pmt_pid: u16)
    requires
        mpegts::section_of(packet, pmt_pid, 0x02) matches Some(section) && {
            &&& section.len() >= 12
            &&& twelve_bits(section[1], section[2]) >= 4
            &&& 12 + twelve_bits(section[10], section[11]) + 5 + 4 > 3 + twelve_bits(
                section[1],
                section[2],
            )
        },
    ensures
        mpegts::streams_of(packet, pmt_pid) == Some(Seq::<(u8, u16)>::empty()),
{
    let section = mpegts::section_of(packet, pmt_pid, 0x02)->0;
    lemma_numbers(section[1], section[2]);
    lemma_numbers(section[10], section[11]);
}

/// A packet without a whole map section, or with one that is too short for its
/// header, lists nothing.
pub proof fn law_no_map(packet: Seq<u8>, pmt_pid: u16)
    ensures
        mpegts::section_of(packet, pmt_pid, 0x02) is None ==> mpegts::streams_of(packet, pmt_pid)
            is None && mpegts::video_of(packet, pmt_pid) is None,
        mpegts::section_of(packet, pmt_pid, 0x02) matches Some(section) ==> (mpegts::streams_of(
            packet,
            pmt_pid,
        ) is None <==> section.len() < 12 || twelve_bits(section[1], section[2]) < 4),
{
    if let Some(section) = mpegts::section_of(packet, pmt_pid, 0x02) {
        lemma_numbers(section[1], section[2]);
    }
}

/// The video of a program is its first stream of type 0x1b (H.264) or 0x24
/// (H.265); there is none where no stream is of these types.
pub proof fn law_video_of_streams(entries: Seq<(u8, u16)>) -> (at: int)
    ensures
        match mpegts::first_video(entries) {
            Some(video) => {
                &&& 0 <= at < entries.len()
                &&& video.pid == entries[at].1
                &&& entries[at].0 == 0x1b && video.codec == VideoCodec::H264 || entries[at].0
                    == 0x24 && video.codec == VideoCodec::H265
                &&& forall|i: int|
                    0 <= i < at ==> (#[trigger] entries[i]).0 != 0x1b && entries[i].0 != 0x24
            },
            None => forall|i: int|
                0 <= i < entries.len() ==> (#[trigger] entries[i]).0 != 0x1b && entries[i].0 != 0x24,
        },
    decreases entries.len(),
{
    if entries.len() == 0 || mpegts::codec_of(entries[0].0) is Some {
        0
    } else {
        let rest = entries.skip(1);
        let at = law_video_of_streams(rest);
        assert forall|i: int|
            0 <= i < entries.len() && (mpegts::first_video(rest) is None || i <= at)
            implies (#[trigger] entries[i]).0 != 0x1b && entries[i].0 != 0x24 by {
            if i > 0 {
                assert(entries[i] == rest[i - 1]);
            }
        }
        at + 1
    }
}

/// The video that a packet announces is that of the streams it lists.
pub proof fn law_video_of_packet(packet: Seq<u8>, pmt_pid: u16)
    ensures
        mpegts::video_of(packet, pmt_pid) == match mpegts::streams_of(packet, pmt_pid) {
            Some(entries) => mpegts::first_video(entries),
            None => None,
        },
{
}

/// A packet that holds a program map announces the first stream of its list that is
/// a video, whatever stands before it in the list and in the packet, and whatever
/// descriptors there are.
#[verifier::spinoff_prover]
pub proof fn law_map_packet_announces(
    packet: Seq<u8>,
    spare: u8,
    header: Seq<u8>,
    more_spare: u8,
    descriptors: Seq<u8>,
    list: Seq<Listed>,
    rest: Seq<u8>,
    checksum: Seq<u8>,
    video: int,
)
    requires
        spare < 16,
        more_spare < 16,
        header.len() == 7,
        checksum.len() == 4,
        cut_short(rest),
        13 + descriptors.len() + listed_bytes(list).len() + rest.len() < 4096,
        forall|i: int| 0 <= i < list.len() ==> (#[trigger] list[i]).valid(),
        has_payload(packet),
        ({
            let section = map_section(spare, header, more_spare, descriptors, list, rest, checksum);
            let at = section_place(packet);
            &&& at + section.len() <= packet.len()
            &&& packet.subrange(at, at + section.len()) == section
        }),
        0 <= video < list.len(),
        list[video].kind == 0x1b || list[video].kind == 0x24,
        forall|i: int| 0 <= i < video ==> (#[trigger] list[i]).kind != 0x1b && list[i].kind != 0x24,
    ensures
        mpegts::video_of(packet, thirteen_bits(packet[1], packet[2])) == Some(
            VideoStream {
                pid: list[video].pid,
                codec: if list[video].kind == 0x1b {
                    VideoCodec::H264
                } else {
                    VideoCodec::H265
                },
            },
        ),
{
    let section = map_section(spare, header, more_spare, descriptors, list, rest, checksum);
    let pid = thirteen_bits(packet[1], packet[2]);
    lemma_map_section(spare, header, more_spare, descriptors, list, rest, checksum);
    lemma_numbers(section[1], section[2]);
    law_section_read(packet, section);
    law_map_read(packet, pid, spare, header, more_spare, descriptors, list, rest, checksum);
    let entries = kinds(list) + cut_kind(rest);
    let at = law_video_of_streams(entries);
    assert(entries[video] == (list[video].kind, list[video].pid));
    if at < video {
        assert(entries[at] == (list[at].kind, list[at].pid));
    }
}

/// The numbers of the streams are those that occur in the list.
pub proof fn law_numbers_of_streams(entries: Seq<(u8, u16)>, pid: u16)
    ensures
        mpegts::entry_pids(entries).contains(pid) <==> exists|i: int|
            0 <= i < entries.len() && (#[trigger] entries[i]).1 == pid,
    decreases entries.len(),
{
    if entries.len() > 0 {
        let rest = entries.skip(1);
        law_numbers_of_streams(rest, pid);
        if mpegts::entry_pids(entries).contains(pid) {
            if entries[0].1 != pid {
                let i = choose|i: int| 0 <= i < rest.len() && (#[trigger] rest[i]).1 == pid;
                assert(entries[i + 1].1 == pid);
            }
        }
        if exists|i: int| 0 <= i < entries.len() && (#[trigger] entries[i]).1 == pid {
            let i = choose|i: int| 0 <= i < entries.len() && (#[trigger] entries[i]).1 == pid;
            if i > 0 {
                assert(rest[i - 1].1 == pid);
            }
        }
    }
}

// ---------------------------------------------------------------------------
// Streams
// ---------------------------------------------------------------------------

proof fn lemma_first_map(data: Seq<u8>, k: int) -> (at: int)
    requires
        0 <= k,
    ensures
        k <= at,
        forall|j: int|
            k <= j < at && j < mpegts::packet_count(data) ==> mpegts::pmt_pid_of(
                #[trigger] mpegts::packet_at(data, j),
            ) is None,
        match mpegts::pmt_pid_from(data, k) {
            Some(pid) => at < mpegts::packet_count(data) && mpegts::pmt_pid_of(
                mpegts::packet_at(data, at),
            ) == Some(pid),
            None => at >= mpegts::packet_count(data),
        },
    decreases mpegts::packet_count(data) - k,
{
    if k >= mpegts::packet_count(data) || mpegts::pmt_pid_of(mpegts::packet_at(data, k)) is Some {
        k
    } else {
        lemma_first_map(data, k + 1)
    }
}

proof fn lemma_first_video(data: Seq<u8>, pmt_pid: u16, k: int) -> (at: int)
    requires
        0 <= k,
    ensures
        k <= at,
        forall|j: int|
            k <= j < at && j < mpegts::packet_count(data) ==> mpegts::video_of(
                #[trigger] mpegts::packet_at(data, j),
                pmt_pid,
            ) is None,
        match mpegts::video_from(data, pmt_pid, k) {
            Some(video) => at < mpegts::packet_count(data) && mpegts::video_of(
                mpegts::packet_at(data, at),
                pmt_pid,
            ) == Some(video),
            None => at >= mpegts::packet_count(data),
        },
    decreases mpegts::packet_count(data) - k,
{
    if k >= mpegts::packet_count(data) || mpegts::video_of(mpegts::packet_at(data, k), pmt_pid)
        is Some {
        k
    } else {
        lemma_first_video(data, pmt_pid, k + 1)
    }
}

proof fn lemma_first_streams(data: Seq<u8>, pmt_pid: u16, k: int) -> (at: int)
    requires
        0 <= k,
    ensures
        k <= at,
        forall|j: int|
            k <= j < at && j < mpegts::packet_count(data) ==> mpegts::streams_of(
                #[trigger] mpegts::packet_at(data, j),
                pmt_pid,
            ) is None,
        at < mpegts::packet_count(data) ==> mpegts::streams_of(
            mpegts::packet_at(data, at),
            pmt_pid,
        ) == Some(mpegts::streams_from(data, pmt_pid, k)),
        at >= mpegts::packet_count(data) ==> mpegts::streams_from(data, pmt_pid, k).len() == 0,
    decreases mpegts::packet_count(data) - k,
{
    if k >= mpegts::packet_count(data) || mpegts::streams_of(mpegts::packet_at(data, k), pmt_pid)
        is Some {
        k
    } else {
        lemma_first_streams(data, pmt_pid, k + 1)
    }
}

/// The video of a stream is announced by the first map packet with a video, of
/// the program whose map the first association packet names. Without such
/// packets there is none. `at` tells where these packets stand.
pub proof fn law_video_announced(data: Seq<u8>) -> (at: (int, int))
    ensures
        0 <= at.0 && 0 <= at.1,
        forall|j: int|
            0 <= j < at.0 && j < mpegts::packet_count(data) ==> mpegts::pmt_pid_of(
                #[trigger] mpegts::packet_at(data, j),
            ) is None,
        match mpegts::video_in(data) {
            Some(video) => {
                &&& at.0 < mpegts::packet_count(data)
                &&& at.1 < mpegts::packet_count(data)
                &&& mpegts::pmt_pid_of(mpegts::packet_at(data, at.0)) matches Some(pmt_pid) && {
                    &&& mpegts::video_of(mpegts::packet_at(data, at.1), pmt_pid) == Some(video)
                    &&& forall|j: int|
                        0 <= j < at.1 ==> mpegts::video_of(
                            #[trigger] mpegts::packet_at(data, j),
                            pmt_pid,
                        ) is None
                }
            },
            None => at.0 < mpegts::packet_count(data) ==> {
                &&& mpegts::pmt_pid_of(mpegts::packet_at(data, at.0)) matches Some(pmt_pid)
                    && forall|j: int|
                    0 <= j < mpegts::packet_count(data) ==> mpegts::video_of(
                        #[trigger] mpegts::packet_at(data, j),
                        pmt_pid,
                    ) is None
            },
        },
{
    let map_at = lemma_first_map(data, 0);
    match mpegts::pmt_pid_from(data, 0) {
        None => (map_at, 0),
        Some(pmt_pid) => (map_at, lemma_first_video(data, pmt_pid, 0)),
    }
}

/// The numbers of the streams are those of the first map packet that can be
/// read, of the program whose map the first association packet names; without
/// such packets there are none.
pub proof fn law_streams_announced(data: Seq<u8>) -> (at: (int, int))
    ensures
        0 <= at.0 && 0 <= at.1,
        forall|j: int|
            0 <= j < at.0 && j < mpegts::packet_count(data) ==> mpegts::pmt_pid_of(
                #[trigger] mpegts::packet_at(data, j),
            ) is None,
        at.0 >= mpegts::packet_count(data) ==> mpegts::elementary_in(data) == Set::<u16>::empty(),
        at.0 < mpegts::packet_count(data) ==> {
            &&& mpegts::pmt_pid_of(mpegts::packet_at(data, at.0)) matches Some(pmt_pid) && {
                &&& forall|j: int|
                    0 <= j < at.1 && j < mpegts::packet_count(data) ==> mpegts::streams_of(
                        #[trigger] mpegts::packet_at(data, j),
                        pmt_pid,
                    ) is None
                &&& if at.1 < mpegts::packet_count(data) {
                    &&& mpegts::streams_of(mpegts::packet_at(data, at.1), pmt_pid) is Some
                    &&& mpegts::elementary_in(data) == mpegts::entry_pids(
                        mpegts::streams_of(mpegts::packet_at(data, at.1), pmt_pid)->0,
                    )
                } else {
                    mpegts::elementary_in(data) == Set::<u16>::empty()
                }
            }
        },
{
    let map_at = lemma_first_map(data, 0);
    match mpegts::pmt_pid_from(data, 0) {
        None => (map_at, 0),
        Some(pmt_pid) => (map_at, lemma_first_streams(data, pmt_pid, 0)),
    }
}

} // verus!
