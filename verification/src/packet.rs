//! Wire codec for the datagram protocol.
//!
//! Every datagram starts with a flag byte: an even value marks a header
//! packet, an odd value a data packet.  A header packet carries the file id
//! in byte 1 and the raw file name in the remaining bytes.  A data packet
//! carries the file id in byte 1, a big-endian sequence number in bytes 2
//! and 3, a terminal marker in byte 4 (1 means this is the last fragment),
//! and the payload in the remaining bytes.

use vstd::prelude::*;

verus! {

/// Shortest buffer that can hold a header packet: flag, file id, and at
/// least one file-name byte.
pub const HEADER_MIN_LEN: usize = 3;

/// Shortest buffer that can hold a data packet: flag, file id, two
/// sequence-number bytes, the terminal marker, and at least one payload
/// byte.
pub const DATA_MIN_LEN: usize = 6;

/// Why a datagram could not be decoded.
#[derive(Debug, PartialEq, Eq)]
pub enum PacketParseError {
    /// The buffer is too short for the header-packet layout.
    InvalidHeaderPacket,
    /// The buffer is too short for the data-packet layout.
    InvalidDataPacket,
}

/// A header packet: it announces the name under which the bytes of a file
/// id are to be stored.  The name is kept as raw bytes; it need not be
/// valid text.
#[derive(Debug, PartialEq, Eq)]
pub struct Header {
    pub file_id: u8,
    pub file_name: Vec<u8>,
}

/// A data packet: one fragment of a file's bytes, placed at a position
/// given by the sequence number.
#[derive(Debug, PartialEq, Eq)]
pub struct Data {
    pub file_id: u8,
    pub packet_number: u16,
    pub is_last_packet: bool,
    pub data: Vec<u8>,
}

/// Either of the two packet variants.
#[derive(Debug)]
pub enum Packet {
    Header(Header),
    Data(Data),
}

/// The 16-bit value that two big-endian bytes stand for.
pub open spec fn spec_be_u16(hi: u8, lo: u8) -> u16 {
    (hi * 256 + lo) as u16
}

/// What decoding a buffer as a header packet yields: the file id and the
/// file name, or nothing when the buffer is too short.
pub open spec fn spec_parse_header(buf: Seq<u8>) -> Option<(u8, Seq<u8>)> {
    if buf.len() < HEADER_MIN_LEN {
        None
    } else {
        Some((buf[1], buf.subrange(2, buf.len() as int)))
    }
}

/// What decoding a buffer as a data packet yields: file id, sequence
/// number, terminal marker, and payload, or nothing when the buffer is too
/// short.
pub open spec fn spec_parse_data(buf: Seq<u8>) -> Option<(u8, u16, bool, Seq<u8>)> {
    if buf.len() < DATA_MIN_LEN {
        None
    } else {
        Some((buf[1], spec_be_u16(buf[2], buf[3]), buf[4] == 1, buf.subrange(5, buf.len() as int)))
    }
}

/// The canonical wire form of a data packet with the given fields.
pub open spec fn spec_encode_data(
    file_id: u8,
    packet_number: u16,
    is_last_packet: bool,
    payload: Seq<u8>,
) -> Seq<u8> {
    seq![
        1u8,
        file_id,
        (packet_number / 256) as u8,
        (packet_number % 256) as u8,
        if is_last_packet { 1u8 } else { 0u8 },
    ] + payload
}

/// Copies `buffer[start..]` into a fresh vector.
fn copy_suffix(buffer: &[u8], start: usize) -> (r: Vec<u8>)
    requires
        start <= buffer@.len(),
    ensures
        r@ == buffer@.subrange(start as int, buffer@.len() as int),
{
    let mut r: Vec<u8> = Vec::new();
    let mut i: usize = start;
    while i < buffer.len()
        invariant
            start <= i <= buffer@.len(),
            r@ == buffer@.subrange(start as int, i as int),
        decreases buffer@.len() - i,
    {
        r.push(buffer[i]);
        proof {
            assert(buffer@.subrange(start as int, i + 1) =~= buffer@.subrange(
                start as int,
                i as int,
            ).push(buffer@[i as int]));
        }
        i = i + 1;
    }
    r
}

impl Header {
    /// Decodes a buffer as a header packet.  The file name is exactly the
    /// byte suffix after the flag and file-id bytes, unaltered.
    pub fn try_from(buffer: &[u8]) -> (r: Result<Header, PacketParseError>)
        ensures
            match r {
                Ok(h) => spec_parse_header(buffer@) == Some((h.file_id, h.file_name@)),
                Err(e) => {
                    &&& spec_parse_header(buffer@) is None
                    &&& e == PacketParseError::InvalidHeaderPacket
                },
            },
    {
        if buffer.len() < HEADER_MIN_LEN {
            return Err(PacketParseError::InvalidHeaderPacket);
        }
        let file_id = buffer[1];
        let file_name = copy_suffix(buffer, 2);
        Ok(Header { file_id, file_name })
    }
}

impl Data {
    /// Decodes a buffer as a data packet.
    pub fn try_from(buffer: &[u8]) -> (r: Result<Data, PacketParseError>)
        ensures
            match r {
                Ok(d) => spec_parse_data(buffer@) == Some(
                    (d.file_id, d.packet_number, d.is_last_packet, d.data@),
                ),
                Err(e) => {
                    &&& spec_parse_data(buffer@) is None
                    &&& e == PacketParseError::InvalidDataPacket
                },
            },
    {
        if buffer.len() < DATA_MIN_LEN {
            return Err(PacketParseError::InvalidDataPacket);
        }
        let file_id = buffer[1];
        let packet_number = (buffer[2] as u16) * 256 + (buffer[3] as u16);
        let is_last_packet = buffer[4] == 1;
        let data = copy_suffix(buffer, 5);
        Ok(Data { file_id, packet_number, is_last_packet, data })
    }
}

impl Packet {
    /// Decodes a buffer into whichever packet variant its flag byte names:
    /// even means header, odd means data.  An empty buffer has no flag byte
    /// and is rejected as an invalid header packet.
    pub fn try_from(buffer: &[u8]) -> (r: Result<Packet, PacketParseError>)
        ensures
            match r {
                Ok(Packet::Header(h)) => {
                    &&& buffer@.len() >= 1
                    &&& buffer@[0] % 2 == 0
                    &&& spec_parse_header(buffer@) == Some((h.file_id, h.file_name@))
                },
                Ok(Packet::Data(d)) => {
                    &&& buffer@.len() >= 1
                    &&& buffer@[0] % 2 == 1
                    &&& spec_parse_data(buffer@) == Some(
                        (d.file_id, d.packet_number, d.is_last_packet, d.data@),
                    )
                },
                Err(PacketParseError::InvalidHeaderPacket) => buffer@.len() == 0 || (
                buffer@[0] % 2 == 0 && spec_parse_header(buffer@) is None),
                Err(PacketParseError::InvalidDataPacket) => {
                    &&& buffer@.len() >= 1
                    &&& buffer@[0] % 2 == 1
                    &&& spec_parse_data(buffer@) is None
                },
            },
    {
        if buffer.len() == 0 {
            return Err(PacketParseError::InvalidHeaderPacket);
        }
        if buffer[0] % 2 == 0 {
            match Header::try_from(buffer) {
                Ok(h) => Ok(Packet::Header(h)),
                Err(e) => Err(e),
            }
        } else {
            match Data::try_from(buffer) {
                Ok(d) => Ok(Packet::Data(d)),
                Err(e) => Err(e),
            }
        }
    }
}

/// Law: decoding the canonical wire form of a data packet gives back
/// exactly the fields it was built from.
pub proof fn lemma_data_round_trip(
    file_id: u8,
    packet_number: u16,
    is_last_packet: bool,
    payload: Seq<u8>,
)
    requires
        payload.len() >= 1,
    ensures
        spec_parse_data(spec_encode_data(file_id, packet_number, is_last_packet, payload))
            == Some((file_id, packet_number, is_last_packet, payload)),
{
    let buf = spec_encode_data(file_id, packet_number, is_last_packet, payload);
    assert(buf.len() == 5 + payload.len());
    assert(spec_be_u16(buf[2], buf[3]) == packet_number) by {
        assert(packet_number / 256 <= 255) by (nonlinear_arith);
        assert((packet_number / 256) * 256 + packet_number % 256 == packet_number) by (nonlinear_arith);
    }
    assert(buf.subrange(5, buf.len() as int) =~= payload);
}

} // verus!
