//! The fixed twelve-byte DNS message header.

use vstd::prelude::*;
use crate::wire::{be16, be16_bytes, lemma_be16_bytes_of, lemma_be16_roundtrip, read_be16};

verus! {

/// A DNS message header with its flag word unpacked into fields.
#[derive(Clone, Copy, Debug, PartialEq, Eq, Structural)]
pub struct DnsHeader {
    pub packet_identifer: u16,
    /// One bit on the wire.
    pub is_reply_packet: bool,
    /// Four bits on the wire.
    pub operation_code: u8,
    /// One bit on the wire.
    pub is_authoritative: bool,
    /// One bit on the wire.
    pub is_truncated: bool,
    /// One bit on the wire.
    pub recursion_is_desired: bool,
    /// One bit on the wire.
    pub recursion_is_available: bool,
    /// Three bits on the wire.
    pub reserved: u8,
    /// Four bits on the wire.
    pub response_code: u8,
    pub question_count: u16,
    pub answer_record_count: u16,
    pub authority_record_count: u16,
    pub additional_record_count: u16,
}

/// The eight flag fields packed in the header's second word, each as a byte:
/// reply bit, operation code, authoritative, truncated, recursion desired,
/// recursion available, reserved, response code.
pub open spec fn spec_flags(bits: u16) -> Seq<u8> {
    seq![
        ((bits >> 15u16) & 1) as u8,
        ((bits >> 11u16) & 0xF) as u8,
        ((bits >> 10u16) & 1) as u8,
        ((bits >> 9u16) & 1) as u8,
        ((bits >> 8u16) & 1) as u8,
        ((bits >> 7u16) & 1) as u8,
        ((bits >> 4u16) & 0x7) as u8,
        (bits & 0xF) as u8,
    ]
}

pub open spec fn bit_of(b: bool) -> u16 {
    if b { 1 } else { 0 }
}

/// The flag word of `h`: each field kept to its width on the wire (four bits
/// for the operation and response codes, three for the reserved bits, one for
/// each flag), shifted to its place and or-ed in.
pub open spec fn spec_pack_flags(h: DnsHeader) -> u16 {
    (bit_of(h.is_reply_packet) << 15u16)
    | (((h.operation_code & 0xF) as u16) << 11u16)
    | (bit_of(h.is_authoritative) << 10u16)
    | (bit_of(h.is_truncated) << 9u16)
    | (bit_of(h.recursion_is_desired) << 8u16)
    | (bit_of(h.recursion_is_available) << 7u16)
    | (((h.reserved & 0x7) as u16) << 4u16)
    | ((h.response_code & 0xF) as u16)
}

/// The header that twelve bytes decode to.
pub open spec fn spec_header_from_bytes(b: Seq<u8>) -> DnsHeader
    recommends
        b.len() == 12,
{
    let f = spec_flags(be16(b[2], b[3]));
    DnsHeader {
        packet_identifer: be16(b[0], b[1]),
        is_reply_packet: f[0] != 0,
        operation_code: f[1],
        is_authoritative: f[2] != 0,
        is_truncated: f[3] != 0,
        recursion_is_desired: f[4] != 0,
        recursion_is_available: f[5] != 0,
        reserved: f[6],
        response_code: f[7],
        question_count: be16(b[4], b[5]),
        answer_record_count: be16(b[6], b[7]),
        authority_record_count: be16(b[8], b[9]),
        additional_record_count: be16(b[10], b[11]),
    }
}

/// The twelve bytes that a header encodes to: six big-endian words.
pub open spec fn spec_header_to_bytes(h: DnsHeader) -> Seq<u8> {
    be16_bytes(h.packet_identifer) + be16_bytes(spec_pack_flags(h)) + be16_bytes(h.question_count)
        + be16_bytes(h.answer_record_count) + be16_bytes(h.authority_record_count)
        + be16_bytes(h.additional_record_count)
}

/// The header with its packed fields kept to their widths on the wire.
pub open spec fn spec_masked_header(h: DnsHeader) -> DnsHeader {
    DnsHeader {
        operation_code: h.operation_code & 0xF,
        reserved: h.reserved & 0x7,
        response_code: h.response_code & 0xF,
        ..h
    }
}

/// A header whose packed fields fit their widths on the wire.
pub open spec fn header_fields_fit(h: DnsHeader) -> bool {
    &&& h.operation_code < 16
    &&& h.reserved < 8
    &&& h.response_code < 16
}


/// The flag word of the fields that a flag word unpacks to is that word.
proof fn lemma_flags_repack(v: u16)
    ensures
        ({
            let f = spec_flags(v);
            (bit_of(f[0] != 0) << 15u16) | (((f[1] & 0xF) as u16) << 11u16) | (bit_of(f[2] != 0)
                << 10u16) | (bit_of(f[3] != 0) << 9u16) | (bit_of(f[4] != 0) << 8u16) | (bit_of(
                f[5] != 0,
            ) << 7u16) | (((f[6] & 0x7) as u16) << 4u16) | ((f[7] & 0xF) as u16) == v
        }),
{
    assert(
        (bit_of(((v >> 15u16) & 1) as u8 != 0) << 15u16)
        | ((((((v >> 11u16) & 0xF) as u8) & 0xF) as u16) << 11u16)
        | (bit_of(((v >> 10u16) & 1) as u8 != 0) << 10u16)
        | (bit_of(((v >> 9u16) & 1) as u8 != 0) << 9u16)
        | (bit_of(((v >> 8u16) & 1) as u8 != 0) << 8u16)
        | (bit_of(((v >> 7u16) & 1) as u8 != 0) << 7u16)
        | ((((((v >> 4u16) & 0x7) as u8) & 0x7) as u16) << 4u16)
        | ((((v & 0xF) as u8) & 0xF) as u16) == v
    ) by (bit_vector);
}

/// Splitting the flag word of a header gives each field back kept to its width:
/// the one-bit flags as 0 or 1, the operation and response codes to four bits,
/// the reserved bits to three.
pub proof fn lemma_flags_of_packed(h: DnsHeader)
    ensures
        spec_flags(spec_pack_flags(h)) == seq![
            bit_of(h.is_reply_packet) as u8,
            h.operation_code & 0xF,
            bit_of(h.is_authoritative) as u8,
            bit_of(h.is_truncated) as u8,
            bit_of(h.recursion_is_desired) as u8,
            bit_of(h.recursion_is_available) as u8,
            h.reserved & 0x7,
            h.response_code & 0xF,
        ],
{
    let r = h.is_reply_packet;
    let op = h.operation_code;
    let aa = h.is_authoritative;
    let tc = h.is_truncated;
    let rd = h.recursion_is_desired;
    let ra = h.recursion_is_available;
    let z = h.reserved;
    let rc = h.response_code;
    assert({
        let w = (bit_of(r) << 15u16) | (((op & 0xF) as u16) << 11u16) | (bit_of(aa) << 10u16) | (bit_of(
            tc,
        ) << 9u16) | (bit_of(rd) << 8u16) | (bit_of(ra) << 7u16) | (((z & 0x7) as u16) << 4u16) | ((rc
            & 0xF) as u16);
        &&& ((w >> 15u16) & 1) as u8 == bit_of(r) as u8
        &&& ((w >> 11u16) & 0xF) as u8 == op & 0xF
        &&& ((w >> 10u16) & 1) as u8 == bit_of(aa) as u8
        &&& ((w >> 9u16) & 1) as u8 == bit_of(tc) as u8
        &&& ((w >> 8u16) & 1) as u8 == bit_of(rd) as u8
        &&& ((w >> 7u16) & 1) as u8 == bit_of(ra) as u8
        &&& ((w >> 4u16) & 0x7) as u8 == z & 0x7
        &&& (w & 0xF) as u8 == rc & 0xF
    }) by (bit_vector);
    assert(spec_flags(spec_pack_flags(h)) =~= seq![
        bit_of(r) as u8,
        op & 0xF,
        bit_of(aa) as u8,
        bit_of(tc) as u8,
        bit_of(rd) as u8,
        bit_of(ra) as u8,
        z & 0x7,
        rc & 0xF,
    ]);
}

/// Encoding a header, then decoding the twelve bytes, gives the header back
/// with its packed fields kept to their widths; a header whose fields fit
/// comes back unchanged.
pub proof fn lemma_header_decode_encode(h: DnsHeader)
    ensures
        spec_header_to_bytes(h).len() == 12,
        spec_header_from_bytes(spec_header_to_bytes(h)) == spec_masked_header(h),
        header_fields_fit(h) ==> spec_header_from_bytes(spec_header_to_bytes(h)) == h,
{
    let b = spec_header_to_bytes(h);
    lemma_be16_roundtrip(h.packet_identifer);
    lemma_be16_roundtrip(spec_pack_flags(h));
    lemma_be16_roundtrip(h.question_count);
    lemma_be16_roundtrip(h.answer_record_count);
    lemma_be16_roundtrip(h.authority_record_count);
    lemma_be16_roundtrip(h.additional_record_count);
    lemma_flags_of_packed(h);
    assert(b[2] == be16_bytes(spec_pack_flags(h))[0]);
    assert(b[3] == be16_bytes(spec_pack_flags(h))[1]);
    if header_fields_fit(h) {
        let (op, z, rc) = (h.operation_code, h.reserved, h.response_code);
        assert(op < 16 && z < 8 && rc < 16 ==> op & 0xF == op && z & 0x7 == z && rc & 0xF == rc) by (bit_vector);
    }
}

/// Decoding twelve bytes as a header, then encoding it, gives the bytes back.
pub proof fn lemma_header_encode_decode(b: Seq<u8>)
    requires
        b.len() == 12,
    ensures
        spec_header_to_bytes(spec_header_from_bytes(b)) == b,
{
    let h = spec_header_from_bytes(b);
    lemma_flags_repack(be16(b[2], b[3]));
    assert(spec_pack_flags(h) == be16(b[2], b[3]));
    lemma_be16_bytes_of(b[0], b[1]);
    lemma_be16_bytes_of(b[2], b[3]);
    lemma_be16_bytes_of(b[4], b[5]);
    lemma_be16_bytes_of(b[6], b[7]);
    lemma_be16_bytes_of(b[8], b[9]);
    lemma_be16_bytes_of(b[10], b[11]);
    assert(spec_header_to_bytes(h) =~= b);
}

/// Each field of a decoded header comes from its own bits of the twelve bytes:
/// the identifier and the four counts are big-endian words (bytes 0-1, 4-5,
/// 6-7, 8-9, 10-11); the third byte holds the reply bit (0x80), the operation
/// code (bits 6 to 3), then the authoritative (0x04), truncated (0x02) and
/// recursion-desired (0x01) bits; the fourth holds the recursion-available bit
/// (0x80), the reserved bits (6 to 4) and the response code (3 to 0).
pub proof fn lemma_header_fields_from_bits(b: Seq<u8>)
    requires
        b.len() == 12,
    ensures
        ({
            let h = spec_header_from_bytes(b);
            &&& h.packet_identifer == b[0] as int * 256 + b[1] as int
            &&& h.is_reply_packet == (b[2] & 0x80u8 != 0)
            &&& h.operation_code == (b[2] >> 3u8) & 0xFu8
            &&& h.is_authoritative == (b[2] & 0x04u8 != 0)
            &&& h.is_truncated == (b[2] & 0x02u8 != 0)
            &&& h.recursion_is_desired == (b[2] & 0x01u8 != 0)
            &&& h.recursion_is_available == (b[3] & 0x80u8 != 0)
            &&& h.reserved == (b[3] >> 4u8) & 0x7u8
            &&& h.response_code == b[3] & 0xFu8
            &&& h.question_count == b[4] as int * 256 + b[5] as int
            &&& h.answer_record_count == b[6] as int * 256 + b[7] as int
            &&& h.authority_record_count == b[8] as int * 256 + b[9] as int
            &&& h.additional_record_count == b[10] as int * 256 + b[11] as int
        }),
{
    let x = b[2];
    let y = b[3];
    let v = be16(x, y);
    lemma_be16_bytes_of(x, y);
    assert(be16_bytes(v)[0] == x && be16_bytes(v)[1] == y);
    assert((v / 256) as u8 == x && (v % 256) as u8 == y);
    assert({
        &&& (((v >> 15u16) & 1) as u8 != 0) == (x & 0x80u8 != 0)
        &&& ((v >> 11u16) & 0xF) as u8 == (x >> 3u8) & 0xFu8
        &&& (((v >> 10u16) & 1) as u8 != 0) == (x & 0x04u8 != 0)
        &&& (((v >> 9u16) & 1) as u8 != 0) == (x & 0x02u8 != 0)
        &&& (((v >> 8u16) & 1) as u8 != 0) == (x & 0x01u8 != 0)
        &&& (((v >> 7u16) & 1) as u8 != 0) == (y & 0x80u8 != 0)
        &&& ((v >> 4u16) & 0x7) as u8 == (y >> 4u8) & 0x7u8
        &&& (v & 0xF) as u8 == y & 0xFu8
    }) by (bit_vector)
        requires
            (v / 256) as u8 == x,
            (v % 256) as u8 == y,
    ;
}

/// The twelve bytes of a header: the identifier and the four counts as
/// big-endian words; the third byte holds the reply bit at 0x80, the
/// operation code kept to four bits at bits 6 to 3, then the authoritative
/// (0x04), truncated (0x02) and recursion-desired (0x01) bits; the fourth holds
/// the recursion-available bit at 0x80, the reserved bits kept to three at
/// bits 6 to 4 and the response code kept to four at bits 3 to 0.
pub proof fn lemma_header_bits_of_fields(h: DnsHeader)
    ensures
        ({
            let b = spec_header_to_bytes(h);
            &&& b.len() == 12
            &&& b[0] as int * 256 + b[1] as int == h.packet_identifer
            &&& b[2] == (if h.is_reply_packet { 0x80u8 } else { 0u8 }) | ((h.operation_code & 0xFu8) << 3u8) | (
            if h.is_authoritative { 0x04u8 } else { 0u8 }) | (if h.is_truncated { 0x02u8 } else { 0u8 }) | (
            if h.recursion_is_desired { 0x01u8 } else { 0u8 })
            &&& b[3] == (if h.recursion_is_available { 0x80u8 } else { 0u8 }) | ((h.reserved & 0x7u8) << 4u8) | (
            h.response_code & 0xFu8)
            &&& b[4] as int * 256 + b[5] as int == h.question_count
            &&& b[6] as int * 256 + b[7] as int == h.answer_record_count
            &&& b[8] as int * 256 + b[9] as int == h.authority_record_count
            &&& b[10] as int * 256 + b[11] as int == h.additional_record_count
        }),
{
    let b = spec_header_to_bytes(h);
    lemma_be16_roundtrip(h.packet_identifer);
    lemma_be16_roundtrip(h.question_count);
    lemma_be16_roundtrip(h.answer_record_count);
    lemma_be16_roundtrip(h.authority_record_count);
    lemma_be16_roundtrip(h.additional_record_count);
    let r = h.is_reply_packet;
    let op = h.operation_code;
    let aa = h.is_authoritative;
    let tc = h.is_truncated;
    let rd = h.recursion_is_desired;
    let ra = h.recursion_is_available;
    let z = h.reserved;
    let rc = h.response_code;
    let w = spec_pack_flags(h);
    assert(b[2] == (w / 256) as u8 && b[3] == (w % 256) as u8);
    assert({
        let w = (bit_of(r) << 15u16) | (((op & 0xF) as u16) << 11u16) | (bit_of(aa) << 10u16) | (bit_of(
            tc,
        ) << 9u16) | (bit_of(rd) << 8u16) | (bit_of(ra) << 7u16) | (((z & 0x7) as u16) << 4u16) | ((rc
            & 0xF) as u16);
        &&& (w / 256) as u8 == (if r { 0x80u8 } else { 0u8 }) | ((op & 0xFu8) << 3u8) | (if aa { 0x04u8 } else {
            0u8
        }) | (if tc { 0x02u8 } else { 0u8 }) | (if rd { 0x01u8 } else { 0u8 })
        &&& (w % 256) as u8 == (if ra { 0x80u8 } else { 0u8 }) | ((z & 0x7u8) << 4u8) | (rc & 0xFu8)
    }) by (bit_vector);
}

/// Each one-bit flag of a header stands at its own bit of the encoded bytes:
/// reply 0x80, authoritative 0x04, truncated 0x02 and recursion desired 0x01
/// in the third byte, recursion available 0x80 in the fourth.
pub proof fn lemma_header_flag_bits(h: DnsHeader)
    ensures
        ({
            let b = spec_header_to_bytes(h);
            &&& (b[2] & 0x80u8 != 0) == h.is_reply_packet
            &&& (b[2] & 0x04u8 != 0) == h.is_authoritative
            &&& (b[2] & 0x02u8 != 0) == h.is_truncated
            &&& (b[2] & 0x01u8 != 0) == h.recursion_is_desired
            &&& (b[3] & 0x80u8 != 0) == h.recursion_is_available
        }),
{
    lemma_header_decode_encode(h);
    lemma_header_fields_from_bits(spec_header_to_bytes(h));
}

impl DnsHeader {
    /// Decodes the header from the first twelve bytes of a datagram.
    pub fn from_bytes(data: &[u8; 12]) -> (header: DnsHeader)
        ensures
            header == spec_header_from_bytes(data@),
    {
        let header_flags = DnsHeader::get_flags(read_be16(data[2], data[3]));
        DnsHeader {
            packet_identifer: read_be16(data[0], data[1]),
            is_reply_packet: header_flags[0] != 0,
            operation_code: header_flags[1],
            is_authoritative: header_flags[2] != 0,
            is_truncated: header_flags[3] != 0,
            recursion_is_desired: header_flags[4] != 0,
            recursion_is_available: header_flags[5] != 0,
            reserved: header_flags[6],
            response_code: header_flags[7],
            question_count: read_be16(data[4], data[5]),
            answer_record_count: read_be16(data[6], data[7]),
            authority_record_count: read_be16(data[8], data[9]),
            additional_record_count: read_be16(data[10], data[11]),
        }
    }

    /// Encodes the header as twelve bytes.
    pub fn to_bytes(header: &DnsHeader) -> (bytes: [u8; 12])
        ensures
            bytes@ == spec_header_to_bytes(*header),
    {
        let flags = DnsHeader::pack_flags(header);
        let bytes = [
            (header.packet_identifer / 256) as u8,
            (header.packet_identifer % 256) as u8,
            flags[0],
            flags[1],
            (header.question_count / 256) as u8,
            (header.question_count % 256) as u8,
            (header.answer_record_count / 256) as u8,
            (header.answer_record_count % 256) as u8,
            (header.authority_record_count / 256) as u8,
            (header.authority_record_count % 256) as u8,
            (header.additional_record_count / 256) as u8,
            (header.additional_record_count % 256) as u8,
        ];
        assert(bytes@ =~= spec_header_to_bytes(*header));
        bytes
    }

    /// Splits the flag word into its eight fields.
    fn get_flags(flag_bits: u16) -> (header_flags: [u8; 8])
        ensures
            header_flags@ == spec_flags(flag_bits),
    {
        let mut header_flags: [u8; 8] = [0; 8];
        header_flags[0] = ((flag_bits >> 15) & 1) as u8;
        header_flags[1] = ((flag_bits >> 11) & 0xF) as u8;
        header_flags[2] = ((flag_bits >> 10) & 1) as u8;
        header_flags[3] = ((flag_bits >> 9) & 1) as u8;
        header_flags[4] = ((flag_bits >> 8) & 1) as u8;
        header_flags[5] = ((flag_bits >> 7) & 1) as u8;
        header_flags[6] = ((flag_bits >> 4) & 0x7) as u8;
        header_flags[7] = (flag_bits & 0xF) as u8;
        assert(header_flags@ =~= spec_flags(flag_bits));
        header_flags
    }

    /// Packs the flag fields into the big-endian bytes of the flag word.
    fn pack_flags(header: &DnsHeader) -> (bytes: [u8; 2])
        ensures
            bytes@ == be16_bytes(spec_pack_flags(*header)),
    {
        let mut flag_bits: u16 = 0;
        flag_bits |= (if header.is_reply_packet { 1u16 } else { 0u16 }) << 15;
        flag_bits |= ((header.operation_code & 0xF) as u16) << 11;
        flag_bits |= (if header.is_authoritative { 1u16 } else { 0u16 }) << 10;
        flag_bits |= (if header.is_truncated { 1u16 } else { 0u16 }) << 9;
        flag_bits |= (if header.recursion_is_desired { 1u16 } else { 0u16 }) << 8;
        flag_bits |= (if header.recursion_is_available { 1u16 } else { 0u16 }) << 7;
        flag_bits |= ((header.reserved & 0x7) as u16) << 4;
        flag_bits |= (header.response_code & 0xF) as u16;
        assert(flag_bits == spec_pack_flags(*header)) by {
            assert((0u16 | ((bit_of(header.is_reply_packet)) << 15u16)) == (bit_of(header.is_reply_packet) << 15u16)) by (bit_vector);
        }
        let bytes = [(flag_bits / 256) as u8, (flag_bits % 256) as u8];
        assert(bytes@ =~= be16_bytes(spec_pack_flags(*header)));
        bytes
    }
}

} // verus!
