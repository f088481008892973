use lib::header::DnsHeader;

fn sample_header() -> DnsHeader {
    DnsHeader {
        packet_identifer: 0x1234,
        is_reply_packet: true,
        operation_code: 2,
        is_authoritative: false,
        is_truncated: true,
        recursion_is_desired: true,
        recursion_is_available: false,
        reserved: 5,
        response_code: 3,
        question_count: 1,
        answer_record_count: 2,
        authority_record_count: 3,
        additional_record_count: 4,
    }
}

#[test]
fn header_to_bytes_packs_flags() {
    let bytes = DnsHeader::to_bytes(&sample_header());
    // 1 0010 0 1 1 0 101 0011 = 0x9353
    assert_eq!(bytes, [0x12, 0x34, 0x93, 0x53, 0, 1, 0, 2, 0, 3, 0, 4]);
}

#[test]
fn header_from_bytes_unpacks_flags() {
    let header = DnsHeader::from_bytes(&[0x12, 0x34, 0x93, 0x53, 0, 1, 0, 2, 0, 3, 0, 4]);
    assert_eq!(header, sample_header());
}

#[test]
fn header_roundtrip_from_fields() {
    let header = sample_header();
    assert_eq!(DnsHeader::from_bytes(&DnsHeader::to_bytes(&header)), header);
}

#[test]
fn header_roundtrip_from_bytes() {
    let bytes = [0xab, 0xcd, 0xff, 0xff, 0x12, 0x34, 0x56, 0x78, 0x9a, 0xbc, 0xde, 0xf0];
    assert_eq!(DnsHeader::to_bytes(&DnsHeader::from_bytes(&bytes)), bytes);
}

#[test]
fn header_wide_fields_are_kept_to_their_widths() {
    let mut header = sample_header();
    header.operation_code = 0x12;
    header.reserved = 0x9;
    header.response_code = 0x13;
    let decoded = DnsHeader::from_bytes(&DnsHeader::to_bytes(&header));
    let mut expected = header;
    expected.operation_code = 0x2;
    expected.reserved = 0x1;
    expected.response_code = 0x3;
    assert_eq!(decoded, expected);
}

#[test]
fn header_operation_code_does_not_spill_into_reply_bit() {
    let mut header = DnsHeader::from_bytes(&[0; 12]);
    header.operation_code = 16;
    let bytes = DnsHeader::to_bytes(&header);
    assert_eq!(bytes[2], 0);
    assert_eq!(bytes[3], 0);
}

#[test]
fn header_all_flags_clear() {
    let header = DnsHeader::from_bytes(&[0; 12]);
    assert_eq!(header.packet_identifer, 0);
    assert!(!header.is_reply_packet);
    assert_eq!(header.operation_code, 0);
    assert_eq!(header.response_code, 0);
    assert_eq!(header.question_count, 0);
}

#[test]
fn header_flags_split_back_to_fields() {
    let header = sample_header();
    let decoded = DnsHeader::from_bytes(&DnsHeader::to_bytes(&header));
    assert_eq!(decoded.operation_code, 2);
    assert_eq!(decoded.reserved, 5);
    assert_eq!(decoded.response_code, 3);
    assert!(decoded.is_truncated && decoded.recursion_is_desired && !decoded.is_authoritative);
}
