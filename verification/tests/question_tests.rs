use lib::question::DNSQuestion;

fn question(labels: &[&str], question_type: u16, question_class: u16) -> DNSQuestion {
    DNSQuestion {
        domain_labels: labels.iter().map(|s| s.to_string()).collect(),
        question_type,
        question_class,
    }
}

fn datagram(count: u16, section: &[u8]) -> [u8; 512] {
    let mut data = [0u8; 512];
    data[4] = (count >> 8) as u8;
    data[5] = count as u8;
    data[12..12 + section.len()].copy_from_slice(section);
    data
}

#[test]
fn question_to_bytes_writes_labels_and_fields() {
    let q = question(&["www", "example", "com"], 1, 1);
    let expected: Vec<u8> = vec![
        3, b'w', b'w', b'w', 7, b'e', b'x', b'a', b'm', b'p', b'l', b'e', 3, b'c', b'o', b'm', 0, 0, 1, 0, 1,
    ];
    assert_eq!(DNSQuestion::to_bytes(&q), expected);
}

#[test]
fn question_sequence_to_bytes_concatenates() {
    let qs = vec![question(&["a"], 1, 1), question(&["b"], 28, 1)];
    assert_eq!(
        DNSQuestion::sequence_to_bytes(&qs),
        vec![1, b'a', 0, 0, 1, 0, 1, 1, b'b', 0, 0, 28, 0, 1]
    );
}

#[test]
fn question_from_bytes_single() {
    let q = question(&["www", "example", "com"], 1, 1);
    let data = datagram(1, &DNSQuestion::to_bytes(&q));
    let (questions, consumed) = DNSQuestion::from_bytes(&data);
    assert_eq!(consumed, 21);
    assert_eq!(questions, vec![q]);
}

#[test]
fn question_roundtrip_uncompressed() {
    let qs = vec![question(&["mail", "example", "org"], 15, 1), question(&["x", "y"], 28, 3)];
    let bytes = DNSQuestion::sequence_to_bytes(&qs);
    let data = datagram(2, &bytes);
    let (questions, consumed) = DNSQuestion::from_bytes(&data);
    assert_eq!(consumed, bytes.len());
    assert_eq!(questions, qs);
}

#[test]
fn question_count_zero_reads_nothing() {
    let data = datagram(0, &[3, b'a', b'b', b'c', 0, 0, 1, 0, 1]);
    let (questions, consumed) = DNSQuestion::from_bytes(&data);
    assert!(questions.is_empty());
    assert_eq!(consumed, 0);
}

#[test]
fn question_compressed_bytes_use_pointers() {
    let qs = vec![question(&["a", "b"], 1, 1), question(&["c", "b"], 1, 1)];
    let bytes = DNSQuestion::sequence_to_compressed_bytes(&qs);
    // "b" was first written at datagram position 14.
    assert_eq!(
        bytes,
        vec![1, b'a', 1, b'b', 0, 0, 1, 0, 1, 1, b'c', 0xC0, 14, 0, 1, 0, 1]
    );
}

#[test]
fn question_compressed_without_repeats_is_plain() {
    let qs = vec![question(&["a", "b"], 1, 1), question(&["c", "d"], 2, 1)];
    assert_eq!(
        DNSQuestion::sequence_to_compressed_bytes(&qs),
        DNSQuestion::sequence_to_bytes(&qs)
    );
}

#[test]
fn question_compressed_repeat_inside_one_name() {
    let qs = vec![question(&["w", "w", "z"], 1, 1)];
    // The second "w" points back at the first and ends the name.
    assert_eq!(
        DNSQuestion::sequence_to_compressed_bytes(&qs),
        vec![1, b'w', 0xC0, 12, 0, 1, 0, 1]
    );
}

#[test]
fn question_from_bytes_follows_pointer() {
    let qs = vec![question(&["a", "b"], 1, 1), question(&["c", "b"], 1, 1)];
    let data = datagram(2, &DNSQuestion::sequence_to_compressed_bytes(&qs));
    let (questions, consumed) = DNSQuestion::from_bytes(&data);
    assert_eq!(questions, qs);
    // After a pointer the type is read right after it.
    assert_eq!(consumed, 17);
}

#[test]
fn question_pointer_cycle_stops() {
    let data = datagram(1, &[0xC0, 12]);
    let (questions, consumed) = DNSQuestion::from_bytes(&data);
    assert!(questions.is_empty());
    assert_eq!(consumed, 0);
}

#[test]
fn question_zero_byte_without_labels_ends_section() {
    let data = datagram(3, &[1, b'a', 0, 0, 1, 0, 1, 0]);
    let (questions, consumed) = DNSQuestion::from_bytes(&data);
    assert_eq!(questions, vec![question(&["a"], 1, 1)]);
    assert_eq!(consumed, 7);
}

#[test]
fn question_pointer_to_start_faults() {
    // A pointer to position 0, where a zero byte stands: reading two bytes back
    // from it underflows.
    let data = datagram(1, &[0xC0, 0]);
    assert!(DNSQuestion::try_from_bytes(&data).is_none());
}

#[test]
fn question_label_past_end_faults() {
    let mut data = datagram(1, &[]);
    data[511] = 5;
    data[500] = 0xC1;
    data[501] = 0xFF;
    data[12] = 0xC1;
    data[13] = 0xF4;
    // Pointer to 500, pointer to 511, a label of five bytes runs past the end.
    assert!(DNSQuestion::try_from_bytes(&data).is_none());
}

#[test]
fn question_invalid_utf8_label_is_replaced() {
    let data = datagram(1, &[2, b'a', 0xFF, 0, 0, 1, 0, 1]);
    let (questions, consumed) = DNSQuestion::from_bytes(&data);
    assert_eq!(consumed, 8);
    assert_eq!(questions[0].domain_labels, vec!["a\u{FFFD}".to_string()]);
}

#[test]
fn question_clone_is_equal() {
    let q = question(&["x", "y"], 5, 6);
    assert_eq!(q.clone(), q);
}

#[test]
fn question_long_label_reads_as_pointer() {
    let long_label = "x".repeat(192);
    let q = DNSQuestion {
        domain_labels: vec![long_label],
        question_type: 1,
        question_class: 1,
    };
    let bytes = DNSQuestion::to_bytes(&q);
    assert_eq!(bytes[0], 0xC0);
    let data = datagram(1, &bytes);
    // The length byte 0xC0 and the next byte are read as a pointer to
    // position 0x78 = 120, inside the label.
    let (questions, _) = DNSQuestion::from_bytes(&data);
    assert_ne!(questions, vec![q]);
}

#[test]
fn question_compressed_never_longer() {
    let qs = vec![
        question(&["", "a"], 1, 1),
        question(&["", "b"], 1, 1),
        question(&["www", "example", "com"], 1, 1),
        question(&["mail", "example", "com"], 1, 1),
    ];
    let compressed = DNSQuestion::sequence_to_compressed_bytes(&qs);
    assert!(compressed.len() <= DNSQuestion::sequence_to_bytes(&qs).len());
}

#[test]
fn question_after_pointer_ended_name() {
    let section = [1, b'a', 0, 0, 1, 0, 1, 1, b'b', 0xC0, 0x0C, 0, 5, 0, 1, 1, b'c', 0, 0, 1, 0, 1];
    let data = datagram(3, &section);
    let (questions, consumed) = DNSQuestion::from_bytes(&data);
    assert_eq!(
        questions,
        vec![question(&["a"], 1, 1), question(&["b", "a"], 5, 1), question(&["c"], 1, 1)]
    );
    assert_eq!(consumed, 22);
}

#[test]
fn question_compressed_roundtrip() {
    let qs = vec![question(&["www", "example"], 1, 1), question(&["mail", "example"], 15, 1), question(&["ftp"], 28, 3)];
    let bytes = DNSQuestion::sequence_to_compressed_bytes(&qs);
    let data = datagram(3, &bytes);
    let (questions, consumed) = DNSQuestion::from_bytes(&data);
    assert_eq!(questions, qs);
    assert_eq!(consumed, bytes.len());
}
