use lib::answer::DNSAnswer;

fn answer(labels: &[&str], data: Vec<u8>) -> DNSAnswer {
    DNSAnswer {
        domain_labels: labels.iter().map(|s| s.to_string()).collect(),
        answer_type: 1,
        answer_class: 1,
        time_to_live: 0x0102_0304,
        length: data.len() as u16,
        data,
    }
}

#[test]
fn answer_to_bytes_layout() {
    let a = answer(&["x", "io"], vec![8, 8, 8, 8]);
    assert_eq!(
        DNSAnswer::to_bytes(&a),
        vec![1, b'x', 2, b'i', b'o', 0, 0, 1, 0, 1, 1, 2, 3, 4, 0, 4, 8, 8, 8, 8]
    );
}

#[test]
fn answer_sequence_to_bytes_concatenates() {
    let a = answer(&["x"], vec![1]);
    let b = answer(&["y"], vec![2, 3]);
    let mut expected = DNSAnswer::to_bytes(&a);
    expected.extend(DNSAnswer::to_bytes(&b));
    assert_eq!(DNSAnswer::sequence_to_bytes(&[a, b]), expected);
}

#[test]
fn answer_from_bytes_single_with_padding() {
    let a = answer(&["example", "com"], vec![93, 184, 216, 34]);
    let mut bytes = DNSAnswer::to_bytes(&a);
    let len = bytes.len();
    bytes.extend([0u8; 10]);
    let (answers, consumed) = DNSAnswer::from_bytes(&bytes);
    assert_eq!(answers, vec![a]);
    // The scan stops at the zero byte after the record and counts it.
    assert_eq!(consumed, len + 1);
}

#[test]
fn answer_from_bytes_empty() {
    let (answers, consumed) = DNSAnswer::from_bytes(&[]);
    assert!(answers.is_empty());
    assert_eq!(consumed, 0);
}

#[test]
fn answer_from_bytes_zero_first() {
    let (answers, consumed) = DNSAnswer::from_bytes(&[0, 5, 6]);
    assert!(answers.is_empty());
    assert_eq!(consumed, 1);
}

#[test]
fn answer_two_records_back_to_back() {
    let bytes = [1, b'a', 0, 0, 1, 0, 1, 0, 0, 0, 60, 0, 1, 7, 1, b'b', 0, 0, 1, 0, 1, 0, 0, 0, 60, 0, 1, 9];
    let (answers, consumed) = DNSAnswer::from_bytes(&bytes);
    assert_eq!(answers.len(), 2);
    assert_eq!(answers[0].domain_labels, vec!["a".to_string()]);
    assert_eq!(answers[0].data, vec![7]);
    assert_eq!(answers[1].domain_labels, vec!["b".to_string()]);
    assert_eq!(answers[1].answer_type, 1);
    assert_eq!(answers[1].time_to_live, 60);
    assert_eq!(answers[1].length, 1);
    assert_eq!(answers[1].data, vec![9]);
    assert_eq!(consumed, bytes.len() + 1);
}

#[test]
fn answer_sequence_roundtrip() {
    let list = vec![answer(&["x"], vec![8, 8, 8, 8]), answer(&["y", "z"], vec![1]), answer(&["w"], vec![])];
    let mut bytes = DNSAnswer::sequence_to_bytes(&list);
    bytes.push(0);
    let (answers, _) = DNSAnswer::from_bytes(&bytes);
    assert_eq!(answers, list);
}

#[test]
fn answer_truncated_fields_fault() {
    assert!(DNSAnswer::try_from_bytes(&[1, b'x', 0, 0, 1]).is_none());
}

#[test]
fn answer_data_past_end_faults() {
    assert!(DNSAnswer::try_from_bytes(&[1, b'x', 0, 0, 1, 0, 1, 0, 0, 0, 9, 0, 9, 1, 2]).is_none());
}

#[test]
fn answer_clone_is_equal() {
    let a = answer(&["x"], vec![1, 2]);
    assert_eq!(a.clone(), a);
}

#[test]
fn answer_parsed_records_are_well_formed() {
    let bytes = [2, b'h', b'i', 0, 0, 16, 0, 1, 0, 0, 0, 5, 0, 3, b'a', b'b', b'c', 0, 0];
    let (answers, _) = DNSAnswer::from_bytes(&bytes);
    assert_eq!(answers.len(), 1);
    assert!(!answers[0].domain_labels.is_empty());
    assert_eq!(answers[0].data.len(), answers[0].length as usize);
    assert_eq!(answers[0].data, vec![b'a', b'b', b'c']);
}
