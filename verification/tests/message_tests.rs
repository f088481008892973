use lib::answer::DNSAnswer;
use lib::forward::{next_transmit_action, SendOutcome, TransmitAction, MAX_TRANSMISSION_ATTEMPTS};
use lib::header::DnsHeader;
use lib::message::DnsMessage;
use lib::question::DNSQuestion;

fn header(operation_code: u8, question_count: u16) -> DnsHeader {
    DnsHeader {
        packet_identifer: 0xbeef,
        is_reply_packet: false,
        operation_code,
        is_authoritative: true,
        is_truncated: false,
        recursion_is_desired: true,
        recursion_is_available: true,
        reserved: 0,
        response_code: 0,
        question_count,
        answer_record_count: 0,
        authority_record_count: 2,
        additional_record_count: 1,
    }
}

fn question(labels: &[&str]) -> DNSQuestion {
    DNSQuestion {
        domain_labels: labels.iter().map(|s| s.to_string()).collect(),
        question_type: 1,
        question_class: 1,
    }
}

fn answer(labels: &[&str]) -> DNSAnswer {
    DNSAnswer {
        domain_labels: labels.iter().map(|s| s.to_string()).collect(),
        answer_type: 1,
        answer_class: 1,
        time_to_live: 300,
        length: 4,
        data: vec![1, 2, 3, 4],
    }
}

#[test]
fn message_roundtrip_one_answer() {
    let mut h = header(0, 2);
    h.answer_record_count = 1;
    let message = DnsMessage {
        header: h,
        questions: vec![question(&["www", "example"]), question(&["mail", "org"])],
        answers: vec![answer(&["www", "example"])],
        additional: Vec::new(),
    };
    let (buffer, len) = DnsMessage::to_bytes(&message);
    assert_eq!(len, 12 + 17 + 14 + 27);
    assert!(buffer[len..].iter().all(|b| *b == 0));
    assert_eq!(DnsMessage::from_bytes(&buffer), message);
}

#[test]
fn message_query_from_bytes() {
    let message = DnsMessage {
        header: header(0, 1),
        questions: vec![question(&["a", "b"])],
        answers: Vec::new(),
        additional: Vec::new(),
    };
    let (buffer, _) = DnsMessage::to_bytes(&message);
    assert_eq!(DnsMessage::query_from_bytes(&buffer), message);
}

#[test]
fn message_to_bytes_too_long_is_refused() {
    let long_label = "x".repeat(150);
    let labels: Vec<&str> = vec![&long_label, &long_label, &long_label, &long_label];
    let message = DnsMessage {
        header: header(0, 1),
        questions: vec![DNSQuestion {
            domain_labels: labels.iter().map(|s| s.to_string()).collect(),
            question_type: 1,
            question_class: 1,
        }],
        answers: Vec::new(),
        additional: Vec::new(),
    };
    // The repeated label is compressed; the answers then overflow.
    assert!(DnsMessage::try_to_bytes(&message).is_some());
    let mut big = message;
    big.answers = (0..40).map(|_| answer(&["abcdefgh"])).collect();
    assert!(DnsMessage::try_to_bytes(&big).is_none());
}

#[test]
fn message_from_bytes_questions_past_end_faults() {
    let mut data = [0u8; 512];
    data[5] = 1;
    data[12] = 0x82 | 0x40;
    data[13] = 0x58;
    // A pointer to position 600 ends the question scan there: the answers
    // would start past the end of the datagram.
    assert!(DnsMessage::try_from_bytes(&data).is_none());
    // A query reads no answers, so the same datagram is read as one.
    let query = DnsMessage::try_query_from_bytes(&data).unwrap();
    assert!(query.questions.is_empty());
}

#[test]
fn forwarding_message_is_a_single_question_query() {
    let mut h = header(1, 3);
    h.is_reply_packet = true;
    h.response_code = 5;
    let q = question(&["example", "net"]);
    let (buffer, len) = DnsMessage::construct_forwarding_message(&q, &h);
    let forwarded = DnsMessage::from_bytes(&buffer);
    assert_eq!(len, 12 + 17);
    assert_eq!(forwarded.header.packet_identifer, 0xbeef);
    assert!(!forwarded.header.is_reply_packet);
    assert!(!forwarded.header.is_authoritative);
    assert_eq!(forwarded.header.operation_code, 1);
    assert_eq!(forwarded.header.response_code, 0);
    assert_eq!(forwarded.header.question_count, 1);
    assert_eq!(forwarded.header.authority_record_count, 0);
    assert_eq!(forwarded.header.additional_record_count, 1);
    assert_eq!(forwarded.questions, vec![q]);
}

#[test]
fn response_header_standard_query() {
    let h = header(0, 2);
    let r = DnsMessage::build_response_header(&h, 7);
    assert!(r.is_reply_packet);
    assert!(!r.recursion_is_available);
    assert!(r.is_authoritative);
    assert_eq!(r.response_code, 0);
    assert_eq!(r.answer_record_count, 7);
    assert_eq!(r.question_count, 2);
    assert_eq!(r.packet_identifer, 0xbeef);
}

#[test]
fn response_header_other_operation_not_implemented() {
    let r = DnsMessage::build_response_header(&header(2, 1), 0);
    assert_eq!(r.response_code, 4);
}

#[test]
fn response_from_answers_keeps_query() {
    let query = DnsMessage {
        header: header(0, 1),
        questions: vec![question(&["a"])],
        answers: Vec::new(),
        additional: vec![9, 9],
    };
    let answers = vec![answer(&["a"]), answer(&["a"])];
    let response = DnsMessage::build_response_from_answers(&query, answers.clone());
    assert_eq!(response.questions, query.questions);
    assert_eq!(response.answers, answers);
    assert_eq!(response.additional, vec![9, 9]);
    assert_eq!(response.header.answer_record_count, 2);
    assert!(response.header.is_reply_packet);
}

#[test]
fn hardcoded_answers_point_at_google_dns() {
    let qs = vec![question(&["a", "b"]), question(&["c"])];
    let answers = DnsMessage::build_response_answer_hardcode(&qs);
    assert_eq!(answers.len(), 2);
    assert_eq!(answers[1].domain_labels, vec!["c".to_string()]);
    assert_eq!(answers[0].answer_type, 1);
    assert_eq!(answers[0].answer_class, 1);
    assert_eq!(answers[0].time_to_live, 60);
    assert_eq!(answers[0].length, 4);
    assert_eq!(answers[0].data, vec![8, 8, 8, 8]);
}

#[test]
fn transmit_stops_when_all_bytes_sent() {
    assert_eq!(next_transmit_action(1, SendOutcome::Sent(40), 40), TransmitAction::Stop);
}

#[test]
fn transmit_retries_partial_send() {
    assert_eq!(next_transmit_action(1, SendOutcome::Sent(10), 40), TransmitAction::Retry);
}

#[test]
fn transmit_stops_on_error() {
    assert_eq!(next_transmit_action(1, SendOutcome::Failed, 40), TransmitAction::Stop);
}

#[test]
fn transmit_stops_after_last_attempt() {
    assert_eq!(
        next_transmit_action(MAX_TRANSMISSION_ATTEMPTS, SendOutcome::Sent(10), 40),
        TransmitAction::Stop
    );
    assert_eq!(
        next_transmit_action(MAX_TRANSMISSION_ATTEMPTS - 1, SendOutcome::Sent(10), 40),
        TransmitAction::Retry
    );
}

#[test]
fn message_repeated_label_reads_back() {
    let mut h = header(0, 2);
    h.answer_record_count = 2;
    let message = DnsMessage {
        header: h,
        questions: vec![question(&["a", "b"]), question(&["c", "b"])],
        answers: vec![answer(&["a"]), answer(&["c", "b"])],
        additional: Vec::new(),
    };
    let (buffer, _) = DnsMessage::to_bytes(&message);
    let read = DnsMessage::from_bytes(&buffer);
    assert_eq!(read, message);
}

#[test]
fn extend_with_response_answers_appends() {
    let mut h = header(0, 1);
    h.is_reply_packet = true;
    let response = DnsMessage {
        header: h,
        questions: vec![question(&["a"])],
        answers: vec![answer(&["a"])],
        additional: Vec::new(),
    };
    let (buffer, _) = DnsMessage::to_bytes(&response);
    let mut received = vec![answer(&["z"])];
    assert!(DnsMessage::extend_with_response_answers(&mut received, &buffer));
    assert_eq!(received, vec![answer(&["z"]), answer(&["a"])]);
}

#[test]
fn extend_with_response_answers_refuses_bad_response() {
    let mut data = [0u8; 512];
    data[5] = 1;
    data[12] = 0xC2;
    data[13] = 0x58;
    let mut received = vec![answer(&["z"])];
    assert!(!DnsMessage::extend_with_response_answers(&mut received, &data));
    assert_eq!(received, vec![answer(&["z"])]);
}
