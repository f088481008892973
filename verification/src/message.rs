//! Whole DNS messages: reading a datagram, encoding one, and the messages that
//! a forwarder builds from a query.

use vstd::prelude::*;
use vstd::slice::slice_subrange;
use crate::answer::{
    answers_view, answers_wire, decode_answer, lemma_answers_roundtrip, plain_answer, spec_parse_answers, zeros, AnswerView,
    DNSAnswer, RawAnswer,
};
use crate::compress::{compressible_questions, lemma_compress_layout, questions_compressed_wire};
use crate::header::{header_fields_fit, lemma_header_bits_of_fields, lemma_header_decode_encode, lemma_header_flag_bits, spec_header_from_bytes, spec_header_to_bytes, DnsHeader};
use crate::question::{
    decode_question, lemma_compressed_questions_roundtrip, questions_view, questions_wire, spec_parse_questions,
    DNSQuestion, QuestionView, RawQuestion,
};
use crate::wire::lemma_be16_roundtrip;

verus! {

/// A message as its contents.
pub struct MessageView {
    pub header: DnsHeader,
    pub questions: Seq<QuestionView>,
    pub answers: Seq<AnswerView>,
    pub additional: Seq<u8>,
}

/// A DNS message: header, question and answer sections, and additional bytes
/// (kept, never encoded).
#[derive(Debug, PartialEq, Eq)]
pub struct DnsMessage {
    pub header: DnsHeader,
    pub questions: Vec<DNSQuestion>,
    pub answers: Vec<DNSAnswer>,
    pub additional: Vec<u8>,
}

impl View for DnsMessage {
    type V = MessageView;

    open spec fn view(&self) -> MessageView {
        MessageView {
            header: self.header,
            questions: questions_view(self.questions@),
            answers: answers_view(self.answers@),
            additional: self.additional@,
        }
    }
}

/// The message that a datagram holds: the header from its first twelve bytes,
/// the questions after it, and the answers read from the byte after the
/// questions; `None` where a scan faults or the answers would start past the
/// end of the datagram.
pub open spec fn spec_parse_message(data: Seq<u8>) -> Option<MessageView> {
    match spec_parse_questions(data) {
        None => None,
        Some((qs, n)) => if 12 + n > data.len() {
            None
        } else {
            match spec_parse_answers(data.subrange(12 + n, data.len() as int)) {
                None => None,
                Some((ans, _)) => Some(
                    MessageView {
                        header: spec_header_from_bytes(data.subrange(0, 12)),
                        questions: qs.map_values(|r: RawQuestion| decode_question(r)),
                        answers: ans.map_values(|r: RawAnswer| decode_answer(r)),
                        additional: Seq::empty(),
                    },
                ),
            }
        },
    }
}

/// The query that a datagram holds: its header and questions only; `None` where
/// the question scan faults.
pub open spec fn spec_parse_query(data: Seq<u8>) -> Option<MessageView> {
    match spec_parse_questions(data) {
        None => None,
        Some((qs, _)) => Some(
            MessageView {
                header: spec_header_from_bytes(data.subrange(0, 12)),
                questions: qs.map_values(|r: RawQuestion| decode_question(r)),
                answers: Seq::empty(),
                additional: Seq::empty(),
            },
        ),
    }
}

/// A message on the wire: header, questions with compression, answers; `None`
/// where the compression positions overflow.
pub open spec fn message_wire(m: MessageView) -> Option<Seq<u8>> {
    match questions_compressed_wire(m.questions) {
        None => None,
        Some(q) => Some(spec_header_to_bytes(m.header) + q + answers_wire(m.answers)),
    }
}

/// A 512-byte datagram holding `bytes`, zero after them.
pub open spec fn datagram(bytes: Seq<u8>) -> Seq<u8> {
    bytes + zeros((512 - bytes.len()) as nat)
}

/// The header of a query forwarded upstream: the query's identifier, operation
/// code, truncation, recursion flags, reserved bits and additional count, as a
/// query for one question.
pub open spec fn spec_forwarding_header(h: DnsHeader) -> DnsHeader {
    DnsHeader {
        packet_identifer: h.packet_identifer,
        is_reply_packet: false,
        operation_code: h.operation_code,
        is_authoritative: false,
        is_truncated: h.is_truncated,
        recursion_is_desired: h.recursion_is_desired,
        recursion_is_available: h.recursion_is_available,
        reserved: h.reserved,
        response_code: 0,
        question_count: 1,
        answer_record_count: 0,
        authority_record_count: 0,
        additional_record_count: h.additional_record_count,
    }
}

/// The message forwarded upstream for one question of a query.
pub open spec fn spec_forwarding_message(q: QuestionView, h: DnsHeader) -> MessageView {
    MessageView {
        header: spec_forwarding_header(h),
        questions: seq![q],
        answers: Seq::empty(),
        additional: Seq::empty(),
    }
}

/// The header of the response to a query: a reply carrying the query's
/// identifier, operation code, flags, reserved bits and counts, with `acount`
/// answers, recursion not available, and response code 0 for a standard query
/// and 4 (not implemented) for any other operation.
pub open spec fn spec_response_header(h: DnsHeader, acount: u16) -> DnsHeader {
    DnsHeader {
        packet_identifer: h.packet_identifer,
        is_reply_packet: true,
        operation_code: h.operation_code,
        is_authoritative: h.is_authoritative,
        is_truncated: h.is_truncated,
        recursion_is_desired: h.recursion_is_desired,
        recursion_is_available: false,
        reserved: h.reserved,
        response_code: if h.operation_code == 0 { 0 } else { 4 },
        question_count: h.question_count,
        answer_record_count: acount,
        authority_record_count: h.authority_record_count,
        additional_record_count: h.additional_record_count,
    }
}

/// The fixed answer given to a question when no upstream server is asked: an
/// address record for 8.8.8.8 with a time to live of sixty seconds.
pub open spec fn spec_fixed_answer(q: QuestionView) -> AnswerView {
    AnswerView { labels: q.labels, atype: 1, aclass: 1, ttl: 60, length: 4, data: seq![8u8, 8, 8, 8] }
}


/// A message that reads back unchanged from its encoding: header fields that fit
/// their widths and count its questions; questions that compression keeps
/// readable (plain labels, none twice in a question, a type below 256, and a
/// label shared between questions only as the last label of each); answers
/// with labels that fit their length bytes and a length field that is its
/// data's length; no additional bytes.
pub open spec fn message_reads_back(m: MessageView) -> bool {
    &&& header_fields_fit(m.header)
    &&& m.header.question_count == m.questions.len()
    &&& compressible_questions(m.questions)
    &&& forall|i: int| 0 <= i < m.answers.len() ==> plain_answer(#[trigger] m.answers[i])
    &&& m.additional.len() == 0
}

/// Reading a datagram made of a header's bytes, a question section that reads
/// back as given, and an answer section that reads back as given, gives the
/// message back.
proof fn lemma_message_parse(m: MessageView, h: Seq<u8>, qbytes: Seq<u8>, rest: Seq<u8>)
    requires
        h.len() == 12,
        spec_header_from_bytes(h) == m.header,
        spec_parse_questions(h + qbytes + rest) matches Some((raw, n)) && n == qbytes.len()
            && raw.map_values(|r: RawQuestion| decode_question(r)) == m.questions,
        spec_parse_answers(rest) matches Some((raw, _)) && raw.map_values(|r: RawAnswer| decode_answer(r))
            == m.answers,
        m.additional == Seq::<u8>::empty(),
    ensures
        spec_parse_message(h + qbytes + rest) == Some(m),
{
    let data = h + qbytes + rest;
    let (raw_q, n) = spec_parse_questions(data)->Some_0;
    assert(raw_q.map_values(|r: RawQuestion| decode_question(r)) == m.questions);
    assert(data.subrange(12 + n, data.len() as int) =~= rest);
    assert(data.subrange(0, 12) =~= h);
}

/// Encoding such a message into a datagram, then reading the datagram, gives
/// the message back.
pub proof fn lemma_message_roundtrip(m: MessageView)
    requires
        message_reads_back(m),
        12 + questions_wire(m.questions).len() + answers_wire(m.answers).len() <= 512,
    ensures
        message_wire(m) matches Some(w) && w.len() <= 512 && spec_parse_message(datagram(w)) == Some(m),
{
    let h = spec_header_to_bytes(m.header);
    let qs = m.questions;
    let aw = answers_wire(m.answers);
    lemma_compress_layout(qs, qs.len() as int);
    assert(qs.take(qs.len() as int) =~= qs);
    let enc = questions_compressed_wire(qs)->Some_0;
    lemma_header_decode_encode(m.header);
    let w = h + enc + aw;
    assert(message_wire(m) == Some(w));
    let pad = (512 - w.len()) as nat;
    let rest = aw + zeros(pad);
    assert(datagram(w) =~= h + enc + rest);
    assert(crate::wire::be16(h[4], h[5]) == qs.len()) by {
        lemma_be16_roundtrip(m.header.question_count);
        assert(h[4] == crate::wire::be16_bytes(m.header.question_count)[0]);
        assert(h[5] == crate::wire::be16_bytes(m.header.question_count)[1]);
    }
    lemma_compressed_questions_roundtrip(h, qs, rest);
    lemma_answers_roundtrip(m.answers, zeros(pad));
    assert(m.additional =~= Seq::<u8>::empty());
    lemma_message_parse(m, h, enc, rest);
}

/// The query forwarded upstream keeps the client's identifier, operation
/// code, truncation, recursion-desired and recursion-available flags, reserved
/// bits and additional count, and is a plain query: not a reply, not
/// authoritative, response code 0, one question, no answer or authority
/// records.
pub proof fn lemma_forwarding_header_keeps_query(h: DnsHeader)
    ensures
        ({
            let f = spec_forwarding_header(h);
            &&& f.packet_identifer == h.packet_identifer
            &&& f.operation_code == h.operation_code
            &&& f.is_truncated == h.is_truncated
            &&& f.recursion_is_desired == h.recursion_is_desired
            &&& f.recursion_is_available == h.recursion_is_available
            &&& f.reserved == h.reserved
            &&& f.additional_record_count == h.additional_record_count
            &&& !f.is_reply_packet
            &&& !f.is_authoritative
            &&& f.response_code == 0
            &&& f.question_count == 1
            &&& f.answer_record_count == 0
            &&& f.authority_record_count == 0
        }),
{
}

/// On the wire, the query forwarded upstream carries the client's identifier
/// in its first two bytes, a clear reply bit, the client's truncation and
/// recursion-desired bits, and a question count of one.
pub proof fn lemma_forwarding_wire(q: QuestionView, h: DnsHeader)
    requires
        message_wire(spec_forwarding_message(q, h)) is Some,
    ensures
        ({
            let w = message_wire(spec_forwarding_message(q, h))->Some_0;
            &&& w[0] as int * 256 + w[1] as int == h.packet_identifer
            &&& w[2] & 0x80u8 == 0
            &&& (w[2] & 0x02u8 != 0) == h.is_truncated
            &&& (w[2] & 0x01u8 != 0) == h.recursion_is_desired
            &&& w[4] as int * 256 + w[5] as int == 1
        }),
{
    let f = spec_forwarding_header(h);
    let w = message_wire(spec_forwarding_message(q, h))->Some_0;
    let hb = spec_header_to_bytes(f);
    lemma_header_bits_of_fields(f);
    lemma_header_flag_bits(f);
    assert(w[0] == hb[0] && w[1] == hb[1] && w[2] == hb[2] && w[4] == hb[4] && w[5] == hb[5]);
}

/// The header of the response to a query mirrors the query's identifier,
/// operation code, authoritative, truncation and recursion-desired flags,
/// reserved bits, question, authority and additional counts; it is a reply
/// with `acount` answers, recursion not available, and response code 0 for a
/// standard query and 4 (not implemented) for any other.
pub proof fn lemma_response_header_mirrors_query(h: DnsHeader, acount: u16)
    ensures
        ({
            let r = spec_response_header(h, acount);
            &&& r.packet_identifer == h.packet_identifer
            &&& r.operation_code == h.operation_code
            &&& r.is_authoritative == h.is_authoritative
            &&& r.is_truncated == h.is_truncated
            &&& r.recursion_is_desired == h.recursion_is_desired
            &&& r.reserved == h.reserved
            &&& r.question_count == h.question_count
            &&& r.authority_record_count == h.authority_record_count
            &&& r.additional_record_count == h.additional_record_count
            &&& r.is_reply_packet
            &&& !r.recursion_is_available
            &&& r.answer_record_count == acount
            &&& r.response_code == (if h.operation_code == 0 { 0u8 } else { 4u8 })
        }),
{
}

/// On the wire, the response header carries the query's identifier, a set
/// reply bit, the query's recursion-desired bit and a clear
/// recursion-available bit.
pub proof fn lemma_response_header_wire(h: DnsHeader, acount: u16)
    ensures
        ({
            let b = spec_header_to_bytes(spec_response_header(h, acount));
            &&& b[0] as int * 256 + b[1] as int == h.packet_identifer
            &&& b[2] & 0x80u8 != 0
            &&& (b[2] & 0x01u8 != 0) == h.recursion_is_desired
            &&& b[3] & 0x80u8 == 0
            &&& b[6] as int * 256 + b[7] as int == acount
        }),
{
    let r = spec_response_header(h, acount);
    lemma_header_bits_of_fields(r);
    lemma_header_flag_bits(r);
}

/// Where a datagram reads as a whole message, it reads as a query with that
/// message's header and questions and nothing else.
pub proof fn lemma_query_of_message(data: Seq<u8>)
    ensures
        spec_parse_message(data) matches Some(m) ==> spec_parse_query(data) == Some(
            MessageView { header: m.header, questions: m.questions, answers: Seq::empty(), additional: Seq::empty() },
        ),
{
}

/// Encoding a message that reads back, then reading the datagram as a query,
/// gives the message's header and all its questions.
pub proof fn lemma_query_roundtrip(m: MessageView)
    requires
        message_reads_back(m),
        12 + questions_wire(m.questions).len() + answers_wire(m.answers).len() <= 512,
    ensures
        message_wire(m) matches Some(w) && spec_parse_query(datagram(w)) == Some(
            MessageView { header: m.header, questions: m.questions, answers: Seq::empty(), additional: Seq::empty() },
        ),
{
    lemma_message_roundtrip(m);
    let w = message_wire(m)->Some_0;
    lemma_query_of_message(datagram(w));
}

/// Copies bytes into a zeroed 512-byte datagram.
fn to_datagram(bytes: &Vec<u8>) -> (buffer: [u8; 512])
    requires
        bytes@.len() <= 512,
    ensures
        buffer@ == datagram(bytes@),
{
    let mut message_buffer: [u8; 512] = [0; 512];
    let mut k: usize = 0;
    while k < bytes.len()
        invariant
            k <= bytes@.len() <= 512,
            message_buffer@.len() == 512,
            forall|j: int| 0 <= j < k ==> message_buffer@[j] == bytes@[j],
            forall|j: int| k <= j < 512 ==> message_buffer@[j] == 0,
        decreases bytes@.len() - k,
    {
        message_buffer[k] = bytes[k];
        k += 1;
    }
    assert(message_buffer@ =~= datagram(bytes@));
    message_buffer
}

/// Copies the first twelve bytes of a datagram.
fn header_bytes(data: &[u8; 512]) -> (bytes: [u8; 12])
    ensures
        bytes@ == data@.subrange(0, 12),
{
    let bytes = [data[0], data[1], data[2], data[3], data[4], data[5], data[6], data[7], data[8], data[9], data[10], data[11]];
    assert(bytes@ =~= data@.subrange(0, 12));
    bytes
}


/// A copy of each question.
fn clone_questions(v: &Vec<DNSQuestion>) -> (copy: Vec<DNSQuestion>)
    ensures
        questions_view(copy@) == questions_view(v@),
{
    let copy = v.clone();
    assert(questions_view(copy@) =~= questions_view(v@)) by {
        assert forall|i: int| 0 <= i < v@.len() implies copy@[i]@ == v@[i]@ by {
            assert(vstd::pervasive::cloned::<DNSQuestion>(v@[i], copy@[i]));
        }
    }
    copy
}

impl DnsMessage {
    /// Reads a whole message from a datagram: header, questions, and the answers
    /// that start right after the questions. `None` exactly where reading faults.
    pub fn try_from_bytes(data: &[u8; 512]) -> (res: Option<DnsMessage>)
        ensures
            match spec_parse_message(data@) {
                None => res is None,
                Some(m) => res matches Some(r) && r@ == m,
            },
    {
        let index: usize = 12;
        let message_header = DnsHeader::from_bytes(&header_bytes(data));
        let (message_questions, consumed_question_bytes) = match DNSQuestion::try_from_bytes(data) {
            Some(r) => r,
            None => {
                return None;
            },
        };
        if consumed_question_bytes > 500 {
            return None;
        }
        let index = index + consumed_question_bytes;
        let (message_answers, _consumed_answer_bytes) = match DNSAnswer::try_from_bytes(
            slice_subrange(data.as_slice(), index, 512),
        ) {
            Some(r) => r,
            None => {
                return None;
            },
        };
        let message = DnsMessage {
            header: message_header,
            questions: message_questions,
            answers: message_answers,
            additional: Vec::new(),
        };
        assert(message@.additional =~= Seq::<u8>::empty());
        Some(message)
    }

    /// Reads a whole message from a datagram on which reading does not fault.
    pub fn from_bytes(data: &[u8; 512]) -> (message: DnsMessage)
        requires
            spec_parse_message(data@) is Some,
        ensures
            spec_parse_message(data@) == Some(message@),
    {
        match DnsMessage::try_from_bytes(data) {
            Some(m) => m,
            None => {
                proof {
                    assert(false);
                }
                DnsMessage {
                    header: DnsHeader::from_bytes(&header_bytes(data)),
                    questions: Vec::new(),
                    answers: Vec::new(),
                    additional: Vec::new(),
                }
            },
        }
    }

    /// Reads a query from a datagram: its header and questions. `None` exactly
    /// where the question scan faults.
    pub fn try_query_from_bytes(data: &[u8; 512]) -> (res: Option<DnsMessage>)
        ensures
            match spec_parse_query(data@) {
                None => res is None,
                Some(m) => res matches Some(r) && r@ == m,
            },
    {
        let dns_header = DnsHeader::from_bytes(&header_bytes(data));
        match DNSQuestion::try_from_bytes(data) {
            Some((questions, _)) => {
                let message = DnsMessage {
                    header: dns_header,
                    questions,
                    answers: Vec::new(),
                    additional: Vec::new(),
                };
                assert(message@.additional =~= Seq::<u8>::empty());
                assert(message@.answers =~= Seq::<AnswerView>::empty());
                Some(message)
            },
            None => None,
        }
    }

    /// Reads a query from a datagram on which the question scan does not fault.
    pub fn query_from_bytes(data: &[u8; 512]) -> (message: DnsMessage)
        requires
            spec_parse_query(data@) is Some,
        ensures
            spec_parse_query(data@) == Some(message@),
    {
        match DnsMessage::try_query_from_bytes(data) {
            Some(m) => m,
            None => {
                proof {
                    assert(false);
                }
                DnsMessage {
                    header: DnsHeader::from_bytes(&header_bytes(data)),
                    questions: Vec::new(),
                    answers: Vec::new(),
                    additional: Vec::new(),
                }
            },
        }
    }

    /// Encodes a message into a 512-byte datagram and gives the number of bytes
    /// used; `None` exactly where the encoding does not fit.
    pub fn try_to_bytes(message: &DnsMessage) -> (res: Option<([u8; 512], usize)>)
        ensures
            match message_wire(message@) {
                Some(w) if w.len() <= 512 => res matches Some((buffer, n)) && n == w.len() && buffer@
                    == datagram(w),
                _ => res is None,
            },
    {
        let encoded_header = DnsHeader::to_bytes(&message.header);
        let questions_vec_bytes = match DNSQuestion::try_sequence_to_compressed_bytes(&message.questions) {
            Some(bytes) => bytes,
            None => {
                return None;
            },
        };
        let answers_vec_bytes = DNSAnswer::sequence_to_bytes(&message.answers);
        if questions_vec_bytes.len() > 500 || answers_vec_bytes.len() > 500 - questions_vec_bytes.len() {
            return None;
        }
        let mut message_bytes: Vec<u8> = Vec::with_capacity(512);
        crate::wire::push_bytes(&mut message_bytes, encoded_header.as_slice());
        crate::wire::push_bytes(&mut message_bytes, questions_vec_bytes.as_slice());
        crate::wire::push_bytes(&mut message_bytes, answers_vec_bytes.as_slice());
        let message_index = message_bytes.len();
        Some((to_datagram(&message_bytes), message_index))
    }

    /// Encodes a message whose encoding fits into a 512-byte datagram, and gives
    /// the number of bytes used.
    pub fn to_bytes(message: &DnsMessage) -> (res: ([u8; 512], usize))
        requires
            message_wire(message@) matches Some(w) && w.len() <= 512,
        ensures
            message_wire(message@) matches Some(w) && res.1 == w.len() && res.0@ == datagram(w),
    {
        match DnsMessage::try_to_bytes(message) {
            Some(r) => r,
            None => {
                proof {
                    assert(false);
                }
                ([0; 512], 0)
            },
        }
    }

    /// The header of the query forwarded upstream for one question.
    fn build_forwarding_header(dns_query_header: &DnsHeader) -> (header: DnsHeader)
        ensures
            header == spec_forwarding_header(*dns_query_header),
    {
        DnsHeader {
            packet_identifer: dns_query_header.packet_identifer,
            is_reply_packet: false,
            operation_code: dns_query_header.operation_code,
            is_authoritative: false,
            is_truncated: dns_query_header.is_truncated,
            recursion_is_desired: dns_query_header.recursion_is_desired,
            recursion_is_available: dns_query_header.recursion_is_available,
            reserved: dns_query_header.reserved,
            response_code: 0,
            question_count: 1,
            answer_record_count: 0,
            authority_record_count: 0,
            additional_record_count: dns_query_header.additional_record_count,
        }
    }

    /// The message forwarded upstream for one question of a query.
    pub fn forwarding_message(question: &DNSQuestion, dns_query_header: &DnsHeader) -> (message: DnsMessage)
        ensures
            message@ == spec_forwarding_message(question@, *dns_query_header),
    {
        let mut questions: Vec<DNSQuestion> = Vec::new();
        questions.push(question.clone());
        let message = DnsMessage {
            header: DnsMessage::build_forwarding_header(dns_query_header),
            questions,
            answers: Vec::new(),
            additional: Vec::new(),
        };
        assert(message@.questions =~= seq![question@]);
        assert(message@.answers =~= Seq::<AnswerView>::empty());
        assert(message@.additional =~= Seq::<u8>::empty());
        message
    }

    /// Encodes the message forwarded upstream for one question of a query, where
    /// it fits in a datagram.
    pub fn construct_forwarding_message(question: &DNSQuestion, dns_query_header: &DnsHeader) -> (res: (
        [u8; 512],
        usize,
    ))
        requires
            message_wire(spec_forwarding_message(question@, *dns_query_header)) matches Some(w) && w.len() <= 512,
        ensures
            message_wire(spec_forwarding_message(question@, *dns_query_header)) matches Some(w) && res.1
                == w.len() && res.0@ == datagram(w),
    {
        let forwarding_message = DnsMessage::forwarding_message(question, dns_query_header);
        DnsMessage::to_bytes(&forwarding_message)
    }

    /// The fixed answers given to questions when no upstream server is asked:
    /// one address record for 8.8.8.8 per question, with the question's name.
    pub fn build_response_answer_hardcode(question_list: &[DNSQuestion]) -> (answers: Vec<DNSAnswer>)
        ensures
            answers_view(answers@) == questions_view(question_list@).map_values(
                |q: QuestionView| spec_fixed_answer(q),
            ),
    {
        let mut answers: Vec<DNSAnswer> = Vec::new();
        let mut k: usize = 0;
        while k < question_list.len()
            invariant
                k <= question_list@.len(),
                answers_view(answers@) == questions_view(question_list@.take(k as int)).map_values(
                    |q: QuestionView| spec_fixed_answer(q),
                ),
            decreases question_list@.len() - k,
        {
            let question = &question_list[k];
            let domain_labels = question.domain_labels.clone();
            assert(crate::name::strings_view(domain_labels@) =~= crate::name::strings_view(question.domain_labels@));
            let answer = DNSAnswer {
                domain_labels,
                answer_type: 1,
                answer_class: 1,
                time_to_live: 60,
                length: 4,
                data: vec![8, 8, 8, 8],
            };
            let ghost old_answers = answers@;
            answers.push(answer);
            proof {
                assert(answer@.data =~= seq![8u8, 8, 8, 8]);
                assert(answer@ == spec_fixed_answer(question@));
                assert(answers_view(answers@) =~= answers_view(old_answers).push(answer@));
                assert(questions_view(question_list@.take(k + 1)) =~= questions_view(question_list@.take(k as int)).push(question@));
                assert(questions_view(question_list@.take(k + 1)).map_values(|q: QuestionView| spec_fixed_answer(q))
                    =~= questions_view(question_list@.take(k as int)).map_values(|q: QuestionView| spec_fixed_answer(q)).push(spec_fixed_answer(question@)));
            }
            k += 1;
        }
        assert(question_list@.take(k as int) =~= question_list@);
        answers
    }

    /// The header of the response to a query, with `acount` answers.
    pub fn build_response_header(dns_query_header: &DnsHeader, acount: u16) -> (header: DnsHeader)
        ensures
            header == spec_response_header(*dns_query_header, acount),
    {
        DnsHeader {
            packet_identifer: dns_query_header.packet_identifer,
            is_reply_packet: true,
            operation_code: dns_query_header.operation_code,
            is_authoritative: dns_query_header.is_authoritative,
            is_truncated: dns_query_header.is_truncated,
            recursion_is_desired: dns_query_header.recursion_is_desired,
            recursion_is_available: false,
            reserved: dns_query_header.reserved,
            response_code: if dns_query_header.operation_code == 0 { 0 } else { 4 },
            question_count: dns_query_header.question_count,
            answer_record_count: acount,
            authority_record_count: dns_query_header.authority_record_count,
            additional_record_count: dns_query_header.additional_record_count,
        }
    }

    /// The response to a query given the answers obtained for it: the query's
    /// questions and additional bytes, those answers, and the response header
    /// whose answer count is the number of answers kept to 16 bits.
    pub fn build_response_from_answers(dns_query: &DnsMessage, response_answers: Vec<DNSAnswer>) -> (response: DnsMessage)
        ensures
            response@ == (MessageView {
                header: spec_response_header(dns_query.header, response_answers@.len() as u16),
                questions: dns_query@.questions,
                answers: answers_view(response_answers@),
                additional: dns_query@.additional,
            }),
    {
        let response_questions = clone_questions(&dns_query.questions);
        let response_additional = dns_query.additional.clone();
        assert(response_additional@ =~= dns_query.additional@);
        let response_header = DnsMessage::build_response_header(
            &dns_query.header,
            response_answers.len() as u16,
        );
        DnsMessage {
            header: response_header,
            questions: response_questions,
            answers: response_answers,
            additional: response_additional,
        }
    }
    /// Reads the message in an upstream response and appends its answers to
    /// `received_answers`; false, with nothing appended, exactly where reading
    /// the response faults.
    pub fn extend_with_response_answers(received_answers: &mut Vec<DNSAnswer>, response: &[u8; 512]) -> (read: bool)
        ensures
            read == (spec_parse_message(response@) is Some),
            spec_parse_message(response@) matches Some(m) ==> answers_view(final(received_answers)@)
                == answers_view(old(received_answers)@) + m.answers,
            !read ==> final(received_answers)@ == old(received_answers)@,
    {
        match DnsMessage::try_from_bytes(response) {
            Some(response_message) => {
                let mut returned_answers = response_message.answers;
                let ghost before = received_answers@;
                let ghost returned = returned_answers@;
                received_answers.append(&mut returned_answers);
                assert(answers_view(received_answers@) =~= answers_view(before) + answers_view(returned));
                true
            },
            None => false,
        }
    }
}

} // verus!
