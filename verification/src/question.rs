//! The question section: one or more domain names, each with a query type and
//! class.

use std::collections::HashSet;
use vstd::prelude::*;
use vstd::hash_map::StringHashMap;
use vstd::slice::slice_subrange;
use vstd::utf8::encode_utf8;
use crate::compress::{
    compress_question_into, compress_questions, compress_state, compressed_question_wire, compressed_step,
    compressible_questions, lemma_compress_layout, lemma_compress_out_prefix, lemma_compress_prefix_none, pointer_wire,
    questions_compressed_wire, table_lookup, table_map, CompressState,
};
use crate::name::{
    label_wire, labels_text, lemma_label_text_encode, lemma_name_wire_first, name_wire, plain_label, push_name, raw_labels,
    strings_view,
};
use crate::text::{label_from_bytes, label_text};
use crate::wire::{be16, be16_bytes, lemma_be16_roundtrip, push_be16, push_bytes, read_be16};

verus! {

/// A question as its contents: the labels' text, type and class.
pub struct QuestionView {
    pub labels: Seq<Seq<char>>,
    pub qtype: u16,
    pub qclass: u16,
}

/// A question as read off the wire, its labels still bytes.
pub struct RawQuestion {
    pub labels: Seq<Seq<u8>>,
    pub qtype: u16,
    pub qclass: u16,
}

/// One entry of the question section.
#[derive(Debug, PartialEq, Eq)]
pub struct DNSQuestion {
    pub domain_labels: Vec<String>,
    pub question_type: u16,
    pub question_class: u16,
}

impl View for DNSQuestion {
    type V = QuestionView;

    open spec fn view(&self) -> QuestionView {
        QuestionView {
            labels: strings_view(self.domain_labels@),
            qtype: self.question_type,
            qclass: self.question_class,
        }
    }
}

impl Clone for DNSQuestion {
    fn clone(&self) -> (copy: Self)
        ensures
            copy@ == self@,
    {
        let domain_labels = self.domain_labels.clone();
        assert(strings_view(domain_labels@) =~= strings_view(self.domain_labels@));
        DNSQuestion { domain_labels, question_type: self.question_type, question_class: self.question_class }
    }
}

/// The contents of each question.
pub open spec fn questions_view(v: Seq<DNSQuestion>) -> Seq<QuestionView> {
    v.map_values(|q: DNSQuestion| q@)
}

/// The question that a question read off the wire becomes.
pub open spec fn decode_question(r: RawQuestion) -> QuestionView {
    QuestionView { labels: labels_text(r.labels), qtype: r.qtype, qclass: r.qclass }
}

/// The state of the scan over the question section.
pub struct ParseState {
    /// The questions completed so far.
    pub questions: Seq<RawQuestion>,
    /// The labels of the name being read.
    pub labels: Seq<Seq<u8>>,
    /// The positions of the compression pointers followed and not yet returned from.
    pub stack: Seq<usize>,
    /// The positions of all compression pointers followed in the current name.
    pub visited: Set<usize>,
    /// The position of the next byte to read.
    pub index: int,
}

/// One step of the scan: the next state, the scan's result, or a fault (an
/// out-of-range read or an arithmetic underflow, on which the scan gives up).
pub enum ParseStep {
    Next(ParseState),
    Done(Seq<RawQuestion>, int),
    Fault,
}

/// The end of the scan when the loop stops: nothing consumed if no question was
/// asked for, else every byte from the end of the header to the stop.
pub open spec fn parse_stop(questions: Seq<RawQuestion>, count: nat, index: int) -> ParseStep {
    if count == 0 {
        ParseStep::Done(questions, 0)
    } else if index < 12 {
        ParseStep::Fault
    } else {
        ParseStep::Done(questions, index - 12)
    }
}

/// One step of the scan of `data` for `count` questions.
///
/// A zero byte ends a name: with no label read the scan ends; inside a followed
/// pointer it resumes two bytes past that pointer; else the type and class are
/// read (right after the zero byte, or at it when the pointer two bytes before
/// was followed) and the next question starts right after the class. A byte with its two
/// top bits set, with the next byte, is a pointer to the 14-bit position it holds;
/// reaching a pointer already followed stops the scan. Any other byte is the
/// length of a label that follows it.
pub open spec fn parse_step(data: Seq<u8>, count: nat, st: ParseState) -> ParseStep {
    let i = st.index;
    if !(st.questions.len() < count && 0 <= i < data.len()) {
        parse_stop(st.questions, count, i)
    } else {
        let octet = data[i];
        if octet == 0 {
            if i < 2 {
                ParseStep::Fault
            } else {
                let off: int = if st.visited.contains((i - 2) as usize) { 0 } else { 1 };
                if st.labels.len() == 0 {
                    if i < 12 { ParseStep::Fault } else { ParseStep::Done(st.questions, i - 12) }
                } else if st.stack.len() == 0 {
                    if i + off + 3 >= data.len() {
                        ParseStep::Fault
                    } else {
                        ParseStep::Next(ParseState {
                            questions: st.questions.push(RawQuestion {
                                labels: st.labels,
                                qtype: be16(data[i + off], data[i + off + 1]),
                                qclass: be16(data[i + off + 2], data[i + off + 3]),
                            }),
                            labels: Seq::empty(),
                            stack: st.stack,
                            visited: Set::empty(),
                            index: i + off + 4,
                        })
                    }
                } else {
                    ParseStep::Next(ParseState {
                        questions: st.questions,
                        labels: st.labels,
                        stack: st.stack.drop_last(),
                        visited: st.visited,
                        index: st.stack.last() + 2,
                    })
                }
            }
        } else if st.visited.contains(i as usize) {
            parse_stop(st.questions, count, i)
        } else if octet >= 192 {
            if i + 1 >= data.len() {
                ParseStep::Fault
            } else {
                ParseStep::Next(ParseState {
                    questions: st.questions,
                    labels: st.labels,
                    stack: st.stack.push(i as usize),
                    visited: st.visited.insert(i as usize),
                    index: (octet - 192) * 256 + data[i + 1],
                })
            }
        } else if i + octet + 1 > data.len() {
            ParseStep::Fault
        } else {
            ParseStep::Next(ParseState {
                questions: st.questions,
                labels: st.labels.push(data.subrange(i + 1, i + octet + 1)),
                stack: st.stack,
                visited: st.visited,
                index: i + octet + 1,
            })
        }
    }
}

/// What every state of the scan keeps: no more questions than asked for, and
/// each pointer position followed once, inside the data.
pub open spec fn parse_inv(data: Seq<u8>, count: nat, st: ParseState) -> bool {
    &&& st.questions.len() <= count
    &&& st.visited.finite()
    &&& forall|x: usize| #[trigger] st.visited.contains(x) ==> x < data.len()
}

/// The measure of the scan, compared lexicographically: questions left to read,
/// pointer positions not yet followed, pointers to return from, bytes left.
pub open spec fn parse_measure_decreases(data: Seq<u8>, count: nat, st: ParseState, s2: ParseState) -> bool {
    let a1 = count - st.questions.len();
    let a2 = count - s2.questions.len();
    let b1 = data.len() - st.visited.len();
    let b2 = data.len() - s2.visited.len();
    let c1 = st.stack.len();
    let c2 = s2.stack.len();
    let d1 = data.len() + 1 - st.index;
    let d2 = data.len() + 1 - s2.index;
    ||| 0 <= a2 < a1
    ||| a2 == a1 && 0 <= b2 < b1
    ||| a2 == a1 && b2 == b1 && c2 < c1
    ||| a2 == a1 && b2 == b1 && c2 == c1 && 0 <= d2 < d1
}

/// Positions inside the data are no more than the data's length.
proof fn lemma_visited_len(v: Set<usize>, n: nat)
    requires
        v.finite(),
        forall|x: usize| #[trigger] v.contains(x) ==> x < n,
    ensures
        v.len() <= n,
{
    let f = |x: usize| x as int;
    let w = v.map(f);
    assert(vstd::relations::injective_on(f, v));
    vstd::set_lib::lemma_map_size(v, w, f);
    vstd::set_lib::lemma_int_range(0, n as int);
    assert(w.subset_of(vstd::set_lib::set_int_range(0, n as int)));
    vstd::set_lib::lemma_len_subset(w, vstd::set_lib::set_int_range(0, n as int));
}

/// Each step keeps the scan's invariant and lowers its measure.
pub proof fn lemma_parse_step_progress(data: Seq<u8>, count: nat, st: ParseState)
    requires
        parse_inv(data, count, st),
    ensures
        parse_step(data, count, st) matches ParseStep::Next(s2) ==> {
            &&& parse_inv(data, count, s2)
            &&& parse_measure_decreases(data, count, st, s2)
        },
{
    if let ParseStep::Next(s2) = parse_step(data, count, st) {
        let i = st.index;
        let octet = data[i];
        if octet != 0 && octet >= 192 {
            let v2 = st.visited.insert(i as usize);
            assert(!st.visited.contains(i as usize));
            assert(v2.len() == st.visited.len() + 1);
            lemma_visited_len(v2, data.len());
        }
    }
}

/// The result of scanning `data` for `count` questions from state `st`:
/// the questions and the bytes consumed, or `None` where the scan faults.
pub open spec fn parse_run(data: Seq<u8>, count: nat, st: ParseState) -> Option<(Seq<RawQuestion>, int)>
    decreases count - st.questions.len(), data.len() - st.visited.len(), st.stack.len(), data.len() + 1 - st.index
    when parse_inv(data, count, st)
{
    match parse_step(data, count, st) {
        ParseStep::Next(s2) => {
            proof {
                lemma_parse_step_progress(data, count, st);
            }
            parse_run(data, count, s2)
        },
        ParseStep::Done(qs, n) => Some((qs, n)),
        ParseStep::Fault => None,
    }
}

/// A run of the scan is its first step followed by the run from there.
proof fn lemma_parse_run_unfold(data: Seq<u8>, count: nat, st: ParseState)
    requires
        parse_inv(data, count, st),
    ensures
        parse_run(data, count, st) == match parse_step(data, count, st) {
            ParseStep::Next(s2) => parse_run(data, count, s2),
            ParseStep::Done(qs, n) => Some((qs, n)),
            ParseStep::Fault => None,
        },
{
}

/// The state the scan starts in: right after the header.
pub open spec fn parse_start() -> ParseState {
    ParseState {
        questions: Seq::empty(),
        labels: Seq::empty(),
        stack: Seq::empty(),
        visited: Set::empty(),
        index: 12,
    }
}

/// The questions of a datagram, as many as its header's question count asks for,
/// and the bytes of the question section consumed; `None` where the scan faults.
pub open spec fn spec_parse_questions(data: Seq<u8>) -> Option<(Seq<RawQuestion>, int)> {
    parse_run(data, be16(data[4], data[5]) as nat, parse_start())
}


/// Runs from states whose questions each have a label read no more questions
/// than asked for, each with a label.
proof fn lemma_parse_run_shape(data: Seq<u8>, count: nat, st: ParseState)
    requires
        parse_inv(data, count, st),
        forall|i: int| 0 <= i < st.questions.len() ==> (#[trigger] st.questions[i]).labels.len() >= 1,
    ensures
        parse_run(data, count, st) matches Some((raw, _)) ==> raw.len() <= count && forall|i: int|
            0 <= i < raw.len() ==> (#[trigger] raw[i]).labels.len() >= 1,
    decreases count - st.questions.len(), data.len() - st.visited.len(), st.stack.len(), data.len() + 1 - st.index
{
    lemma_parse_step_progress(data, count, st);
    lemma_parse_run_unfold(data, count, st);
    if let ParseStep::Next(s2) = parse_step(data, count, st) {
        assert forall|i: int| 0 <= i < s2.questions.len() implies (#[trigger] s2.questions[i]).labels.len() >= 1 by {
            if i < st.questions.len() {
                assert(s2.questions[i] == st.questions[i]);
            }
        }
        lemma_parse_run_shape(data, count, s2);
    }
}

/// The question scan reads no more questions than the header's count asks
/// for, and every question it reads has at least one label.
pub proof fn lemma_parsed_questions_shape(data: Seq<u8>)
    ensures
        spec_parse_questions(data) matches Some((raw, _)) ==> raw.len() <= be16(data[4], data[5]) && forall|i: int|
            0 <= i < raw.len() ==> (#[trigger] raw[i]).labels.len() >= 1,
{
    lemma_parse_run_shape(data, be16(data[4], data[5]) as nat, parse_start());
}

/// A question on the wire: its name, a zero byte, then type and class.
pub open spec fn question_wire(q: QuestionView) -> Seq<u8> {
    name_wire(q.labels) + seq![0u8] + be16_bytes(q.qtype) + be16_bytes(q.qclass)
}

/// Questions on the wire, one after the other, with no compression.
pub open spec fn questions_wire(qs: Seq<QuestionView>) -> Seq<u8>
    decreases qs.len(),
{
    if qs.len() == 0 {
        Seq::empty()
    } else {
        questions_wire(qs.drop_last()) + question_wire(qs.last())
    }
}

/// A question with its labels as the bytes that encode them.
pub open spec fn raw_question(q: QuestionView) -> RawQuestion {
    RawQuestion { labels: raw_labels(q.labels), qtype: q.qtype, qclass: q.qclass }
}

/// A question with at least one label, each plain.
pub open spec fn plain_question(q: QuestionView) -> bool {
    &&& q.labels.len() > 0
    &&& forall|i: int| 0 <= i < q.labels.len() ==> plain_label(#[trigger] q.labels[i])
}

/// Reading a name written out in full, with no pointer followed, collects its
/// labels' bytes and stops at the byte after the name.
proof fn lemma_parse_name(data: Seq<u8>, count: nat, st: ParseState, labels: Seq<Seq<char>>)
    requires
        parse_inv(data, count, st),
        st.questions.len() < count,
        forall|x: usize| #[trigger] st.visited.contains(x) ==> x < st.index || x >= st.index + name_wire(labels).len(),
        st.visited == Set::<usize>::empty() || st.index + name_wire(labels).len() <= usize::MAX,
        0 <= st.index,
        st.index + name_wire(labels).len() < data.len(),
        data.subrange(st.index, st.index + name_wire(labels).len()) == name_wire(labels),
        forall|i: int| 0 <= i < labels.len() ==> plain_label(#[trigger] labels[i]),
    ensures
        parse_run(data, count, st) == parse_run(
            data,
            count,
            ParseState {
                questions: st.questions,
                labels: st.labels + raw_labels(labels),
                stack: st.stack,
                visited: st.visited,
                index: st.index + name_wire(labels).len(),
            },
        ),
    decreases labels.len(),
{
    if labels.len() == 0 {
        assert(st.labels + raw_labels(labels) =~= st.labels);
    } else {
        let i = st.index;
        let l = labels[0];
        let b = encode_utf8(l);
        let n = b.len();
        let w = name_wire(labels);
        lemma_name_wire_first(labels);
        assert(plain_label(l));
        assert(data[i] == w[0]);
        assert(w[0] == n as u8);
        assert(data[i] as int == n);
        assert(data.subrange(i + 1, i + n + 1) =~= b) by {
            assert forall|k: int| 0 <= k < n implies data.subrange(i + 1, i + n + 1)[k] == b[k] by {
                assert(data[i + 1 + k] == w[1 + k]);
            }
        }
        let st1 = ParseState {
            questions: st.questions,
            labels: st.labels.push(b),
            stack: st.stack,
            visited: st.visited,
            index: i + n + 1,
        };
        assert(!st.visited.contains(i as usize));
        assert(parse_step(data, count, st) == ParseStep::Next(st1));
        lemma_parse_run_unfold(data, count, st);
        let rest = labels.drop_first();
        assert(data.subrange(st1.index, st1.index + name_wire(rest).len()) =~= name_wire(rest)) by {
            assert forall|k: int| 0 <= k < name_wire(rest).len() implies data.subrange(
                st1.index,
                st1.index + name_wire(rest).len(),
            )[k] == name_wire(rest)[k] by {
                assert(data[i + n + 1 + k] == w[n + 1 + k]);
            }
        }
        assert forall|k: int| 0 <= k < rest.len() implies plain_label(#[trigger] rest[k]) by {
            assert(rest[k] == labels[k + 1]);
        }
        lemma_parse_name(data, count, st1, rest);
        assert(st1.labels + raw_labels(rest) =~= st.labels + raw_labels(labels));
    }
}

/// Reading a question written out in full adds it and moves past it.
proof fn lemma_parse_question(data: Seq<u8>, count: nat, st: ParseState, q: QuestionView)
    requires
        parse_inv(data, count, st),
        st.questions.len() < count,
        st.labels.len() == 0,
        st.stack.len() == 0,
        st.visited == Set::<usize>::empty(),
        12 <= st.index,
        st.index + question_wire(q).len() <= data.len(),
        data.subrange(st.index, st.index + question_wire(q).len()) == question_wire(q),
        plain_question(q),
    ensures
        parse_run(data, count, st) == parse_run(
            data,
            count,
            ParseState {
                questions: st.questions.push(raw_question(q)),
                labels: Seq::empty(),
                stack: Seq::empty(),
                visited: Set::empty(),
                index: st.index + question_wire(q).len(),
            },
        ),
{
    let i = st.index;
    let nw = name_wire(q.labels);
    let qw = question_wire(q);
    let t = i + nw.len();
    assert(data.subrange(i, i + nw.len()) =~= nw) by {
        assert forall|k: int| 0 <= k < nw.len() implies data.subrange(i, i + nw.len())[k] == nw[k] by {
            assert(data[i + k] == qw[k]);
        }
    }
    lemma_parse_name(data, count, st, q.labels);
    let st1 = ParseState {
        questions: st.questions,
        labels: st.labels + raw_labels(q.labels),
        stack: st.stack,
        visited: st.visited,
        index: t,
    };
    assert(st.labels + raw_labels(q.labels) =~= raw_labels(q.labels));
    assert(data[t] == qw[nw.len() as int]);
    assert(data[t] == 0);
    assert(data[t + 1] == qw[nw.len() as int + 1]);
    assert(data[t + 2] == qw[nw.len() as int + 2]);
    assert(data[t + 3] == qw[nw.len() as int + 3]);
    assert(data[t + 4] == qw[nw.len() as int + 4]);
    lemma_be16_roundtrip(q.qtype);
    lemma_be16_roundtrip(q.qclass);
    assert(!st1.visited.contains((t - 2) as usize));
    let st2 = ParseState {
        questions: st.questions.push(raw_question(q)),
        labels: Seq::empty(),
        stack: Seq::empty(),
        visited: Set::empty(),
        index: i + qw.len(),
    };
    assert(qw.len() == nw.len() + 5);
    assert(st1.labels.len() == q.labels.len());
    assert(be16_bytes(q.qtype)[0] == qw[nw.len() as int + 1]);
    assert(be16_bytes(q.qtype)[1] == qw[nw.len() as int + 2]);
    assert(be16_bytes(q.qclass)[0] == qw[nw.len() as int + 3]);
    assert(be16_bytes(q.qclass)[1] == qw[nw.len() as int + 4]);
    assert(st.stack =~= Seq::<usize>::empty());
    assert(be16(data[t + 1], data[t + 2]) == q.qtype);
    assert(be16(data[t + 3], data[t + 4]) == q.qclass);
    assert(parse_step(data, count, st1) == ParseStep::Next(st2));
    lemma_parse_run_unfold(data, count, st1);
}

/// Each encoding of a prefix of a list of questions is a prefix of the list's encoding.
pub(crate) proof fn lemma_questions_wire_prefix(qs: Seq<QuestionView>, j: int)
    requires
        0 <= j <= qs.len(),
    ensures
        questions_wire(qs.take(j)).len() <= questions_wire(qs).len(),
        questions_wire(qs).subrange(0, questions_wire(qs.take(j)).len() as int) == questions_wire(qs.take(j)),
    decreases qs.len(),
{
    if j == qs.len() {
        assert(qs.take(j) =~= qs);
    } else {
        lemma_questions_wire_prefix(qs.drop_last(), j);
        assert(qs.drop_last().take(j) =~= qs.take(j));
        assert(questions_wire(qs).subrange(0, questions_wire(qs.take(j)).len() as int)
            =~= questions_wire(qs.drop_last()).subrange(0, questions_wire(qs.take(j)).len() as int));
    }
}

/// The scan state after the first `k` of a list of questions written out in full.
pub open spec fn state_after(qs: Seq<QuestionView>, k: int) -> ParseState {
    ParseState {
        questions: qs.take(k).map_values(|q: QuestionView| raw_question(q)),
        labels: Seq::empty(),
        stack: Seq::empty(),
        visited: Set::empty(),
        index: 12 + questions_wire(qs.take(k)).len() as int,
    }
}

/// Reading the rest of a list of questions written out in full, from after its
/// first `k`, gives them all and the length of their encoding.
proof fn lemma_parse_rest(data: Seq<u8>, qs: Seq<QuestionView>, k: int)
    requires
        0 <= k <= qs.len(),
        12 + questions_wire(qs).len() <= data.len(),
        data.subrange(12, 12 + questions_wire(qs).len() as int) == questions_wire(qs),
        forall|i: int| 0 <= i < qs.len() ==> plain_question(#[trigger] qs[i]),
    ensures
        parse_run(data, qs.len(), state_after(qs, k)) == Some(
            (qs.map_values(|q: QuestionView| raw_question(q)), questions_wire(qs).len() as int),
        ),
    decreases qs.len() - k,
{
    let count = qs.len();
    let st = state_after(qs, k);
    assert(parse_inv(data, count, st));
    lemma_parse_run_unfold(data, count, st);
    if k == qs.len() {
        assert(qs.take(k) =~= qs);
    } else {
        let q = qs[k];
        let w = questions_wire(qs);
        let pre = questions_wire(qs.take(k));
        let pre1 = questions_wire(qs.take(k + 1));
        assert(qs.take(k + 1).drop_last() =~= qs.take(k));
        assert(pre1 == pre + question_wire(q));
        lemma_questions_wire_prefix(qs, k + 1);
        let p: int = 12 + pre.len() as int;
        assert(data.subrange(p, p + question_wire(q).len()) =~= question_wire(q)) by {
            assert forall|j: int| 0 <= j < question_wire(q).len() implies data.subrange(
                p,
                p + question_wire(q).len(),
            )[j] == question_wire(q)[j] by {
                assert(data[p + j] == w[pre.len() + j]);
                assert(w[pre.len() + j] == pre1[pre.len() + j]);
            }
        }
        lemma_parse_question(data, count, st, q);
        assert(st.questions.push(raw_question(q)) =~= state_after(qs, k + 1).questions);
        lemma_parse_rest(data, qs, k + 1);
    }
}

/// Reading the question section of a datagram whose header asks for as many
/// questions as follow it, each written out in full with plain labels, gives
/// those questions back and the length of their encoding.
pub proof fn lemma_questions_roundtrip(header: Seq<u8>, qs: Seq<QuestionView>, rest: Seq<u8>)
    requires
        header.len() == 12,
        be16(header[4], header[5]) == qs.len(),
        forall|i: int| 0 <= i < qs.len() ==> plain_question(#[trigger] qs[i]),
    ensures
        spec_parse_questions(header + questions_wire(qs) + rest) matches Some((raw, n))
            && n == questions_wire(qs).len() && raw.map_values(|r: RawQuestion| decode_question(r)) =~~= qs,
{
    let data = header + questions_wire(qs) + rest;
    assert(data.subrange(12, 12 + questions_wire(qs).len() as int) =~= questions_wire(qs));
    assert(data[4] == header[4] && data[5] == header[5]);
    assert(qs.take(0) =~= Seq::<QuestionView>::empty());
    assert(qs.take(0).map_values(|q: QuestionView| raw_question(q)) =~= Seq::<RawQuestion>::empty());
    assert(state_after(qs, 0) == parse_start());
    lemma_parse_rest(data, qs, 0);
    let raw = qs.map_values(|q: QuestionView| raw_question(q));
    assert forall|i: int| 0 <= i < qs.len() implies decode_question(raw[i]) =~~= qs[i] by {
        let q = qs[i];
        assert forall|j: int| 0 <= j < q.labels.len() implies labels_text(raw_labels(q.labels))[j]
            == q.labels[j] by {
            lemma_label_text_encode(q.labels[j]);
        }
        assert(labels_text(raw_labels(q.labels)) =~= q.labels);
    }
}


/// Reading a question whose name ends with a pointer back to its last label,
/// written earlier and followed there by a zero byte, adds the question and
/// moves past it.
proof fn lemma_parse_pointer_question(data: Seq<u8>, count: nat, st: ParseState, q: QuestionView, p: u16)
    requires
        parse_inv(data, count, st),
        st.questions.len() < count,
        st.labels.len() == 0,
        st.stack.len() == 0,
        st.visited == Set::<usize>::empty(),
        12 <= st.index,
        st.index + compressed_question_wire(q, Some(p)).len() <= data.len(),
        st.index + compressed_question_wire(q, Some(p)).len() <= 0x4000,
        data.subrange(st.index, st.index + compressed_question_wire(q, Some(p)).len()) == compressed_question_wire(
            q,
            Some(p),
        ),
        plain_question(q),
        q.qtype < 256,
        12 <= p,
        p + label_wire(q.labels.last()).len() < st.index,
        data.subrange(p as int, p + label_wire(q.labels.last()).len()) == label_wire(q.labels.last()),
        data[p + label_wire(q.labels.last()).len()] == 0,
    ensures
        parse_run(data, count, st) == parse_run(
            data,
            count,
            ParseState {
                questions: st.questions.push(raw_question(q)),
                labels: Seq::empty(),
                stack: Seq::empty(),
                visited: Set::empty(),
                index: st.index + compressed_question_wire(q, Some(p)).len(),
            },
        ),
{
    let i = st.index;
    let init = q.labels.drop_last();
    let last = q.labels.last();
    let nwi = name_wire(init);
    let cw = compressed_question_wire(q, Some(p));
    let pw = pointer_wire(p);
    let ptr = i + nwi.len();
    let lw = label_wire(last);
    assert(cw.len() == nwi.len() + 6);
    assert(q.labels =~= init.push(last));
    // The labels before the pointer.
    assert(data.subrange(i, ptr) =~= nwi) by {
        assert forall|k: int| 0 <= k < nwi.len() implies data.subrange(i, ptr)[k] == nwi[k] by {
            assert(data[i + k] == cw[k]);
        }
    }
    assert forall|k: int| 0 <= k < init.len() implies plain_label(#[trigger] init[k]) by {
        assert(init[k] == q.labels[k]);
    }
    lemma_parse_name(data, count, st, init);
    let st1 = ParseState {
        questions: st.questions,
        labels: st.labels + raw_labels(init),
        stack: st.stack,
        visited: st.visited,
        index: ptr,
    };
    // The pointer.
    assert(data[ptr] == pw[0] && data[ptr + 1] == pw[1]) by {
        assert(data[ptr] == cw[nwi.len() as int]);
        assert(data[ptr + 1] == cw[nwi.len() as int + 1]);
    }
    let b0 = pw[0];
    let b1 = pw[1];
    assert(p < 0x4000);
    assert(b0 >= 192 && ((b0 - 192) as u16) * 256 + (b1 as u16) == p) by (bit_vector)
        requires
            b0 == ((0xC000u16 | p) / 256) as u8,
            b1 == ((0xC000u16 | p) % 256) as u8,
            p < 0x4000,
    ;
    let st2 = ParseState {
        questions: st1.questions,
        labels: st1.labels,
        stack: st1.stack.push(ptr as usize),
        visited: st1.visited.insert(ptr as usize),
        index: p as int,
    };
    assert(parse_step(data, count, st1) == ParseStep::Next(st2));
    lemma_parse_run_unfold(data, count, st1);
    lemma_parse_step_progress(data, count, st1);
    // The label pointed to.
    let one = seq![last];
    assert(one.drop_last() =~= Seq::<Seq<char>>::empty());
    assert(one.last() == last);
    assert(name_wire(one.drop_last()) =~= Seq::<u8>::empty());
    assert(name_wire(one) == name_wire(one.drop_last()) + label_wire(one.last()));
    assert(name_wire(one) =~= lw);
    assert forall|x: usize| #[trigger] st2.visited.contains(x) implies x < p || x >= p + lw.len() by {
        assert(x == ptr);
    }
    assert forall|k: int| 0 <= k < seq![last].len() implies plain_label(#[trigger] seq![last][k]) by {
        assert(q.labels[q.labels.len() - 1] == last);
    }
    lemma_parse_name(data, count, st2, seq![last]);
    let st3 = ParseState {
        questions: st2.questions,
        labels: st2.labels + raw_labels(seq![last]),
        stack: st2.stack,
        visited: st2.visited,
        index: p + lw.len(),
    };
    assert(st3.labels =~= raw_labels(q.labels));
    // The zero byte after it: back past the pointer.
    let st4 = ParseState {
        questions: st3.questions,
        labels: st3.labels,
        stack: Seq::empty(),
        visited: st3.visited,
        index: ptr + 2,
    };
    assert(st3.stack.drop_last() =~= Seq::<usize>::empty());
    assert(st3.stack.last() == ptr as usize);
    assert(parse_step(data, count, st3) == ParseStep::Next(st4));
    assert(parse_inv(data, count, st3));
    lemma_parse_run_unfold(data, count, st3);
    // The type and class, read from right after the pointer.
    lemma_be16_roundtrip(q.qtype);
    lemma_be16_roundtrip(q.qclass);
    assert(data[ptr + 2] == cw[nwi.len() as int + 2] && data[ptr + 3] == cw[nwi.len() as int + 3]);
    assert(data[ptr + 4] == cw[nwi.len() as int + 4] && data[ptr + 5] == cw[nwi.len() as int + 5]);
    assert(cw[nwi.len() as int + 2] == be16_bytes(q.qtype)[0] && cw[nwi.len() as int + 3] == be16_bytes(q.qtype)[1]);
    assert(cw[nwi.len() as int + 4] == be16_bytes(q.qclass)[0] && cw[nwi.len() as int + 5] == be16_bytes(q.qclass)[1]);
    assert(data[ptr + 2] == 0);
    assert(st4.visited.contains(((ptr + 2) - 2) as usize));
    let st5 = ParseState {
        questions: st.questions.push(raw_question(q)),
        labels: Seq::empty(),
        stack: Seq::empty(),
        visited: Set::empty(),
        index: i + cw.len(),
    };
    assert(parse_step(data, count, st4) == ParseStep::Next(st5));
    assert(parse_inv(data, count, st4));
    lemma_parse_run_unfold(data, count, st4);
}

/// The scan state after the first `k` of compressible questions encoded with
/// compression.
pub open spec fn compressed_state_after(qs: Seq<QuestionView>, k: int) -> ParseState {
    ParseState {
        questions: qs.take(k).map_values(|q: QuestionView| raw_question(q)),
        labels: Seq::empty(),
        stack: Seq::empty(),
        visited: Set::empty(),
        index: 12 + compress_questions(qs.take(k))->Some_0.out.len() as int,
    }
}

/// Reading the rest of compressible questions encoded with compression, from
/// after the first `k`, gives them all and the length of their encoding.
/// Reading the next of compressible questions encoded with compression moves
/// the scan from after the first `k` to after the first `k + 1`.
#[verifier::rlimit(60)]
proof fn lemma_parse_compressed_step(data: Seq<u8>, qs: Seq<QuestionView>, k: int)
    requires
        compressible_questions(qs),
        12 + questions_wire(qs).len() <= 0x4000,
        0 <= k < qs.len(),
        compress_questions(qs) matches Some(st) && 12 + st.out.len() <= data.len() && data.subrange(
            12,
            12 + st.out.len() as int,
        ) == st.out,
    ensures
        parse_run(data, qs.len(), compressed_state_after(qs, k)) == parse_run(
            data,
            qs.len(),
            compressed_state_after(qs, k + 1),
        ),
{
    let count = qs.len();
    let enc = compress_questions(qs)->Some_0.out;
    let q = qs[k];
    let sk = compress_questions(qs.take(k))->Some_0;
    let sk1 = compress_questions(qs.take(k + 1))->Some_0;
    assert(compress_questions(qs.take(k)) is Some && compress_questions(qs.take(k + 1)) is Some
        && sk.out.len() <= sk1.out.len() && compressed_step(sk, sk1, q) && sk1.out.len() <= enc.len()
        && enc.subrange(0, sk1.out.len() as int) == sk1.out && 12 + sk1.out.len() <= 0x4000) by {
        lemma_compress_layout(qs, k);
        lemma_compress_layout(qs, k + 1);
        lemma_compress_out_prefix(qs, k + 1, qs.len() as int);
        assert(qs.take(k + 1).drop_last() =~= qs.take(k));
        assert(qs.take(k + 1)[k] == q);
        assert(qs.take(qs.len() as int) =~= qs);
        lemma_questions_wire_prefix(qs, k + 1);
    }
    let st = compressed_state_after(qs, k);
    let found = table_lookup(sk.table, q.labels.last());
    let cw = compressed_question_wire(q, found);
    let i: int = 12 + sk.out.len() as int;
    assert(sk1.out == sk.out + cw);
    assert(data.subrange(i, i + cw.len() as int) =~= cw) by {
        assert forall|j: int| 0 <= j < cw.len() implies data.subrange(i, i + cw.len() as int)[j] == cw[j] by {
            assert(data[i + j] == enc[sk.out.len() + j]);
            assert(enc[sk.out.len() + j] == enc.subrange(0, sk1.out.len() as int)[sk.out.len() + j]);
        }
    }
    assert(plain_question(q) && q.qtype < 256);
    assert(parse_inv(data, count, st));
    match found {
        None => {
            lemma_parse_question(data, count, st, q);
        },
        Some(p) => {
            let lw = label_wire(q.labels.last());
            assert(data.subrange(p as int, p + lw.len()) =~= lw) by {
                assert forall|j: int| 0 <= j < lw.len() implies data.subrange(p as int, p + lw.len())[j] == lw[j] by {
                    assert(data[p + j] == enc[p - 12 + j]);
                    assert(enc[p - 12 + j] == enc.subrange(0, sk1.out.len() as int)[p - 12 + j]);
                    assert(sk1.out[p - 12 + j] == sk.out[p - 12 + j]);
                    assert(sk.out[p - 12 + j] == sk.out.subrange(p - 12, p - 12 + lw.len())[j]);
                }
            }
            assert(data[p + lw.len()] == enc[p - 12 + lw.len()]);
            assert(enc[p - 12 + lw.len()] == enc.subrange(0, sk1.out.len() as int)[p - 12 + lw.len()]);
            assert(sk1.out[p - 12 + lw.len()] == sk.out[p - 12 + lw.len()]);
            lemma_parse_pointer_question(data, count, st, q, p);
        },
    }
    assert(st.questions.push(raw_question(q)) =~= compressed_state_after(qs, k + 1).questions);
}

/// Reading the rest of compressible questions encoded with compression, from
/// after the first `k`, gives them all and the length of their encoding.
proof fn lemma_parse_compressed_rest(data: Seq<u8>, qs: Seq<QuestionView>, k: int)
    requires
        compressible_questions(qs),
        12 + questions_wire(qs).len() <= 0x4000,
        0 <= k <= qs.len(),
        compress_questions(qs) matches Some(st) && 12 + st.out.len() <= data.len() && data.subrange(
            12,
            12 + st.out.len() as int,
        ) == st.out,
    ensures
        parse_run(data, qs.len(), compressed_state_after(qs, k)) == Some(
            (qs.map_values(|q: QuestionView| raw_question(q)), compress_questions(qs)->Some_0.out.len() as int),
        ),
    decreases qs.len() - k,
{
    if k == qs.len() {
        let count = qs.len();
        lemma_compress_layout(qs, k);
        let st = compressed_state_after(qs, k);
        assert(qs.take(k) =~= qs);
        assert(parse_inv(data, count, st));
        lemma_parse_run_unfold(data, count, st);
    } else {
        lemma_parse_compressed_step(data, qs, k);
        lemma_parse_compressed_rest(data, qs, k + 1);
    }
}

/// Reading the question section of a datagram whose header counts compressible
/// questions, encoded with compression after it, gives those questions back and
/// the length of their encoding.
pub proof fn lemma_compressed_questions_roundtrip(header: Seq<u8>, qs: Seq<QuestionView>, rest: Seq<u8>)
    requires
        header.len() == 12,
        be16(header[4], header[5]) == qs.len(),
        compressible_questions(qs),
        12 + questions_wire(qs).len() <= 0x4000,
    ensures
        questions_compressed_wire(qs) matches Some(enc) && spec_parse_questions(header + enc + rest) matches Some(
            (raw, n),
        ) && n == enc.len() && raw.map_values(|r: RawQuestion| decode_question(r)) =~~= qs,
{
    lemma_compress_layout(qs, qs.len() as int);
    assert(qs.take(qs.len() as int) =~= qs);
    let enc = compress_questions(qs)->Some_0.out;
    let data = header + enc + rest;
    assert(data.subrange(12, 12 + enc.len() as int) =~= enc);
    assert(data[4] == header[4] && data[5] == header[5]);
    lemma_compress_layout(qs, 0);
    assert(qs.take(0) =~= Seq::<QuestionView>::empty());
    assert(qs.take(0).map_values(|q: QuestionView| raw_question(q)) =~= Seq::<RawQuestion>::empty());
    assert(compressed_state_after(qs, 0) == parse_start());
    lemma_parse_compressed_rest(data, qs, 0);
    let raw = qs.map_values(|q: QuestionView| raw_question(q));
    assert forall|i: int| 0 <= i < qs.len() implies decode_question(raw[i]) =~~= qs[i] by {
        let q = qs[i];
        assert forall|j: int| 0 <= j < q.labels.len() implies labels_text(raw_labels(q.labels))[j]
            == q.labels[j] by {
            lemma_label_text_encode(q.labels[j]);
        }
        assert(labels_text(raw_labels(q.labels)) =~= q.labels);
    }
}

/// The scan state that the parser's variables stand for.
pub open spec fn scan_state(
    questions: Seq<RawQuestion>,
    labels: Seq<Seq<u8>>,
    stack: Seq<usize>,
    visited: Set<usize>,
    index: usize,
) -> ParseState {
    ParseState { questions, labels, stack, visited, index: index as int }
}

impl DNSQuestion {
    /// Reads the question section of a 512-byte datagram: the questions that
    /// its header's question count asks for, and the number of bytes read after
    /// the header. `None` exactly where the scan faults.
    pub fn try_from_bytes(data: &[u8; 512]) -> (res: Option<(Vec<DNSQuestion>, usize)>)
        ensures
            match spec_parse_questions(data@) {
                None => res is None,
                Some((qs, n)) => res matches Some((v, m)) && m == n && questions_view(v@)
                    == qs.map_values(|r: RawQuestion| decode_question(r)),
            },
    {
        let question_count = read_be16(data[4], data[5]) as usize;
        let ghost count: nat = question_count as nat;
        let mut questions_list: Vec<DNSQuestion> = Vec::new();
        let mut current_domain_labels: Vec<String> = Vec::new();
        let mut label_pointer_stack: Vec<usize> = Vec::new();
        let mut label_pointer_set: HashSet<usize> = HashSet::new();
        let mut index: usize = 12;
        let ghost mut raw_questions: Seq<RawQuestion> = Seq::empty();
        let ghost mut raw_labels: Seq<Seq<u8>> = Seq::empty();
        proof {
            assert(scan_state(raw_questions, raw_labels, label_pointer_stack@, label_pointer_set@, index)
                == parse_start());
            assert(questions_view(questions_list@) =~= raw_questions.map_values(
                |r: RawQuestion| decode_question(r),
            ));
            assert(strings_view(current_domain_labels@) =~= labels_text(raw_labels));
        }
        loop
            invariant
                data@.len() == 512,
                count == question_count,
                count == be16(data@[4], data@[5]),
                parse_inv(
                    data@,
                    count,
                    scan_state(raw_questions, raw_labels, label_pointer_stack@, label_pointer_set@, index),
                ),
                parse_run(
                    data@,
                    count,
                    scan_state(raw_questions, raw_labels, label_pointer_stack@, label_pointer_set@, index),
                ) == spec_parse_questions(data@),
                forall|k: int| 0 <= k < label_pointer_stack@.len() ==> (#[trigger] label_pointer_stack@[k]) < 512,
                questions_view(questions_list@) == raw_questions.map_values(|r: RawQuestion| decode_question(r)),
                strings_view(current_domain_labels@) == labels_text(raw_labels),
            decreases
                count - raw_questions.len(),
                512 - label_pointer_set@.len(),
                label_pointer_stack@.len(),
                513 - index,
        {
            let ghost st = scan_state(raw_questions, raw_labels, label_pointer_stack@, label_pointer_set@, index);
            proof {
                lemma_parse_step_progress(data@, count, st);
                lemma_parse_run_unfold(data@, count, st);
                assert(questions_list@.len() == raw_questions.len()) by {
                    assert(questions_view(questions_list@).len() == questions_list@.len());
                }
                assert(current_domain_labels@.len() == raw_labels.len()) by {
                    assert(strings_view(current_domain_labels@).len() == current_domain_labels@.len());
                }
            }
            if !(questions_list.len() < question_count && index < 512) {
                if question_count == 0 {
                    return Some((questions_list, 0));
                }
                if index < 12 {
                    return None;
                }
                return Some((questions_list, index - 12));
            }
            let label_octet = data[index];
            if label_octet == 0 {
                if index < 2 {
                    return None;
                }
                // A pointer two bytes back means the type field starts at the zero byte.
                let possible_label_pointer = index - 2;
                let field_offset: usize = if label_pointer_set.contains(&possible_label_pointer) {
                    0
                } else {
                    1
                };
                if current_domain_labels.len() == 0 {
                    // A zero byte with no label read: the section ends here.
                    if index < 12 {
                        return None;
                    }
                    return Some((questions_list, index - 12));
                } else if label_pointer_stack.len() == 0 {
                    if index + field_offset + 3 >= 512 {
                        return None;
                    }
                    let domain_labels = current_domain_labels;
                    current_domain_labels = Vec::new();
                    let question = DNSQuestion {
                        domain_labels,
                        question_type: read_be16(data[index + field_offset], data[index + field_offset + 1]),
                        question_class: read_be16(
                            data[index + field_offset + 2],
                            data[index + field_offset + 3],
                        ),
                    };
                    let ghost raw_question = RawQuestion {
                        labels: raw_labels,
                        qtype: question.question_type,
                        qclass: question.question_class,
                    };
                    let ghost old_list = questions_list@;
                    questions_list.push(question);
                    label_pointer_set.clear();
                    // Jump to the beginning of the next question, right after the class.
                    index = index + field_offset + 4;
                    proof {
                        assert(decode_question(raw_question) == question@);
                        assert(questions_view(questions_list@) =~= questions_view(old_list).push(question@));
                        assert(raw_questions.push(raw_question).map_values(|r: RawQuestion| decode_question(r))
                            =~= raw_questions.map_values(|r: RawQuestion| decode_question(r)).push(
                            decode_question(raw_question),
                        ));
                        raw_questions = raw_questions.push(raw_question);
                        raw_labels = Seq::empty();
                        assert(strings_view(current_domain_labels@) =~= labels_text(raw_labels));
                    }
                } else {
                    // Return to the byte after the pointer most recently followed.
                    let previous_pointer_label = label_pointer_stack[label_pointer_stack.len() - 1];
                    index = previous_pointer_label + 2;
                    label_pointer_stack.pop();
                }
                continue;
            }
            if label_pointer_set.contains(&index) {
                // A pointer followed before: the names loop, the scan stops.
                if question_count == 0 {
                    return Some((questions_list, 0));
                }
                if index < 12 {
                    return None;
                }
                return Some((questions_list, index - 12));
            }
            let label_is_pointer = data[index] >> 6 == 3;
            proof {
                assert(label_is_pointer == (label_octet >= 192)) by (bit_vector)
                    requires
                        label_is_pointer == (label_octet >> 6 == 3),
                ;
            }
            if label_is_pointer {
                if index + 1 >= 512 {
                    return None;
                }
                let high = data[index] & 0x3F;
                proof {
                    assert(high == label_octet - 192) by (bit_vector)
                        requires
                            high == label_octet & 0x3F,
                            label_octet >= 192,
                    ;
                }
                let offset_position = (high as usize) * 256 + (data[index + 1] as usize);
                label_pointer_stack.push(index);
                label_pointer_set.insert(index);
                index = offset_position;
            } else {
                if index + (label_octet as usize) + 1 > 512 {
                    return None;
                }
                let label_slice = slice_subrange(
                    data.as_slice(),
                    index + 1,
                    index + (label_octet as usize) + 1,
                );
                let label = label_from_bytes(label_slice);
                let ghost old_labels = current_domain_labels@;
                current_domain_labels.push(label);
                proof {
                    let raw = data@.subrange(index + 1, index + label_octet + 1);
                    assert(strings_view(current_domain_labels@) =~= strings_view(old_labels).push(label@));
                    assert(labels_text(raw_labels.push(raw)) =~= labels_text(raw_labels).push(label_text(raw)));
                    raw_labels = raw_labels.push(raw);
                }
                index = index + (label_octet as usize) + 1;
            }
        }
    }

    /// Reads the question section of a 512-byte datagram whose scan does not
    /// fault: the questions and the number of bytes read after the header.
    pub fn from_bytes(data: &[u8; 512]) -> (res: (Vec<DNSQuestion>, usize))
        requires
            spec_parse_questions(data@) is Some,
        ensures
            spec_parse_questions(data@) matches Some((qs, n)) && res.1 == n && questions_view(res.0@)
                == qs.map_values(|r: RawQuestion| decode_question(r)),
    {
        match DNSQuestion::try_from_bytes(data) {
            Some(r) => r,
            None => {
                proof {
                    assert(false);
                }
                (Vec::new(), 0)
            },
        }
    }
    /// Encodes a question with its name written out in full.
    pub fn to_bytes(question: &DNSQuestion) -> (bytes: Vec<u8>)
        ensures
            bytes@ == question_wire(question@),
    {
        let mut bytes_buffer: Vec<u8> = Vec::with_capacity(512);
        push_name(&mut bytes_buffer, &question.domain_labels);
        bytes_buffer.push(0);
        push_be16(&mut bytes_buffer, question.question_type);
        push_be16(&mut bytes_buffer, question.question_class);
        assert(bytes_buffer@ =~= question_wire(question@));
        bytes_buffer
    }

    /// Encodes questions one after the other, each name written out in full.
    pub fn sequence_to_bytes(question_list: &[DNSQuestion]) -> (bytes: Vec<u8>)
        ensures
            bytes@ == questions_wire(questions_view(question_list@)),
    {
        let mut bytes_buffer: Vec<u8> = Vec::new();
        let ghost qs = questions_view(question_list@);
        let mut k: usize = 0;
        while k < question_list.len()
            invariant
                k <= question_list@.len(),
                qs == questions_view(question_list@),
                bytes_buffer@ == questions_wire(qs.take(k as int)),
            decreases question_list@.len() - k,
        {
            let encoded = DNSQuestion::to_bytes(&question_list[k]);
            push_bytes(&mut bytes_buffer, encoded.as_slice());
            proof {
                assert(qs.take(k + 1).drop_last() =~= qs.take(k as int));
            }
            k += 1;
        }
        assert(qs.take(k as int) =~= qs);
        bytes_buffer
    }
    /// Encodes questions one after the other, each label seen before replaced by
    /// a pointer to where it was first written (positions counted from the start
    /// of the datagram, after the twelve-byte header). `None` exactly where the
    /// 16-bit positions overflow.
    pub fn try_sequence_to_compressed_bytes(question_list: &[DNSQuestion]) -> (res: Option<Vec<u8>>)
        ensures
            match questions_compressed_wire(questions_view(question_list@)) {
                Some(w) => res matches Some(bytes) && bytes@ == w,
                None => res is None,
            },
    {
        let mut bytes_buffer: Vec<u8> = Vec::with_capacity(512);
        // Labels written out so far with the position of each; `table` is the
        // order in which they were noted.
        let mut labels_map: StringHashMap<u16> = StringHashMap::with_capacity(10);
        let ghost mut table: Seq<(Seq<char>, u16)> = Seq::empty();
        let mut datagram_position: u16 = 12;
        let ghost qs = questions_view(question_list@);
        let mut k: usize = 0;
        proof {
            assert(qs.take(0) =~= Seq::<QuestionView>::empty());
            assert(labels_map@ =~= table_map(table));
            assert(compress_state(bytes_buffer@, table, datagram_position) == CompressState {
                out: Seq::empty(),
                table: Seq::empty(),
                pos: 12,
            });
        }
        while k < question_list.len()
            invariant
                k <= question_list@.len(),
                qs == questions_view(question_list@),
                labels_map@ == table_map(table),
                compress_questions(qs.take(k as int)) == Some(compress_state(bytes_buffer@, table, datagram_position)),
            decreases question_list@.len() - k,
        {
            proof {
                assert(qs.take(k + 1).drop_last() =~= qs.take(k as int));
                assert(qs.take(k + 1).last() == question_list@[k as int]@);
            }
            let (fits, Ghost(next_table)) = compress_question_into(
                &mut bytes_buffer,
                &mut labels_map,
                &mut datagram_position,
                &question_list[k],
                Ghost(table),
            );
            if !fits {
                proof {
                    lemma_compress_prefix_none(qs, k + 1);
                }
                return None;
            }
            proof {
                table = next_table;
            }
            k += 1;
        }
        assert(qs.take(k as int) =~= qs);
        Some(bytes_buffer)
    }

    /// Encodes questions with compression, where the 16-bit positions do not
    /// overflow.
    pub fn sequence_to_compressed_bytes(question_list: &[DNSQuestion]) -> (bytes: Vec<u8>)
        requires
            compress_questions(questions_view(question_list@)) is Some,
        ensures
            questions_compressed_wire(questions_view(question_list@)) == Some(bytes@),
    {
        match DNSQuestion::try_sequence_to_compressed_bytes(question_list) {
            Some(bytes) => bytes,
            None => {
                proof {
                    assert(false);
                }
                Vec::new()
            },
        }
    }
}

} // verus!
