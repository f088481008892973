//! The answer section: resource records, each a domain name with type, class,
//! time to live, and record data.

use vstd::prelude::*;
use vstd::slice::{slice_subrange, slice_to_vec};
use vstd::utf8::encode_utf8;
use crate::name::{labels_text, lemma_label_text_encode, lemma_name_wire_first, name_wire, push_name, raw_labels, strings_view};
use crate::text::{label_from_bytes, label_text};
use crate::wire::{be16, be16_bytes, be32, be32_bytes, lemma_be16_roundtrip, lemma_be32_roundtrip, push_be16, push_be32, push_bytes, read_be16, read_be32};

verus! {

/// An answer as its contents.
pub struct AnswerView {
    pub labels: Seq<Seq<char>>,
    pub atype: u16,
    pub aclass: u16,
    pub ttl: u32,
    pub length: u16,
    pub data: Seq<u8>,
}

/// An answer as read off the wire, its labels still bytes.
pub struct RawAnswer {
    pub labels: Seq<Seq<u8>>,
    pub atype: u16,
    pub aclass: u16,
    pub ttl: u32,
    pub length: u16,
    pub data: Seq<u8>,
}

/// One resource record of the answer section.
#[derive(Debug, PartialEq, Eq)]
pub struct DNSAnswer {
    pub domain_labels: Vec<String>,
    pub answer_type: u16,
    pub answer_class: u16,
    pub time_to_live: u32,
    /// The record data's length as carried in the record.
    pub length: u16,
    pub data: Vec<u8>,
}

impl View for DNSAnswer {
    type V = AnswerView;

    open spec fn view(&self) -> AnswerView {
        AnswerView {
            labels: strings_view(self.domain_labels@),
            atype: self.answer_type,
            aclass: self.answer_class,
            ttl: self.time_to_live,
            length: self.length,
            data: self.data@,
        }
    }
}

impl Clone for DNSAnswer {
    fn clone(&self) -> (copy: Self)
        ensures
            copy@ == self@,
    {
        let domain_labels = self.domain_labels.clone();
        assert(strings_view(domain_labels@) =~= strings_view(self.domain_labels@));
        let data = self.data.clone();
        assert(data@ =~= self.data@);
        DNSAnswer {
            domain_labels,
            answer_type: self.answer_type,
            answer_class: self.answer_class,
            time_to_live: self.time_to_live,
            length: self.length,
            data,
        }
    }
}

/// The contents of each answer.
pub open spec fn answers_view(v: Seq<DNSAnswer>) -> Seq<AnswerView> {
    v.map_values(|a: DNSAnswer| a@)
}

/// The answer that an answer read off the wire becomes.
pub open spec fn decode_answer(r: RawAnswer) -> AnswerView {
    AnswerView {
        labels: labels_text(r.labels),
        atype: r.atype,
        aclass: r.aclass,
        ttl: r.ttl,
        length: r.length,
        data: r.data,
    }
}

/// The state of the scan over the answer section.
pub struct AnswerScan {
    pub answers: Seq<RawAnswer>,
    pub labels: Seq<Seq<u8>>,
    pub index: int,
}

/// One step of the answer scan.
pub enum AnswerStep {
    Next(AnswerScan),
    Done(Seq<RawAnswer>, int),
    Fault,
}

/// The end of the answer scan: nothing consumed from empty data, else one byte
/// past the position where the scan stopped.
pub open spec fn answer_stop(data: Seq<u8>, answers: Seq<RawAnswer>, index: int) -> AnswerStep {
    AnswerStep::Done(answers, if data.len() == 0 { 0 } else { index + 1 })
}

/// One step of the scan over `data`. A nonzero byte is the length of a label
/// that follows it. A zero byte with no label read ends the scan; else it ends
/// the name, and type, class, time to live and data length follow, then that
/// many bytes of data; the next answer starts right after the data.
pub open spec fn answer_step(data: Seq<u8>, st: AnswerScan) -> AnswerStep {
    let i = st.index;
    if !(0 <= i < data.len()) {
        answer_stop(data, st.answers, i)
    } else {
        let n = data[i];
        if n == 0 {
            if st.labels.len() == 0 {
                answer_stop(data, st.answers, i)
            } else if i + 10 >= data.len() {
                AnswerStep::Fault
            } else {
                let dl = be16(data[i + 9], data[i + 10]);
                if i + 11 + dl > data.len() {
                    AnswerStep::Fault
                } else {
                    AnswerStep::Next(AnswerScan {
                        answers: st.answers.push(RawAnswer {
                            labels: st.labels,
                            atype: be16(data[i + 1], data[i + 2]),
                            aclass: be16(data[i + 3], data[i + 4]),
                            ttl: be32(data[i + 5], data[i + 6], data[i + 7], data[i + 8]),
                            length: dl,
                            data: data.subrange(i + 11, i + 11 + dl),
                        }),
                        labels: Seq::empty(),
                        index: i + 11 + dl,
                    })
                }
            }
        } else if i + n + 1 > data.len() {
            AnswerStep::Fault
        } else {
            AnswerStep::Next(AnswerScan {
                answers: st.answers,
                labels: st.labels.push(data.subrange(i + 1, i + n + 1)),
                index: i + n + 1,
            })
        }
    }
}

/// The result of the answer scan from state `st`: the answers and the bytes
/// consumed, or `None` where the scan faults.
pub open spec fn answer_run(data: Seq<u8>, st: AnswerScan) -> Option<(Seq<RawAnswer>, int)>
    decreases data.len() + 1 - st.index,
{
    match answer_step(data, st) {
        AnswerStep::Next(s2) => answer_run(data, s2),
        AnswerStep::Done(answers, n) => Some((answers, n)),
        AnswerStep::Fault => None,
    }
}

/// The answers that `data` holds, read from its first byte, and the bytes
/// consumed; `None` where the scan faults.
pub open spec fn spec_parse_answers(data: Seq<u8>) -> Option<(Seq<RawAnswer>, int)> {
    answer_run(data, AnswerScan { answers: Seq::empty(), labels: Seq::empty(), index: 0 })
}

/// An answer on the wire: its name, a zero byte, type, class, time to live, the
/// length field, then the data.
pub open spec fn answer_wire(a: AnswerView) -> Seq<u8> {
    name_wire(a.labels) + seq![0u8] + be16_bytes(a.atype) + be16_bytes(a.aclass) + be32_bytes(a.ttl)
        + be16_bytes(a.length) + a.data
}

/// Answers on the wire, one after the other.
pub open spec fn answers_wire(answers: Seq<AnswerView>) -> Seq<u8>
    decreases answers.len(),
{
    if answers.len() == 0 {
        Seq::empty()
    } else {
        answers_wire(answers.drop_last()) + answer_wire(answers.last())
    }
}



/// A record read off the wire has at least one label and data of the length
/// that its length field carries.
pub open spec fn raw_answer_well_formed(r: RawAnswer) -> bool {
    r.labels.len() >= 1 && r.data.len() == r.length
}

/// A scan that starts with well-formed records only ever adds well-formed ones.
proof fn lemma_answer_run_well_formed(data: Seq<u8>, st: AnswerScan)
    requires
        forall|i: int| 0 <= i < st.answers.len() ==> raw_answer_well_formed(#[trigger] st.answers[i]),
    ensures
        answer_run(data, st) matches Some((raw, _)) ==> forall|i: int|
            0 <= i < raw.len() ==> raw_answer_well_formed(#[trigger] raw[i]),
    decreases data.len() + 1 - st.index,
{
    if let AnswerStep::Next(s2) = answer_step(data, st) {
        assert forall|i: int| 0 <= i < s2.answers.len() implies raw_answer_well_formed(#[trigger] s2.answers[i]) by {
            if i < st.answers.len() {
                assert(s2.answers[i] == st.answers[i]);
            }
        }
        lemma_answer_run_well_formed(data, s2);
    }
}

/// Every answer that the answer scan reads has at least one label, and data of
/// exactly the length that its length field carries.
pub proof fn lemma_parsed_answers_well_formed(data: Seq<u8>)
    ensures
        spec_parse_answers(data) matches Some((raw, _)) ==> forall|i: int|
            0 <= i < raw.len() ==> raw_answer_well_formed(#[trigger] raw[i]),
{
    lemma_answer_run_well_formed(data, AnswerScan { answers: Seq::empty(), labels: Seq::empty(), index: 0 });
}

/// A record's fields stand at fixed offsets from the zero byte at `i` that ends
/// its name: type at `i + 1`, class at `i + 3` (big-endian words), time to live
/// at `i + 5` (a big-endian double word), data length at `i + 9`, and that many
/// bytes of data from `i + 11`.
pub open spec fn record_fields_at(data: Seq<u8>, r: RawAnswer, i: int) -> bool {
    &&& 0 <= i
    &&& i + 11 + r.length <= data.len()
    &&& data[i] == 0
    &&& r.atype == data[i + 1] as int * 256 + data[i + 2] as int
    &&& r.aclass == data[i + 3] as int * 256 + data[i + 4] as int
    &&& r.ttl == ((data[i + 5] as int * 256 + data[i + 6] as int) * 256 + data[i + 7] as int) * 256
        + data[i + 8] as int
    &&& r.length == data[i + 9] as int * 256 + data[i + 10] as int
    &&& r.data == data.subrange(i + 11, i + 11 + r.length)
}

/// A record that stands, as `record_fields_at` says, after some zero byte of
/// `data`.
pub open spec fn record_found(data: Seq<u8>, r: RawAnswer) -> bool {
    exists|i: int| #[trigger] record_fields_at(data, r, i)
}

/// A scan whose records so far each stand at some zero byte of `data` adds
/// only records that do.
proof fn lemma_answer_run_fields(data: Seq<u8>, st: AnswerScan)
    requires
        forall|k: int| 0 <= k < st.answers.len() ==> record_found(data, #[trigger] st.answers[k]),
    ensures
        answer_run(data, st) matches Some((raw, _)) ==> forall|k: int|
            0 <= k < raw.len() ==> record_found(data, #[trigger] raw[k]),
    decreases data.len() + 1 - st.index,
{
    if let AnswerStep::Next(s2) = answer_step(data, st) {
        assert forall|k: int| 0 <= k < s2.answers.len() implies record_found(data, #[trigger] s2.answers[k]) by {
            if k < st.answers.len() {
                assert(s2.answers[k] == st.answers[k]);
            } else {
                let i = st.index;
                let r = s2.answers[k];
                assert(data[i + 1] as int * 256 + data[i + 2] as int <= 0xFFFF);
                assert(data[i + 3] as int * 256 + data[i + 4] as int <= 0xFFFF);
                assert(data[i + 9] as int * 256 + data[i + 10] as int <= 0xFFFF);
                assert(((data[i + 5] as int * 256 + data[i + 6] as int) * 256 + data[i + 7] as int) * 256
                    + data[i + 8] as int <= 0xFFFF_FFFF);
                assert(record_fields_at(data, r, i));
            }
        }
        lemma_answer_run_fields(data, s2);
    }
}

/// Every record that the answer scan reads has its type, class, time to live,
/// data length and data at fixed offsets after a zero byte of the section:
/// type in the two bytes right after it, class in the next two.
pub proof fn lemma_parsed_answers_fields(data: Seq<u8>)
    ensures
        spec_parse_answers(data) matches Some((raw, _)) ==> forall|k: int|
            0 <= k < raw.len() ==> record_found(data, #[trigger] raw[k]),
{
    lemma_answer_run_fields(data, AnswerScan { answers: Seq::empty(), labels: Seq::empty(), index: 0 });
}

/// The scan never drops or changes a record it has read.
proof fn lemma_answer_run_keeps(data: Seq<u8>, st: AnswerScan)
    ensures
        answer_run(data, st) matches Some((raw, _)) ==> st.answers.len() <= raw.len() && raw.subrange(
            0,
            st.answers.len() as int,
        ) == st.answers,
    decreases data.len() + 1 - st.index,
{
    match answer_step(data, st) {
        AnswerStep::Next(s2) => {
            lemma_answer_run_keeps(data, s2);
            if let Some((raw, _)) = answer_run(data, s2) {
                assert(s2.answers.subrange(0, st.answers.len() as int) =~= st.answers);
                assert(raw.subrange(0, st.answers.len() as int) =~= s2.answers.subrange(0, st.answers.len() as int));
            }
        },
        AnswerStep::Done(answers, _) => {
            assert(answers.subrange(0, st.answers.len() as int) =~= answers);
        },
        AnswerStep::Fault => {},
    }
}

/// In a section that starts with a name written out in full, its zero byte at
/// position `n`, the first record read has that name's labels and the fields
/// that stand right after that zero byte: type from bytes `n + 1` and `n + 2`,
/// class from `n + 3` and `n + 4`, time to live from `n + 5` to `n + 8`, data
/// length from `n + 9` and `n + 10`, and that many bytes of data.
pub proof fn lemma_first_answer_fields(data: Seq<u8>, labels: Seq<Seq<char>>)
    requires
        labels.len() > 0,
        forall|k: int| 0 <= k < labels.len() ==> answer_label_fits(#[trigger] labels[k]),
        name_wire(labels).len() < data.len(),
        data.subrange(0, name_wire(labels).len() as int) == name_wire(labels),
        data[name_wire(labels).len() as int] == 0,
    ensures
        ({
            let n = name_wire(labels).len() as int;
            spec_parse_answers(data) matches Some((raw, _)) ==> {
                &&& raw.len() >= 1
                &&& raw[0].labels == raw_labels(labels)
                &&& record_fields_at(data, raw[0], n)
            }
        }),
{
    let n = name_wire(labels).len() as int;
    let st0 = AnswerScan { answers: Seq::empty(), labels: Seq::empty(), index: 0 };
    assert(data.subrange(0, n) =~= name_wire(labels));
    lemma_answer_name(data, st0, labels);
    let st1 = AnswerScan { answers: Seq::empty(), labels: Seq::<Seq<u8>>::empty() + raw_labels(labels), index: n };
    assert(Seq::<Seq<u8>>::empty() + raw_labels(labels) =~= raw_labels(labels));
    assert(raw_labels(labels).len() == labels.len());
    if let AnswerStep::Next(s2) = answer_step(data, st1) {
        lemma_answer_run_keeps(data, s2);
        assert(s2.answers.len() == 1);
        assert(record_fields_at(data, s2.answers[0], n));
        if let Some((raw, _)) = answer_run(data, s2) {
            assert(raw[0] == raw.subrange(0, 1)[0]);
        }
    }
}

/// An answer's bytes: its name, a zero byte, then at fixed offsets after that
/// byte the type (two bytes), the class (two), the time to live (four) and the
/// data length (two), all big-endian, then the data.
pub proof fn lemma_answer_wire_layout(a: AnswerView)
    ensures
        ({
            let w = answer_wire(a);
            let n = name_wire(a.labels).len() as int;
            &&& w.len() == n + 11 + a.data.len()
            &&& w.subrange(0, n) == name_wire(a.labels)
            &&& w[n] == 0
            &&& w[n + 1] as int * 256 + w[n + 2] as int == a.atype
            &&& w[n + 3] as int * 256 + w[n + 4] as int == a.aclass
            &&& ((w[n + 5] as int * 256 + w[n + 6] as int) * 256 + w[n + 7] as int) * 256 + w[n + 8] as int == a.ttl
            &&& w[n + 9] as int * 256 + w[n + 10] as int == a.length
            &&& w.subrange(n + 11, w.len() as int) == a.data
        }),
{
    let w = answer_wire(a);
    let n = name_wire(a.labels).len() as int;
    lemma_be16_roundtrip(a.atype);
    lemma_be16_roundtrip(a.aclass);
    lemma_be32_roundtrip(a.ttl);
    lemma_be16_roundtrip(a.length);
    assert(w.subrange(0, n) =~= name_wire(a.labels));
    assert(w.subrange(n + 11, w.len() as int) =~= a.data);
}

/// A label whose length byte, read back, is its length and not the end of a name.
pub open spec fn answer_label_fits(l: Seq<char>) -> bool {
    1 <= encode_utf8(l).len() <= 255
}

/// An answer whose name has at least one label, each fitting its length byte,
/// and whose length field is the length of its data.
pub open spec fn plain_answer(a: AnswerView) -> bool {
    &&& a.labels.len() > 0
    &&& forall|i: int| 0 <= i < a.labels.len() ==> answer_label_fits(#[trigger] a.labels[i])
    &&& a.length == a.data.len()
}

/// The answer read off the wire that an answer encodes to.
pub open spec fn raw_answer(a: AnswerView) -> RawAnswer {
    RawAnswer {
        labels: raw_labels(a.labels),
        atype: a.atype,
        aclass: a.aclass,
        ttl: a.ttl,
        length: a.length,
        data: a.data,
    }
}

/// `n` zero bytes.
pub open spec fn zeros(n: nat) -> Seq<u8> {
    Seq::new(n, |i: int| 0u8)
}

/// Reading a name written out in full collects its labels' bytes and stops at
/// the byte after it.
proof fn lemma_answer_name(data: Seq<u8>, st: AnswerScan, labels: Seq<Seq<char>>)
    requires
        0 <= st.index,
        st.index + name_wire(labels).len() < data.len(),
        data.subrange(st.index, st.index + name_wire(labels).len()) == name_wire(labels),
        forall|i: int| 0 <= i < labels.len() ==> answer_label_fits(#[trigger] labels[i]),
    ensures
        answer_run(data, st) == answer_run(
            data,
            AnswerScan {
                answers: st.answers,
                labels: st.labels + raw_labels(labels),
                index: st.index + name_wire(labels).len(),
            },
        ),
    decreases labels.len(),
{
    if labels.len() == 0 {
        assert(st.labels + raw_labels(labels) =~= st.labels);
    } else {
        let i = st.index;
        let l = labels[0];
        let b = encode_utf8(l);
        let n = b.len();
        let w = name_wire(labels);
        lemma_name_wire_first(labels);
        assert(answer_label_fits(l));
        assert(data[i] == w[0]);
        assert(data[i] as int == n);
        assert(data.subrange(i + 1, i + n + 1) =~= b) by {
            assert forall|k: int| 0 <= k < n implies data.subrange(i + 1, i + n + 1)[k] == b[k] by {
                assert(data[i + 1 + k] == w[1 + k]);
            }
        }
        let st1 = AnswerScan { answers: st.answers, labels: st.labels.push(b), index: i + n + 1 };
        assert(answer_step(data, st) == AnswerStep::Next(st1));
        let rest = labels.drop_first();
        assert(data.subrange(st1.index, st1.index + name_wire(rest).len()) =~= name_wire(rest)) by {
            assert forall|k: int| 0 <= k < name_wire(rest).len() implies data.subrange(
                st1.index,
                st1.index + name_wire(rest).len(),
            )[k] == name_wire(rest)[k] by {
                assert(data[i + n + 1 + k] == w[n + 1 + k]);
            }
        }
        assert forall|k: int| 0 <= k < rest.len() implies answer_label_fits(#[trigger] rest[k]) by {
            assert(rest[k] == labels[k + 1]);
        }
        lemma_answer_name(data, st1, rest);
        assert(st1.labels + raw_labels(rest) =~= st.labels + raw_labels(labels));
    }
}

/// Reading an answer written out in full adds it and moves past it.
proof fn lemma_parse_answer(data: Seq<u8>, st: AnswerScan, a: AnswerView)
    requires
        st.labels.len() == 0,
        0 <= st.index,
        st.index + answer_wire(a).len() <= data.len(),
        data.subrange(st.index, st.index + answer_wire(a).len()) == answer_wire(a),
        plain_answer(a),
    ensures
        answer_run(data, st) == answer_run(
            data,
            AnswerScan {
                answers: st.answers.push(raw_answer(a)),
                labels: Seq::empty(),
                index: st.index + answer_wire(a).len(),
            },
        ),
{
    let i = st.index;
    let aw = answer_wire(a);
    let nw = name_wire(a.labels);
    let t = i + nw.len();
    let n = nw.len() as int;
    assert(aw.len() == nw.len() + 11 + a.data.len());
    assert(data.subrange(i, t) =~= nw) by {
        assert forall|k: int| 0 <= k < nw.len() implies data.subrange(i, t)[k] == nw[k] by {
            assert(data[i + k] == aw[k]);
        }
    }
    lemma_answer_name(data, st, a.labels);
    let st1 = AnswerScan { answers: st.answers, labels: st.labels + raw_labels(a.labels), index: t };
    assert(st.labels + raw_labels(a.labels) =~= raw_labels(a.labels));
    assert(data[t] == aw[n]);
    lemma_be16_roundtrip(a.atype);
    lemma_be16_roundtrip(a.aclass);
    lemma_be32_roundtrip(a.ttl);
    lemma_be16_roundtrip(a.length);
    assert(data[t + 1] == aw[n + 1] && data[t + 2] == aw[n + 2]);
    assert(data[t + 3] == aw[n + 3] && data[t + 4] == aw[n + 4]);
    assert(data[t + 5] == aw[n + 5] && data[t + 6] == aw[n + 6]);
    assert(data[t + 7] == aw[n + 7] && data[t + 8] == aw[n + 8]);
    assert(data[t + 9] == aw[n + 9] && data[t + 10] == aw[n + 10]);
    assert(data[t + 1] == be16_bytes(a.atype)[0] && data[t + 2] == be16_bytes(a.atype)[1]);
    assert(data[t + 3] == be16_bytes(a.aclass)[0] && data[t + 4] == be16_bytes(a.aclass)[1]);
    assert(data[t + 5] == be32_bytes(a.ttl)[0] && data[t + 6] == be32_bytes(a.ttl)[1]);
    assert(data[t + 7] == be32_bytes(a.ttl)[2] && data[t + 8] == be32_bytes(a.ttl)[3]);
    assert(data[t + 9] == be16_bytes(a.length)[0] && data[t + 10] == be16_bytes(a.length)[1]);
    assert(data.subrange(t + 11, t + 11 + a.length) =~= a.data) by {
        assert forall|k: int| 0 <= k < a.length implies data.subrange(t + 11, t + 11 + a.length)[k] == a.data[k] by {
            assert(data[t + 11 + k] == aw[n + 11 + k]);
        }
    }
    assert(st1.labels.len() == a.labels.len());
    let st2 = AnswerScan {
        answers: st.answers.push(raw_answer(a)),
        labels: Seq::empty(),
        index: i + aw.len(),
    };
    assert(answer_step(data, st1) == AnswerStep::Next(st2));
}

/// Each encoding of a prefix of a list of answers is a prefix of the list's encoding.
proof fn lemma_answers_wire_prefix(answers: Seq<AnswerView>, j: int)
    requires
        0 <= j <= answers.len(),
    ensures
        answers_wire(answers.take(j)).len() <= answers_wire(answers).len(),
        answers_wire(answers).subrange(0, answers_wire(answers.take(j)).len() as int) == answers_wire(
            answers.take(j),
        ),
    decreases answers.len(),
{
    if j == answers.len() {
        assert(answers.take(j) =~= answers);
    } else {
        lemma_answers_wire_prefix(answers.drop_last(), j);
        assert(answers.drop_last().take(j) =~= answers.take(j));
        assert(answers_wire(answers).subrange(0, answers_wire(answers.take(j)).len() as int)
            =~= answers_wire(answers.drop_last()).subrange(0, answers_wire(answers.take(j)).len() as int));
    }
}

/// The answer scan's state after the first `k` of a list of answers written out in full.
pub open spec fn answers_state_after(answers: Seq<AnswerView>, k: int) -> AnswerScan {
    AnswerScan {
        answers: answers.take(k).map_values(|a: AnswerView| raw_answer(a)),
        labels: Seq::empty(),
        index: answers_wire(answers.take(k)).len() as int,
    }
}

/// Reading the rest of a list of answers written out in full, from after its
/// first `k`, gives them all; the scan then stops at the byte after them.
proof fn lemma_parse_answers_rest(data: Seq<u8>, answers: Seq<AnswerView>, k: int)
    requires
        0 <= k <= answers.len(),
        answers_wire(answers).len() <= data.len(),
        data.subrange(0, answers_wire(answers).len() as int) == answers_wire(answers),
        answers_wire(answers).len() < data.len() ==> data[answers_wire(answers).len() as int] == 0,
        forall|i: int| 0 <= i < answers.len() ==> plain_answer(#[trigger] answers[i]),
    ensures
        answer_run(data, answers_state_after(answers, k)) == Some(
            (
                answers.map_values(|a: AnswerView| raw_answer(a)),
                if data.len() == 0 { 0int } else { answers_wire(answers).len() + 1int },
            ),
        ),
    decreases answers.len() - k,
{
    let st = answers_state_after(answers, k);
    if k == answers.len() {
        assert(answers.take(k) =~= answers);
    } else {
        let a = answers[k];
        let w = answers_wire(answers);
        let pre = answers_wire(answers.take(k));
        let pre1 = answers_wire(answers.take(k + 1));
        assert(answers.take(k + 1).drop_last() =~= answers.take(k));
        assert(pre1 == pre + answer_wire(a));
        lemma_answers_wire_prefix(answers, k + 1);
        let p = pre.len() as int;
        assert(data.subrange(p, p + answer_wire(a).len()) =~= answer_wire(a)) by {
            assert forall|j: int| 0 <= j < answer_wire(a).len() implies data.subrange(
                p,
                p + answer_wire(a).len(),
            )[j] == answer_wire(a)[j] by {
                assert(data[p + j] == w[p + j]);
                assert(w[p + j] == pre1[p + j]);
            }
        }
        lemma_parse_answer(data, st, a);
        assert(st.answers.push(raw_answer(a)) =~= answers_state_after(answers, k + 1).answers);
        lemma_parse_answers_rest(data, answers, k + 1);
    }
}

/// Reading the answer section that encodes answers with plain names and length
/// fields that match their data, followed by nothing or by a zero byte, gives
/// those answers back; the scan counts one byte past them (none on empty data).
pub proof fn lemma_answers_roundtrip(answers: Seq<AnswerView>, rest: Seq<u8>)
    requires
        forall|i: int| 0 <= i < answers.len() ==> plain_answer(#[trigger] answers[i]),
        rest.len() > 0 ==> rest[0] == 0,
    ensures
        spec_parse_answers(answers_wire(answers) + rest) matches Some((raw, n))
            && raw.map_values(|r: RawAnswer| decode_answer(r)) =~~= answers
            && n == if (answers_wire(answers) + rest).len() == 0 { 0 } else { answers_wire(answers).len() + 1 },
{
    let data = answers_wire(answers) + rest;
    let w = answers_wire(answers);
    assert(data.subrange(0, w.len() as int) =~= w);
    if w.len() < data.len() {
        assert(data[w.len() as int] == rest[0]);
    }
    assert(answers.take(0) =~= Seq::<AnswerView>::empty());
    assert(answers.take(0).map_values(|a: AnswerView| raw_answer(a)) =~= Seq::<RawAnswer>::empty());
    assert(answers_state_after(answers, 0) == AnswerScan { answers: Seq::empty(), labels: Seq::empty(), index: 0 });
    lemma_parse_answers_rest(data, answers, 0);
    let raw = answers.map_values(|a: AnswerView| raw_answer(a));
    assert forall|i: int| 0 <= i < answers.len() implies decode_answer(raw[i]) =~~= answers[i] by {
        let a = answers[i];
        assert forall|j: int| 0 <= j < a.labels.len() implies labels_text(raw_labels(a.labels))[j] == a.labels[j] by {
            lemma_label_text_encode(a.labels[j]);
        }
        assert(labels_text(raw_labels(a.labels)) =~= a.labels);
    }
}

impl DNSAnswer {
    /// Reads the answers held in `data` from its first byte, and the number of
    /// bytes consumed. `None` exactly where the scan faults.
    pub fn try_from_bytes(data: &[u8]) -> (res: Option<(Vec<DNSAnswer>, usize)>)
        requires
            data@.len() < usize::MAX - 1,
        ensures
            match spec_parse_answers(data@) {
                None => res is None,
                Some((raw, n)) => res matches Some((v, m)) && m == n && answers_view(v@)
                    == raw.map_values(|r: RawAnswer| decode_answer(r)),
            },
    {
        let mut answer_list: Vec<DNSAnswer> = Vec::new();
        let mut found_domain_labels: Vec<String> = Vec::new();
        let mut index: usize = 0;
        let ghost mut raw_answers: Seq<RawAnswer> = Seq::empty();
        let ghost mut raw_labels: Seq<Seq<u8>> = Seq::empty();
        proof {
            assert(answers_view(answer_list@) =~= raw_answers.map_values(|r: RawAnswer| decode_answer(r)));
            assert(strings_view(found_domain_labels@) =~= labels_text(raw_labels));
        }
        loop
            invariant
                data@.len() < usize::MAX - 1,
                index <= data@.len() + 1,
                answer_run(data@, AnswerScan { answers: raw_answers, labels: raw_labels, index: index as int })
                    == spec_parse_answers(data@),
                answers_view(answer_list@) == raw_answers.map_values(|r: RawAnswer| decode_answer(r)),
                strings_view(found_domain_labels@) == labels_text(raw_labels),
            decreases data@.len() + 1 - index,
        {
            assert(found_domain_labels@.len() == raw_labels.len()) by {
                assert(strings_view(found_domain_labels@).len() == found_domain_labels@.len());
            }
            if index >= data.len() {
                let bytes_consumed = if data.len() == 0 { 0 } else { index + 1 };
                return Some((answer_list, bytes_consumed));
            }
            let label_length = data[index] as usize;
            if label_length == 0 {
                if found_domain_labels.len() == 0 {
                    return Some((answer_list, index + 1));
                }
                if data.len() - index <= 10 {
                    return None;
                }
                let data_answer_type = read_be16(data[index + 1], data[index + 2]);
                let data_answer_class = read_be16(data[index + 3], data[index + 4]);
                let data_ttl = read_be32(data[index + 5], data[index + 6], data[index + 7], data[index + 8]);
                let data_length = read_be16(data[index + 9], data[index + 10]);
                if data.len() - index - 11 < data_length as usize {
                    return None;
                }
                let data_buffer = slice_to_vec(
                    slice_subrange(data, index + 11, index + 11 + (data_length as usize)),
                );
                let domain_labels = found_domain_labels;
                found_domain_labels = Vec::new();
                let answer = DNSAnswer {
                    domain_labels,
                    answer_type: data_answer_type,
                    answer_class: data_answer_class,
                    time_to_live: data_ttl,
                    length: data_length,
                    data: data_buffer,
                };
                let ghost raw_answer = RawAnswer {
                    labels: raw_labels,
                    atype: data_answer_type,
                    aclass: data_answer_class,
                    ttl: data_ttl,
                    length: data_length,
                    data: data@.subrange(index + 11, index + 11 + data_length),
                };
                let ghost old_list = answer_list@;
                answer_list.push(answer);
                proof {
                    assert(decode_answer(raw_answer) == answer@);
                    assert(answers_view(answer_list@) =~= answers_view(old_list).push(answer@));
                    assert(raw_answers.push(raw_answer).map_values(|r: RawAnswer| decode_answer(r))
                        =~= raw_answers.map_values(|r: RawAnswer| decode_answer(r)).push(
                        decode_answer(raw_answer),
                    ));
                    raw_answers = raw_answers.push(raw_answer);
                    raw_labels = Seq::empty();
                    assert(strings_view(found_domain_labels@) =~= labels_text(raw_labels));
                }
                // Jump to the beginning of the next answer, right after the data.
                index = index + 11 + (data_length as usize);
            } else {
                if data.len() - index - 1 < label_length {
                    return None;
                }
                let label = label_from_bytes(slice_subrange(data, index + 1, index + label_length + 1));
                let ghost old_labels = found_domain_labels@;
                found_domain_labels.push(label);
                proof {
                    let raw = data@.subrange(index + 1, index + label_length + 1);
                    assert(strings_view(found_domain_labels@) =~= strings_view(old_labels).push(label@));
                    assert(labels_text(raw_labels.push(raw)) =~= labels_text(raw_labels).push(label_text(raw)));
                    raw_labels = raw_labels.push(raw);
                }
                index = index + label_length + 1;
            }
        }
    }

    /// Reads the answers held in `data`, whose scan does not fault, and the
    /// number of bytes consumed.
    pub fn from_bytes(data: &[u8]) -> (res: (Vec<DNSAnswer>, usize))
        requires
            data@.len() < usize::MAX - 1,
            spec_parse_answers(data@) is Some,
        ensures
            spec_parse_answers(data@) matches Some((raw, n)) && res.1 == n && answers_view(res.0@)
                == raw.map_values(|r: RawAnswer| decode_answer(r)),
    {
        match DNSAnswer::try_from_bytes(data) {
            Some(r) => r,
            None => {
                proof {
                    assert(false);
                }
                (Vec::new(), 0)
            },
        }
    }

    /// Encodes an answer.
    pub fn to_bytes(answer: &DNSAnswer) -> (bytes: Vec<u8>)
        ensures
            bytes@ == answer_wire(answer@),
    {
        let mut bytes_buffer: Vec<u8> = Vec::with_capacity(512);
        push_name(&mut bytes_buffer, &answer.domain_labels);
        bytes_buffer.push(0);
        push_be16(&mut bytes_buffer, answer.answer_type);
        push_be16(&mut bytes_buffer, answer.answer_class);
        push_be32(&mut bytes_buffer, answer.time_to_live);
        push_be16(&mut bytes_buffer, answer.length);
        push_bytes(&mut bytes_buffer, answer.data.as_slice());
        assert(bytes_buffer@ =~= answer_wire(answer@));
        bytes_buffer
    }

    /// Encodes answers one after the other.
    pub fn sequence_to_bytes(answer_list: &[DNSAnswer]) -> (bytes: Vec<u8>)
        ensures
            bytes@ == answers_wire(answers_view(answer_list@)),
    {
        let mut bytes_buffer: Vec<u8> = Vec::new();
        let ghost answers = answers_view(answer_list@);
        let mut k: usize = 0;
        while k < answer_list.len()
            invariant
                k <= answer_list@.len(),
                answers == answers_view(answer_list@),
                bytes_buffer@ == answers_wire(answers.take(k as int)),
            decreases answer_list@.len() - k,
        {
            let encoded = DNSAnswer::to_bytes(&answer_list[k]);
            push_bytes(&mut bytes_buffer, encoded.as_slice());
            proof {
                assert(answers.take(k + 1).drop_last() =~= answers.take(k as int));
            }
            k += 1;
        }
        assert(answers.take(k as int) =~= answers);
        bytes_buffer
    }
}

} // verus!
