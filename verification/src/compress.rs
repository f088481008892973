//! Compressed encoding of the question section: a label written before is
//! replaced by a pointer to where it was written.

use vstd::prelude::*;
use vstd::hash_map::StringHashMap;
use vstd::utf8::encode_utf8;
use crate::name::{label_wire, name_wire, push_label, strings_view, lemma_name_wire_first};
use crate::question::{plain_question, question_wire, questions_wire, DNSQuestion, QuestionView};
use crate::wire::{be16_bytes, push_be16};

verus! {

/// The state of compressed encoding: the bytes written, the table of labels
/// written out so far with the datagram position of each, and the datagram
/// position of the next byte (the header takes the first twelve).
pub struct CompressState {
    pub out: Seq<u8>,
    pub table: Seq<(Seq<char>, u16)>,
    pub pos: int,
}

/// The position that `label` was first written at, if it was written out.
pub open spec fn table_lookup(table: Seq<(Seq<char>, u16)>, label: Seq<char>) -> Option<u16>
    decreases table.len(),
{
    if table.len() == 0 {
        None
    } else if table[0].0 == label {
        Some(table[0].1)
    } else {
        table_lookup(table.drop_first(), label)
    }
}

/// The two bytes of a compression pointer to `position`.
pub open spec fn pointer_wire(position: u16) -> Seq<u8> {
    be16_bytes(0xC000u16 | position)
}

/// Encodes a name's labels in order: a label seen before, in this name or an
/// earlier one, becomes a pointer to where it was written and ends the name;
/// any other label is written out and its position noted. Also returns whether
/// the name ended with a pointer. `None` where the 16-bit position overflows.
pub open spec fn compress_labels(st: CompressState, labels: Seq<Seq<char>>) -> Option<(CompressState, bool)>
    decreases labels.len(),
{
    if labels.len() == 0 {
        Some((st, false))
    } else {
        let label = labels[0];
        match table_lookup(st.table, label) {
            Some(p) => if st.pos + 2 > 0xFFFF {
                None
            } else {
                Some((CompressState { out: st.out + pointer_wire(p), table: st.table, pos: st.pos + 2 }, true))
            },
            None => {
                let step = ((encode_utf8(label).len() % 0x10000 + 1) % 0x10000) as u16;
                if st.pos + step > 0xFFFF {
                    None
                } else {
                    compress_labels(
                        CompressState {
                            out: st.out + label_wire(label),
                            table: st.table.push((label, st.pos as u16)),
                            pos: st.pos + step,
                        },
                        labels.drop_first(),
                    )
                }
            },
        }
    }
}

/// Encodes one question with compression: its name, a zero byte unless the name
/// ended with a pointer, then type and class.
pub open spec fn compress_question(st: CompressState, q: QuestionView) -> Option<CompressState> {
    match compress_labels(st, q.labels) {
        None => None,
        Some((s1, ended_with_pointer)) => {
            if !ended_with_pointer && s1.pos + 1 > 0xFFFF {
                None
            } else {
                let s2 = if ended_with_pointer {
                    s1
                } else {
                    CompressState { out: s1.out.push(0u8), table: s1.table, pos: s1.pos + 1 }
                };
                if s2.pos + 4 > 0xFFFF {
                    None
                } else {
                    Some(CompressState {
                        out: s2.out + be16_bytes(q.qtype) + be16_bytes(q.qclass),
                        table: s2.table,
                        pos: s2.pos + 4,
                    })
                }
            }
        },
    }
}

/// Encodes questions in order with compression, starting after the header.
/// `None` where the 16-bit datagram position overflows.
pub open spec fn compress_questions(qs: Seq<QuestionView>) -> Option<CompressState>
    decreases qs.len(),
{
    if qs.len() == 0 {
        Some(CompressState { out: Seq::empty(), table: Seq::empty(), pos: 12 })
    } else {
        match compress_questions(qs.drop_last()) {
            None => None,
            Some(st) => compress_question(st, qs.last()),
        }
    }
}

/// The bytes of questions encoded with compression, where the positions fit.
pub open spec fn questions_compressed_wire(qs: Seq<QuestionView>) -> Option<Seq<u8>> {
    match compress_questions(qs) {
        Some(st) => Some(st.out),
        None => None,
    }
}

/// If encoding a prefix of a list overflows the 16-bit positions, encoding the
/// list does.
pub(crate) proof fn lemma_compress_prefix_none(qs: Seq<QuestionView>, k: int)
    requires
        0 <= k <= qs.len(),
        compress_questions(qs.take(k)) is None,
    ensures
        compress_questions(qs) is None,
    decreases qs.len(),
{
    if k == qs.len() {
        assert(qs.take(k) =~= qs);
    } else {
        assert(qs.drop_last().take(k) =~= qs.take(k));
        lemma_compress_prefix_none(qs.drop_last(), k);
    }
}


/// The labels noted in the compression table, in the order they were written.
pub open spec fn table_keys(t: Seq<(Seq<char>, u16)>) -> Seq<Seq<char>> {
    t.map_values(|e: (Seq<char>, u16)| e.0)
}

/// Every label of a list of questions, in order.
pub open spec fn all_labels(qs: Seq<QuestionView>) -> Seq<Seq<char>>
    decreases qs.len(),
{
    if qs.len() == 0 {
        Seq::empty()
    } else {
        all_labels(qs.drop_last()) + qs.last().labels
    }
}

/// A label is found in the table exactly when it was noted there.
proof fn lemma_lookup_absent(t: Seq<(Seq<char>, u16)>, k: Seq<char>)
    ensures
        (table_lookup(t, k) is None) <==> !table_keys(t).contains(k),
    decreases t.len(),
{
    if t.len() > 0 {
        lemma_lookup_absent(t.drop_first(), k);
        assert(table_keys(t.drop_first()) =~= table_keys(t).drop_first());
        if t[0].0 == k {
            assert(table_keys(t)[0] == k);
        } else {
            assert forall|i: int| 0 <= i < table_keys(t).len() && table_keys(t)[i] == k implies table_keys(
                t.drop_first(),
            ).contains(k) by {
                assert(i != 0);
                assert(table_keys(t.drop_first())[i - 1] == k);
            }
            assert forall|i: int| 0 <= i < table_keys(t.drop_first()).len() && table_keys(t.drop_first())[i] == k
                implies table_keys(t).contains(k) by {
                assert(table_keys(t)[i + 1] == k);
            }
        }
    }
}


/// Writing a name notes only labels not noted before, so a table without a
/// label noted twice stays so.
proof fn lemma_compress_labels_distinct(st: CompressState, labels: Seq<Seq<char>>)
    requires
        table_keys(st.table).no_duplicates(),
    ensures
        compress_labels(st, labels) matches Some((s2, _)) ==> table_keys(s2.table).no_duplicates(),
    decreases labels.len(),
{
    if labels.len() > 0 {
        let l = labels[0];
        lemma_lookup_absent(st.table, l);
        if table_lookup(st.table, l) is None {
            let step = ((encode_utf8(l).len() % 0x10000 + 1) % 0x10000) as u16;
            let t2 = st.table.push((l, st.pos as u16));
            let k2 = table_keys(t2);
            assert(k2 =~= table_keys(st.table).push(l));
            assert(k2.no_duplicates()) by {
                assert forall|a: int, b: int| 0 <= a < k2.len() && 0 <= b < k2.len() && a != b implies k2[a]
                    != k2[b] by {
                    if a < k2.len() - 1 && b < k2.len() - 1 {
                        assert(k2[a] == table_keys(st.table)[a] && k2[b] == table_keys(st.table)[b]);
                    } else if a < k2.len() - 1 {
                        assert(k2[a] == table_keys(st.table)[a]);
                    } else {
                        assert(k2[b] == table_keys(st.table)[b]);
                    }
                }
            }
            lemma_compress_labels_distinct(
                CompressState { out: st.out + label_wire(l), table: t2, pos: st.pos + step },
                labels.drop_first(),
            );
        }
    }
}

/// The compression table never notes a label twice: each label is noted only
/// where it was first written.
pub proof fn lemma_compress_table_distinct(qs: Seq<QuestionView>)
    ensures
        compress_questions(qs) matches Some(st) ==> table_keys(st.table).no_duplicates(),
    decreases qs.len(),
{
    if qs.len() > 0 {
        lemma_compress_table_distinct(qs.drop_last());
        if let Some(st) = compress_questions(qs.drop_last()) {
            lemma_compress_labels_distinct(st, qs.last().labels);
        }
    } else {
        assert(table_keys(Seq::<(Seq<char>, u16)>::empty()) =~= Seq::<Seq<char>>::empty());
    }
}

/// Labels none of which was noted before, and no two alike, are all written
/// out in full and noted in order.
proof fn lemma_compress_fresh_labels(st: CompressState, labels: Seq<Seq<char>>)
    requires
        labels.no_duplicates(),
        forall|j: int| 0 <= j < labels.len() ==> !table_keys(st.table).contains(#[trigger] labels[j]),
        0 <= st.pos,
        st.pos + name_wire(labels).len() <= 0xFFFF,
    ensures
        compress_labels(st, labels) matches Some((s2, ended_with_pointer)) && !ended_with_pointer
            && s2.out == st.out + name_wire(labels) && s2.pos == st.pos + name_wire(labels).len()
            && table_keys(s2.table) == table_keys(st.table) + labels,
    decreases labels.len(),
{
    if labels.len() == 0 {
        assert(st.out + name_wire(labels) =~= st.out);
        assert(table_keys(st.table) + labels =~= table_keys(st.table));
    } else {
        let l = labels[0];
        let rest = labels.drop_first();
        let n = encode_utf8(l).len();
        lemma_name_wire_first(labels);
        lemma_lookup_absent(st.table, l);
        let step = ((n % 0x10000 + 1) % 0x10000) as u16;
        assert(n + 1 <= 0xFFFF);
        assert(n % 0x10000 == n) by {
            vstd::arithmetic::div_mod::lemma_small_mod(n, 0x10000);
        }
        assert((n + 1) % 0x10000 == n + 1) by {
            vstd::arithmetic::div_mod::lemma_small_mod((n + 1) as nat, 0x10000);
        }
        assert(step == n + 1);
        let st1 = CompressState {
            out: st.out + label_wire(l),
            table: st.table.push((l, st.pos as u16)),
            pos: st.pos + step,
        };
        assert(table_keys(st1.table) =~= table_keys(st.table).push(l));
        assert forall|j: int| 0 <= j < rest.len() implies !table_keys(st1.table).contains(#[trigger] rest[j]) by {
            assert(rest[j] == labels[j + 1]);
            assert(labels[j + 1] != labels[0]);
            if table_keys(st1.table).contains(rest[j]) {
                let i = choose|i: int| 0 <= i < table_keys(st1.table).len() && table_keys(st1.table)[i] == rest[j];
                if i < table_keys(st.table).len() {
                    assert(table_keys(st.table)[i] == rest[j]);
                }
            }
        }
        assert(rest.no_duplicates()) by {
            assert forall|a: int, b: int| 0 <= a < rest.len() && 0 <= b < rest.len() && a != b implies rest[a]
                != rest[b] by {
                assert(rest[a] == labels[a + 1] && rest[b] == labels[b + 1]);
            }
        }
        lemma_compress_fresh_labels(st1, rest);
        assert(st1.out + name_wire(rest) =~= st.out + name_wire(labels));
        assert(table_keys(st.table).push(l) + rest =~= table_keys(st.table) + labels);
    }
}

/// Compressing questions in which no label occurs twice writes every label out
/// in full, notes every label, and so gives the plain encoding.
proof fn lemma_compress_without_repeats_state(qs: Seq<QuestionView>)
    requires
        all_labels(qs).no_duplicates(),
        12 + questions_wire(qs).len() <= 0xFFFF,
    ensures
        compress_questions(qs) matches Some(st) && st.out == questions_wire(qs) && st.pos == 12
            + questions_wire(qs).len() && table_keys(st.table) == all_labels(qs),
    decreases qs.len(),
{
    if qs.len() == 0 {
        assert(table_keys(Seq::<(Seq<char>, u16)>::empty()) =~= Seq::<Seq<char>>::empty());
    } else {
        let pre = qs.drop_last();
        let q = qs.last();
        let all = all_labels(qs);
        let all_pre = all_labels(pre);
        assert(all == all_pre + q.labels);
        assert(all_pre.no_duplicates()) by {
            assert forall|a: int, b: int| 0 <= a < all_pre.len() && 0 <= b < all_pre.len() && a != b implies all_pre[a]
                != all_pre[b] by {
                assert(all[a] == all_pre[a] && all[b] == all_pre[b]);
            }
        }
        lemma_compress_without_repeats_state(pre);
        let st = compress_questions(pre)->Some_0;
        assert(q.labels.no_duplicates()) by {
            assert forall|a: int, b: int| 0 <= a < q.labels.len() && 0 <= b < q.labels.len() && a != b implies q.labels[a]
                != q.labels[b] by {
                assert(all[all_pre.len() + a] == q.labels[a]);
                assert(all[all_pre.len() + b] == q.labels[b]);
            }
        }
        assert forall|j: int| 0 <= j < q.labels.len() implies !table_keys(st.table).contains(#[trigger] q.labels[j]) by {
            assert(all[all_pre.len() + j] == q.labels[j]);
            if table_keys(st.table).contains(q.labels[j]) {
                let i = choose|i: int| 0 <= i < all_pre.len() && all_pre[i] == q.labels[j];
                assert(all[i] == all[all_pre.len() + j]);
            }
        }
        lemma_compress_fresh_labels(st, q.labels);
        assert(questions_wire(qs) == questions_wire(pre) + question_wire(q));
        let s1 = compress_labels(st, q.labels)->Some_0.0;
        assert(s1.out.push(0u8) + be16_bytes(q.qtype) + be16_bytes(q.qclass) =~= questions_wire(qs));
    }
}

/// When no label occurs twice among the questions, compressed encoding gives
/// the same bytes as encoding each name in full.
pub proof fn lemma_compress_without_repeats(qs: Seq<QuestionView>)
    requires
        all_labels(qs).no_duplicates(),
        12 + questions_wire(qs).len() <= 0xFFFF,
    ensures
        questions_compressed_wire(qs) == Some(questions_wire(qs)),
{
    lemma_compress_without_repeats_state(qs);
}


/// While positions follow the bytes written, encoding a name whose plain form
/// fits (with room for the zero byte, type and class) does not overflow, keeps
/// positions following the bytes, and writes no more than the plain form: the
/// plain bytes when the name ends without a pointer, at most one byte more
/// than the plain labels when a pointer replaces the rest and the zero byte.
proof fn lemma_compress_labels_bound(st: CompressState, labels: Seq<Seq<char>>)
    requires
        st.pos == 12 + st.out.len(),
        st.pos + name_wire(labels).len() + 5 <= 0xFFFF,
    ensures
        compress_labels(st, labels) matches Some((s2, ended_with_pointer)) && s2.pos == 12 + s2.out.len()
            && if ended_with_pointer {
            s2.out.len() <= st.out.len() + name_wire(labels).len() + 1
        } else {
            s2.out.len() == st.out.len() + name_wire(labels).len()
        },
    decreases labels.len(),
{
    if labels.len() > 0 {
        let l = labels[0];
        let n = encode_utf8(l).len();
        lemma_name_wire_first(labels);
        if table_lookup(st.table, l) is None {
            assert(n % 0x10000 == n) by {
                vstd::arithmetic::div_mod::lemma_small_mod(n, 0x10000);
            }
            assert((n + 1) % 0x10000 == n + 1) by {
                vstd::arithmetic::div_mod::lemma_small_mod((n + 1) as nat, 0x10000);
            }
            let step = ((n % 0x10000 + 1) % 0x10000) as u16;
            assert(step == n + 1);
            lemma_compress_labels_bound(
                CompressState {
                    out: st.out + label_wire(l),
                    table: st.table.push((l, st.pos as u16)),
                    pos: st.pos + step,
                },
                labels.drop_first(),
            );
        }
    }
}

/// Encoding questions whose plain encoding fits the 16-bit positions does not
/// overflow, and writes no more bytes than the plain encoding.
proof fn lemma_compress_bound_state(qs: Seq<QuestionView>)
    requires
        12 + questions_wire(qs).len() <= 0xFFFF,
    ensures
        compress_questions(qs) matches Some(st) && st.pos == 12 + st.out.len() && st.out.len()
            <= questions_wire(qs).len(),
    decreases qs.len(),
{
    if qs.len() > 0 {
        let pre = qs.drop_last();
        let q = qs.last();
        assert(questions_wire(qs) == questions_wire(pre) + question_wire(q));
        lemma_compress_bound_state(pre);
        let st = compress_questions(pre)->Some_0;
        lemma_compress_labels_bound(st, q.labels);
    }
}

/// When the plain encoding of questions fits the 16-bit datagram positions
/// (after the header), the compressed encoding fits too and is never longer
/// than the plain one.
pub proof fn lemma_compress_fits(qs: Seq<QuestionView>)
    requires
        12 + questions_wire(qs).len() <= 0xFFFF,
    ensures
        questions_compressed_wire(qs) matches Some(c) && c.len() <= questions_wire(qs).len(),
{
    lemma_compress_bound_state(qs);
}


/// Whether `l` is the last label of one of the questions.
pub open spec fn is_last_label(qs: Seq<QuestionView>, l: Seq<char>) -> bool {
    exists|j: int| 0 <= j < qs.len() && qs[j].labels.len() > 0 && #[trigger] qs[j].labels.last() == l
}

/// Questions whose compressed encoding reads back: plain labels, no label twice
/// in one name, types below 256 (a type's first byte is read where a name may
/// end), and a label that two questions share is the last label of both (a
/// pointer then stands for that label alone).
pub open spec fn compressible_questions(qs: Seq<QuestionView>) -> bool {
    &&& forall|i: int| 0 <= i < qs.len() ==> {
        &&& plain_question(#[trigger] qs[i])
        &&& qs[i].labels.no_duplicates()
        &&& qs[i].qtype < 256
    }
    &&& forall|i: int, j: int, a: int, b: int|
        0 <= i < qs.len() && 0 <= j < qs.len() && i != j && 0 <= a < qs[i].labels.len() && 0 <= b
            < qs[j].labels.len() && #[trigger] qs[i].labels[a] == #[trigger] qs[j].labels[b] ==> a
            == qs[i].labels.len() - 1 && b == qs[j].labels.len() - 1
}

/// The end, relative to the first byte after the header, of the label that a
/// table entry notes.
pub open spec fn entry_end(e: (Seq<char>, u16)) -> int {
    e.1 - 12 + label_wire(e.0).len()
}

/// A table entry whose label stands written at its position, followed by a
/// zero byte once anything follows it, if the label ends some question.
pub open spec fn entry_ok(out: Seq<u8>, e: (Seq<char>, u16), qs: Seq<QuestionView>) -> bool {
    &&& 12 <= e.1
    &&& entry_end(e) <= out.len()
    &&& out.subrange(e.1 - 12, entry_end(e)) == label_wire(e.0)
    &&& (is_last_label(qs, e.0) && entry_end(e) < out.len() ==> out[entry_end(e)] == 0)
}

/// Every table entry is as `entry_ok` says.
pub open spec fn entries_ok(out: Seq<u8>, t: Seq<(Seq<char>, u16)>, qs: Seq<QuestionView>) -> bool {
    forall|idx: int| 0 <= idx < t.len() ==> entry_ok(out, #[trigger] t[idx], qs)
}

/// Entries whose label is the last thing written do not end a question.
pub open spec fn open_entries_not_last(out: Seq<u8>, t: Seq<(Seq<char>, u16)>, qs: Seq<QuestionView>) -> bool {
    forall|idx: int| 0 <= idx < t.len() && entry_end(#[trigger] t[idx]) == out.len() ==> !is_last_label(qs, t[idx].0)
}

/// Every entry ends before the last byte written.
pub open spec fn entries_closed(out: Seq<u8>, t: Seq<(Seq<char>, u16)>) -> bool {
    forall|idx: int| 0 <= idx < t.len() ==> entry_end(#[trigger] t[idx]) < out.len()
}

/// Appending bytes keeps entries written; a first byte of zero, or no open
/// entry ending a question, keeps the zero bytes after them.
proof fn lemma_entries_extend(out: Seq<u8>, x: Seq<u8>, t: Seq<(Seq<char>, u16)>, qs: Seq<QuestionView>)
    requires
        entries_ok(out, t, qs),
        (x.len() > 0 && x[0] == 0) || open_entries_not_last(out, t, qs),
    ensures
        entries_ok(out + x, t, qs),
{
    assert forall|idx: int| 0 <= idx < t.len() implies entry_ok(out + x, #[trigger] t[idx], qs) by {
        let e = t[idx];
        assert(entry_ok(out, e, qs));
        assert((out + x).subrange(e.1 - 12, entry_end(e)) =~= out.subrange(e.1 - 12, entry_end(e)));
        if entry_end(e) < out.len() {
            assert((out + x)[entry_end(e)] == out[entry_end(e)]);
        } else if entry_end(e) == out.len() && x.len() > 0 {
            assert((out + x)[entry_end(e)] == x[0]);
        }
    }
}

/// Looking up in a table made of two parts looks in the first part, then the second.
proof fn lemma_lookup_append(t1: Seq<(Seq<char>, u16)>, t2: Seq<(Seq<char>, u16)>, k: Seq<char>)
    ensures
        table_lookup(t1 + t2, k) == match table_lookup(t1, k) {
            Some(p) => Some(p),
            None => table_lookup(t2, k),
        },
    decreases t1.len(),
{
    if t1.len() == 0 {
        assert(t1 + t2 =~= t2);
    } else {
        assert((t1 + t2).drop_first() =~= t1.drop_first() + t2);
        assert((t1 + t2)[0] == t1[0]);
        lemma_lookup_append(t1.drop_first(), t2, k);
    }
}

/// A label found in the table is noted in one of its entries with that position.
proof fn lemma_lookup_entry(t: Seq<(Seq<char>, u16)>, k: Seq<char>) -> (idx: int)
    requires
        table_lookup(t, k) is Some,
    ensures
        0 <= idx < t.len(),
        t[idx] == (k, table_lookup(t, k)->Some_0),
    decreases t.len(),
{
    if t[0].0 == k {
        0
    } else {
        let i = lemma_lookup_entry(t.drop_first(), k);
        i + 1
    }
}

/// A label among all labels of the questions is a label of one of them.
proof fn lemma_all_labels_member(qs: Seq<QuestionView>, l: Seq<char>) -> (ja: (int, int))
    requires
        all_labels(qs).contains(l),
    ensures
        0 <= ja.0 < qs.len(),
        0 <= ja.1 < qs[ja.0].labels.len(),
        qs[ja.0].labels[ja.1] == l,
    decreases qs.len(),
{
    let pre = qs.drop_last();
    let all = all_labels(qs);
    let k = choose|k: int| 0 <= k < all.len() && all[k] == l;
    if k < all_labels(pre).len() {
        assert(all_labels(pre)[k] == l);
        let r = lemma_all_labels_member(pre, l);
        assert(qs[r.0] == pre[r.0]);
        r
    } else {
        let a = k - all_labels(pre).len();
        assert(qs.last().labels[a] == l);
        (qs.len() - 1, a)
    }
}

/// Writing out labels none of which was noted, none twice and none ending a
/// question, adds them to the table in order and keeps every entry written.
proof fn lemma_compress_walk(
    st: CompressState,
    labels: Seq<Seq<char>>,
    rest: Seq<Seq<char>>,
    qs: Seq<QuestionView>,
) -> (r: (CompressState, Seq<(Seq<char>, u16)>))
    requires
        st.pos == 12 + st.out.len(),
        st.pos + name_wire(labels).len() <= 0xFFFF,
        labels.no_duplicates(),
        forall|i: int| 0 <= i < labels.len() ==> !table_keys(st.table).contains(#[trigger] labels[i]),
        forall|i: int| 0 <= i < labels.len() ==> !is_last_label(qs, #[trigger] labels[i]),
        entries_ok(st.out, st.table, qs),
        open_entries_not_last(st.out, st.table, qs),
    ensures
        compress_labels(st, labels + rest) == compress_labels(r.0, rest),
        r.0.out == st.out + name_wire(labels),
        r.0.pos == 12 + r.0.out.len(),
        r.0.table == st.table + r.1,
        table_keys(r.1) == labels,
        entries_ok(r.0.out, r.0.table, qs),
        open_entries_not_last(r.0.out, r.0.table, qs),
    decreases labels.len(),
{
    if labels.len() == 0 {
        assert(labels + rest =~= rest);
        assert(st.out + name_wire(labels) =~= st.out);
        assert(st.table + Seq::<(Seq<char>, u16)>::empty() =~= st.table);
        assert(table_keys(Seq::<(Seq<char>, u16)>::empty()) =~= labels);
        (st, Seq::empty())
    } else {
        let l = labels[0];
        let n = encode_utf8(l).len();
        lemma_name_wire_first(labels);
        lemma_lookup_absent(st.table, l);
        assert((labels + rest)[0] == l);
        assert((labels + rest).drop_first() =~= labels.drop_first() + rest);
        assert(n % 0x10000 == n) by {
            vstd::arithmetic::div_mod::lemma_small_mod(n, 0x10000);
        }
        assert((n + 1) % 0x10000 == n + 1) by {
            vstd::arithmetic::div_mod::lemma_small_mod((n + 1) as nat, 0x10000);
        }
        let step = ((n % 0x10000 + 1) % 0x10000) as u16;
        assert(step == n + 1);
        let e = (l, st.pos as u16);
        let st1 = CompressState { out: st.out + label_wire(l), table: st.table.push(e), pos: st.pos + step };
        lemma_entries_extend(st.out, label_wire(l), st.table, qs);
        assert(entry_end(e) == st1.out.len());
        assert(st1.out.subrange(e.1 - 12, entry_end(e)) =~= label_wire(l));
        assert(!is_last_label(qs, l));
        assert(entries_ok(st1.out, st1.table, qs)) by {
            assert forall|idx: int| 0 <= idx < st1.table.len() implies entry_ok(st1.out, #[trigger] st1.table[idx], qs) by {
                if idx < st.table.len() {
                    assert(st1.table[idx] == st.table[idx]);
                }
            }
        }
        assert(open_entries_not_last(st1.out, st1.table, qs)) by {
            assert forall|idx: int| 0 <= idx < st1.table.len() && entry_end(#[trigger] st1.table[idx]) == st1.out.len()
                implies !is_last_label(qs, st1.table[idx].0) by {
                if idx < st.table.len() {
                    assert(st1.table[idx] == st.table[idx]);
                    assert(entry_ok(st.out, st.table[idx], qs));
                }
            }
        }
        let tail = labels.drop_first();
        assert(table_keys(st1.table) =~= table_keys(st.table).push(l));
        assert forall|i: int| 0 <= i < tail.len() implies !table_keys(st1.table).contains(#[trigger] tail[i]) by {
            assert(tail[i] == labels[i + 1]);
            assert(labels[i + 1] != labels[0]);
            if table_keys(st1.table).contains(tail[i]) {
                let j = choose|j: int| 0 <= j < table_keys(st1.table).len() && table_keys(st1.table)[j] == tail[i];
                if j < table_keys(st.table).len() {
                    assert(table_keys(st.table)[j] == tail[i]);
                }
            }
        }
        assert forall|i: int| 0 <= i < tail.len() implies !is_last_label(qs, #[trigger] tail[i]) by {
            assert(tail[i] == labels[i + 1]);
        }
        assert(tail.no_duplicates()) by {
            assert forall|a: int, b: int| 0 <= a < tail.len() && 0 <= b < tail.len() && a != b implies tail[a]
                != tail[b] by {
                assert(tail[a] == labels[a + 1] && tail[b] == labels[b + 1]);
            }
        }
        let r1 = lemma_compress_walk(st1, tail, rest, qs);
        assert(st1.out + name_wire(tail) =~= st.out + name_wire(labels));
        let added = seq![e] + r1.1;
        assert(r1.0.table =~= st.table + added);
        assert(table_keys(added) =~= labels) by {
            assert(table_keys(added) =~= seq![l] + table_keys(r1.1));
            assert(labels =~= seq![l] + tail);
        }
        (r1.0, added)
    }
}


/// A label is among two lists joined exactly when it is among one of them.
proof fn lemma_contains_concat(a: Seq<Seq<char>>, b: Seq<Seq<char>>, l: Seq<char>)
    ensures
        (a + b).contains(l) <==> (a.contains(l) || b.contains(l)),
{
    if a.contains(l) {
        let i = choose|i: int| 0 <= i < a.len() && a[i] == l;
        assert((a + b)[i] == l);
    }
    if b.contains(l) {
        let i = choose|i: int| 0 <= i < b.len() && b[i] == l;
        assert((a + b)[a.len() + i] == l);
    }
    if (a + b).contains(l) {
        let i = choose|i: int| 0 <= i < (a + b).len() && (a + b)[i] == l;
        if i < a.len() {
            assert(a[i] == l);
        } else {
            assert(b[i - a.len()] == l);
        }
    }
}

/// How one question is encoded with compression, given where its last label was
/// written before, if it was: in full when it was not, else its other labels,
/// then a pointer to it, then type and class.
pub open spec fn compressed_question_wire(q: QuestionView, found: Option<u16>) -> Seq<u8> {
    match found {
        None => question_wire(q),
        Some(p) => name_wire(q.labels.drop_last()) + pointer_wire(p) + be16_bytes(q.qtype) + be16_bytes(q.qclass),
    }
}

/// Compressing one question whose labels other than the last were never
/// written and end no question writes it as `compressed_question_wire` says,
/// keeps every table entry written, and notes its labels.
proof fn lemma_compress_question_layout(st: CompressState, q: QuestionView, qs: Seq<QuestionView>) -> (s2: CompressState)
    requires
        st.pos == 12 + st.out.len(),
        st.pos + question_wire(q).len() <= 0xFFFF,
        plain_question(q),
        q.labels.no_duplicates(),
        forall|i: int| 0 <= i < q.labels.len() - 1 ==> !table_keys(st.table).contains(#[trigger] q.labels[i]),
        forall|i: int| 0 <= i < q.labels.len() - 1 ==> !is_last_label(qs, #[trigger] q.labels[i]),
        is_last_label(qs, q.labels.last()),
        entries_ok(st.out, st.table, qs),
        entries_closed(st.out, st.table),
    ensures
        compress_question(st, q) == Some(s2),
        s2.pos == 12 + s2.out.len(),
        s2.out == st.out + compressed_question_wire(q, table_lookup(st.table, q.labels.last())),
        entries_ok(s2.out, s2.table, qs),
        entries_closed(s2.out, s2.table),
        forall|l: Seq<char>| #[trigger] table_keys(s2.table).contains(l) <==> (table_keys(st.table).contains(l) || q.labels.contains(l)),
        table_lookup(st.table, q.labels.last()) matches Some(p) ==> {
            &&& 12 <= p
            &&& p - 12 + label_wire(q.labels.last()).len() < st.out.len()
            &&& st.out.subrange(p - 12, p - 12 + label_wire(q.labels.last()).len()) == label_wire(q.labels.last())
            &&& st.out[p - 12 + label_wire(q.labels.last()).len()] == 0
        },
{
    let labels = q.labels;
    let init = labels.drop_last();
    let last = labels.last();
    assert(labels =~= init + seq![last]);
    assert(name_wire(labels) == name_wire(init) + label_wire(last));
    assert(init.no_duplicates()) by {
        assert forall|a: int, b: int| 0 <= a < init.len() && 0 <= b < init.len() && a != b implies init[a] != init[b] by {
            assert(init[a] == labels[a] && init[b] == labels[b]);
        }
    }
    assert forall|i: int| 0 <= i < init.len() implies !table_keys(st.table).contains(#[trigger] init[i]) by {
        assert(init[i] == labels[i]);
    }
    assert forall|i: int| 0 <= i < init.len() implies !is_last_label(qs, #[trigger] init[i]) by {
        assert(init[i] == labels[i]);
    }
    assert(open_entries_not_last(st.out, st.table, qs)) by {
        assert forall|idx: int| 0 <= idx < st.table.len() && entry_end(#[trigger] st.table[idx]) == st.out.len() implies !is_last_label(
            qs,
            st.table[idx].0,
        ) by {
            assert(entry_end(st.table[idx]) < st.out.len());
        }
    }
    let (st1, added) = lemma_compress_walk(st, init, seq![last], qs);
    assert(compress_labels(st, labels) == compress_labels(st1, seq![last]));
    lemma_lookup_append(st.table, added, last);
    lemma_lookup_absent(added, last);
    assert(!table_keys(added).contains(last)) by {
        if table_keys(added).contains(last) {
            let i = choose|i: int| 0 <= i < init.len() && init[i] == last;
            assert(labels[i] == labels[labels.len() - 1]);
        }
    }
    let found = table_lookup(st.table, last);
    assert(table_lookup(st1.table, last) == found);
    assert(seq![last].drop_first() =~= Seq::<Seq<char>>::empty());
    assert(table_keys(st1.table) =~= table_keys(st.table) + init);
    assert forall|l: Seq<char>| table_keys(st1.table).contains(l) <==> (table_keys(st.table).contains(l) || init.contains(l)) by {
        lemma_contains_concat(table_keys(st.table), init, l);
    }
    match found {
        None => {
            let n = encode_utf8(last).len();
            assert(n % 0x10000 == n) by {
                vstd::arithmetic::div_mod::lemma_small_mod(n, 0x10000);
            }
            assert((n + 1) % 0x10000 == n + 1) by {
                vstd::arithmetic::div_mod::lemma_small_mod((n + 1) as nat, 0x10000);
            }
            let step = ((n % 0x10000 + 1) % 0x10000) as u16;
            assert(step == n + 1);
            let e = (last, st1.pos as u16);
            let st2 = CompressState { out: st1.out + label_wire(last), table: st1.table.push(e), pos: st1.pos + step };
            assert(seq![last][0] == last);
            assert(st1.pos + step <= 0xFFFF);
            assert(compress_labels(st2, Seq::<Seq<char>>::empty()) == Some((st2, false)));
            assert(compress_labels(st1, seq![last]) == Some((st2, false)));
            let tail = seq![0u8] + be16_bytes(q.qtype) + be16_bytes(q.qclass);
            let s2 = CompressState { out: st2.out + tail, table: st2.table, pos: st2.pos + 5 };
            assert(st2.out.push(0u8) + be16_bytes(q.qtype) + be16_bytes(q.qclass) =~= s2.out);
            assert(compress_question(st, q) == Some(s2));
            lemma_entries_extend(st1.out, label_wire(last), st1.table, qs);
            assert(st2.out.subrange(e.1 - 12, entry_end(e)) =~= label_wire(last));
            assert(entries_ok(st2.out, st2.table, qs)) by {
                assert forall|idx: int| 0 <= idx < st2.table.len() implies entry_ok(st2.out, #[trigger] st2.table[idx], qs) by {
                    if idx < st1.table.len() {
                        assert(st2.table[idx] == st1.table[idx]);
                    }
                }
            }
            lemma_entries_extend(st2.out, tail, st2.table, qs);
            assert(s2.out =~= st.out + question_wire(q));
            assert(entries_closed(s2.out, s2.table)) by {
                assert forall|idx: int| 0 <= idx < s2.table.len() implies entry_end(#[trigger] s2.table[idx]) < s2.out.len() by {
                    assert(entry_ok(st2.out, s2.table[idx], qs));
                }
            }
            assert forall|l: Seq<char>| #[trigger] table_keys(s2.table).contains(l) <==> (table_keys(st.table).contains(l)
                || labels.contains(l)) by {
                assert(table_keys(s2.table) =~= table_keys(st1.table) + seq![last]);
                lemma_contains_concat(table_keys(st1.table), seq![last], l);
                lemma_contains_concat(init, seq![last], l);
                if seq![last].contains(l) {
                    assert(seq![last][0] == l);
                }
            }
            s2
        },
        Some(p) => {
            let s1 = CompressState { out: st1.out + pointer_wire(p), table: st1.table, pos: st1.pos + 2 };
            assert(compress_labels(st1, seq![last]) == Some((s1, true)));
            let tail = pointer_wire(p) + be16_bytes(q.qtype) + be16_bytes(q.qclass);
            let s2 = CompressState { out: st1.out + tail, table: st1.table, pos: st1.pos + 6 };
            assert(s1.out + be16_bytes(q.qtype) + be16_bytes(q.qclass) =~= s2.out);
            assert(compress_question(st, q) == Some(s2));
            lemma_entries_extend(st1.out, tail, st1.table, qs);
            assert(s2.out =~= st.out + compressed_question_wire(q, found));
            assert(entries_closed(s2.out, s2.table)) by {
                assert forall|idx: int| 0 <= idx < s2.table.len() implies entry_end(#[trigger] s2.table[idx]) < s2.out.len() by {
                    assert(entry_ok(st1.out, s2.table[idx], qs));
                }
            }
            lemma_lookup_absent(st.table, last);
            assert forall|l: Seq<char>| #[trigger] table_keys(s2.table).contains(l) <==> (table_keys(st.table).contains(l)
                || labels.contains(l)) by {
                lemma_contains_concat(init, seq![last], l);
                if seq![last].contains(l) {
                    assert(seq![last][0] == l);
                    assert(table_keys(st.table).contains(last));
                }
            }
            let idx = lemma_lookup_entry(st.table, last);
            assert(entry_ok(st.out, st.table[idx], qs));
            assert(entry_end(st.table[idx]) < st.out.len());
            s2
        },
    }
}


/// How compressing one question moved the encoder from `st` to `s2`: the
/// question written as `compressed_question_wire` says, and where its last
/// label was written before, that label stands there followed by a zero byte.
pub open spec fn compressed_step(st: CompressState, s2: CompressState, q: QuestionView) -> bool {
    let last = q.labels.last();
    &&& s2.out == st.out + compressed_question_wire(q, table_lookup(st.table, last))
    &&& table_lookup(st.table, last) matches Some(p) ==> {
        &&& 12 <= p
        &&& p - 12 + label_wire(last).len() < st.out.len()
        &&& st.out.subrange(p - 12, p - 12 + label_wire(last).len()) == label_wire(last)
        &&& st.out[p - 12 + label_wire(last).len()] == 0
    }
}

/// Compressing the first `k` of compressible questions whose plain encoding
/// fits the 16-bit positions succeeds with positions following the bytes, no
/// more bytes than the plain encoding, every table entry written, and exactly
/// their labels noted.
pub(crate) proof fn lemma_compress_layout(qs: Seq<QuestionView>, k: int)
    requires
        compressible_questions(qs),
        12 + questions_wire(qs).len() <= 0xFFFF,
        0 <= k <= qs.len(),
    ensures
        compress_questions(qs.take(k)) matches Some(st) && st.pos == 12 + st.out.len() && st.out.len()
            <= questions_wire(qs.take(k)).len() && entries_ok(st.out, st.table, qs) && entries_closed(
            st.out,
            st.table,
        ) && forall|l: Seq<char>| #[trigger] table_keys(st.table).contains(l) <==> all_labels(qs.take(k)).contains(l),
        k > 0 ==> (compress_questions(qs.take(k - 1)) matches Some(st) && compress_questions(qs.take(k)) matches Some(
            s2,
        ) && compressed_step(st, s2, qs[k - 1])),
    decreases k,
{
    if k == 0 {
        assert(qs.take(0) =~= Seq::<QuestionView>::empty());
        assert(table_keys(Seq::<(Seq<char>, u16)>::empty()) =~= Seq::<Seq<char>>::empty());
    } else {
        let j = k - 1;
        assert(qs.take(j) =~= qs.take(k - 1));
        lemma_compress_layout(qs, j);
        let pre = qs.take(j);
        let q = qs[j];
        assert(qs.take(k).drop_last() =~= pre);
        assert(qs.take(k).last() == q);
        let st = compress_questions(pre)->Some_0;
        crate::question::lemma_questions_wire_prefix(qs, k);
        assert(questions_wire(qs.take(k)) == questions_wire(pre) + question_wire(q));
        assert(plain_question(q) && q.labels.no_duplicates() && q.qtype < 256);
        assert forall|i: int| 0 <= i < q.labels.len() - 1 implies !table_keys(st.table).contains(#[trigger] q.labels[i]) by {
            if table_keys(st.table).contains(q.labels[i]) {
                let (jj, a) = lemma_all_labels_member(pre, q.labels[i]);
                assert(pre[jj] == qs[jj]);
                assert(qs[jj].labels[a] == qs[j].labels[i]);
            }
        }
        assert forall|i: int| 0 <= i < q.labels.len() - 1 implies !is_last_label(qs, #[trigger] q.labels[i]) by {
            if is_last_label(qs, q.labels[i]) {
                let jj = choose|jj: int| 0 <= jj < qs.len() && qs[jj].labels.len() > 0 && #[trigger] qs[jj].labels.last() == q.labels[i];
                if jj == j {
                    assert(q.labels[q.labels.len() - 1] == q.labels[i]);
                } else {
                    assert(qs[jj].labels[qs[jj].labels.len() - 1] == qs[j].labels[i]);
                }
            }
        }
        assert(is_last_label(qs, q.labels.last())) by {
            assert(qs[j].labels.last() == q.labels.last());
        }
        let s2 = lemma_compress_question_layout(st, q, qs);
        assert(compress_questions(qs.take(k)) == Some(s2));
        assert(compressed_step(st, s2, q));
        assert(name_wire(q.labels) == name_wire(q.labels.drop_last()) + label_wire(q.labels.last()));
        assert(all_labels(qs.take(k)) == all_labels(pre) + q.labels);
        assert forall|l: Seq<char>| #[trigger] table_keys(s2.table).contains(l) <==> all_labels(qs.take(k)).contains(l) by {
            lemma_contains_concat(all_labels(pre), q.labels, l);
        }
    }
}


/// The compressed encoding of a prefix of compressible questions is a prefix of
/// the whole encoding.
pub(crate) proof fn lemma_compress_out_prefix(qs: Seq<QuestionView>, j: int, k: int)
    requires
        compressible_questions(qs),
        12 + questions_wire(qs).len() <= 0xFFFF,
        0 <= j <= k <= qs.len(),
    ensures
        compress_questions(qs.take(j)) matches Some(sj) && compress_questions(qs.take(k)) matches Some(sk)
            && sj.out.len() <= sk.out.len() && sk.out.subrange(0, sj.out.len() as int) == sj.out,
    decreases k - j,
{
    lemma_compress_layout(qs, j);
    lemma_compress_layout(qs, k);
    if j < k {
        lemma_compress_out_prefix(qs, j, k - 1);
        lemma_compress_layout(qs, k - 1);
        let sj = compress_questions(qs.take(j))->Some_0;
        let sm = compress_questions(qs.take(k - 1))->Some_0;
        let sk = compress_questions(qs.take(k))->Some_0;
        assert(sk.out.subrange(0, sj.out.len() as int) =~= sm.out.subrange(0, sj.out.len() as int));
    } else {
        let sj = compress_questions(qs.take(j))->Some_0;
        assert(sj.out.subrange(0, sj.out.len() as int) =~= sj.out);
    }
}

/// The labels table as a map from each label noted to where it was first
/// written.
pub open spec fn table_map(t: Seq<(Seq<char>, u16)>) -> Map<Seq<char>, u16> {
    Map::new(|l: Seq<char>| table_lookup(t, l) is Some, |l: Seq<char>| table_lookup(t, l)->Some_0)
}

/// Noting a label not noted before adds it to the map with its position.
proof fn lemma_table_map_push(t: Seq<(Seq<char>, u16)>, label: Seq<char>, p: u16)
    requires
        table_lookup(t, label) is None,
    ensures
        table_map(t.push((label, p))) == table_map(t).insert(label, p),
{
    let one = seq![(label, p)];
    assert(t.push((label, p)) =~= t + one);
    assert(one.drop_first() =~= Seq::<(Seq<char>, u16)>::empty());
    assert forall|l: Seq<char>| table_lookup(t + one, l) == (if table_lookup(t, l) is Some {
        table_lookup(t, l)
    } else if l == label {
        Some(p)
    } else {
        None
    }) by {
        lemma_lookup_append(t, one, l);
        assert(one[0] == (label, p));
        assert(table_lookup(one.drop_first(), l) is None);
    }
    assert(table_map(t.push((label, p))) =~= table_map(t).insert(label, p));
}

/// The compression state that the encoder's variables stand for.
pub open spec fn compress_state(out: Seq<u8>, table: Seq<(Seq<char>, u16)>, pos: u16) -> CompressState {
    CompressState { out, table, pos: pos as int }
}

/// Encodes one question with compression onto `out`, noting labels in the map
/// that `table` stands for; false, with the question partly written, exactly
/// where the 16-bit position would overflow. Returns the table after the
/// question.
pub(crate) fn compress_question_into(
    out: &mut Vec<u8>,
    labels_map: &mut StringHashMap<u16>,
    position: &mut u16,
    question: &DNSQuestion,
    Ghost(table): Ghost<Seq<(Seq<char>, u16)>>,
) -> (res: (bool, Ghost<Seq<(Seq<char>, u16)>>))
    requires
        old(labels_map)@ == table_map(table),
    ensures
        final(labels_map)@ == table_map(res.1@),
        res.0 ==> compress_question(compress_state(old(out)@, table, *old(position)), question@) == Some(
            compress_state(final(out)@, res.1@, *final(position)),
        ),
        !res.0 ==> compress_question(compress_state(old(out)@, table, *old(position)), question@) is None,
{
    let ghost start = compress_state(out@, table, *position);
    let ghost names = strings_view(question.domain_labels@);
    let ghost mut tbl = table;
    let labels = &question.domain_labels;
    let mut last_index_is_label = true;
    let mut j: usize = 0;
    assert(names.skip(0) =~= names);
    while j < labels.len()
        invariant_except_break
            j <= labels@.len(),
            last_index_is_label,
            names == strings_view(labels@),
            labels == &question.domain_labels,
            start == compress_state(old(out)@, table, *old(position)),
            labels_map@ == table_map(tbl),
            compress_labels(start, names) == compress_labels(compress_state(out@, tbl, *position), names.skip(j as int)),
        ensures
            labels_map@ == table_map(tbl),
            compress_labels(start, names) == Some((compress_state(out@, tbl, *position), !last_index_is_label)),
        decreases labels@.len() - j,
    {
        let label = &labels[j];
        let ghost cur = compress_state(out@, tbl, *position);
        assert(names.skip(j as int)[0] == label@);
        assert(names.skip(j as int).drop_first() =~= names.skip(j + 1));
        match labels_map.get(label.as_str()) {
            Some(label_index) => {
                let label_index: u16 = *label_index;
                if *position > 0xFFFF - 2 {
                    return (false, Ghost(tbl));
                }
                push_be16(out, 0xC000u16 | label_index);
                *position = *position + 2;
                last_index_is_label = false;
                break;
            },
            None => {
                // The label's length plus its length byte, kept to 16 bits.
                let label_len = label.as_str().as_bytes().len();
                let step = (((label_len % 0x10000) + 1) % 0x10000) as u16;
                assert(label_len == encode_utf8(label@).len());
                if *position > 0xFFFF - step {
                    return (false, Ghost(tbl));
                }
                push_label(out, label);
                labels_map.insert(label.clone(), *position);
                proof {
                    lemma_table_map_push(tbl, label@, *position);
                    tbl = tbl.push((label@, *position));
                }
                *position = *position + step;
                j += 1;
            },
        }
    }
    proof {
        assert(j == labels@.len() ==> names.skip(j as int) =~= Seq::<Seq<char>>::empty());
    }
    if last_index_is_label {
        if *position > 0xFFFF - 1 {
            return (false, Ghost(tbl));
        }
        out.push(0);
        *position = *position + 1;
    }
    push_be16(out, question.question_type);
    push_be16(out, question.question_class);
    if *position > 0xFFFF - 4 {
        return (false, Ghost(tbl));
    }
    *position = *position + 4;
    (true, Ghost(tbl))
}


} // verus!
