//! Domain names: labels as text and as bytes on the wire.

use vstd::prelude::*;
use vstd::utf8::{encode_utf8, encode_utf8_decode_utf8, encode_utf8_valid_utf8};
use crate::text::label_text;
use crate::wire::push_bytes;

verus! {

/// The text of each `String`.
pub open spec fn strings_view(v: Seq<String>) -> Seq<Seq<char>> {
    v.map_values(|s: String| s@)
}

/// The text of each label read off the wire.
pub open spec fn labels_text(raw: Seq<Seq<u8>>) -> Seq<Seq<char>> {
    raw.map_values(|b: Seq<u8>| label_text(b))
}

/// A label on the wire: the length of its UTF-8 bytes in one byte (the low
/// eight bits of it), then those bytes.
pub open spec fn label_wire(label: Seq<char>) -> Seq<u8> {
    seq![encode_utf8(label).len() as u8] + encode_utf8(label)
}

/// A domain name's labels on the wire, one after the other.
pub open spec fn name_wire(labels: Seq<Seq<char>>) -> Seq<u8>
    decreases labels.len(),
{
    if labels.len() == 0 {
        Seq::empty()
    } else {
        name_wire(labels.drop_last()) + label_wire(labels.last())
    }
}

/// Appends a label as it stands on the wire.
pub(crate) fn push_label(out: &mut Vec<u8>, label: &String)
    ensures
        final(out)@ == old(out)@ + label_wire(label@),
{
    let bytes = label.as_str().as_bytes();
    out.push(bytes.len() as u8);
    push_bytes(out, bytes);
    assert(final(out)@ =~= old(out)@ + label_wire(label@));
}


/// The bytes of each label.
pub open spec fn raw_labels(labels: Seq<Seq<char>>) -> Seq<Seq<u8>> {
    labels.map_values(|l: Seq<char>| encode_utf8(l))
}

/// A label whose length byte reads back as a label length: at least one byte,
/// and short enough that its top two bits are not both set.
pub open spec fn plain_label(l: Seq<char>) -> bool {
    1 <= encode_utf8(l).len() < 192
}

/// A name's encoding is its first label's, then the rest's.
pub proof fn lemma_name_wire_first(labels: Seq<Seq<char>>)
    requires
        labels.len() > 0,
    ensures
        name_wire(labels) == label_wire(labels[0]) + name_wire(labels.drop_first()),
    decreases labels.len(),
{
    if labels.len() == 1 {
        assert(labels.drop_last() =~= Seq::<Seq<char>>::empty());
        assert(labels.drop_first() =~= Seq::<Seq<char>>::empty());
        assert(name_wire(labels) =~= label_wire(labels[0]) + name_wire(labels.drop_first()));
    } else {
        lemma_name_wire_first(labels.drop_last());
        assert(labels.drop_last().drop_first() =~= labels.drop_first().drop_last());
        assert(labels.drop_first().last() == labels.last());
        assert(name_wire(labels) =~= label_wire(labels[0]) + name_wire(labels.drop_first()));
    }
}

/// The text of a label encoded as UTF-8 and read back is the label.
pub proof fn lemma_label_text_encode(l: Seq<char>)
    ensures
        label_text(encode_utf8(l)) == l,
{
    encode_utf8_valid_utf8(l);
    encode_utf8_decode_utf8(l);
}

/// Appends a domain name's labels as they stand on the wire.
pub(crate) fn push_name(out: &mut Vec<u8>, labels: &Vec<String>)
    ensures
        final(out)@ == old(out)@ + name_wire(strings_view(labels@)),
{
    let ghost names = strings_view(labels@);
    let ghost start = out@;
    let mut k: usize = 0;
    assert(names.take(0) =~= Seq::<Seq<char>>::empty());
    assert(start + name_wire(names.take(0)) =~= start);
    while k < labels.len()
        invariant
            k <= labels@.len(),
            names == strings_view(labels@),
            out@ == start + name_wire(names.take(k as int)),
        decreases labels@.len() - k,
    {
        push_label(out, &labels[k]);
        proof {
            assert(names.take(k + 1).drop_last() =~= names.take(k as int));
            assert(start + name_wire(names.take(k + 1)) =~= start + name_wire(names.take(k as int)) + label_wire(
                labels@[k as int]@,
            ));
        }
        k += 1;
    }
    assert(names.take(k as int) =~= names);
}

} // verus!
