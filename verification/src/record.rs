//! Stored records: a sequence whose members are byte strings, in a fixed order.
//!
//! A reader asks for the first members of a record. They have to be byte
//! strings. Members behind them only have to be framed objects, and bytes
//! behind the record do not matter.

use crate::der::{
    encode_tlv, encode_tlv_spec, lemma_parse_elements_first, lemma_parse_elements_size,
    lemma_parse_encoded, lemma_parse_tlv_size, lemma_parse_truncated, parse_elements,
    parse_sequence, parse_tlv, read_elements, read_tlv, total_size, Tlv, TAG_OCTET_STRING,
    TAG_SEQUENCE,
};
use vstd::prelude::*;
use vstd::slice::{slice_subrange, slice_to_vec};

verus! {

/// The byte strings, each framed, one behind the other.
pub open spec fn frames(fields: Seq<Seq<u8>>) -> Seq<u8>
    decreases fields.len(),
{
    if fields.len() == 0 {
        Seq::empty()
    } else {
        encode_tlv_spec(TAG_OCTET_STRING, fields.first()) + frames(fields.drop_first())
    }
}

/// The record whose members are the given byte strings.
pub open spec fn encode_record(fields: Seq<Seq<u8>>) -> Seq<u8> {
    encode_tlv_spec(TAG_SEQUENCE, frames(fields))
}

/// The first `count` members of the record at the front of `record`, or `None`
/// where there is no record, it has fewer members, or one of them is no byte string.
pub open spec fn parse_record(record: Seq<u8>, count: nat) -> Option<Seq<Seq<u8>>> {
    match parse_sequence(record) {
        None => None,
        Some(elements) => if elements.len() >= count && forall|i: int|
            0 <= i < count ==> (#[trigger] elements[i]).tag == TAG_OCTET_STRING {
            Some(Seq::new(count, |i: int| elements[i].value))
        } else {
            None
        },
    }
}

/// Whether each byte string, and all of them framed, is short enough for a length field.
pub open spec fn framable(fields: Seq<Seq<u8>>) -> bool {
    &&& frames(fields).len() <= u64::MAX
    &&& forall|i: int| 0 <= i < fields.len() ==> (#[trigger] fields[i]).len() <= u64::MAX
}

/// The byte strings as framed objects.
pub open spec fn framed(fields: Seq<Seq<u8>>) -> Seq<Tlv> {
    Seq::new(
        fields.len(),
        |i: int|
            Tlv {
                tag: TAG_OCTET_STRING,
                value: fields[i],
                size: encode_tlv_spec(TAG_OCTET_STRING, fields[i]).len(),
            },
    )
}

/// The number of bytes that the byte strings hold, counting two more for each.
pub open spec fn payload_len(fields: Seq<Seq<u8>>) -> nat
    decreases fields.len(),
{
    if fields.len() == 0 {
        0
    } else {
        payload_len(fields.drop_last()) + 2 + fields.last().len()
    }
}

/// What the vectors hold.
pub open spec fn byte_strings(fields: Seq<Vec<u8>>) -> Seq<Seq<u8>> {
    Seq::new(fields.len(), |i: int| fields[i]@)
}

/// One more byte string at the end is framed behind the others.
pub proof fn lemma_frames_push(fields: Seq<Seq<u8>>, value: Seq<u8>)
    ensures
        frames(fields.push(value)) == frames(fields) + encode_tlv_spec(TAG_OCTET_STRING, value),
    decreases fields.len(),
{
    let more = fields.push(value);
    if fields.len() == 0 {
        assert(more.drop_first() =~= Seq::<Seq<u8>>::empty());
        assert(frames(more.drop_first()) =~= Seq::<u8>::empty());
        assert(frames(more) =~= frames(fields) + encode_tlv_spec(TAG_OCTET_STRING, value));
    } else {
        assert(more.drop_first() =~= fields.drop_first().push(value));
        lemma_frames_push(fields.drop_first(), value);
        assert(frames(more) =~= frames(fields) + encode_tlv_spec(TAG_OCTET_STRING, value));
    }
}

/// Framed byte strings are read back as those byte strings.
pub proof fn lemma_parse_frames(fields: Seq<Seq<u8>>)
    requires
        forall|i: int| 0 <= i < fields.len() ==> (#[trigger] fields[i]).len() <= u64::MAX,
    ensures
        parse_elements(frames(fields)) == Some(framed(fields)),
    decreases fields.len(),
{
    if fields.len() == 0 {
        assert(framed(fields) =~= Seq::<Tlv>::empty());
    } else {
        let first = fields.first();
        let rest = fields.drop_first();
        let content = frames(fields);
        let head = encode_tlv_spec(TAG_OCTET_STRING, first);
        assert(fields[0].len() <= u64::MAX);
        lemma_parse_encoded(TAG_OCTET_STRING, first, frames(rest));
        lemma_parse_elements_first(content);
        assert(content.skip(head.len() as int) =~= frames(rest));
        assert forall|i: int| 0 <= i < rest.len() implies (#[trigger] rest[i]).len()
            <= u64::MAX by {
            assert(rest[i] == fields[i + 1]);
        }
        lemma_parse_frames(rest);
        assert(seq![parse_tlv(content).unwrap()] + framed(rest) =~= framed(fields)) by {
            assert forall|i: int| 0 < i < fields.len() implies fields[i] == rest[i - 1] by {}
        }
    }
}

/// Reading a record gives back the byte strings it was written from, whatever follows it.
pub proof fn lemma_record_round_trip(fields: Seq<Seq<u8>>, trailing: Seq<u8>)
    requires
        framable(fields),
    ensures
        parse_record(encode_record(fields) + trailing, fields.len()) == Some(fields),
{
    lemma_parse_encoded(TAG_SEQUENCE, frames(fields), trailing);
    lemma_parse_frames(fields);
    assert(Seq::new(fields.len(), |i: int| framed(fields)[i].value) =~= fields);
}

/// A record that was cut short is not read as a record, however few members are asked for.
pub proof fn lemma_record_truncated(fields: Seq<Seq<u8>>, n: nat, count: nat)
    requires
        framable(fields),
        n < encode_record(fields).len(),
    ensures
        parse_record(encode_record(fields).take(n as int), count) is None,
{
    lemma_parse_truncated(TAG_SEQUENCE, frames(fields), n);
}

/// Each framed object that was read takes its value's length and at least two bytes more.
pub proof fn lemma_parse_elements_each(content: Seq<u8>)
    requires
        parse_elements(content) is Some,
    ensures
        forall|i: int|
            0 <= i < parse_elements(content).unwrap().len() ==> 2 + (
            #[trigger] parse_elements(content).unwrap()[i]).value.len() <= parse_elements(
                content,
            ).unwrap()[i].size,
    decreases content.len(),
{
    if content.len() > 0 {
        let first = parse_tlv(content).unwrap();
        let rest = content.skip(first.size as int);
        lemma_parse_tlv_size(content);
        lemma_parse_elements_each(rest);
        let all = parse_elements(content).unwrap();
        let more = parse_elements(rest).unwrap();
        assert(all =~= seq![first] + more);
        assert forall|i: int| 0 <= i < all.len() implies 2 + (#[trigger] all[i]).value.len()
            <= all[i].size by {
            if i > 0 {
                assert(all[i] == more[i - 1]);
            }
        }
    }
}

/// The first framed objects take at least as many bytes as their values, counting two more for each.
pub proof fn lemma_payload_len(elements: Seq<Tlv>, count: nat)
    requires
        count <= elements.len(),
        forall|i: int|
            0 <= i < elements.len() ==> 2 + (#[trigger] elements[i]).value.len()
                <= elements[i].size,
    ensures
        payload_len(Seq::new(count, |i: int| elements[i].value)) <= total_size(elements),
    decreases elements.len(),
{
    let values = Seq::new(count, |i: int| elements[i].value);
    if elements.len() > 0 {
        let fewer = elements.drop_last();
        assert forall|i: int| 0 <= i < fewer.len() implies 2 + (#[trigger] fewer[i]).value.len()
            <= fewer[i].size by {
            assert(fewer[i] == elements[i]);
        }
        if count < elements.len() {
            lemma_payload_len(fewer, count);
            assert(Seq::new(count, |i: int| fewer[i].value) =~= values);
        } else {
            lemma_payload_len(fewer, (count - 1) as nat);
            assert(Seq::new((count - 1) as nat, |i: int| fewer[i].value) =~= values.drop_last());
            assert(values.last() == elements.last().value);
        }
    }
}

/// A record with the given members is no shorter than its members, two bytes
/// for each, and two bytes for itself.
pub proof fn lemma_record_len(record: Seq<u8>, count: nat)
    requires
        parse_record(record, count) is Some,
    ensures
        2 + payload_len(parse_record(record, count).unwrap()) <= record.len(),
{
    let outer = parse_tlv(record).unwrap();
    let elements = parse_elements(outer.value).unwrap();
    lemma_parse_tlv_size(record);
    lemma_parse_elements_size(outer.value);
    lemma_parse_elements_each(outer.value);
    lemma_payload_len(elements, count);
}

/// Frames `value` as a byte string behind what `content` holds.
pub fn push_octet_string(content: &mut Vec<u8>, value: &[u8])
    ensures
        final(content)@ == old(content)@ + encode_tlv_spec(TAG_OCTET_STRING, value@),
{
    let framed = encode_tlv(TAG_OCTET_STRING, value);
    crate::der::append(content, framed.as_slice());
}

/// Frames `content` as a sequence.
pub fn encode_sequence(content: &[u8]) -> (record: Vec<u8>)
    ensures
        record@ == encode_tlv_spec(TAG_SEQUENCE, content@),
{
    encode_tlv(TAG_SEQUENCE, content)
}

/// Reads the first `count` members of the record at the front of `record`.
pub fn read_record(record: &[u8], count: usize) -> (found: Option<Vec<Vec<u8>>>)
    ensures
        match found {
            Some(fields) => fields@.len() == count && parse_record(record@, count as nat) == Some(
                byte_strings(fields@),
            ),
            None => parse_record(record@, count as nat) is None,
        },
{
    assert(record@.skip(0) =~= record@);
    let outer = match read_tlv(record, 0) {
        None => {
            return None;
        },
        Some(outer) => outer,
    };
    if outer.tag != TAG_SEQUENCE {
        return None;
    }
    let content = slice_subrange(record, outer.start, outer.end);
    let elements = match read_elements(content) {
        None => {
            return None;
        },
        Some(elements) => elements,
    };
    let ghost parsed = parse_elements(content@).unwrap();
    assert(parse_sequence(record@) == Some(parsed));
    if elements.len() < count {
        return None;
    }
    let mut fields: Vec<Vec<u8>> = Vec::new();
    let mut i: usize = 0;
    while i < count
        invariant
            i <= count <= elements@.len(),
            fields@.len() == i,
            parse_sequence(record@) == Some(parsed),
            parsed.len() == elements@.len(),
            forall|j: int|
                #![trigger elements@[j]]
                0 <= j < elements@.len() ==> {
                    &&& elements@[j].start <= elements@[j].end
                    &&& elements@[j].end <= content@.len()
                    &&& elements@[j].tag == parsed[j].tag
                    &&& content@.subrange(elements@[j].start as int, elements@[j].end as int)
                        == parsed[j].value
                },
            forall|j: int| 0 <= j < i ==> (#[trigger] parsed[j]).tag == TAG_OCTET_STRING,
            forall|j: int| 0 <= j < i ==> (#[trigger] fields@[j])@ == parsed[j].value,
        decreases count - i,
    {
        let element = elements[i];
        if element.tag != TAG_OCTET_STRING {
            assert(parsed[i as int].tag != TAG_OCTET_STRING);
            return None;
        }
        let value = slice_to_vec(slice_subrange(content, element.start, element.end));
        fields.push(value);
        i = i + 1;
    }
    assert(byte_strings(fields@) =~= Seq::new(count as nat, |j: int| parsed[j].value));
    Some(fields)
}

} // verus!
