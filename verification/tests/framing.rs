use asn1_der::typed::{DerDecodable, DerEncodable, SequenceVec};
use asn1_der::VecBacking;
use keycache::der::{
    encode_length, encode_tlv, read_elements, read_tlv, Element, TAG_OCTET_STRING, TAG_SEQUENCE,
};
use keycache::record::{encode_sequence, push_octet_string, read_record};

#[test]
fn short_lengths_take_one_byte() {
    assert_eq!(encode_length(0), vec![0x00]);
    assert_eq!(encode_length(1), vec![0x01]);
    assert_eq!(encode_length(12), vec![0x0c]);
    assert_eq!(encode_length(127), vec![0x7f]);
}

#[test]
fn long_lengths_take_their_digits() {
    assert_eq!(encode_length(128), vec![0x81, 0x80]);
    assert_eq!(encode_length(255), vec![0x81, 0xff]);
    assert_eq!(encode_length(256), vec![0x82, 0x01, 0x00]);
    assert_eq!(encode_length(65_535), vec![0x82, 0xff, 0xff]);
    assert_eq!(encode_length(65_536), vec![0x83, 0x01, 0x00, 0x00]);
    assert_eq!(encode_length(0x0102_0304), vec![0x84, 0x01, 0x02, 0x03, 0x04]);
}

#[test]
fn a_framed_value_is_tag_length_value() {
    assert_eq!(encode_tlv(TAG_OCTET_STRING, &[]), vec![0x04, 0x00]);
    assert_eq!(encode_tlv(TAG_OCTET_STRING, &[0xaa, 0xbb]), vec![0x04, 0x02, 0xaa, 0xbb]);
    let value = vec![7u8; 200];
    let framed = encode_tlv(TAG_SEQUENCE, &value);
    assert_eq!(framed.len(), 203);
    assert_eq!(&framed[..3], &[0x30, 0x81, 200]);
    assert_eq!(&framed[3..], value.as_slice());
}

#[test]
fn a_framed_value_is_read_back() {
    let framed = encode_tlv(TAG_OCTET_STRING, &[1, 2, 3]);
    assert_eq!(read_tlv(&framed, 0), Some(Element { tag: 0x04, start: 2, end: 5 }));
    let value = vec![9u8; 300];
    let framed = encode_tlv(TAG_OCTET_STRING, &value);
    assert_eq!(read_tlv(&framed, 0), Some(Element { tag: 0x04, start: 4, end: 304 }));
}

#[test]
fn bytes_behind_a_framed_value_do_not_matter() {
    let mut framed = encode_tlv(TAG_OCTET_STRING, &[1, 2, 3]);
    framed.extend_from_slice(&[0xff, 0xff]);
    assert_eq!(read_tlv(&framed, 0), Some(Element { tag: 0x04, start: 2, end: 5 }));
}

#[test]
fn a_value_is_read_at_an_offset() {
    let bytes = [0xee, 0x04, 0x01, 0x55, 0x04, 0x00];
    assert_eq!(read_tlv(&bytes, 1), Some(Element { tag: 0x04, start: 3, end: 4 }));
    assert_eq!(read_tlv(&bytes, 4), Some(Element { tag: 0x04, start: 6, end: 6 }));
    assert_eq!(read_tlv(&bytes, 6), None);
}

#[test]
fn a_truncated_value_is_not_read() {
    let framed = encode_tlv(TAG_OCTET_STRING, &[1, 2, 3, 4, 5]);
    for cut in 0..framed.len() {
        assert_eq!(read_tlv(&framed[..cut], 0), None, "cut at {cut}");
    }
    let framed = encode_tlv(TAG_OCTET_STRING, &vec![3u8; 400]);
    for cut in 0..framed.len() {
        assert_eq!(read_tlv(&framed[..cut], 0), None, "cut at {cut}");
    }
}

#[test]
fn a_length_in_another_form_is_not_read() {
    // No digits at all.
    assert_eq!(read_tlv(&[0x04, 0x80], 0), None);
    // A length under 128 in the long form.
    assert_eq!(read_tlv(&[0x04, 0x81, 0x03, 1, 2, 3], 0), None);
    // A leading zero digit.
    let mut padded = vec![0x04, 0x82, 0x00, 0x80];
    padded.extend_from_slice(&[0u8; 128]);
    assert_eq!(read_tlv(&padded, 0), None);
    // More than eight digits.
    assert_eq!(read_tlv(&[0x04, 0x89, 1, 0, 0, 0, 0, 0, 0, 0, 0], 0), None);
    // A length that no slice can hold.
    assert_eq!(read_tlv(&[0x04, 0x88, 0xff, 0xff, 0xff, 0xff, 0xff, 0xff, 0xff, 0xff], 0), None);
}

#[test]
fn the_shortest_long_form_is_read() {
    let mut framed = vec![0x04, 0x81, 0x80];
    framed.extend_from_slice(&[5u8; 128]);
    assert_eq!(read_tlv(&framed, 0), Some(Element { tag: 0x04, start: 3, end: 131 }));
}

#[test]
fn elements_fill_their_content() {
    let content = [0x04, 0x01, 0xaa, 0x05, 0x00, 0x30, 0x02, 0x01, 0x02];
    assert_eq!(
        read_elements(&content),
        Some(vec![
            Element { tag: 0x04, start: 2, end: 3 },
            Element { tag: 0x05, start: 5, end: 5 },
            Element { tag: 0x30, start: 7, end: 9 },
        ])
    );
    assert_eq!(read_elements(&[]), Some(vec![]));
    assert_eq!(read_elements(&content[..8]), None);
    assert_eq!(read_elements(&[0x04]), None);
}

#[test]
fn a_record_is_a_sequence_of_byte_strings() {
    let mut content = Vec::new();
    push_octet_string(&mut content, &[1, 2]);
    push_octet_string(&mut content, &[]);
    push_octet_string(&mut content, &[3]);
    assert_eq!(content, vec![0x04, 0x02, 1, 2, 0x04, 0x00, 0x04, 0x01, 3]);
    let record = encode_sequence(&content);
    assert_eq!(record, vec![0x30, 0x09, 0x04, 0x02, 1, 2, 0x04, 0x00, 0x04, 0x01, 3]);
    assert_eq!(read_record(&record, 3), Some(vec![vec![1, 2], vec![], vec![3]]));
    assert_eq!(read_record(&record, 2), Some(vec![vec![1, 2], vec![]]));
    assert_eq!(read_record(&record, 0), Some(vec![]));
    assert_eq!(read_record(&record, 4), None);
}

#[test]
fn a_record_needs_byte_strings_only_where_they_are_asked_for() {
    // A byte string, then a null.
    let record = [0x30, 0x05, 0x04, 0x01, 0x07, 0x05, 0x00];
    assert_eq!(read_record(&record, 1), Some(vec![vec![7]]));
    assert_eq!(read_record(&record, 2), None);
    // Not a sequence.
    assert_eq!(read_record(&[0x31, 0x03, 0x04, 0x01, 0x07], 1), None);
    // Members that do not fill the sequence.
    assert_eq!(read_record(&[0x30, 0x04, 0x04, 0x01, 0x07, 0x04], 1), None);
    assert_eq!(read_record(&[], 0), None);
}

#[test]
fn records_agree_with_asn1_der() {
    for len in [0usize, 1, 12, 16, 127, 128, 129, 255, 256, 1000, 70_000] {
        let first: Vec<u8> = (0..len).map(|i| i as u8).collect();
        let second: Vec<u8> = vec![0x5a; len / 2];

        let mut content = Vec::new();
        push_octet_string(&mut content, &first);
        push_octet_string(&mut content, &second);
        let record = encode_sequence(&content);

        let mut expected = Vec::new();
        SequenceVec(vec![first.clone(), second.clone()])
            .encode(&mut VecBacking(&mut expected))
            .expect("asn1_der encodes");
        assert_eq!(record, expected, "length {len}");

        let decoded = SequenceVec::<Vec<u8>>::decode(&record).expect("asn1_der decodes");
        assert_eq!(decoded.0, vec![first.clone(), second.clone()]);
        assert_eq!(read_record(&expected, 2), Some(vec![first, second]));
    }
}
