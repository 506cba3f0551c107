use ranked_map::DecodeError;
use ranked_map::DocumentId;
use ranked_map::FieldId;
use ranked_map::Number;
use ranked_map::RankedMap;

fn sample_map() -> RankedMap {
    let mut m = RankedMap::new();
    m.insert(DocumentId(1), FieldId(2), Number::Unsigned(3));
    m.insert(DocumentId(1), FieldId(5), Number::Signed(-10));
    m.insert(DocumentId(2), FieldId(2), Number::Float((0.25f64).to_bits()));
    m.insert(DocumentId(u64::MAX), FieldId(u16::MAX), Number::Signed(i64::MIN));
    m
}

#[test]
fn binary_round_trip_preserves_entries() {
    let m = sample_map();
    let bytes = m.write_to_bin();
    assert_eq!(bytes.len(), 8 + 22 * 4);
    let back = RankedMap::read_from_bin(&bytes).expect("encoded stream must decode");
    assert_eq!(back.len(), 4);
    assert_eq!(back.get(DocumentId(1), FieldId(2)), Some(Number::Unsigned(3)));
    assert_eq!(back.get(DocumentId(1), FieldId(5)), Some(Number::Signed(-10)));
    assert_eq!(
        back.get(DocumentId(2), FieldId(2)),
        Some(Number::Float((0.25f64).to_bits()))
    );
    assert_eq!(
        back.get(DocumentId(u64::MAX), FieldId(u16::MAX)),
        Some(Number::Signed(i64::MIN))
    );
}

#[test]
fn empty_store_encodes_to_count_only() {
    let m = RankedMap::new();
    let bytes = m.write_to_bin();
    assert_eq!(bytes, vec![0u8; 8]);
    let back = RankedMap::read_from_bin(&bytes).expect("empty stream must decode");
    assert!(back.is_empty());
}

#[test]
fn one_entry_has_expected_layout() {
    let mut m = RankedMap::new();
    m.insert(DocumentId(0x0102), FieldId(0x0304), Number::Unsigned(0x05));
    let bytes = m.write_to_bin();
    let mut expected: Vec<u8> = Vec::new();
    expected.extend_from_slice(&1u64.to_le_bytes());
    expected.extend_from_slice(&0x0102u64.to_le_bytes());
    expected.extend_from_slice(&0x0304u16.to_le_bytes());
    expected.extend_from_slice(&0u32.to_le_bytes());
    expected.extend_from_slice(&0x05u64.to_le_bytes());
    assert_eq!(bytes, expected);
}

#[test]
fn truncated_stream_is_rejected() {
    let m = sample_map();
    let bytes = m.write_to_bin();
    for cut in [0, 3, 8, 9, 30, bytes.len() - 1] {
        let r = RankedMap::read_from_bin(&bytes[..cut]);
        assert_eq!(r.unwrap_err(), DecodeError::Truncated);
    }
}

#[test]
fn trailing_bytes_are_ignored() {
    let m = sample_map();
    let mut bytes = m.write_to_bin();
    bytes.extend_from_slice(&[7, 7, 7]);
    let back = RankedMap::read_from_bin(&bytes).expect("the leading encoding must decode");
    assert_eq!(back.len(), 4);
    assert_eq!(back.get(DocumentId(1), FieldId(2)), Some(Number::Unsigned(3)));
    assert_eq!(back.get(DocumentId(1), FieldId(5)), Some(Number::Signed(-10)));
}

#[test]
fn header_declares_total_length() {
    let m = sample_map();
    let mut bytes = m.write_to_bin();
    let total = bytes.len();
    assert_eq!(ranked_map::encoded_len_of_header(&bytes), Some(total));
    bytes.extend_from_slice(&[9, 9]);
    assert_eq!(ranked_map::encoded_len_of_header(&bytes), Some(total));
    assert_eq!(ranked_map::encoded_len_of_header(&bytes[..5]), None);
}

#[test]
fn unknown_number_tag_is_rejected() {
    let mut m = RankedMap::new();
    m.insert(DocumentId(1), FieldId(2), Number::Unsigned(3));
    let mut bytes = m.write_to_bin();
    // The number tag sits after the count, the document id and the field id.
    bytes[8 + 8 + 2] = 9;
    let r = RankedMap::read_from_bin(&bytes);
    assert_eq!(r.unwrap_err(), DecodeError::InvalidNumberTag);
}

#[test]
fn oversized_count_is_rejected() {
    let mut bytes: Vec<u8> = Vec::new();
    bytes.extend_from_slice(&u64::MAX.to_le_bytes());
    bytes.extend_from_slice(&[0u8; 22]);
    let r = RankedMap::read_from_bin(&bytes);
    assert_eq!(r.unwrap_err(), DecodeError::Truncated);
}

#[test]
fn structured_round_trip_preserves_entries() {
    let m = sample_map();
    let entries = m.to_entries();
    assert_eq!(entries.len(), 4);
    let back = RankedMap::from_entries(&entries);
    assert_eq!(back.len(), 4);
    assert_eq!(back.get(DocumentId(1), FieldId(2)), Some(Number::Unsigned(3)));
    assert_eq!(back.get(DocumentId(1), FieldId(5)), Some(Number::Signed(-10)));
    assert_eq!(
        back.get(DocumentId(2), FieldId(2)),
        Some(Number::Float((0.25f64).to_bits()))
    );
    assert_eq!(
        back.get(DocumentId(u64::MAX), FieldId(u16::MAX)),
        Some(Number::Signed(i64::MIN))
    );
}

#[test]
fn duplicate_entries_resolve_to_the_last() {
    let entries = vec![
        ((DocumentId(1), FieldId(2)), Number::Unsigned(3)),
        ((DocumentId(1), FieldId(2)), Number::Unsigned(4)),
    ];
    let m = RankedMap::from_entries(&entries);
    assert_eq!(m.len(), 1);
    assert_eq!(m.get(DocumentId(1), FieldId(2)), Some(Number::Unsigned(4)));
}
