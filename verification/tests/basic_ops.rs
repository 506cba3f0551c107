use ranked_map::DocumentId;
use ranked_map::FieldId;
use ranked_map::Number;
use ranked_map::RankedMap;

#[test]
fn new_store_is_empty() {
    let m = RankedMap::new();
    assert_eq!(m.len(), 0);
    assert!(m.is_empty());
    assert_eq!(m.get(DocumentId(1), FieldId(1)), None);
}

#[test]
fn insert_then_get() {
    let mut m = RankedMap::new();
    m.insert(DocumentId(1), FieldId(2), Number::Unsigned(7));
    m.insert(DocumentId(3), FieldId(4), Number::Signed(-5));
    assert_eq!(m.len(), 2);
    assert!(!m.is_empty());
    assert_eq!(m.get(DocumentId(1), FieldId(2)), Some(Number::Unsigned(7)));
    assert_eq!(m.get(DocumentId(3), FieldId(4)), Some(Number::Signed(-5)));
    assert_eq!(m.get(DocumentId(1), FieldId(4)), None);
    assert_eq!(m.get(DocumentId(3), FieldId(2)), None);
}

#[test]
fn overwrite_keeps_last_value_and_length() {
    let mut m = RankedMap::new();
    m.insert(DocumentId(1), FieldId(2), Number::Unsigned(7));
    assert_eq!(m.len(), 1);
    m.insert(DocumentId(1), FieldId(2), Number::Signed(-9));
    assert_eq!(m.len(), 1);
    assert_eq!(m.get(DocumentId(1), FieldId(2)), Some(Number::Signed(-9)));
}

#[test]
fn remove_absent_is_noop() {
    let mut m = RankedMap::new();
    m.insert(DocumentId(1), FieldId(2), Number::Unsigned(7));
    m.remove(DocumentId(8), FieldId(8));
    assert_eq!(m.len(), 1);
    assert_eq!(m.get(DocumentId(1), FieldId(2)), Some(Number::Unsigned(7)));
}

#[test]
fn remove_present_deletes_one_entry() {
    let mut m = RankedMap::new();
    m.insert(DocumentId(1), FieldId(2), Number::Unsigned(7));
    m.insert(DocumentId(1), FieldId(3), Number::Unsigned(8));
    m.remove(DocumentId(1), FieldId(2));
    assert_eq!(m.len(), 1);
    assert_eq!(m.get(DocumentId(1), FieldId(2)), None);
    assert_eq!(m.get(DocumentId(1), FieldId(3)), Some(Number::Unsigned(8)));
}

#[test]
fn example_scenario() {
    let mut m = RankedMap::new();
    m.insert(DocumentId(1), FieldId(2), Number::Float((3.5f64).to_bits()));
    m.insert(DocumentId(1), FieldId(5), Number::Unsigned(10));
    m.insert(DocumentId(2), FieldId(2), Number::Float((-1.0f64).to_bits()));
    assert_eq!(m.len(), 3);
    assert_eq!(
        m.get(DocumentId(1), FieldId(2)),
        Some(Number::Float((3.5f64).to_bits()))
    );
    assert_eq!(m.get(DocumentId(9), FieldId(9)), None);
    m.remove(DocumentId(1), FieldId(5));
    assert_eq!(m.len(), 2);
    assert_eq!(m.get(DocumentId(1), FieldId(5)), None);
    let bytes = m.write_to_bin();
    let back = RankedMap::read_from_bin(&bytes).expect("round trip must decode");
    assert_eq!(back.len(), 2);
    assert_eq!(
        back.get(DocumentId(1), FieldId(2)),
        Some(Number::Float((3.5f64).to_bits()))
    );
    assert_eq!(
        back.get(DocumentId(2), FieldId(2)),
        Some(Number::Float((-1.0f64).to_bits()))
    );
}

#[test]
fn default_store_is_empty() {
    let m = RankedMap::default();
    assert_eq!(m.len(), 0);
    assert!(m.is_empty());
}

#[test]
fn clone_copies_entries_independently() {
    let mut m = RankedMap::new();
    m.insert(DocumentId(1), FieldId(2), Number::Unsigned(7));
    let c = m.clone();
    m.insert(DocumentId(3), FieldId(4), Number::Unsigned(8));
    assert_eq!(c.len(), 1);
    assert_eq!(c.get(DocumentId(1), FieldId(2)), Some(Number::Unsigned(7)));
    assert_eq!(c.get(DocumentId(3), FieldId(4)), None);
    assert_eq!(m.len(), 2);
}

#[test]
fn many_remove_cycles_keep_lookups_safe() {
    let mut m = RankedMap::new();
    for i in 0..600u64 {
        m.insert(DocumentId(i), FieldId(0), Number::Unsigned(i));
        m.remove(DocumentId(i), FieldId(0));
        assert_eq!(m.get(DocumentId(i + 1), FieldId(0)), None);
        m.remove(DocumentId(i + 1), FieldId(0));
    }
    assert_eq!(m.len(), 0);
    assert_eq!(m.get(DocumentId(0), FieldId(0)), None);
}
