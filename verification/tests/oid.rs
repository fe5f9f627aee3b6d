use libgitdit::base::Oid;

#[test]
fn test_oid_incremental_order() {
    let mut id = Oid::zero();
    id.advance(1); // the last byte is 1
    let one = id.clone();
    id.advance(255); // the last byte is 0, the one before it 1
    assert!(one < id);
}

#[test]
fn oid_advance_carries() {
    let mut id = Oid::zero();
    id.advance(1);
    id.advance(255);
    let mut expected = [0u8; 20];
    expected[18] = 1;
    assert_eq!(id.as_bytes(), &expected);
    assert_eq!(
        id.to_hex(),
        "0000000000000000000000000000000000000100".to_string()
    );
}

#[test]
fn oid_advance_wraps_around() {
    let mut id = Oid::from_bytes([255u8; 20]);
    id.advance(2);
    let mut expected = [0u8; 20];
    expected[19] = 1;
    assert_eq!(id, Oid::from_bytes(expected));
}
