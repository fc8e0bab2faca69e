use git_subset::oid::Oid;

#[test]
fn from_hex_reads_forty_digits() {
    let id = Oid::from_hex("4b825dc642cb6eb9a060e54bf8d69288fbee4904").unwrap();
    assert_eq!(
        id.bytes,
        [
            0x4b, 0x82, 0x5d, 0xc6, 0x42, 0xcb, 0x6e, 0xb9, 0xa0, 0x60, 0xe5, 0x4b, 0xf8, 0xd6,
            0x92, 0x88, 0xfb, 0xee, 0x49, 0x04
        ]
    );
    assert_eq!(id, Oid::empty_tree());
}

#[test]
fn from_hex_takes_either_case() {
    let lower = Oid::from_hex("00000000000000000000000000000000000000ab").unwrap();
    let upper = Oid::from_hex("00000000000000000000000000000000000000AB").unwrap();
    assert_eq!(lower, upper);
    assert_eq!(lower.bytes[19], 0xab);
}

#[test]
fn from_hex_reads_a_short_text_as_if_zeros_followed() {
    let one = Oid::from_hex("1").unwrap();
    let mut bytes = [0u8; 20];
    bytes[0] = 0x10;
    assert_eq!(one.bytes, bytes);

    let three = Oid::from_hex("abc").unwrap();
    let mut bytes = [0u8; 20];
    bytes[0] = 0xab;
    bytes[1] = 0xc0;
    assert_eq!(three.bytes, bytes);
}

#[test]
fn from_hex_refuses_what_is_no_spelling() {
    assert_eq!(Oid::from_hex(""), None);
    assert_eq!(Oid::from_hex("00000000000000000000000000000000000000001"), None);
    assert_eq!(Oid::from_hex("000000000000000000000000000000000000000g"), None);
    assert_eq!(Oid::from_hex("0000 0000"), None);
    assert_eq!(Oid::parse(&[0x30, 0xff]), None);
    assert_eq!(Oid::parse(b"00ff").unwrap().bytes[1], 0xff);
}

#[test]
fn to_hex_writes_forty_lower_case_digits() {
    let mut bytes = [0u8; 20];
    bytes[0] = 0xAB;
    bytes[1] = 0x09;
    bytes[19] = 0xF0;
    let id = Oid { bytes };
    assert_eq!(id.to_hex(), b"ab090000000000000000000000000000000000f0".to_vec());
    assert_eq!(
        Oid::empty_tree().to_hex(),
        b"4b825dc642cb6eb9a060e54bf8d69288fbee4904".to_vec()
    );
}

#[test]
fn hex_goes_round() {
    let id = Oid::from_hex("0123456789abcdef0123456789ABCDEF01234567").unwrap();
    assert_eq!(id.to_hex(), b"0123456789abcdef0123456789abcdef01234567".to_vec());
    assert_eq!(Oid::parse(&id.to_hex()), Some(id));
}

#[test]
fn same_and_slot() {
    let a = Oid::from_hex("0102030405060708090a0b0c0d0e0f1011121314").unwrap();
    let b = Oid::from_hex("0102030405060708ffffffffffffffffffffffff").unwrap();
    assert!(a.same(&a));
    assert!(!a.same(&b));
    assert_eq!(a.slot(), 0x0102030405060708);
    assert_eq!(b.slot(), a.slot());
    assert_eq!(Oid { bytes: [0xff; 20] }.slot(), u64::MAX);
}
