use contract_ffi::bytesrepr::{Error, FromBytes, ToBytes};
use contract_ffi::key::{Key, ACCOUNT_ID, HASH_ID, KEY_UREF_SERIALIZED_LENGTH, UREF_ID};
use contract_ffi::uref::{AccessRights, URef, UREF_SERIALIZED_LENGTH, UREF_SIZE};

const ALL_RIGHTS: [AccessRights; 8] = [
    AccessRights::NONE,
    AccessRights::READ,
    AccessRights::WRITE,
    AccessRights::READ_WRITE,
    AccessRights::ADD,
    AccessRights::READ_ADD,
    AccessRights::ADD_WRITE,
    AccessRights::READ_ADD_WRITE,
];

#[test]
fn access_rights_are_bit_flags() {
    assert_eq!(AccessRights::READ.bits(), 1);
    assert_eq!(AccessRights::WRITE.bits(), 2);
    assert_eq!(AccessRights::ADD.bits(), 4);
    assert_eq!(AccessRights::READ_ADD_WRITE.bits(), 7);
    for (i, rights) in ALL_RIGHTS.iter().enumerate() {
        assert_eq!(rights.bits(), i as u8);
        assert_eq!(AccessRights::from_bits(i as u8), Some(*rights));
        assert_eq!(rights.is_readable(), i & 1 != 0);
        assert_eq!(rights.is_writeable(), i & 2 != 0);
        assert_eq!(rights.is_addable(), i & 4 != 0);
    }
    assert_eq!(AccessRights::from_bits(8), None);
    assert_eq!(AccessRights::from_bits(0xFF), None);
}

#[test]
fn write_alone_does_not_set_the_add_flag() {
    assert!(!AccessRights::WRITE.is_addable());
    assert!(!AccessRights::READ_WRITE.is_addable());
    assert!(AccessRights::ADD_WRITE.is_addable());
    assert!(!URef::new([0; 32], AccessRights::WRITE).is_addable());
    assert!(URef::new([0; 32], AccessRights::ADD_WRITE).is_addable());
}

#[test]
fn uref_keeps_address_and_rights() {
    let uref = URef::new([7; 32], AccessRights::READ_ADD);
    assert_eq!(uref.addr(), [7u8; 32]);
    assert_eq!(uref.access_rights(), AccessRights::READ_ADD);
    assert!(uref.is_readable());
    assert!(!uref.is_writeable());
    assert!(uref.is_addable());
    let narrowed = uref.with_access_rights(AccessRights::READ);
    assert_eq!(narrowed.addr(), [7u8; 32]);
    assert_eq!(narrowed.access_rights(), AccessRights::READ);
}

#[test]
fn uref_identity_ignores_rights() {
    let a = URef::new([7; 32], AccessRights::READ);
    let b = URef::new([7; 32], AccessRights::READ_ADD_WRITE);
    let c = URef::new([8; 32], AccessRights::READ);
    assert_eq!(a, b);
    assert_ne!(a, c);
    assert_eq!(Key::URef(a), Key::URef(b));
    assert_ne!(Key::URef(a), Key::URef(c));
    assert_ne!(Key::Hash([7; 32]), Key::Account([7; 32]));
    assert_ne!(Key::URef(a), Key::Hash([7; 32]));
    assert_eq!(Key::Hash([7; 32]), Key::Hash([7; 32]));
}

#[test]
fn uref_encodes_address_then_rights() {
    assert_eq!(UREF_SIZE, 32);
    assert_eq!(UREF_SERIALIZED_LENGTH, 33);
    let uref = URef::new([9; 32], AccessRights::ADD_WRITE);
    let bytes = uref.to_bytes();
    let mut expected = vec![9u8; 32];
    expected.push(6);
    assert_eq!(bytes, expected);
    let (back, rest) = URef::from_bytes(&bytes).unwrap();
    assert!(rest.is_empty());
    assert_eq!(back.addr(), [9u8; 32]);
    assert_eq!(back.access_rights(), AccessRights::ADD_WRITE);
}

#[test]
fn uref_with_unknown_flag_is_badly_formatted() {
    let mut bytes = vec![9u8; 32];
    bytes.push(8);
    assert_eq!(URef::from_bytes(&bytes), Err(Error::FormattingError));
    assert_eq!(URef::from_bytes(&bytes[..32]), Err(Error::EarlyEndOfStream));
    assert_eq!(URef::from_bytes(&bytes[..10]), Err(Error::EarlyEndOfStream));
}

#[test]
fn key_encodes_tag_then_address() {
    assert_eq!((ACCOUNT_ID, HASH_ID, UREF_ID), (0, 1, 2));
    let mut account = vec![0u8];
    account.extend_from_slice(&[1u8; 32]);
    assert_eq!(Key::Account([1; 32]).to_bytes(), account);
    let mut hash = vec![1u8];
    hash.extend_from_slice(&[2u8; 32]);
    assert_eq!(Key::Hash([2; 32]).to_bytes(), hash);
    let mut uref = vec![2u8];
    uref.extend_from_slice(&[3u8; 32]);
    uref.push(1);
    let key = Key::URef(URef::new([3; 32], AccessRights::READ));
    assert_eq!(key.to_bytes(), uref);
    assert_eq!(key.to_bytes().len(), KEY_UREF_SERIALIZED_LENGTH);
}

#[test]
fn key_round_trips_with_rights() {
    for rights in ALL_RIGHTS {
        let key = Key::URef(URef::new([5; 32], rights));
        let mut bytes = key.to_bytes();
        bytes.push(0xAA);
        let (back, rest) = Key::from_bytes(&bytes).unwrap();
        assert_eq!(rest, &[0xAAu8][..]);
        assert_eq!(back, key);
        assert_eq!(back.as_uref().unwrap().access_rights(), rights);
    }
    for key in [Key::Account([4; 32]), Key::Hash([6; 32])] {
        let bytes = key.to_bytes();
        assert_eq!(Key::from_bytes(&bytes), Ok((key, &bytes[33..])));
    }
}

#[test]
fn key_with_unknown_tag_is_badly_formatted() {
    let mut bytes = vec![3u8];
    bytes.extend_from_slice(&[0u8; 40]);
    assert_eq!(Key::from_bytes(&bytes), Err(Error::FormattingError));
    assert_eq!(Key::from_bytes(&[0xFF]), Err(Error::FormattingError));
    assert_eq!(Key::from_bytes(&[]), Err(Error::EarlyEndOfStream));
    assert_eq!(Key::from_bytes(&[0, 1, 2]), Err(Error::EarlyEndOfStream));
}

#[test]
fn key_classifies_its_variant() {
    let account = Key::Account([1; 32]);
    let hash = Key::Hash([2; 32]);
    let uref = Key::URef(URef::new([3; 32], AccessRights::READ));
    assert!(account.is_account() && !account.is_hash() && !account.is_uref());
    assert!(!hash.is_account() && hash.is_hash() && !hash.is_uref());
    assert!(!uref.is_account() && !uref.is_hash() && uref.is_uref());
    assert!(account.as_uref().is_none());
    assert!(hash.as_uref().is_none());
    assert_eq!(uref.as_uref().unwrap().addr(), [3u8; 32]);
    assert_eq!(account.addr(), [1u8; 32]);
    assert_eq!(hash.addr(), [2u8; 32]);
    assert_eq!(uref.addr(), [3u8; 32]);
    assert_eq!(account.type_string(), "Key::Account");
    assert_eq!(hash.type_string(), "Key::Hash");
    assert_eq!(uref.type_string(), "Key::URef");
}

#[test]
fn order_of_references_ignores_rights() {
    let low = URef::new([1; 32], AccessRights::READ_ADD_WRITE);
    let high = URef::new([2; 32], AccessRights::NONE);
    let high_again = URef::new([2; 32], AccessRights::READ);
    assert!(low < high);
    assert!(high > low);
    assert!(!(high < high_again) && !(high > high_again));
    assert!(high <= high_again && high >= high_again);
    assert_eq!(low.partial_cmp(&high), Some(std::cmp::Ordering::Less));
    assert_eq!(high.partial_cmp(&high_again), Some(std::cmp::Ordering::Equal));
    let mut later = [1u8; 32];
    later[31] = 2;
    assert!(low < URef::new(later, AccessRights::READ));
}

#[test]
fn keys_are_ordered_by_variant_then_address() {
    let account = Key::Account([9; 32]);
    let hash = Key::Hash([5; 32]);
    let uref = Key::URef(URef::new([1; 32], AccessRights::READ));
    assert!(account < hash);
    assert!(hash < uref);
    assert!(account < uref);
    assert!(Key::Hash([4; 32]) < hash);
    assert!(Key::Hash([6; 32]) > hash);
    assert_eq!(
        uref.partial_cmp(&Key::URef(URef::new([1; 32], AccessRights::WRITE))),
        Some(std::cmp::Ordering::Equal)
    );
    assert_eq!((account.tag(), hash.tag(), uref.tag()), (0, 1, 2));
}
