use contract_ffi::account::Account;
use contract_ffi::bytesrepr::{deserialize, Error, FromBytes, ToBytes};
use contract_ffi::key::Key;
use contract_ffi::named_keys::NamedKeys;
use contract_ffi::uref::{AccessRights, URef};
use contract_ffi::value::{
    Value, ACCT_ID, BYTEARRAY_ID, CONTRACT_ID, INT32_ID, LISTINT32_ID, LISTSTRING_ID,
    NAMEDKEY_ID, STRING_ID,
};

fn sample_table() -> NamedKeys {
    let mut t = NamedKeys::new();
    t.insert(
        String::from("purse"),
        Key::URef(URef::new([7; 32], AccessRights::READ_ADD)),
    );
    t.insert(String::from("code"), Key::Hash([8; 32]));
    t
}

fn samples() -> Vec<Value> {
    vec![
        Value::Int32(42),
        Value::Int32(-7),
        Value::ByteArray(vec![1, 2, 3]),
        Value::ByteArray(Vec::new()),
        Value::ListInt32(vec![1, -2, 3]),
        Value::ListInt32(Vec::new()),
        Value::String(String::from("hi")),
        Value::String(String::new()),
        Value::ListString(vec![String::from("a"), String::from("bc")]),
        Value::ListString(Vec::new()),
        Value::NamedKey(String::from("k"), Key::Account([1; 32])),
        Value::NamedKey(
            String::from("r"),
            Key::URef(URef::new([2; 32], AccessRights::WRITE)),
        ),
        Value::Acct(Account::new([3; 32], 17, sample_table())),
        Value::Acct(Account::new([0; 32], 0, NamedKeys::new())),
        Value::Contract { bytes: vec![0xDE, 0xAD], known_urefs: sample_table() },
        Value::Contract { bytes: Vec::new(), known_urefs: NamedKeys::new() },
    ]
}

#[test]
fn int32_encodes_as_tag_and_little_endian_number() {
    let bytes = Value::Int32(42).to_bytes();
    assert_eq!(bytes, vec![0x00u8, 0x2A, 0x00, 0x00, 0x00]);
    let (value, rest) = Value::from_bytes(&bytes).unwrap();
    assert_eq!(value, Value::Int32(42));
    assert!(rest.is_empty());
}

#[test]
fn tags_are_stable() {
    assert_eq!(INT32_ID, 0);
    assert_eq!(BYTEARRAY_ID, 1);
    assert_eq!(LISTINT32_ID, 2);
    assert_eq!(STRING_ID, 3);
    assert_eq!(ACCT_ID, 4);
    assert_eq!(CONTRACT_ID, 5);
    assert_eq!(NAMEDKEY_ID, 6);
    assert_eq!(LISTSTRING_ID, 7);
    assert_eq!(Value::Int32(0).to_bytes()[0], 0);
    assert_eq!(Value::ByteArray(Vec::new()).to_bytes()[0], 1);
    assert_eq!(Value::ListInt32(Vec::new()).to_bytes()[0], 2);
    assert_eq!(Value::String(String::new()).to_bytes()[0], 3);
    assert_eq!(Value::Acct(Account::new([0; 32], 0, NamedKeys::new())).to_bytes()[0], 4);
    assert_eq!(
        Value::Contract { bytes: Vec::new(), known_urefs: NamedKeys::new() }.to_bytes()[0],
        5
    );
    assert_eq!(Value::NamedKey(String::new(), Key::Hash([0; 32])).to_bytes()[0], 6);
    assert_eq!(Value::ListString(Vec::new()).to_bytes()[0], 7);
}

#[test]
fn each_variant_has_its_exact_image() {
    assert_eq!(
        Value::ByteArray(vec![9, 8]).to_bytes(),
        vec![1u8, 2, 0, 0, 0, 9, 8]
    );
    assert_eq!(
        Value::ListInt32(vec![1, -1]).to_bytes(),
        vec![2u8, 2, 0, 0, 0, 1, 0, 0, 0, 0xFF, 0xFF, 0xFF, 0xFF]
    );
    assert_eq!(
        Value::String(String::from("hi")).to_bytes(),
        vec![3u8, 2, 0, 0, 0, b'h', b'i']
    );
    assert_eq!(
        Value::ListString(vec![String::from("a")]).to_bytes(),
        vec![7u8, 1, 0, 0, 0, 1, 0, 0, 0, b'a']
    );
    let mut named = vec![6u8, 1, 0, 0, 0, b'k', 2];
    named.extend_from_slice(&[5u8; 32]);
    named.push(3);
    assert_eq!(
        Value::NamedKey(
            String::from("k"),
            Key::URef(URef::new([5; 32], AccessRights::READ_WRITE))
        )
        .to_bytes(),
        named
    );
    let mut contract = vec![5u8, 1, 0, 0, 0, 0xC0, 1, 0, 0, 0, 1, 0, 0, 0, b'n', 1];
    contract.extend_from_slice(&[4u8; 32]);
    let mut table = NamedKeys::new();
    table.insert(String::from("n"), Key::Hash([4; 32]));
    assert_eq!(
        Value::Contract { bytes: vec![0xC0], known_urefs: table }.to_bytes(),
        contract
    );
    let mut account = vec![4u8];
    account.extend_from_slice(&[6u8; 32]);
    account.extend_from_slice(&[1, 2, 0, 0, 0, 0, 0, 0]);
    account.extend_from_slice(&[0, 0, 0, 0]);
    assert_eq!(
        Value::Acct(Account::new([6; 32], 0x0201, NamedKeys::new())).to_bytes(),
        account
    );
}

#[test]
fn every_variant_round_trips() {
    for value in samples() {
        assert!(value.is_encodable());
        let bytes = value.to_bytes();
        let (back, rest) = Value::from_bytes(&bytes).unwrap();
        assert_eq!(back, value);
        assert!(rest.is_empty());
        assert_eq!(back.to_bytes(), bytes);
        assert_eq!(deserialize::<Value>(&bytes), Ok(value));
    }
}

#[test]
fn decoding_consumes_exactly_the_encoding() {
    for value in samples() {
        let mut bytes = value.to_bytes();
        let len = bytes.len();
        bytes.extend_from_slice(&[0xAB, 0xCD, 0xEF]);
        let (back, rest) = Value::from_bytes(&bytes).unwrap();
        assert_eq!(back, value);
        assert_eq!(rest, &bytes[len..]);
        assert_eq!(deserialize::<Value>(&bytes), Err(Error::FormattingError));
    }
}

#[test]
fn round_trip_keeps_the_rights_of_references() {
    let value = Value::NamedKey(
        String::from("r"),
        Key::URef(URef::new([2; 32], AccessRights::ADD)),
    );
    let bytes = value.to_bytes();
    match Value::from_bytes(&bytes).unwrap().0 {
        Value::NamedKey(name, Key::URef(uref)) => {
            assert_eq!(name, "r");
            assert_eq!(uref.access_rights(), AccessRights::ADD);
        }
        other => panic!("unexpected value {:?}", other),
    }
}

#[test]
fn unknown_tag_is_a_formatting_error() {
    for tag in 8u8..=255 {
        assert_eq!(Value::from_bytes(&[tag]), Err(Error::FormattingError));
        assert_eq!(
            Value::from_bytes(&[tag, 0x2A, 0, 0, 0, 0, 0, 0, 0]),
            Err(Error::FormattingError)
        );
    }
}

#[test]
fn empty_buffer_ends_early() {
    assert_eq!(Value::from_bytes(&[]), Err(Error::EarlyEndOfStream));
    for tag in 0u8..8 {
        assert_eq!(Value::from_bytes(&[tag]), Err(Error::EarlyEndOfStream));
    }
}

#[test]
fn buffer_shorter_than_its_prefix_ends_early() {
    assert_eq!(
        Value::from_bytes(&[BYTEARRAY_ID, 5, 0, 0, 0, 1, 2, 3, 4]),
        Err(Error::EarlyEndOfStream)
    );
    assert_eq!(
        Value::from_bytes(&[STRING_ID, 3, 0, 0, 0, b'h', b'i']),
        Err(Error::EarlyEndOfStream)
    );
    assert_eq!(
        Value::from_bytes(&[LISTINT32_ID, 2, 0, 0, 0, 1, 0, 0, 0, 2, 0, 0]),
        Err(Error::EarlyEndOfStream)
    );
    assert_eq!(
        Value::from_bytes(&[CONTRACT_ID, 9, 0, 0, 0, 1]),
        Err(Error::EarlyEndOfStream)
    );
    assert_eq!(
        Value::from_bytes(&[NAMEDKEY_ID, 2, 0, 0, 0, b'k']),
        Err(Error::EarlyEndOfStream)
    );
    assert_eq!(
        Value::from_bytes(&[INT32_ID, 1, 2, 3]),
        Err(Error::EarlyEndOfStream)
    );
}

#[test]
fn every_proper_prefix_of_an_encoding_ends_early() {
    for value in samples() {
        let bytes = value.to_bytes();
        for cut in 0..bytes.len() {
            assert_eq!(
                Value::from_bytes(&bytes[..cut]),
                Err(Error::EarlyEndOfStream)
            );
        }
    }
}

#[test]
fn malformed_payload_is_a_formatting_error() {
    assert_eq!(
        Value::from_bytes(&[STRING_ID, 1, 0, 0, 0, 0xFF]),
        Err(Error::FormattingError)
    );
    let mut named = vec![NAMEDKEY_ID, 1, 0, 0, 0, b'k', 7];
    named.extend_from_slice(&[0u8; 33]);
    assert_eq!(Value::from_bytes(&named), Err(Error::FormattingError));
    let mut bad_rights = vec![NAMEDKEY_ID, 1, 0, 0, 0, b'k', 2];
    bad_rights.extend_from_slice(&[0u8; 32]);
    bad_rights.push(0x10);
    assert_eq!(Value::from_bytes(&bad_rights), Err(Error::FormattingError));
}

#[test]
fn type_string_names_each_variant() {
    let names: Vec<String> = samples().iter().map(|v| v.type_string()).collect();
    assert_eq!(
        names,
        vec![
            "Int32",
            "Int32",
            "ByteArray",
            "ByteArray",
            "List[Int32]",
            "List[Int32]",
            "String",
            "String",
            "List[String]",
            "List[String]",
            "NamedKey",
            "NamedKey",
            "Account",
            "Account",
            "Contract",
            "Contract",
        ]
    );
}

#[test]
fn as_account_hands_out_the_account() {
    let account = Account::new([3; 32], 17, sample_table());
    let value = Value::Acct(account.clone());
    assert_eq!(value.as_account(), &account);
    assert_eq!(value.account(), Some(&account));
    assert_eq!(Value::Int32(1).account(), None);
    assert_eq!(Value::String(String::from("Account")).account(), None);
}
