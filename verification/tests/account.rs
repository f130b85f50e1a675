use contract_ffi::account::Account;
use contract_ffi::bytesrepr::{Error, FromBytes, ToBytes};
use contract_ffi::key::Key;
use contract_ffi::named_keys::NamedKeys;
use contract_ffi::uref::{AccessRights, URef};

fn table(entries: &[(&str, Key)]) -> NamedKeys {
    let mut t = NamedKeys::new();
    for (name, key) in entries {
        t.insert(String::from(*name), *key);
    }
    t
}

#[test]
fn new_keeps_what_it_is_given() {
    let known = table(&[("a", Key::Hash([1; 32]))]);
    let account = Account::new([5; 32], 99, known.clone());
    assert_eq!(account.pub_key(), &[5u8; 32][..]);
    assert_eq!(account.nonce(), 99);
    assert_eq!(account.urefs_lookup(), &known);
    assert_eq!(account.get_urefs_lookup(), known);
}

#[test]
fn insert_urefs_lets_the_last_write_win() {
    let k1 = Key::Hash([1; 32]);
    let k2 = Key::URef(URef::new([2; 32], AccessRights::READ));
    let k3 = Key::Account([3; 32]);
    let k4 = Key::Hash([4; 32]);
    let mut account = Account::new([5; 32], 1, table(&[("x", k1), ("y", k3)]));
    let mut incoming = table(&[("x", k2), ("z", k4)]);
    account.insert_urefs(&mut incoming);
    assert_eq!(account.urefs_lookup().get("x"), Some(&k2));
    assert_eq!(account.urefs_lookup().get("y"), Some(&k3));
    assert_eq!(account.urefs_lookup().get("z"), Some(&k4));
    assert_eq!(account.urefs_lookup().len(), 3);
    assert_eq!(incoming.len(), 0);
    assert_eq!(account.pub_key(), &[5u8; 32][..]);
    assert_eq!(account.nonce(), 1);
}

#[test]
fn insert_urefs_of_nothing_changes_nothing() {
    let known = table(&[("x", Key::Hash([1; 32]))]);
    let mut account = Account::new([5; 32], 1, known.clone());
    let mut nothing = NamedKeys::new();
    account.insert_urefs(&mut nothing);
    assert_eq!(account, Account::new([5; 32], 1, known));
}

#[test]
fn account_encodes_key_nonce_and_table() {
    let account = Account::new([5; 32], 0x0102_0304_0506_0708, table(&[("a", Key::Hash([1; 32]))]));
    let mut expected = vec![5u8; 32];
    expected.extend_from_slice(&[8, 7, 6, 5, 4, 3, 2, 1]);
    expected.extend_from_slice(&[1, 0, 0, 0]);
    expected.extend_from_slice(&[1, 0, 0, 0, b'a', 1]);
    expected.extend_from_slice(&[1u8; 32]);
    assert!(account.is_encodable());
    assert_eq!(account.to_bytes(), expected);
}

#[test]
fn account_round_trips() {
    let account = Account::new(
        [5; 32],
        u64::MAX,
        table(&[
            ("b", Key::URef(URef::new([2; 32], AccessRights::ADD_WRITE))),
            ("a", Key::Hash([1; 32])),
        ]),
    );
    let mut bytes = account.to_bytes();
    let len = bytes.len();
    bytes.push(1);
    let (back, rest) = Account::from_bytes(&bytes).unwrap();
    assert_eq!(back, account);
    assert_eq!(rest, &bytes[len..]);
    assert_eq!(back.nonce(), u64::MAX);
    assert_eq!(
        back.urefs_lookup().get("b").unwrap().as_uref().unwrap().access_rights(),
        AccessRights::ADD_WRITE
    );
}

#[test]
fn truncated_account_ends_early() {
    let account = Account::new([5; 32], 3, table(&[("a", Key::Hash([1; 32]))]));
    let bytes = account.to_bytes();
    for cut in 0..bytes.len() {
        assert_eq!(Account::from_bytes(&bytes[..cut]), Err(Error::EarlyEndOfStream));
    }
}
