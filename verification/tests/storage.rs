use contract_ffi::bytesrepr::{self, ToBytes};
use contract_ffi::contract_api::{ContractRef, Error, TURef};
use contract_ffi::key::Key;
use contract_ffi::named_keys::NamedKeys;
use contract_ffi::storage::{
    get_new_turef, get_read, get_stored_function, get_stored_function_at_hash, new_turef,
    read, read_local, reported_size, store_function, store_function_at_hash, write_local,
    HostCall,
};
use contract_ffi::uref::{AccessRights, URef};
use contract_ffi::value::Value;

const ALL_RIGHTS: [AccessRights; 8] = [
    AccessRights::NONE,
    AccessRights::READ,
    AccessRights::WRITE,
    AccessRights::READ_WRITE,
    AccessRights::ADD,
    AccessRights::READ_ADD,
    AccessRights::ADD_WRITE,
    AccessRights::READ_ADD_WRITE,
];

/// A stand-in for the host: global state and one local partition in memory.
struct Host {
    global: Vec<([u8; 32], Vec<u8>)>,
    local: Vec<(Vec<u8>, Vec<u8>)>,
    minted: u8,
}

#[derive(Debug, PartialEq)]
enum Answer {
    Done,
    Read(i64, Vec<u8>),
    Minted(Vec<u8>),
    Stored([u8; 32]),
    TypeMismatch,
}

impl Host {
    fn new() -> Host {
        Host { global: Vec::new(), local: Vec::new(), minted: 0 }
    }

    fn addr_of(key: &[u8]) -> [u8; 32] {
        bytesrepr::deserialize::<Key>(key).unwrap().addr()
    }

    fn find(&self, addr: &[u8; 32]) -> Option<usize> {
        self.global.iter().position(|(a, _)| a == addr)
    }

    fn put(&mut self, addr: [u8; 32], value: Vec<u8>) {
        match self.find(&addr) {
            Some(i) => self.global[i].1 = value,
            None => self.global.push((addr, value)),
        }
    }

    fn mint(&mut self) -> [u8; 32] {
        self.minted += 1;
        [self.minted; 32]
    }

    fn perform(&mut self, call: HostCall) -> Answer {
        match call {
            HostCall::ReadValue { key } => match self.find(&Host::addr_of(&key)) {
                Some(i) => Answer::Read(self.global[i].1.len() as i64, self.global[i].1.clone()),
                None => Answer::Read(-1, Vec::new()),
            },
            HostCall::ReadValueLocal { key } => {
                match self.local.iter().find(|(k, _)| *k == key) {
                    Some((_, v)) => Answer::Read(v.len() as i64, v.clone()),
                    None => Answer::Read(-1, Vec::new()),
                }
            }
            HostCall::Write { key, value } => {
                self.put(Host::addr_of(&key), value);
                Answer::Done
            }
            HostCall::WriteLocal { key, value } => {
                self.local.retain(|(k, _)| *k != key);
                self.local.push((key, value));
                Answer::Done
            }
            HostCall::Add { key, value } => {
                let addr = Host::addr_of(&key);
                let stored = match self.find(&addr) {
                    Some(i) => bytesrepr::deserialize::<Value>(&self.global[i].1).unwrap(),
                    None => return Answer::TypeMismatch,
                };
                let incoming = bytesrepr::deserialize::<Value>(&value).unwrap();
                match (stored, incoming) {
                    (Value::Int32(a), Value::Int32(b)) => {
                        self.put(addr, Value::Int32(a.wrapping_add(b)).to_bytes());
                        Answer::Done
                    }
                    _ => Answer::TypeMismatch,
                }
            }
            HostCall::NewURef { value } => {
                let addr = self.mint();
                self.put(addr, value);
                Answer::Minted(Key::URef(URef::new(addr, AccessRights::READ_ADD_WRITE)).to_bytes())
            }
            HostCall::StoreFunction { .. } | HostCall::StoreFunctionAtHash { .. } => {
                Answer::Stored(self.mint())
            }
        }
    }

    fn read_back(&mut self, turef: &TURef<Value>) -> Result<Option<Value>, bytesrepr::Error> {
        match self.perform(read(turef).unwrap()) {
            Answer::Read(size, bytes) => get_read::<Value>(size, &bytes),
            other => panic!("unexpected answer {:?}", other),
        }
    }
}

fn turef(rights: AccessRights) -> TURef<Value> {
    TURef::new([9; 32], rights)
}

fn uref_key_bytes(addr: [u8; 32], rights: AccessRights) -> Vec<u8> {
    let mut bytes = vec![2u8];
    bytes.extend_from_slice(&addr);
    bytes.push(rights.bits());
    bytes
}

#[test]
fn read_needs_the_read_flag_and_no_more() {
    for rights in ALL_RIGHTS {
        let r = read(&turef(rights));
        if rights.is_readable() {
            assert_eq!(r, Ok(HostCall::ReadValue { key: uref_key_bytes([9; 32], rights) }));
        } else {
            assert_eq!(r, Err(Error::AccessDenied));
        }
    }
    assert!(read(&turef(AccessRights::READ)).is_ok());
}

#[test]
fn write_needs_the_write_flag() {
    let value = Value::Int32(5);
    for rights in ALL_RIGHTS {
        let r = contract_ffi::storage::write(&turef(rights), &value);
        if rights.is_writeable() {
            assert_eq!(
                r,
                Ok(HostCall::Write {
                    key: uref_key_bytes([9; 32], rights),
                    value: vec![0, 5, 0, 0, 0],
                })
            );
        } else {
            assert_eq!(r, Err(Error::AccessDenied));
        }
    }
}

#[test]
fn add_needs_the_add_or_the_write_flag() {
    let value = Value::Int32(5);
    for rights in ALL_RIGHTS {
        let r = contract_ffi::storage::add(&turef(rights), &value);
        if rights.is_addable() || rights.is_writeable() {
            assert_eq!(
                r,
                Ok(HostCall::Add {
                    key: uref_key_bytes([9; 32], rights),
                    value: vec![0, 5, 0, 0, 0],
                })
            );
        } else {
            assert_eq!(r, Err(Error::AccessDenied));
        }
    }
}

#[test]
fn read_only_reference_can_neither_write_nor_add() {
    let read_only = turef(AccessRights::READ);
    assert_eq!(
        contract_ffi::storage::write(&read_only, &Value::Int32(1)),
        Err(Error::AccessDenied)
    );
    assert_eq!(
        contract_ffi::storage::add(&read_only, &Value::Int32(1)),
        Err(Error::AccessDenied)
    );
    assert!(read(&read_only).is_ok());
    assert!(!turef(AccessRights::WRITE).access_rights().is_addable());
    assert!(turef(AccessRights::ADD_WRITE).access_rights().is_addable());
}

#[test]
fn local_state_has_no_access_gate() {
    let key = String::from("counter");
    assert_eq!(
        read_local(&key),
        Ok(HostCall::ReadValueLocal {
            key: vec![7, 0, 0, 0, b'c', b'o', b'u', b'n', b't', b'e', b'r'],
        })
    );
    assert_eq!(
        write_local(&7u32, &Value::Int32(-1)),
        Ok(HostCall::WriteLocal {
            key: vec![7, 0, 0, 0],
            value: vec![0, 0xFF, 0xFF, 0xFF, 0xFF],
        })
    );
}

#[test]
fn local_state_reads_back_what_was_written() {
    let mut host = Host::new();
    let key = vec![1u8, 2, 3];
    let absent = host.perform(read_local(&key).unwrap());
    assert_eq!(absent, Answer::Read(-1, Vec::new()));
    assert_eq!(get_read::<Value>(-1, &[]), Ok(None));
    let value = Value::ListInt32(vec![1, 2, 3]);
    assert_eq!(host.perform(write_local(&key, &value).unwrap()), Answer::Done);
    match host.perform(read_local(&key).unwrap()) {
        Answer::Read(size, bytes) => {
            assert_eq!(size, bytes.len() as i64);
            assert_eq!(get_read::<Value>(size, &bytes), Ok(Some(value)));
        }
        other => panic!("unexpected answer {:?}", other),
    }
}

#[test]
fn negative_size_means_absent() {
    assert_eq!(reported_size(-1), None);
    assert_eq!(reported_size(i64::MIN), None);
    assert_eq!(reported_size(0), Some(0));
    assert_eq!(reported_size(12), Some(12));
    assert_eq!(reported_size(i64::MAX), Some(i64::MAX as u64));
    assert_eq!(get_read::<Value>(-1, &[0, 1, 0, 0, 0]), Ok(None));
    assert_eq!(get_read::<Value>(-5, &[]), Ok(None));
}

#[test]
fn get_read_decodes_or_reports_malformed_data() {
    assert_eq!(get_read::<Value>(5, &[0, 0x2A, 0, 0, 0]), Ok(Some(Value::Int32(42))));
    assert_eq!(get_read::<i32>(4, &[0x2A, 0, 0, 0]), Ok(Some(42)));
    assert_eq!(
        get_read::<Value>(4, &[0, 0x2A, 0, 0]),
        Err(bytesrepr::Error::EarlyEndOfStream)
    );
    assert_eq!(get_read::<Value>(0, &[]), Err(bytesrepr::Error::EarlyEndOfStream));
    assert_eq!(
        get_read::<Value>(5, &[9, 0x2A, 0, 0, 0]),
        Err(bytesrepr::Error::FormattingError)
    );
    assert_eq!(
        get_read::<Value>(6, &[0, 0x2A, 0, 0, 0, 0]),
        Err(bytesrepr::Error::FormattingError)
    );
}

#[test]
fn new_turef_then_read_yields_the_value() {
    let mut host = Host::new();
    let init = Value::String(String::from("hi"));
    let call = new_turef(&init).unwrap();
    assert_eq!(call, HostCall::NewURef { value: vec![3, 2, 0, 0, 0, b'h', b'i'] });
    let key_bytes = match host.perform(call) {
        Answer::Minted(bytes) => bytes,
        other => panic!("unexpected answer {:?}", other),
    };
    let reference: TURef<Value> = get_new_turef(&key_bytes).unwrap();
    assert_eq!(reference.access_rights(), AccessRights::READ_ADD_WRITE);
    assert_eq!(host.read_back(&reference), Ok(Some(Value::String(String::from("hi")))));
    // Adding a number to the text stored there is the host's to refuse.
    let call = contract_ffi::storage::add(&reference, &Value::Int32(1)).unwrap();
    assert_eq!(host.perform(call), Answer::TypeMismatch);
    assert_eq!(host.read_back(&reference), Ok(Some(Value::String(String::from("hi")))));
}

#[test]
fn write_overwrites_and_add_combines_numbers() {
    let mut host = Host::new();
    let key_bytes = match host.perform(new_turef(&Value::Int32(40)).unwrap()) {
        Answer::Minted(bytes) => bytes,
        other => panic!("unexpected answer {:?}", other),
    };
    let reference: TURef<Value> = get_new_turef(&key_bytes).unwrap();
    let call = contract_ffi::storage::add(&reference, &Value::Int32(2)).unwrap();
    assert_eq!(host.perform(call), Answer::Done);
    assert_eq!(host.read_back(&reference), Ok(Some(Value::Int32(42))));
    let replaced = Value::ByteArray(vec![1, 2]);
    let call = contract_ffi::storage::write(&reference, &replaced).unwrap();
    assert_eq!(host.perform(call), Answer::Done);
    assert_eq!(host.read_back(&reference), Ok(Some(replaced)));
    let unknown: TURef<Value> = TURef::new([0xEE; 32], AccessRights::READ);
    assert_eq!(host.read_back(&unknown), Ok(None));
}

#[test]
fn minted_key_must_be_a_reference() {
    let hash = Key::Hash([4; 32]).to_bytes();
    assert_eq!(get_new_turef::<Value>(&hash).err(), Some(Error::UnexpectedKeyVariant));
    let account = Key::Account([4; 32]).to_bytes();
    assert_eq!(get_new_turef::<Value>(&account).err(), Some(Error::UnexpectedKeyVariant));
    assert_eq!(
        get_new_turef::<Value>(&[2, 1, 2, 3]).err(),
        Some(Error::Deserialize(bytesrepr::Error::EarlyEndOfStream))
    );
    assert_eq!(
        get_new_turef::<Value>(&[9]).err(),
        Some(Error::Deserialize(bytesrepr::Error::FormattingError))
    );
    let mut long = uref_key_bytes([4; 32], AccessRights::READ);
    long.push(0);
    assert_eq!(
        get_new_turef::<Value>(&long).err(),
        Some(Error::Deserialize(bytesrepr::Error::FormattingError))
    );
    let minted: TURef<Value> =
        get_new_turef(&uref_key_bytes([4; 32], AccessRights::READ_ADD)).unwrap();
    assert_eq!(minted.addr(), [4u8; 32]);
    assert_eq!(minted.access_rights(), AccessRights::READ_ADD);
}

#[test]
fn hash_key_is_not_a_typed_reference() {
    assert_eq!(
        TURef::<Value>::from_key(Key::Hash([1; 32])).err(),
        Some(Error::UnexpectedKeyVariant)
    );
    assert_eq!(
        TURef::<Value>::from_key(Key::Account([1; 32])).err(),
        Some(Error::UnexpectedKeyVariant)
    );
    let uref = URef::new([1; 32], AccessRights::READ_WRITE);
    let typed = TURef::<Value>::from_key(Key::URef(uref)).unwrap();
    assert_eq!(typed.addr(), [1u8; 32]);
    assert_eq!(typed.access_rights(), AccessRights::READ_WRITE);
}

#[test]
fn typed_reference_converts_to_its_key() {
    let typed: TURef<Value> = TURef::new([3; 32], AccessRights::READ_ADD);
    let key = typed.to_key();
    assert_eq!(key, Key::URef(URef::new([3; 32], AccessRights::NONE)));
    assert_eq!(key.as_uref().unwrap().access_rights(), AccessRights::READ_ADD);
    assert_eq!(typed.to_uref().access_rights(), AccessRights::READ_ADD);
    let again: TURef<Value> = TURef::from_uref(typed.to_uref());
    assert_eq!(again.addr(), [3u8; 32]);
    let copy = typed;
    assert_eq!(copy.clone().addr(), typed.addr());
}

#[test]
fn store_function_hands_over_name_and_table() {
    let mut table = NamedKeys::new();
    table.insert(String::from("k"), Key::Hash([1; 32]));
    let mut keys = vec![1u8, 0, 0, 0, 1, 0, 0, 0, b'k', 1];
    keys.extend_from_slice(&[1u8; 32]);
    assert_eq!(
        store_function("pay", &table),
        Ok(HostCall::StoreFunction { name: vec![b'p', b'a', b'y'], named_keys: keys.clone() })
    );
    assert_eq!(
        store_function_at_hash("pay", &table),
        Ok(HostCall::StoreFunctionAtHash { name: vec![b'p', b'a', b'y'], named_keys: keys })
    );
}

#[test]
fn stored_function_is_discriminated_by_its_address_scheme() {
    match get_stored_function([6; 32]) {
        ContractRef::URef(uref) => {
            assert_eq!(uref.addr(), [6u8; 32]);
            assert_eq!(uref.access_rights(), AccessRights::READ_ADD_WRITE);
        }
        other => panic!("unexpected reference {:?}", other),
    }
    assert_eq!(get_stored_function_at_hash([6; 32]), ContractRef::Hash([6; 32]));
    assert_eq!(get_stored_function_at_hash([6; 32]).to_key(), Key::Hash([6; 32]));
    assert!(get_stored_function([6; 32]).to_key().is_uref());
    let mut host = Host::new();
    let addr = match host.perform(store_function("f", &NamedKeys::new()).unwrap()) {
        Answer::Stored(addr) => addr,
        other => panic!("unexpected answer {:?}", other),
    };
    assert_eq!(get_stored_function(addr).to_key().addr(), addr);
}

#[test]
fn every_reason_has_its_own_code() {
    let reasons = [
        Error::AccessDenied,
        Error::UnexpectedKeyVariant,
        Error::SerializationImpossible,
        Error::Deserialize(bytesrepr::Error::EarlyEndOfStream),
        Error::Deserialize(bytesrepr::Error::FormattingError),
        Error::User(0),
        Error::User(1),
        Error::User(u16::MAX),
    ];
    let codes: Vec<u32> = reasons.iter().map(|e| e.code()).collect();
    assert_eq!(codes, vec![1, 2, 3, 4, 5, 65536, 65537, 131071]);
}

/// A value whose lengths do not fit the wire format, without the
/// gigabytes that a real one would take.
struct Oversized;

impl ToBytes for Oversized {
    fn encodable(&self) -> bool {
        false
    }

    fn encoding(&self) -> vstd::seq::Seq<u8> {
        unreachable!()
    }

    fn is_encodable(&self) -> bool {
        false
    }

    fn to_bytes(&self) -> Vec<u8> {
        panic!("a value that cannot be encoded was encoded")
    }
}

#[test]
fn value_that_does_not_fit_cannot_be_serialized() {
    assert_eq!(read_local(&Oversized), Err(Error::SerializationImpossible));
    assert_eq!(write_local(&1u32, &Oversized), Err(Error::SerializationImpossible));
    assert_eq!(write_local(&Oversized, &1u32), Err(Error::SerializationImpossible));
    assert_eq!(new_turef(&Oversized), Err(Error::SerializationImpossible));
    let full: TURef<Oversized> = TURef::new([9; 32], AccessRights::READ_ADD_WRITE);
    assert_eq!(
        contract_ffi::storage::write(&full, &Oversized),
        Err(Error::SerializationImpossible)
    );
    assert_eq!(
        contract_ffi::storage::add(&full, &Oversized),
        Err(Error::SerializationImpossible)
    );
    // The capability is checked before the value is looked at.
    let read_only: TURef<Oversized> = TURef::new([9; 32], AccessRights::READ);
    assert_eq!(
        contract_ffi::storage::write(&read_only, &Oversized),
        Err(Error::AccessDenied)
    );
    assert_eq!(
        contract_ffi::storage::add(&read_only, &Oversized),
        Err(Error::AccessDenied)
    );
}
