//! The storage operations of a contract. Each operation checks the
//! capability it needs, encodes its arguments and names the one call that
//! the host has to perform; the answer of the host is decoded by the
//! matching `get_` function. The transport itself is not part of this
//! library.

use crate::bytesrepr::{self, deserialize, FromBytes, ToBytes};
use crate::contract_api::{ContractRef, Error, TURef};
use crate::key::{key_decoding, key_encoding, Key, KeyView};
use crate::named_keys::NamedKeys;
use crate::uref::{AccessRights, URef, URefView};
use crate::value::{lemma_value_round_trip_exact, Value, ValueView};
use vstd::prelude::*;
use vstd::slice::slice_to_vec;
use vstd::utf8::encode_utf8;

verus! {

/// A call that the host has to perform, with its arguments already
/// encoded.
#[derive(Clone, Debug, PartialEq, Eq)]
pub enum HostCall {
    /// Look up the value under `key` in the global state.
    ReadValue { key: Vec<u8> },
    /// Look up the value under `key` in the partition of the calling context.
    ReadValueLocal { key: Vec<u8> },
    /// Store `value` under `key`, whatever was there.
    Write { key: Vec<u8>, value: Vec<u8> },
    /// Store `value` under `key` in the partition of the calling context.
    WriteLocal { key: Vec<u8>, value: Vec<u8> },
    /// Combine `value` with what is stored under `key`.
    Add { key: Vec<u8>, value: Vec<u8> },
    /// Mint a reference and store `value` under it.
    NewURef { value: Vec<u8> },
    /// Store the exported function `name` under a reference minted by the
    /// host.
    StoreFunction { name: Vec<u8>, named_keys: Vec<u8> },
    /// Store the exported function `name` at an address derived from its
    /// content.
    StoreFunctionAtHash { name: Vec<u8>, named_keys: Vec<u8> },
}

/// A call to the host as contracts see it.
pub enum HostCallView {
    ReadValue { key: Seq<u8> },
    ReadValueLocal { key: Seq<u8> },
    Write { key: Seq<u8>, value: Seq<u8> },
    WriteLocal { key: Seq<u8>, value: Seq<u8> },
    Add { key: Seq<u8>, value: Seq<u8> },
    NewURef { value: Seq<u8> },
    StoreFunction { name: Seq<u8>, named_keys: Seq<u8> },
    StoreFunctionAtHash { name: Seq<u8>, named_keys: Seq<u8> },
}

impl View for HostCall {
    type V = HostCallView;

    open spec fn view(&self) -> HostCallView {
        match *self {
            HostCall::ReadValue { key } => HostCallView::ReadValue { key: key@ },
            HostCall::ReadValueLocal { key } => HostCallView::ReadValueLocal { key: key@ },
            HostCall::Write { key, value } => HostCallView::Write { key: key@, value: value@ },
            HostCall::WriteLocal { key, value } => HostCallView::WriteLocal {
                key: key@,
                value: value@,
            },
            HostCall::Add { key, value } => HostCallView::Add { key: key@, value: value@ },
            HostCall::NewURef { value } => HostCallView::NewURef { value: value@ },
            HostCall::StoreFunction { name, named_keys } => HostCallView::StoreFunction {
                name: name@,
                named_keys: named_keys@,
            },
            HostCall::StoreFunctionAtHash { name, named_keys } => {
                HostCallView::StoreFunctionAtHash { name: name@, named_keys: named_keys@ }
            },
        }
    }
}

/// Reading needs the read flag and nothing else.
pub open spec fn may_read(rights: AccessRights) -> bool {
    rights.readable()
}

/// Overwriting needs the write flag.
pub open spec fn may_write(rights: AccessRights) -> bool {
    rights.writeable()
}

/// Adding needs the add flag or the write flag.
pub open spec fn may_add(rights: AccessRights) -> bool {
    rights.addable() || rights.writeable()
}

/// The encoded key of a typed reference, as it is handed to the host.
pub open spec fn turef_key(turef: URefView) -> Seq<u8> {
    key_encoding(KeyView::URef(turef))
}

/// Asks for the value under `turef` in the global state. The reference
/// has to carry the read flag.
pub fn read<T>(turef: &TURef<T>) -> (r: Result<HostCall, Error>)
    ensures
        match r {
            Ok(call) => may_read(turef@.access_rights) && call@ == (HostCallView::ReadValue {
                key: turef_key(turef@),
            }),
            Err(e) => e == Error::AccessDenied && !may_read(turef@.access_rights),
        },
{
    if !turef.access_rights().is_readable() {
        return Err(Error::AccessDenied);
    }
    let key: Key = turef.to_key();
    Ok(HostCall::ReadValue { key: key.to_bytes() })
}

/// Asks for the value under `key` in the partition of the calling
/// context. No right is needed there; the key may be any value that can be
/// encoded.
pub fn read_local<K: ToBytes>(key: &K) -> (r: Result<HostCall, Error>)
    ensures
        match r {
            Ok(call) => key.encodable() && call@ == (HostCallView::ReadValueLocal {
                key: key.encoding(),
            }),
            Err(e) => e == Error::SerializationImpossible && !key.encodable(),
        },
{
    if !key.is_encodable() {
        return Err(Error::SerializationImpossible);
    }
    Ok(HostCall::ReadValueLocal { key: key.to_bytes() })
}

/// The length of the value that the host found, or `None` where the size
/// it reported is negative: nothing is stored under the key.
pub fn reported_size(reported_value_size: i64) -> (size: Option<u64>)
    ensures
        match size {
            Some(n) => reported_value_size >= 0 && n == reported_value_size,
            None => reported_value_size < 0,
        },
{
    if reported_value_size < 0 {
        None
    } else {
        Some(reported_value_size as u64)
    }
}

/// Decodes the answer to a read. A negative reported size means that
/// nothing is stored, which is no error. Otherwise `value_bytes`, the bytes
/// the host copied out, must decode as one `T` with nothing left over.
pub fn get_read<T: FromBytes>(reported_value_size: i64, value_bytes: &[u8]) -> (r: Result<
    Option<T>,
    bytesrepr::Error,
>)
    ensures
        reported_value_size < 0 ==> r == Ok::<Option<T>, bytesrepr::Error>(None),
        reported_value_size >= 0 ==> match T::decoding(value_bytes@) {
            Err(e) => r == Err::<Option<T>, bytesrepr::Error>(e),
            Ok((v, rest)) => if rest.len() == 0 {
                r matches Ok(Some(t)) && t@ == v
            } else {
                r == Err::<Option<T>, bytesrepr::Error>(bytesrepr::Error::FormattingError)
            },
        },
{
    match reported_size(reported_value_size) {
        None => Ok(None),
        Some(_) => match deserialize::<T>(value_bytes) {
            Err(e) => Err(e),
            Ok(value) => Ok(Some(value)),
        },
    }
}

/// Asks to store `value` under `turef`, whatever was stored there. The
/// reference has to carry the write flag.
pub fn write<T: ToBytes>(turef: &TURef<T>, value: &T) -> (r: Result<HostCall, Error>)
    ensures
        match r {
            Ok(call) => may_write(turef@.access_rights) && value.encodable() && call@ == (
            HostCallView::Write { key: turef_key(turef@), value: value.encoding() }),
            Err(e) => if !may_write(turef@.access_rights) {
                e == Error::AccessDenied
            } else {
                e == Error::SerializationImpossible && !value.encodable()
            },
        },
{
    if !turef.access_rights().is_writeable() {
        return Err(Error::AccessDenied);
    }
    if !value.is_encodable() {
        return Err(Error::SerializationImpossible);
    }
    let key: Key = turef.to_key();
    Ok(HostCall::Write { key: key.to_bytes(), value: value.to_bytes() })
}

/// Asks to store `value` under `key` in the partition of the calling
/// context.
pub fn write_local<K: ToBytes, V: ToBytes>(key: &K, value: &V) -> (r: Result<HostCall, Error>)
    ensures
        match r {
            Ok(call) => key.encodable() && value.encodable() && call@ == (
            HostCallView::WriteLocal { key: key.encoding(), value: value.encoding() }),
            Err(e) => e == Error::SerializationImpossible && !(key.encodable()
                && value.encodable()),
        },
{
    if !key.is_encodable() || !value.is_encodable() {
        return Err(Error::SerializationImpossible);
    }
    Ok(HostCall::WriteLocal { key: key.to_bytes(), value: value.to_bytes() })
}

/// Asks to combine `value` with what is stored under `turef`. The
/// reference has to carry the add flag or the write flag. How the two
/// values combine is the host's to decide.
pub fn add<T: ToBytes>(turef: &TURef<T>, value: &T) -> (r: Result<HostCall, Error>)
    ensures
        match r {
            Ok(call) => may_add(turef@.access_rights) && value.encodable() && call@ == (
            HostCallView::Add { key: turef_key(turef@), value: value.encoding() }),
            Err(e) => if !may_add(turef@.access_rights) {
                e == Error::AccessDenied
            } else {
                e == Error::SerializationImpossible && !value.encodable()
            },
        },
{
    let rights = turef.access_rights();
    if !rights.is_addable() && !rights.is_writeable() {
        return Err(Error::AccessDenied);
    }
    if !value.is_encodable() {
        return Err(Error::SerializationImpossible);
    }
    let key: Key = turef.to_key();
    Ok(HostCall::Add { key: key.to_bytes(), value: value.to_bytes() })
}

/// Asks to store the exported function `name`, with the table of named
/// keys it is to carry, under a reference that the host mints.
pub fn store_function(name: &str, named_keys: &NamedKeys) -> (r: Result<HostCall, Error>)
    ensures
        match r {
            Ok(call) => named_keys.encodable() && call@ == (HostCallView::StoreFunction {
                name: encode_utf8(name@),
                named_keys: named_keys.encoding(),
            }),
            Err(e) => e == Error::SerializationImpossible && !named_keys.encodable(),
        },
{
    if !named_keys.is_encodable() {
        return Err(Error::SerializationImpossible);
    }
    Ok(
        HostCall::StoreFunction {
            name: slice_to_vec(name.as_bytes()),
            named_keys: named_keys.to_bytes(),
        },
    )
}

/// The reference to a contract that the host stored at `addr` under a
/// reference it minted: it carries every right.
pub fn get_stored_function(addr: [u8; 32]) -> (contract: ContractRef)
    ensures
        contract@ == KeyView::URef(
            URefView { addr: addr@, access_rights: AccessRights::READ_ADD_WRITE },
        ),
{
    ContractRef::URef(URef::new(addr, AccessRights::READ_ADD_WRITE))
}

/// Asks to store the exported function `name`, with the table of named
/// keys it is to carry, at an immutable address derived from its content.
pub fn store_function_at_hash(name: &str, named_keys: &NamedKeys) -> (r: Result<HostCall, Error>)
    ensures
        match r {
            Ok(call) => named_keys.encodable() && call@ == (HostCallView::StoreFunctionAtHash {
                name: encode_utf8(name@),
                named_keys: named_keys.encoding(),
            }),
            Err(e) => e == Error::SerializationImpossible && !named_keys.encodable(),
        },
{
    if !named_keys.is_encodable() {
        return Err(Error::SerializationImpossible);
    }
    Ok(
        HostCall::StoreFunctionAtHash {
            name: slice_to_vec(name.as_bytes()),
            named_keys: named_keys.to_bytes(),
        },
    )
}

/// The reference to a contract that the host stored at the content hash
/// `addr`.
pub fn get_stored_function_at_hash(addr: [u8; 32]) -> (contract: ContractRef)
    ensures
        contract@ == KeyView::Hash(addr@),
{
    ContractRef::Hash(addr)
}

/// Asks the host to mint a reference and to store `init` under it.
pub fn new_turef<T: ToBytes>(init: &T) -> (r: Result<HostCall, Error>)
    ensures
        match r {
            Ok(call) => init.encodable() && call@ == (HostCallView::NewURef {
                value: init.encoding(),
            }),
            Err(e) => e == Error::SerializationImpossible && !init.encodable(),
        },
{
    if !init.is_encodable() {
        return Err(Error::SerializationImpossible);
    }
    Ok(HostCall::NewURef { value: init.to_bytes() })
}

/// What the key that the host minted decodes to as a typed reference.
pub open spec fn minted_turef(key_bytes: Seq<u8>) -> Result<URefView, Error> {
    match key_decoding(key_bytes) {
        Err(e) => Err(Error::Deserialize(e)),
        Ok((key, rest)) => if rest.len() != 0 {
            Err(Error::Deserialize(bytesrepr::Error::FormattingError))
        } else {
            match key {
                KeyView::URef(uref) => Ok(uref),
                _ => Err(Error::UnexpectedKeyVariant),
            }
        },
    }
}

/// Decodes the key that the host minted for `new_turef`. It must decode as
/// one key with nothing left over, and that key must be a reference; the
/// typed reference carries the rights that the host gave it.
pub fn get_new_turef<T>(key_bytes: &[u8]) -> (r: Result<TURef<T>, Error>)
    ensures
        match r {
            Ok(turef) => minted_turef(key_bytes@) == Ok::<URefView, Error>(turef@),
            Err(e) => minted_turef(key_bytes@) == Err::<URefView, Error>(e),
        },
{
    match deserialize::<Key>(key_bytes) {
        Err(e) => Err(Error::Deserialize(e)),
        Ok(key) => TURef::from_key(key),
    }
}

/// Access enforcement. A reference that carries the read flag alone can
/// neither be written nor added to; the write flag alone does not set the
/// add flag, though it lets the holder add; and reading is open to every
/// reference that carries the read flag, whatever else it carries.
pub proof fn lemma_access_enforcement(rights: AccessRights)
    ensures
        !may_write(AccessRights::READ),
        !may_add(AccessRights::READ),
        may_read(AccessRights::READ),
        !AccessRights::WRITE.addable(),
        !AccessRights::READ_WRITE.addable(),
        rights.writeable() ==> may_write(rights) && may_add(rights),
        rights.addable() ==> may_add(rights),
        rights.readable() ==> may_read(rights),
        !rights.readable() ==> !may_read(rights),
        !rights.writeable() ==> !may_write(rights),
        !rights.addable() && !rights.writeable() ==> !may_add(rights),
{
}

/// What is written is what is read back: the bytes that `write`, `add` or
/// `new_turef` hand to the host for a value decode, when the host hands
/// them back unchanged, to that value with nothing left over.
pub proof fn lemma_stored_value_reads_back(v: Value)
    requires
        v.encodable(),
    ensures
        Value::decoding(v.encoding()) == Ok::<(ValueView, Seq<u8>), bytesrepr::Error>(
            (v@, Seq::<u8>::empty()),
        ),
{
    lemma_value_round_trip_exact(v@);
}

} // verus!
