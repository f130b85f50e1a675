//! What a contract holds and receives at the boundary to its host: typed
//! references, references to stored contracts, and the reasons for which an
//! operation is refused.

use crate::bytesrepr;
use crate::key::{Key, KeyView};
use crate::uref::{AccessRights, URef, URefView};
use std::marker::PhantomData;
use vstd::prelude::*;

verus! {

/// Why a storage operation was refused. The contract cannot go on after
/// any of these: its caller reports the reason to the host and stops.
#[derive(Clone, Copy, Debug, PartialEq, Eq, Structural)]
pub enum Error {
    /// The reference does not carry the right that the operation needs.
    AccessDenied,
    /// A key that had to be a reference is of another variant.
    UnexpectedKeyVariant,
    /// A length inside the value does not fit the wire format.
    SerializationImpossible,
    /// What the host handed back could not be decoded.
    Deserialize(bytesrepr::Error),
    /// A reason of the contract's own, told apart by its number.
    User(u16),
}

impl Error {
    /// The number under which the host learns of the reason. The reasons
    /// of the library come first; those of a contract lie above 65535.
    pub open spec fn spec_code(self) -> u32 {
        match self {
            Error::AccessDenied => 1,
            Error::UnexpectedKeyVariant => 2,
            Error::SerializationImpossible => 3,
            Error::Deserialize(bytesrepr::Error::EarlyEndOfStream) => 4,
            Error::Deserialize(bytesrepr::Error::FormattingError) => 5,
            Error::User(n) => (65536 + n) as u32,
        }
    }

    /// The number under which the host learns of the reason.
    pub fn code(self) -> (code: u32)
        ensures
            code == self.spec_code(),
    {
        match self {
            Error::AccessDenied => 1,
            Error::UnexpectedKeyVariant => 2,
            Error::SerializationImpossible => 3,
            Error::Deserialize(bytesrepr::Error::EarlyEndOfStream) => 4,
            Error::Deserialize(bytesrepr::Error::FormattingError) => 5,
            Error::User(n) => 65536u32 + n as u32,
        }
    }

    /// Different reasons are reported under different numbers.
    pub proof fn lemma_code_injective(a: Error, b: Error)
        requires
            a.spec_code() == b.spec_code(),
        ensures
            a == b,
    {
    }
}

/// A reference that is bound, in its type, to the type of the value stored
/// under it.
#[derive(Debug)]
pub struct TURef<T> {
    addr: [u8; 32],
    access_rights: AccessRights,
    _marker: PhantomData<T>,
}

impl<T> View for TURef<T> {
    type V = URefView;

    closed spec fn view(&self) -> URefView {
        URefView { addr: self.addr@, access_rights: self.access_rights }
    }
}

impl<T> Clone for TURef<T> {
    fn clone(&self) -> (copy: TURef<T>)
        ensures
            copy@ == self@,
    {
        TURef { addr: self.addr, access_rights: self.access_rights, _marker: PhantomData }
    }
}

impl<T> Copy for TURef<T> {

}

impl<T> TURef<T> {
    /// The typed reference to `addr` that carries `access_rights`.
    pub fn new(addr: [u8; 32], access_rights: AccessRights) -> (turef: TURef<T>)
        ensures
            turef@ == (URefView { addr: addr@, access_rights }),
    {
        TURef { addr, access_rights, _marker: PhantomData }
    }

    /// The typed reference with the address and the rights of `uref`.
    pub fn from_uref(uref: URef) -> (turef: TURef<T>)
        ensures
            turef@ == uref@,
    {
        TURef { addr: uref.addr(), access_rights: uref.access_rights(), _marker: PhantomData }
    }

    /// The bare address.
    pub fn addr(&self) -> (addr: [u8; 32])
        ensures
            addr@ == self@.addr,
    {
        self.addr
    }

    /// The rights this reference carries.
    pub fn access_rights(&self) -> (rights: AccessRights)
        ensures
            rights == self@.access_rights,
    {
        self.access_rights
    }

    /// The untyped reference with the same address and rights.
    pub fn to_uref(&self) -> (uref: URef)
        ensures
            uref@ == self@,
    {
        URef::new(self.addr, self.access_rights)
    }

    /// The key of the reference: the type is forgotten, the address and the
    /// rights stay.
    pub fn to_key(&self) -> (key: Key)
        ensures
            key@ == KeyView::URef(self@),
    {
        Key::URef(self.to_uref())
    }

    /// The typed reference that `key` is, if `key` is a reference at all: a
    /// key of another variant is refused as an unexpected key variant.
    pub fn from_key(key: Key) -> (r: Result<TURef<T>, Error>)
        ensures
            match r {
                Ok(turef) => key@ == KeyView::URef(turef@),
                Err(e) => e == Error::UnexpectedKeyVariant && !(key@ is URef),
            },
    {
        match key {
            Key::URef(uref) => Ok(TURef::from_uref(uref)),
            _ => Err(Error::UnexpectedKeyVariant),
        }
    }
}

/// Where a stored contract lives: at an immutable address derived from its
/// content, or under a reference minted by the host.
#[derive(Clone, Copy, Debug, PartialEq, Eq)]
pub enum ContractRef {
    Hash([u8; 32]),
    URef(URef),
}

impl View for ContractRef {
    type V = KeyView;

    /// The key under which the contract is stored.
    open spec fn view(&self) -> KeyView {
        match *self {
            ContractRef::Hash(addr) => KeyView::Hash(addr@),
            ContractRef::URef(uref) => KeyView::URef(uref@),
        }
    }
}

impl ContractRef {
    /// The key under which the contract is stored.
    pub fn to_key(&self) -> (key: Key)
        ensures
            key@ == self@,
    {
        match self {
            ContractRef::Hash(addr) => Key::Hash(*addr),
            ContractRef::URef(uref) => Key::URef(*uref),
        }
    }
}

} // verus!
