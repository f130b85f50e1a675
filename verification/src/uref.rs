//! Unforgeable references: a 32-byte address together with the rights its
//! holder may exercise on the value stored there.

use crate::bytesrepr::{fixed32_decoding, Error, FromBytes, ToBytes};
use crate::order::{bytes_relation, compare_bytes};
use std::cmp::Ordering;
use vstd::prelude::*;

verus! {

/// Length in bytes of the address of a reference, the rights flag not
/// counted.
pub const UREF_SIZE: usize = 32;

/// Length in bytes of an encoded reference: the address, then the rights
/// flag.
pub const UREF_SERIALIZED_LENGTH: usize = 33;

/// The rights a reference carries, as flags over read (1), write (2) and
/// add (4).
#[allow(non_camel_case_types)]
#[derive(Clone, Copy, Debug, PartialEq, Eq, Hash, Structural)]
pub enum AccessRights {
    NONE,
    READ,
    WRITE,
    READ_WRITE,
    ADD,
    READ_ADD,
    ADD_WRITE,
    READ_ADD_WRITE,
}

impl AccessRights {
    /// The flags as a number: read is 1, write is 2, add is 4.
    pub open spec fn spec_bits(self) -> u8 {
        match self {
            AccessRights::NONE => 0,
            AccessRights::READ => 1,
            AccessRights::WRITE => 2,
            AccessRights::READ_WRITE => 3,
            AccessRights::ADD => 4,
            AccessRights::READ_ADD => 5,
            AccessRights::ADD_WRITE => 6,
            AccessRights::READ_ADD_WRITE => 7,
        }
    }

    /// The rights whose flags are `bits`, if `bits` sets no other flag.
    pub open spec fn spec_from_bits(bits: u8) -> Option<AccessRights> {
        if bits == 0 {
            Some(AccessRights::NONE)
        } else if bits == 1 {
            Some(AccessRights::READ)
        } else if bits == 2 {
            Some(AccessRights::WRITE)
        } else if bits == 3 {
            Some(AccessRights::READ_WRITE)
        } else if bits == 4 {
            Some(AccessRights::ADD)
        } else if bits == 5 {
            Some(AccessRights::READ_ADD)
        } else if bits == 6 {
            Some(AccessRights::ADD_WRITE)
        } else if bits == 7 {
            Some(AccessRights::READ_ADD_WRITE)
        } else {
            None
        }
    }

    /// Whether the read flag is set.
    pub open spec fn readable(self) -> bool {
        self.spec_bits() % 2 == 1
    }

    /// Whether the write flag is set.
    pub open spec fn writeable(self) -> bool {
        (self.spec_bits() / 2) % 2 == 1
    }

    /// Whether the add flag is set.
    pub open spec fn addable(self) -> bool {
        (self.spec_bits() / 4) % 2 == 1
    }

    /// The flags as a number.
    pub fn bits(self) -> (bits: u8)
        ensures
            bits == self.spec_bits(),
    {
        match self {
            AccessRights::NONE => 0,
            AccessRights::READ => 1,
            AccessRights::WRITE => 2,
            AccessRights::READ_WRITE => 3,
            AccessRights::ADD => 4,
            AccessRights::READ_ADD => 5,
            AccessRights::ADD_WRITE => 6,
            AccessRights::READ_ADD_WRITE => 7,
        }
    }

    /// The rights whose flags are `bits`; `None` if `bits` sets a flag that
    /// is none of read, write and add.
    pub fn from_bits(bits: u8) -> (rights: Option<AccessRights>)
        ensures
            rights == AccessRights::spec_from_bits(bits),
            rights is Some <==> bits <= 7,
            rights matches Some(r) ==> r.spec_bits() == bits,
    {
        if bits == 0 {
            Some(AccessRights::NONE)
        } else if bits == 1 {
            Some(AccessRights::READ)
        } else if bits == 2 {
            Some(AccessRights::WRITE)
        } else if bits == 3 {
            Some(AccessRights::READ_WRITE)
        } else if bits == 4 {
            Some(AccessRights::ADD)
        } else if bits == 5 {
            Some(AccessRights::READ_ADD)
        } else if bits == 6 {
            Some(AccessRights::ADD_WRITE)
        } else if bits == 7 {
            Some(AccessRights::READ_ADD_WRITE)
        } else {
            None
        }
    }

    /// Whether the read flag is set.
    pub fn is_readable(self) -> (yes: bool)
        ensures
            yes == self.readable(),
    {
        self.bits() % 2 == 1
    }

    /// Whether the write flag is set.
    pub fn is_writeable(self) -> (yes: bool)
        ensures
            yes == self.writeable(),
    {
        (self.bits() / 2) % 2 == 1
    }

    /// Whether the add flag is set.
    pub fn is_addable(self) -> (yes: bool)
        ensures
            yes == self.addable(),
    {
        (self.bits() / 4) % 2 == 1
    }
}

/// The flags of any rights convert back to those rights.
pub proof fn lemma_access_rights_bits_round_trip(rights: AccessRights)
    ensures
        AccessRights::spec_from_bits(rights.spec_bits()) == Some(rights),
        rights.spec_bits() <= 7,
{
}

/// A reference as contracts see it.
pub struct URefView {
    pub addr: Seq<u8>,
    pub access_rights: AccessRights,
}

/// A reference into global state: holding one is holding the capability.
#[derive(Clone, Copy, Debug)]
pub struct URef {
    addr: [u8; 32],
    access_rights: AccessRights,
}

impl View for URef {
    type V = URefView;

    closed spec fn view(&self) -> URefView {
        URefView { addr: self.addr@, access_rights: self.access_rights }
    }
}

/// Whether two addresses hold the same bytes.
pub fn same_address(a: &[u8; 32], b: &[u8; 32]) -> (same: bool)
    ensures
        same == (a@ == b@),
{
    let mut i: usize = 0;
    while i < 32
        invariant
            i <= 32,
            forall|j: int| 0 <= j < i ==> a@[j] == b@[j],
        decreases 32 - i,
    {
        if a[i] != b[i] {
            return false;
        }
        i = i + 1;
    }
    assert(a@ =~= b@);
    true
}

impl URef {
    /// The reference to `addr` that carries `access_rights`.
    pub fn new(addr: [u8; 32], access_rights: AccessRights) -> (uref: URef)
        ensures
            uref@.addr == addr@,
            uref@.access_rights == access_rights,
    {
        URef { addr, access_rights }
    }

    /// The bare address, without the rights.
    pub fn addr(&self) -> (addr: [u8; 32])
        ensures
            addr@ == self@.addr,
    {
        self.addr
    }

    /// The rights this reference carries.
    pub fn access_rights(&self) -> (rights: AccessRights)
        ensures
            rights == self@.access_rights,
    {
        self.access_rights
    }

    /// The reference to the same address that carries `access_rights`
    /// instead.
    pub fn with_access_rights(&self, access_rights: AccessRights) -> (uref: URef)
        ensures
            uref@.addr == self@.addr,
            uref@.access_rights == access_rights,
    {
        URef { addr: self.addr, access_rights }
    }

    /// Whether the holder may read through this reference.
    pub fn is_readable(&self) -> (yes: bool)
        ensures
            yes == self@.access_rights.readable(),
    {
        self.access_rights.is_readable()
    }

    /// Whether the holder may overwrite through this reference.
    pub fn is_writeable(&self) -> (yes: bool)
        ensures
            yes == self@.access_rights.writeable(),
    {
        self.access_rights.is_writeable()
    }

    /// Whether this reference carries the add flag.
    pub fn is_addable(&self) -> (yes: bool)
        ensures
            yes == self@.access_rights.addable(),
    {
        self.access_rights.is_addable()
    }

    /// The address of every reference has 32 bytes.
    pub proof fn lemma_addr_len(&self)
        ensures
            self@.addr.len() == 32,
    {
    }
}

/// Two references are the same reference when they name the same address:
/// the rights they carry take no part in their identity.
impl PartialEq for URef {
    fn eq(&self, other: &URef) -> (same: bool) {
        same_address(&self.addr, &other.addr)
    }
}

impl Eq for URef {

}

impl vstd::std_specs::cmp::PartialEqSpecImpl for URef {
    open spec fn obeys_eq_spec() -> bool {
        true
    }

    open spec fn eq_spec(&self, other: &URef) -> bool {
        self@.addr == other@.addr
    }
}

/// References are ordered by their addresses, byte by byte; the rights
/// they carry take no part in the order either.
impl PartialOrd for URef {
    fn partial_cmp(&self, other: &URef) -> (r: Option<Ordering>) {
        Some(compare_bytes(self.addr.as_slice(), other.addr.as_slice()).to_ordering())
    }
}

impl vstd::std_specs::cmp::PartialOrdSpecImpl for URef {
    open spec fn obeys_partial_cmp_spec() -> bool {
        true
    }

    open spec fn partial_cmp_spec(&self, other: &URef) -> Option<Ordering> {
        Some(bytes_relation(self@.addr, other@.addr).ordering())
    }
}

/// The wire image of a reference: its 32 address bytes, then its rights
/// flags in one byte.
pub open spec fn uref_encoding(u: URefView) -> Seq<u8> {
    u.addr + seq![u.access_rights.spec_bits()]
}

/// What the front of `bytes` decodes to as a reference.
pub open spec fn uref_decoding(bytes: Seq<u8>) -> Result<(URefView, Seq<u8>), Error> {
    match fixed32_decoding(bytes) {
        Err(e) => Err(e),
        Ok((addr, rest)) => if rest.len() < 1 {
            Err(Error::EarlyEndOfStream)
        } else {
            match AccessRights::spec_from_bits(rest[0]) {
                None => Err(Error::FormattingError),
                Some(access_rights) => Ok((URefView { addr, access_rights }, rest.skip(1))),
            }
        },
    }
}

impl ToBytes for URef {
    open spec fn encodable(&self) -> bool {
        true
    }

    open spec fn encoding(&self) -> Seq<u8> {
        uref_encoding(self@)
    }

    fn is_encodable(&self) -> (ok: bool) {
        true
    }

    fn to_bytes(&self) -> (bytes: Vec<u8>)
        ensures
            bytes@ == uref_encoding(self@),
    {
        let mut bytes = self.addr.to_bytes();
        bytes.push(self.access_rights.bits());
        bytes
    }
}

impl FromBytes for URef {
    open spec fn decoding(bytes: Seq<u8>) -> Result<(URefView, Seq<u8>), Error> {
        uref_decoding(bytes)
    }

    fn from_bytes(bytes: &[u8]) -> (r: Result<(URef, &[u8]), Error>) {
        match <[u8; 32]>::from_bytes(bytes) {
            Err(e) => Err(e),
            Ok((addr, after_addr)) => match u8::from_bytes(after_addr) {
                Err(e) => Err(e),
                Ok((flags, rest)) => match AccessRights::from_bits(flags) {
                    None => Err(Error::FormattingError),
                    Some(access_rights) => Ok((URef { addr, access_rights }, rest)),
                },
            },
        }
    }
}

/// Decoding what reference encoding wrote gives the reference back, rights
/// included, and leaves exactly what followed it.
pub proof fn lemma_uref_round_trip(u: URefView, rest: Seq<u8>)
    requires
        u.addr.len() == 32,
    ensures
        uref_decoding(uref_encoding(u) + rest) == Ok::<(URefView, Seq<u8>), Error>((u, rest)),
        uref_encoding(u).len() == 33,
{
    let b = uref_encoding(u) + rest;
    lemma_access_rights_bits_round_trip(u.access_rights);
    assert(b.take(32) =~= u.addr);
    assert(b.skip(32) =~= seq![u.access_rights.spec_bits()] + rest);
    assert(b.skip(32).skip(1) =~= rest);
}

} // verus!
