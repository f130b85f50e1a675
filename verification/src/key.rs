//! The key space of global state: accounts, content-addressed hashes and
//! unforgeable references.

use crate::bytesrepr::{fixed32_decoding, Error, FromBytes, ToBytes};
use crate::order::{bytes_relation, compare_bytes};
use std::cmp::Ordering;
use crate::uref::{
    lemma_uref_round_trip, same_address, uref_decoding, uref_encoding, URef, URefView,
};
use vstd::prelude::*;

verus! {

/// Tag byte of an account key.
pub const ACCOUNT_ID: u8 = 0;

/// Tag byte of a hash key.
pub const HASH_ID: u8 = 1;

/// Tag byte of a reference key.
pub const UREF_ID: u8 = 2;

/// Length in bytes of an encoded reference key: the tag, the address and
/// the rights flag.
pub const KEY_UREF_SERIALIZED_LENGTH: usize = 34;

/// A key as contracts see it.
pub enum KeyView {
    Account(Seq<u8>),
    Hash(Seq<u8>),
    URef(URefView),
}

impl KeyView {
    /// The address the key names.
    pub open spec fn addr(self) -> Seq<u8> {
        match self {
            KeyView::Account(addr) => addr,
            KeyView::Hash(addr) => addr,
            KeyView::URef(uref) => uref.addr,
        }
    }

    /// The tag byte of the variant.
    pub open spec fn tag(self) -> u8 {
        match self {
            KeyView::Account(_) => ACCOUNT_ID,
            KeyView::Hash(_) => HASH_ID,
            KeyView::URef(_) => UREF_ID,
        }
    }

    /// Whether the address has the 32 bytes every key of the key space has.
    pub open spec fn wf(self) -> bool {
        self.addr().len() == 32
    }
}

/// An address into global state.
#[derive(Clone, Copy, Debug)]
pub enum Key {
    /// The account with this public key.
    Account([u8; 32]),
    /// The immutable entry stored under this content hash.
    Hash([u8; 32]),
    /// The entry this reference points at.
    URef(URef),
}

impl View for Key {
    type V = KeyView;

    open spec fn view(&self) -> KeyView {
        match *self {
            Key::Account(addr) => KeyView::Account(addr@),
            Key::Hash(addr) => KeyView::Hash(addr@),
            Key::URef(uref) => KeyView::URef(uref@),
        }
    }
}

impl Key {
    /// The name of the variant, for messages.
    pub open spec fn spec_type_string(self) -> Seq<char> {
        match self {
            Key::Account(_) => "Key::Account"@,
            Key::Hash(_) => "Key::Hash"@,
            Key::URef(_) => "Key::URef"@,
        }
    }

    /// The name of the variant, for messages.
    pub fn type_string(&self) -> (name: String)
        ensures
            name@ == self.spec_type_string(),
    {
        match self {
            Key::Account(_) => "Key::Account".to_owned(),
            Key::Hash(_) => "Key::Hash".to_owned(),
            Key::URef(_) => "Key::URef".to_owned(),
        }
    }

    /// The tag byte of the variant.
    pub fn tag(&self) -> (tag: u8)
        ensures
            tag == self@.tag(),
    {
        match self {
            Key::Account(_) => ACCOUNT_ID,
            Key::Hash(_) => HASH_ID,
            Key::URef(_) => UREF_ID,
        }
    }

    /// Whether the key names an account.
    pub fn is_account(&self) -> (yes: bool)
        ensures
            yes == (self@ is Account),
    {
        match self {
            Key::Account(_) => true,
            _ => false,
        }
    }

    /// Whether the key names a content hash.
    pub fn is_hash(&self) -> (yes: bool)
        ensures
            yes == (self@ is Hash),
    {
        match self {
            Key::Hash(_) => true,
            _ => false,
        }
    }

    /// Whether the key is a reference.
    pub fn is_uref(&self) -> (yes: bool)
        ensures
            yes == (self@ is URef),
    {
        match self {
            Key::URef(_) => true,
            _ => false,
        }
    }

    /// The reference inside the key, if the key is one.
    pub fn as_uref(&self) -> (uref: Option<&URef>)
        ensures
            match uref {
                Some(u) => self@ == KeyView::URef(u@),
                None => !(self@ is URef),
            },
    {
        match self {
            Key::URef(uref) => Some(uref),
            _ => None,
        }
    }

    /// The bare address of the key, whatever its variant.
    pub fn addr(&self) -> (addr: [u8; 32])
        ensures
            addr@ == self@.addr(),
    {
        match self {
            Key::Account(addr) => *addr,
            Key::Hash(addr) => *addr,
            Key::URef(uref) => uref.addr(),
        }
    }

    /// The address of every key has 32 bytes.
    pub proof fn lemma_wf(&self)
        ensures
            self@.wf(),
    {
        match *self {
            Key::URef(uref) => {
                uref.lemma_addr_len();
            },
            _ => {},
        }
    }
}

/// Two keys are the same key when they are of the same variant and name the
/// same address: the rights that a reference carries take no part.
impl PartialEq for Key {
    fn eq(&self, other: &Key) -> (same: bool) {
        match (self, other) {
            (Key::Account(a), Key::Account(b)) => same_address(a, b),
            (Key::Hash(a), Key::Hash(b)) => same_address(a, b),
            (Key::URef(a), Key::URef(b)) => same_address(&a.addr(), &b.addr()),
            _ => false,
        }
    }
}

impl Eq for Key {

}

impl vstd::std_specs::cmp::PartialEqSpecImpl for Key {
    open spec fn obeys_eq_spec() -> bool {
        true
    }

    open spec fn eq_spec(&self, other: &Key) -> bool {
        self@.tag() == other@.tag() && self@.addr() == other@.addr()
    }
}

/// Keys are ordered by their variant first, accounts before hashes before
/// references, and by their addresses within a variant; the rights that a
/// reference carries take no part.
impl PartialOrd for Key {
    fn partial_cmp(&self, other: &Key) -> (r: Option<Ordering>) {
        let mine = self.tag();
        let theirs = other.tag();
        if mine < theirs {
            Some(Ordering::Less)
        } else if mine > theirs {
            Some(Ordering::Greater)
        } else {
            let a = self.addr();
            let b = other.addr();
            Some(compare_bytes(a.as_slice(), b.as_slice()).to_ordering())
        }
    }
}

impl vstd::std_specs::cmp::PartialOrdSpecImpl for Key {
    open spec fn obeys_partial_cmp_spec() -> bool {
        true
    }

    open spec fn partial_cmp_spec(&self, other: &Key) -> Option<Ordering> {
        if self@.tag() < other@.tag() {
            Some(Ordering::Less)
        } else if self@.tag() > other@.tag() {
            Some(Ordering::Greater)
        } else {
            Some(bytes_relation(self@.addr(), other@.addr()).ordering())
        }
    }
}

/// The wire image of a key: one tag byte, the 32 address bytes and, for a
/// reference, its rights flags in one more byte.
pub open spec fn key_encoding(k: KeyView) -> Seq<u8> {
    match k {
        KeyView::Account(addr) => seq![ACCOUNT_ID] + addr,
        KeyView::Hash(addr) => seq![HASH_ID] + addr,
        KeyView::URef(uref) => seq![UREF_ID] + uref_encoding(uref),
    }
}

/// What the front of `bytes` decodes to as a key. A tag other than those
/// of the three variants is a formatting error.
pub open spec fn key_decoding(bytes: Seq<u8>) -> Result<(KeyView, Seq<u8>), Error> {
    if bytes.len() < 1 {
        Err(Error::EarlyEndOfStream)
    } else if bytes[0] == ACCOUNT_ID {
        match fixed32_decoding(bytes.skip(1)) {
            Err(e) => Err(e),
            Ok((addr, rest)) => Ok((KeyView::Account(addr), rest)),
        }
    } else if bytes[0] == HASH_ID {
        match fixed32_decoding(bytes.skip(1)) {
            Err(e) => Err(e),
            Ok((addr, rest)) => Ok((KeyView::Hash(addr), rest)),
        }
    } else if bytes[0] == UREF_ID {
        match uref_decoding(bytes.skip(1)) {
            Err(e) => Err(e),
            Ok((uref, rest)) => Ok((KeyView::URef(uref), rest)),
        }
    } else {
        Err(Error::FormattingError)
    }
}

impl ToBytes for Key {
    open spec fn encodable(&self) -> bool {
        true
    }

    open spec fn encoding(&self) -> Seq<u8> {
        key_encoding(self@)
    }

    fn is_encodable(&self) -> (ok: bool) {
        true
    }

    fn to_bytes(&self) -> (bytes: Vec<u8>)
        ensures
            bytes@ == key_encoding(self@),
    {
        let mut bytes: Vec<u8> = Vec::with_capacity(KEY_UREF_SERIALIZED_LENGTH);
        match self {
            Key::Account(addr) => {
                bytes.push(ACCOUNT_ID);
                let mut payload = addr.to_bytes();
                bytes.append(&mut payload);
            },
            Key::Hash(addr) => {
                bytes.push(HASH_ID);
                let mut payload = addr.to_bytes();
                bytes.append(&mut payload);
            },
            Key::URef(uref) => {
                bytes.push(UREF_ID);
                let mut payload = uref.to_bytes();
                bytes.append(&mut payload);
            },
        }
        assert(bytes@ =~= key_encoding(self@));
        bytes
    }
}

impl FromBytes for Key {
    open spec fn decoding(bytes: Seq<u8>) -> Result<(KeyView, Seq<u8>), Error> {
        key_decoding(bytes)
    }

    fn from_bytes(bytes: &[u8]) -> (r: Result<(Key, &[u8]), Error>) {
        match u8::from_bytes(bytes) {
            Err(e) => Err(e),
            Ok((id, rest)) => {
                if id == ACCOUNT_ID {
                    match <[u8; 32]>::from_bytes(rest) {
                        Err(e) => Err(e),
                        Ok((addr, rem)) => Ok((Key::Account(addr), rem)),
                    }
                } else if id == HASH_ID {
                    match <[u8; 32]>::from_bytes(rest) {
                        Err(e) => Err(e),
                        Ok((addr, rem)) => Ok((Key::Hash(addr), rem)),
                    }
                } else if id == UREF_ID {
                    match URef::from_bytes(rest) {
                        Err(e) => Err(e),
                        Ok((uref, rem)) => Ok((Key::URef(uref), rem)),
                    }
                } else {
                    Err(Error::FormattingError)
                }
            },
        }
    }
}

/// Decoding what key encoding wrote gives the key back, rights included,
/// and leaves exactly what followed it.
pub proof fn lemma_key_round_trip(k: KeyView, rest: Seq<u8>)
    requires
        k.wf(),
    ensures
        key_decoding(key_encoding(k) + rest) == Ok::<(KeyView, Seq<u8>), Error>((k, rest)),
{
    let b = key_encoding(k) + rest;
    match k {
        KeyView::Account(addr) => {
            assert(b.skip(1) =~= addr + rest);
            assert((addr + rest).take(32) =~= addr);
            assert((addr + rest).skip(32) =~= rest);
        },
        KeyView::Hash(addr) => {
            assert(b.skip(1) =~= addr + rest);
            assert((addr + rest).take(32) =~= addr);
            assert((addr + rest).skip(32) =~= rest);
        },
        KeyView::URef(uref) => {
            assert(b.skip(1) =~= uref_encoding(uref) + rest);
            lemma_uref_round_trip(uref, rest);
        },
    }
}

/// A buffer that opens with a byte that is the tag of no key variant is
/// rejected as badly formatted.
pub proof fn lemma_key_unknown_tag(bytes: Seq<u8>)
    requires
        bytes.len() >= 1,
        bytes[0] > UREF_ID,
    ensures
        key_decoding(bytes) == Err::<(KeyView, Seq<u8>), Error>(Error::FormattingError),
{
}

} // verus!
