//! The account entity: a public key, a nonce and the account's own table
//! of named keys. It is pure data; no operation here checks a capability.

use crate::bytesrepr::{
    fixed32_decoding, lemma_u64_round_trip, u64_decoding, u64_le, Error, FromBytes, ToBytes,
};
use crate::key::KeyView;
use crate::named_keys::{
    lemma_named_keys_round_trip, named_keys_decoding, named_keys_encodable, named_keys_encoding,
    NamedKeys,
};
use vstd::prelude::*;

verus! {

/// An account as contracts see it.
pub struct AccountView {
    pub public_key: Seq<u8>,
    pub nonce: u64,
    pub known_urefs: Map<Seq<char>, KeyView>,
}

/// An account of the global state.
#[derive(Clone, Debug, PartialEq, Eq)]
pub struct Account {
    public_key: [u8; 32],
    nonce: u64,
    known_urefs: NamedKeys,
}

impl View for Account {
    type V = AccountView;

    closed spec fn view(&self) -> AccountView {
        AccountView {
            public_key: self.public_key@,
            nonce: self.nonce,
            known_urefs: self.known_urefs@,
        }
    }
}

impl Account {
    /// The account with this public key, nonce and table of named keys.
    pub fn new(public_key: [u8; 32], nonce: u64, known_urefs: NamedKeys) -> (account: Account)
        ensures
            account@ == (AccountView {
                public_key: public_key@,
                nonce,
                known_urefs: known_urefs@,
            }),
    {
        Account { public_key, nonce, known_urefs }
    }

    /// Merges `keys` into the account's table and leaves `keys` empty. The
    /// last write wins: a name that both hold is bound to the key from
    /// `keys` afterwards, and every name that `keys` does not hold keeps
    /// the key it had.
    pub fn insert_urefs(&mut self, keys: &mut NamedKeys)
        ensures
            final(self)@ == (AccountView {
                known_urefs: old(self)@.known_urefs.union_prefer_right(old(keys)@),
                ..old(self)@
            }),
            forall|name: Seq<char>| #[trigger]
                old(keys)@.contains_key(name) ==> final(self)@.known_urefs.contains_key(name)
                    && final(self)@.known_urefs[name] == old(keys)@[name],
            forall|name: Seq<char>|
                !old(keys)@.contains_key(name) ==> #[trigger] final(self)@.known_urefs.contains_key(
                    name,
                ) == old(self)@.known_urefs.contains_key(name),
            forall|name: Seq<char>|
                !old(keys)@.contains_key(name) && #[trigger] old(self)@.known_urefs.contains_key(
                    name,
                ) ==> final(self)@.known_urefs[name] == old(self)@.known_urefs[name],
            final(keys)@ == Map::<Seq<char>, KeyView>::empty(),
    {
        self.known_urefs.append(keys);
    }

    /// The account's table of named keys.
    pub fn urefs_lookup(&self) -> (table: &NamedKeys)
        ensures
            table@ == self@.known_urefs,
    {
        &self.known_urefs
    }

    /// Gives up the account for its table of named keys.
    pub fn get_urefs_lookup(self) -> (table: NamedKeys)
        ensures
            table@ == self@.known_urefs,
    {
        self.known_urefs
    }

    /// The public key of the account.
    pub fn pub_key(&self) -> (key: &[u8])
        ensures
            key@ == self@.public_key,
            key@.len() == 32,
    {
        self.public_key.as_slice()
    }

    /// The nonce of the account.
    pub fn nonce(&self) -> (nonce: u64)
        ensures
            nonce == self@.nonce,
    {
        self.nonce
    }
}

/// The wire image of an account: the 32 bytes of the public key, the
/// nonce in eight bytes, then the table of named keys.
pub open spec fn account_encoding(a: AccountView) -> Seq<u8> {
    a.public_key + u64_le(a.nonce) + named_keys_encoding(a.known_urefs)
}

/// Whether an account can be encoded: its public key has 32 bytes and its
/// table can be encoded.
pub open spec fn account_encodable(a: AccountView) -> bool {
    a.public_key.len() == 32 && named_keys_encodable(a.known_urefs)
}

/// What the front of `bytes` decodes to as an account.
pub open spec fn account_decoding(bytes: Seq<u8>) -> Result<(AccountView, Seq<u8>), Error> {
    match fixed32_decoding(bytes) {
        Err(e) => Err(e),
        Ok((public_key, after_key)) => match u64_decoding(after_key) {
            Err(e) => Err(e),
            Ok((nonce, after_nonce)) => match named_keys_decoding(after_nonce) {
                Err(e) => Err(e),
                Ok((known_urefs, rest)) => Ok(
                    (AccountView { public_key, nonce, known_urefs }, rest),
                ),
            },
        },
    }
}

impl ToBytes for Account {
    open spec fn encodable(&self) -> bool {
        account_encodable(self@)
    }

    open spec fn encoding(&self) -> Seq<u8> {
        account_encoding(self@)
    }

    fn is_encodable(&self) -> (ok: bool)
        ensures
            ok == account_encodable(self@),
    {
        self.known_urefs.is_encodable()
    }

    fn to_bytes(&self) -> (bytes: Vec<u8>)
        ensures
            bytes@ == account_encoding(self@),
    {
        let mut bytes = self.public_key.to_bytes();
        let mut nonce = self.nonce.to_bytes();
        let mut table = self.known_urefs.to_bytes();
        bytes.append(&mut nonce);
        bytes.append(&mut table);
        bytes
    }
}

impl FromBytes for Account {
    open spec fn decoding(bytes: Seq<u8>) -> Result<(AccountView, Seq<u8>), Error> {
        account_decoding(bytes)
    }

    fn from_bytes(bytes: &[u8]) -> (r: Result<(Account, &[u8]), Error>)
        ensures
            match r {
                Ok((account, rest)) => account_decoding(bytes@) == Ok::<
                    (AccountView, Seq<u8>),
                    Error,
                >((account@, rest@)),
                Err(e) => account_decoding(bytes@) == Err::<(AccountView, Seq<u8>), Error>(e),
            },
    {
        match <[u8; 32]>::from_bytes(bytes) {
            Err(e) => Err(e),
            Ok((public_key, rem1)) => match u64::from_bytes(rem1) {
                Err(e) => Err(e),
                Ok((nonce, rem2)) => match NamedKeys::from_bytes(rem2) {
                    Err(e) => Err(e),
                    Ok((known_urefs, rem3)) => Ok(
                        (Account { public_key, nonce, known_urefs }, rem3),
                    ),
                },
            },
        }
    }
}

/// Decoding what account encoding wrote gives the account back and leaves
/// exactly what followed it.
pub proof fn lemma_account_round_trip(a: AccountView, rest: Seq<u8>)
    requires
        account_encodable(a),
    ensures
        account_decoding(account_encoding(a) + rest) == Ok::<(AccountView, Seq<u8>), Error>(
            (a, rest),
        ),
{
    let table = named_keys_encoding(a.known_urefs);
    let after_nonce = table + rest;
    let after_key = u64_le(a.nonce) + after_nonce;
    let b = account_encoding(a) + rest;
    assert(b == a.public_key + after_key) by {
        assert(b =~= a.public_key + after_key);
    }
    assert(fixed32_decoding(b) == Ok::<(Seq<u8>, Seq<u8>), Error>((a.public_key, after_key))) by {
        assert(b.take(32) =~= a.public_key);
        assert(b.skip(32) =~= after_key);
    }
    assert(u64_decoding(after_key) == Ok::<(u64, Seq<u8>), Error>((a.nonce, after_nonce))) by {
        lemma_u64_round_trip(a.nonce, after_nonce);
    }
    lemma_named_keys_round_trip(a.known_urefs, rest);
}

} // verus!
