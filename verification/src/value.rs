//! The closed union of values that global state stores, with the tag byte
//! that decides how each is decoded.

use crate::account::{
    account_decoding, account_encodable, account_encoding, lemma_account_round_trip, Account,
    AccountView,
};
use crate::bytesrepr::{
    bytes_decoding, bytes_encoding, i32_decoding, i32_le, i32s_decoding, i32s_encoding,
    lemma_bytes_round_trip, lemma_bytes_truncated, lemma_i32_round_trip, lemma_i32s_round_trip,
    lemma_i32s_truncated,
    lemma_string_round_trip, lemma_strings_round_trip, string_decoding, string_encodable,
    string_encoding, strings_decoding, strings_encodable, strings_encoding, strings_from_bytes,
    strings_is_encodable, strings_to_bytes, u32_from_le, Error, FromBytes, ToBytes,
};
use crate::key::{key_decoding, key_encoding, lemma_key_round_trip, Key, KeyView};
use crate::named_keys::{
    lemma_named_keys_round_trip, named_keys_decoding, named_keys_encodable, named_keys_encoding,
    NamedKeys,
};
use vstd::prelude::*;

verus! {

/// Tag byte of `Value::Int32`.
pub const INT32_ID: u8 = 0;

/// Tag byte of `Value::ByteArray`.
pub const BYTEARRAY_ID: u8 = 1;

/// Tag byte of `Value::ListInt32`.
pub const LISTINT32_ID: u8 = 2;

/// Tag byte of `Value::String`.
pub const STRING_ID: u8 = 3;

/// Tag byte of `Value::Acct`.
pub const ACCT_ID: u8 = 4;

/// Tag byte of `Value::Contract`.
pub const CONTRACT_ID: u8 = 5;

/// Tag byte of `Value::NamedKey`.
pub const NAMEDKEY_ID: u8 = 6;

/// Tag byte of `Value::ListString`.
pub const LISTSTRING_ID: u8 = 7;

/// A value of the global state.
#[derive(Clone, Debug, PartialEq, Eq)]
pub enum Value {
    Int32(i32),
    ByteArray(Vec<u8>),
    ListInt32(Vec<i32>),
    String(String),
    ListString(Vec<String>),
    NamedKey(String, Key),
    Acct(Account),
    Contract { bytes: Vec<u8>, known_urefs: NamedKeys },
}

/// A value as contracts see it.
pub enum ValueView {
    Int32(i32),
    ByteArray(Seq<u8>),
    ListInt32(Seq<i32>),
    String(Seq<char>),
    ListString(Seq<Seq<char>>),
    NamedKey(Seq<char>, KeyView),
    Acct(AccountView),
    Contract { bytes: Seq<u8>, known_urefs: Map<Seq<char>, KeyView> },
}

impl View for Value {
    type V = ValueView;

    open spec fn view(&self) -> ValueView {
        match *self {
            Value::Int32(i) => ValueView::Int32(i),
            Value::ByteArray(arr) => ValueView::ByteArray(arr@),
            Value::ListInt32(arr) => ValueView::ListInt32(arr@),
            Value::String(s) => ValueView::String(s@),
            Value::ListString(arr) => ValueView::ListString(arr.deep_view()),
            Value::NamedKey(n, k) => ValueView::NamedKey(n@, k@),
            Value::Acct(a) => ValueView::Acct(a@),
            Value::Contract { bytes, known_urefs } => ValueView::Contract {
                bytes: bytes@,
                known_urefs: known_urefs@,
            },
        }
    }
}

impl ValueView {
    /// The tag byte that opens the wire image of the value.
    pub open spec fn tag(self) -> u8 {
        match self {
            ValueView::Int32(_) => INT32_ID,
            ValueView::ByteArray(_) => BYTEARRAY_ID,
            ValueView::ListInt32(_) => LISTINT32_ID,
            ValueView::String(_) => STRING_ID,
            ValueView::Acct(_) => ACCT_ID,
            ValueView::Contract { .. } => CONTRACT_ID,
            ValueView::NamedKey(_, _) => NAMEDKEY_ID,
            ValueView::ListString(_) => LISTSTRING_ID,
        }
    }

    /// The wire image of what follows the tag byte.
    pub open spec fn payload(self) -> Seq<u8> {
        match self {
            ValueView::Int32(i) => i32_le(i),
            ValueView::ByteArray(arr) => bytes_encoding(arr),
            ValueView::ListInt32(arr) => i32s_encoding(arr),
            ValueView::String(s) => string_encoding(s),
            ValueView::Acct(a) => account_encoding(a),
            ValueView::Contract { bytes, known_urefs } => bytes_encoding(bytes)
                + named_keys_encoding(known_urefs),
            ValueView::NamedKey(n, k) => string_encoding(n) + key_encoding(k),
            ValueView::ListString(arr) => strings_encoding(arr),
        }
    }

    /// The human-readable name of the variant.
    pub open spec fn type_string(self) -> Seq<char> {
        match self {
            ValueView::Int32(_) => "Int32"@,
            ValueView::ListInt32(_) => "List[Int32]"@,
            ValueView::String(_) => "String"@,
            ValueView::ByteArray(_) => "ByteArray"@,
            ValueView::Acct(_) => "Account"@,
            ValueView::Contract { .. } => "Contract"@,
            ValueView::NamedKey(_, _) => "NamedKey"@,
            ValueView::ListString(_) => "List[String]"@,
        }
    }
}

/// The wire image of a value: its tag byte, then the encoding of the
/// variant.
pub open spec fn value_encoding(v: ValueView) -> Seq<u8> {
    seq![v.tag()] + v.payload()
}

/// Whether a value can be encoded: every length in it fits a four-byte
/// prefix and every key in it belongs to the key space.
pub open spec fn value_encodable(v: ValueView) -> bool {
    match v {
        ValueView::Int32(_) => true,
        ValueView::ByteArray(arr) => arr.len() <= u32::MAX,
        ValueView::ListInt32(arr) => arr.len() <= u32::MAX,
        ValueView::String(s) => string_encodable(s),
        ValueView::Acct(a) => account_encodable(a),
        ValueView::Contract { bytes, known_urefs } => bytes.len() <= u32::MAX
            && named_keys_encodable(known_urefs),
        ValueView::NamedKey(n, k) => string_encodable(n) && k.wf(),
        ValueView::ListString(arr) => strings_encodable(arr),
    }
}

/// What `payload`, the bytes behind the tag byte `id`, decodes to. A tag
/// that belongs to no variant is a formatting error, whatever follows it.
pub open spec fn payload_decoding(id: u8, payload: Seq<u8>) -> Result<(ValueView, Seq<u8>), Error> {
    if id == INT32_ID {
        match i32_decoding(payload) {
            Err(e) => Err(e),
            Ok((i, rem)) => Ok((ValueView::Int32(i), rem)),
        }
    } else if id == BYTEARRAY_ID {
        match bytes_decoding(payload) {
            Err(e) => Err(e),
            Ok((arr, rem)) => Ok((ValueView::ByteArray(arr), rem)),
        }
    } else if id == LISTINT32_ID {
        match i32s_decoding(payload) {
            Err(e) => Err(e),
            Ok((arr, rem)) => Ok((ValueView::ListInt32(arr), rem)),
        }
    } else if id == STRING_ID {
        match string_decoding(payload) {
            Err(e) => Err(e),
            Ok((s, rem)) => Ok((ValueView::String(s), rem)),
        }
    } else if id == ACCT_ID {
        match account_decoding(payload) {
            Err(e) => Err(e),
            Ok((a, rem)) => Ok((ValueView::Acct(a), rem)),
        }
    } else if id == CONTRACT_ID {
        match bytes_decoding(payload) {
            Err(e) => Err(e),
            Ok((bytes, rem1)) => match named_keys_decoding(rem1) {
                Err(e) => Err(e),
                Ok((known_urefs, rem2)) => Ok((ValueView::Contract { bytes, known_urefs }, rem2)),
            },
        }
    } else if id == NAMEDKEY_ID {
        match string_decoding(payload) {
            Err(e) => Err(e),
            Ok((name, rem1)) => match key_decoding(rem1) {
                Err(e) => Err(e),
                Ok((key, rem2)) => Ok((ValueView::NamedKey(name, key), rem2)),
            },
        }
    } else if id == LISTSTRING_ID {
        match strings_decoding(payload) {
            Err(e) => Err(e),
            Ok((arr, rem)) => Ok((ValueView::ListString(arr), rem)),
        }
    } else {
        Err(Error::FormattingError)
    }
}

/// What the front of `bytes` decodes to as a value: the first byte is the
/// tag and decides how the rest is read.
pub open spec fn value_decoding(bytes: Seq<u8>) -> Result<(ValueView, Seq<u8>), Error> {
    if bytes.len() < 1 {
        Err(Error::EarlyEndOfStream)
    } else {
        payload_decoding(bytes[0], bytes.skip(1))
    }
}

impl ToBytes for Value {
    open spec fn encodable(&self) -> bool {
        value_encodable(self@)
    }

    open spec fn encoding(&self) -> Seq<u8> {
        value_encoding(self@)
    }

    fn is_encodable(&self) -> (ok: bool)
        ensures
            ok == value_encodable(self@),
    {
        match self {
            Value::Int32(_) => true,
            Value::ByteArray(arr) => arr.is_encodable(),
            Value::ListInt32(arr) => arr.is_encodable(),
            Value::String(s) => s.is_encodable(),
            Value::Acct(a) => a.is_encodable(),
            Value::Contract { bytes, known_urefs } => bytes.is_encodable()
                && known_urefs.is_encodable(),
            Value::NamedKey(n, k) => {
                proof {
                    k.lemma_wf();
                }
                n.is_encodable()
            },
            Value::ListString(arr) => strings_is_encodable(arr),
        }
    }

    fn to_bytes(&self) -> (bytes: Vec<u8>)
        ensures
            bytes@ == value_encoding(self@),
    {
        let mut result: Vec<u8> = Vec::new();
        match self {
            Value::Int32(i) => {
                result.push(INT32_ID);
                let mut payload = i.to_bytes();
                result.append(&mut payload);
            },
            Value::ByteArray(arr) => {
                result.push(BYTEARRAY_ID);
                let mut payload = arr.to_bytes();
                result.append(&mut payload);
            },
            Value::ListInt32(arr) => {
                result.push(LISTINT32_ID);
                let mut payload = arr.to_bytes();
                result.append(&mut payload);
            },
            Value::String(s) => {
                result.push(STRING_ID);
                let mut payload = s.to_bytes();
                result.append(&mut payload);
            },
            Value::Acct(a) => {
                result.push(ACCT_ID);
                let mut payload = a.to_bytes();
                result.append(&mut payload);
            },
            Value::Contract { bytes, known_urefs } => {
                result.push(CONTRACT_ID);
                let mut code = bytes.to_bytes();
                let mut table = known_urefs.to_bytes();
                result.append(&mut code);
                result.append(&mut table);
            },
            Value::NamedKey(n, k) => {
                result.push(NAMEDKEY_ID);
                let mut name = n.to_bytes();
                let mut key = k.to_bytes();
                result.append(&mut name);
                result.append(&mut key);
            },
            Value::ListString(arr) => {
                result.push(LISTSTRING_ID);
                let mut payload = strings_to_bytes(arr);
                result.append(&mut payload);
            },
        }
        assert(result@ =~= value_encoding(self@));
        result
    }
}

impl FromBytes for Value {
    open spec fn decoding(bytes: Seq<u8>) -> Result<(ValueView, Seq<u8>), Error> {
        value_decoding(bytes)
    }

    fn from_bytes(bytes: &[u8]) -> (r: Result<(Value, &[u8]), Error>)
        ensures
            match r {
                Ok((v, rest)) => value_decoding(bytes@) == Ok::<(ValueView, Seq<u8>), Error>(
                    (v@, rest@),
                ),
                Err(e) => value_decoding(bytes@) == Err::<(ValueView, Seq<u8>), Error>(e),
            },
    {
        let (id, rest) = match u8::from_bytes(bytes) {
            Err(e) => {
                return Err(e);
            },
            Ok(pair) => pair,
        };
        if id == INT32_ID {
            match i32::from_bytes(rest) {
                Err(e) => Err(e),
                Ok((i, rem)) => Ok((Value::Int32(i), rem)),
            }
        } else if id == BYTEARRAY_ID {
            match Vec::<u8>::from_bytes(rest) {
                Err(e) => Err(e),
                Ok((arr, rem)) => Ok((Value::ByteArray(arr), rem)),
            }
        } else if id == LISTINT32_ID {
            match Vec::<i32>::from_bytes(rest) {
                Err(e) => Err(e),
                Ok((arr, rem)) => Ok((Value::ListInt32(arr), rem)),
            }
        } else if id == STRING_ID {
            match String::from_bytes(rest) {
                Err(e) => Err(e),
                Ok((s, rem)) => Ok((Value::String(s), rem)),
            }
        } else if id == ACCT_ID {
            match Account::from_bytes(rest) {
                Err(e) => Err(e),
                Ok((a, rem)) => Ok((Value::Acct(a), rem)),
            }
        } else if id == CONTRACT_ID {
            match Vec::<u8>::from_bytes(rest) {
                Err(e) => Err(e),
                Ok((bytes, rem1)) => match NamedKeys::from_bytes(rem1) {
                    Err(e) => Err(e),
                    Ok((known_urefs, rem2)) => Ok((Value::Contract { bytes, known_urefs }, rem2)),
                },
            }
        } else if id == NAMEDKEY_ID {
            match String::from_bytes(rest) {
                Err(e) => Err(e),
                Ok((name, rem1)) => match Key::from_bytes(rem1) {
                    Err(e) => Err(e),
                    Ok((key, rem2)) => Ok((Value::NamedKey(name, key), rem2)),
                },
            }
        } else if id == LISTSTRING_ID {
            match strings_from_bytes(rest) {
                Err(e) => Err(e),
                Ok((arr, rem)) => Ok((Value::ListString(arr), rem)),
            }
        } else {
            Err(Error::FormattingError)
        }
    }
}

impl Value {
    /// The human-readable name of the variant, for diagnostics.
    pub fn type_string(&self) -> (name: String)
        ensures
            name@ == self@.type_string(),
    {
        match self {
            Value::Int32(_) => "Int32".to_owned(),
            Value::ListInt32(_) => "List[Int32]".to_owned(),
            Value::String(_) => "String".to_owned(),
            Value::ByteArray(_) => "ByteArray".to_owned(),
            Value::Acct(_) => "Account".to_owned(),
            Value::Contract { .. } => "Contract".to_owned(),
            Value::NamedKey(_, _) => "NamedKey".to_owned(),
            Value::ListString(_) => "List[String]".to_owned(),
        }
    }

    /// The account inside the value. The caller has established that the
    /// value is an account.
    pub fn as_account(&self) -> (account: &Account)
        requires
            self@ is Acct,
        ensures
            self@ == ValueView::Acct(account@),
    {
        match self {
            Value::Acct(a) => a,
            _ => vstd::pervasive::unreached(),
        }
    }

    /// The account inside the value, if the value is an account.
    pub fn account(&self) -> (account: Option<&Account>)
        ensures
            match account {
                Some(a) => self@ == ValueView::Acct(a@),
                None => !(self@ is Acct),
            },
    {
        match self {
            Value::Acct(a) => Some(a),
            _ => None,
        }
    }
}

/// Round trip: decoding what encoding wrote gives the value back, whatever
/// its variant, and consumes exactly the bytes of the encoding, so that
/// what followed them is what is left.
pub proof fn lemma_value_round_trip(v: ValueView, rest: Seq<u8>)
    requires
        value_encodable(v),
    ensures
        value_decoding(value_encoding(v) + rest) == Ok::<(ValueView, Seq<u8>), Error>((v, rest)),
{
    let b = value_encoding(v) + rest;
    let p = v.payload() + rest;
    assert(b[0] == v.tag());
    assert(b.skip(1) == p) by {
        assert(b.skip(1) =~= p);
    }
    assert(payload_decoding(v.tag(), p) == Ok::<(ValueView, Seq<u8>), Error>((v, rest))) by {
        match v {
            ValueView::Int32(i) => {
                lemma_i32_round_trip(i, rest);
            },
            ValueView::ByteArray(arr) => {
                lemma_bytes_round_trip(arr, rest);
            },
            ValueView::ListInt32(arr) => {
                lemma_i32s_round_trip(arr, rest);
            },
            ValueView::String(s) => {
                lemma_string_round_trip(s, rest);
            },
            ValueView::Acct(a) => {
                lemma_account_round_trip(a, rest);
            },
            ValueView::Contract { bytes, known_urefs } => {
                let after_code = named_keys_encoding(known_urefs) + rest;
                assert(p == bytes_encoding(bytes) + after_code) by {
                    assert(p =~= bytes_encoding(bytes) + after_code);
                }
                lemma_bytes_round_trip(bytes, after_code);
                lemma_named_keys_round_trip(known_urefs, rest);
            },
            ValueView::NamedKey(n, k) => {
                let after_name = key_encoding(k) + rest;
                assert(p == string_encoding(n) + after_name) by {
                    assert(p =~= string_encoding(n) + after_name);
                }
                lemma_string_round_trip(n, after_name);
                lemma_key_round_trip(k, rest);
            },
            ValueView::ListString(arr) => {
                lemma_strings_round_trip(arr, rest);
            },
        }
    }
}

/// Round trip for a value on its own: its encoding decodes to the value
/// with nothing left over.
pub proof fn lemma_value_round_trip_exact(v: ValueView)
    requires
        value_encodable(v),
    ensures
        value_decoding(value_encoding(v)) == Ok::<(ValueView, Seq<u8>), Error>(
            (v, Seq::<u8>::empty()),
        ),
{
    lemma_value_round_trip(v, Seq::empty());
    assert(value_encoding(v) + Seq::<u8>::empty() =~= value_encoding(v));
}

/// The tags are a closed set: a buffer whose first byte is no tag of a
/// variant is rejected as badly formatted, whatever follows that byte.
pub proof fn lemma_unknown_tag_rejected(bytes: Seq<u8>)
    requires
        bytes.len() >= 1,
        bytes[0] > LISTSTRING_ID,
    ensures
        value_decoding(bytes) == Err::<(ValueView, Seq<u8>), Error>(Error::FormattingError),
{
}

/// Truncation: a byte array, a text, a contract or a named key whose length
/// prefix announces more bytes than the buffer still holds is rejected as
/// ending early.
pub proof fn lemma_truncated_rejected(bytes: Seq<u8>)
    requires
        bytes.len() >= 5,
        bytes[0] == BYTEARRAY_ID || bytes[0] == STRING_ID || bytes[0] == CONTRACT_ID || bytes[0]
            == NAMEDKEY_ID,
        u32_from_le(bytes.skip(1)) > bytes.len() - 5,
    ensures
        value_decoding(bytes) == Err::<(ValueView, Seq<u8>), Error>(Error::EarlyEndOfStream),
{
    lemma_bytes_truncated(bytes.skip(1));
}

/// Truncation: a list of numbers whose count announces more numbers than
/// the buffer still holds is rejected as ending early.
pub proof fn lemma_truncated_list_rejected(bytes: Seq<u8>)
    requires
        bytes.len() >= 5,
        bytes[0] == LISTINT32_ID,
        4 * u32_from_le(bytes.skip(1)) > bytes.len() - 5,
    ensures
        value_decoding(bytes) == Err::<(ValueView, Seq<u8>), Error>(Error::EarlyEndOfStream),
{
    let payload = bytes.skip(1);
    lemma_i32s_truncated(payload.skip(4), u32_from_le(payload) as nat, Seq::empty());
}

/// A buffer too short to hold even the fixed part of what its tag
/// announces is rejected as ending early.
pub proof fn lemma_short_buffer_rejected(bytes: Seq<u8>)
    requires
        bytes.len() < 5,
        bytes.len() == 0 || bytes[0] <= LISTSTRING_ID,
    ensures
        value_decoding(bytes) == Err::<(ValueView, Seq<u8>), Error>(Error::EarlyEndOfStream),
{
}

} // verus!
