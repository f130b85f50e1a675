//! Truncation: a buffer that holds only a proper prefix of an encoding is
//! rejected as ending early, by every decoder of the format.

use crate::account::{account_decoding, account_encodable, account_encoding, AccountView};
use crate::bytesrepr::{
    bytes_decoding, bytes_encoding, i32s_decoding, i32s_encoding, i32s_payload,
    lemma_bytes_round_trip, lemma_i32_round_trip, lemma_i32s_truncated, lemma_string_round_trip,
    lemma_u32_round_trip, lemma_u64_round_trip, string_decoding, string_encodable, string_encoding,
    strings_decoding, strings_decoding_from, strings_encodable, strings_encoding, strings_payload,
    u32_le, u64_decoding, u64_le, Error,
};
use crate::key::{key_decoding, key_encoding, lemma_key_round_trip, KeyView};
use crate::named_keys::{
    entries_decoding_from, entries_payload, lemma_encodable_entries, named_keys_decoding,
    named_keys_encodable, named_keys_encoding, sorted_entries, EntryView,
};
use crate::uref::{uref_decoding, uref_encoding, URefView};
use crate::value::{value_decoding, value_encodable, value_encoding, ValueView};
use vstd::prelude::*;
use vstd::utf8::encode_utf8;

verus! {

/// The first `k` bytes of two pieces laid end to end are the first `k` of
/// the first piece, or all of it and the first bytes of the second.
pub proof fn lemma_take_of_concat(a: Seq<u8>, b: Seq<u8>, k: int)
    requires
        0 <= k <= a.len() + b.len(),
    ensures
        k <= a.len() ==> (a + b).take(k) == a.take(k),
        k >= a.len() ==> (a + b).take(k) == a + b.take(k - a.len()),
{
    if k <= a.len() {
        assert((a + b).take(k) =~= a.take(k));
    }
    if k >= a.len() {
        assert((a + b).take(k) =~= a + b.take(k - a.len()));
    }
}

/// A cut length-prefixed byte string ends early.
pub proof fn lemma_bytes_prefix(s: Seq<u8>, k: int)
    requires
        s.len() <= u32::MAX,
        0 <= k < bytes_encoding(s).len(),
    ensures
        bytes_decoding(bytes_encoding(s).take(k)) == Err::<(Seq<u8>, Seq<u8>), Error>(
            Error::EarlyEndOfStream,
        ),
{
    let n = s.len() as u32;
    lemma_u32_round_trip(n, s.take(k - 4));
    lemma_take_of_concat(u32_le(n), s, k);
}

/// A cut text ends early, whatever its bytes.
pub proof fn lemma_string_prefix(s: Seq<char>, k: int)
    requires
        string_encodable(s),
        0 <= k < string_encoding(s).len(),
    ensures
        string_decoding(string_encoding(s).take(k)) == Err::<(Seq<char>, Seq<u8>), Error>(
            Error::EarlyEndOfStream,
        ),
{
    lemma_bytes_prefix(encode_utf8(s), k);
}

/// The payload of a list of numbers has four bytes for each.
pub proof fn lemma_i32s_payload_len(s: Seq<i32>)
    ensures
        i32s_payload(s).len() == 4 * s.len(),
    decreases s.len(),
{
    if s.len() > 0 {
        lemma_i32_round_trip(s[0], Seq::empty());
        lemma_i32s_payload_len(s.drop_first());
    }
}

/// A cut list of numbers ends early.
pub proof fn lemma_i32s_prefix(s: Seq<i32>, k: int)
    requires
        s.len() <= u32::MAX,
        0 <= k < i32s_encoding(s).len(),
    ensures
        i32s_decoding(i32s_encoding(s).take(k)) == Err::<(Seq<i32>, Seq<u8>), Error>(
            Error::EarlyEndOfStream,
        ),
{
    let n = s.len() as u32;
    lemma_i32s_payload_len(s);
    lemma_u32_round_trip(n, i32s_payload(s).take(k - 4));
    lemma_take_of_concat(u32_le(n), i32s_payload(s), k);
    if k >= 4 {
        lemma_i32s_truncated(i32s_payload(s).take(k - 4), n as nat, Seq::empty());
    }
}

/// A cut payload of a list of texts ends early.
pub proof fn lemma_strings_payload_prefix(ss: Seq<Seq<char>>, k: int, acc: Seq<Seq<char>>)
    requires
        forall|i: int| 0 <= i < ss.len() ==> string_encodable(#[trigger] ss[i]),
        0 <= k < strings_payload(ss).len(),
    ensures
        strings_decoding_from(strings_payload(ss).take(k), ss.len(), acc) == Err::<
            (Seq<Seq<char>>, Seq<u8>),
            Error,
        >(Error::EarlyEndOfStream),
    decreases ss.len(),
{
    if ss.len() > 0 {
        let head = string_encoding(ss[0]);
        let tail = ss.drop_first();
        let cut = strings_payload(ss).take(k);
        assert(string_encodable(ss[0]));
        lemma_take_of_concat(head, strings_payload(tail), k);
        if k < head.len() {
            lemma_string_prefix(ss[0], k);
        } else {
            let left = strings_payload(tail).take(k - head.len());
            assert(string_decoding(cut) == Ok::<(Seq<char>, Seq<u8>), Error>((ss[0], left))) by {
                lemma_string_round_trip(ss[0], left);
            }
            assert forall|i: int| 0 <= i < tail.len() implies string_encodable(
                #[trigger] tail[i],
            ) by {
                assert(tail[i] == ss[i + 1]);
            }
            lemma_strings_payload_prefix(tail, k - head.len(), acc.push(ss[0]));
        }
    }
}

/// A cut list of texts ends early.
pub proof fn lemma_strings_prefix(ss: Seq<Seq<char>>, k: int)
    requires
        strings_encodable(ss),
        0 <= k < strings_encoding(ss).len(),
    ensures
        strings_decoding(strings_encoding(ss).take(k)) == Err::<
            (Seq<Seq<char>>, Seq<u8>),
            Error,
        >(Error::EarlyEndOfStream),
{
    let n = ss.len() as u32;
    lemma_u32_round_trip(n, strings_payload(ss).take(k - 4));
    lemma_take_of_concat(u32_le(n), strings_payload(ss), k);
    if k >= 4 {
        lemma_strings_payload_prefix(ss, k - 4, Seq::empty());
    }
}

/// A cut reference ends early.
pub proof fn lemma_uref_prefix(u: URefView, k: int)
    requires
        u.addr.len() == 32,
        0 <= k < uref_encoding(u).len(),
    ensures
        uref_decoding(uref_encoding(u).take(k)) == Err::<(URefView, Seq<u8>), Error>(
            Error::EarlyEndOfStream,
        ),
{
    let cut = uref_encoding(u).take(k);
    lemma_take_of_concat(u.addr, seq![u.access_rights.spec_bits()], k);
    if k == 32 {
        assert(cut.take(32) =~= u.addr);
        assert(cut.skip(32) =~= Seq::<u8>::empty());
    }
}

/// A cut key ends early.
pub proof fn lemma_key_prefix(key: KeyView, k: int)
    requires
        key.wf(),
        0 <= k < key_encoding(key).len(),
    ensures
        key_decoding(key_encoding(key).take(k)) == Err::<(KeyView, Seq<u8>), Error>(
            Error::EarlyEndOfStream,
        ),
{
    let cut = key_encoding(key).take(k);
    if k >= 1 {
        assert(cut[0] == key.tag());
        match key {
            KeyView::Account(addr) => {
                lemma_take_of_concat(seq![key.tag()], addr, k);
                assert(cut.skip(1) =~= addr.take(k - 1));
            },
            KeyView::Hash(addr) => {
                lemma_take_of_concat(seq![key.tag()], addr, k);
                assert(cut.skip(1) =~= addr.take(k - 1));
            },
            KeyView::URef(uref) => {
                lemma_take_of_concat(seq![key.tag()], uref_encoding(uref), k);
                assert(cut.skip(1) =~= uref_encoding(uref).take(k - 1));
                lemma_uref_prefix(uref, k - 1);
            },
        }
    }
}

/// A cut payload of a table ends early.
pub proof fn lemma_entries_payload_prefix(
    es: Seq<EntryView>,
    k: int,
    acc: Map<Seq<char>, KeyView>,
)
    requires
        forall|i: int| 0 <= i < es.len() ==> string_encodable((#[trigger] es[i]).0) && es[i].1.wf(),
        0 <= k < entries_payload(es).len(),
    ensures
        entries_decoding_from(entries_payload(es).take(k), es.len(), acc) == Err::<
            (Map<Seq<char>, KeyView>, Seq<u8>),
            Error,
        >(Error::EarlyEndOfStream),
    decreases es.len(),
{
    if es.len() > 0 {
        let name = string_encoding(es[0].0);
        let key = key_encoding(es[0].1);
        let tail = es.drop_first();
        let others = entries_payload(tail);
        let cut = entries_payload(es).take(k);
        assert(string_encodable(es[0].0) && es[0].1.wf());
        assert(entries_payload(es) == name + (key + others)) by {
            assert(entries_payload(es) =~= name + (key + others));
        }
        lemma_take_of_concat(name, key + others, k);
        if k < name.len() {
            lemma_string_prefix(es[0].0, k);
        } else {
            let after_name = (key + others).take(k - name.len());
            assert(string_decoding(cut) == Ok::<(Seq<char>, Seq<u8>), Error>(
                (es[0].0, after_name),
            )) by {
                lemma_string_round_trip(es[0].0, after_name);
            }
            lemma_take_of_concat(key, others, k - name.len());
            if k - name.len() < key.len() {
                lemma_key_prefix(es[0].1, k - name.len());
            } else {
                let left = others.take(k - name.len() - key.len());
                assert(key_decoding(after_name) == Ok::<(KeyView, Seq<u8>), Error>(
                    (es[0].1, left),
                )) by {
                    lemma_key_round_trip(es[0].1, left);
                }
                assert forall|i: int| 0 <= i < tail.len() implies string_encodable(
                    (#[trigger] tail[i]).0,
                ) && tail[i].1.wf() by {
                    assert(tail[i] == es[i + 1]);
                }
                lemma_entries_payload_prefix(
                    tail,
                    k - name.len() - key.len(),
                    acc.insert(es[0].0, es[0].1),
                );
            }
        }
    }
}

/// A cut table ends early.
pub proof fn lemma_named_keys_prefix(m: Map<Seq<char>, KeyView>, k: int)
    requires
        named_keys_encodable(m),
        0 <= k < named_keys_encoding(m).len(),
    ensures
        named_keys_decoding(named_keys_encoding(m).take(k)) == Err::<
            (Map<Seq<char>, KeyView>, Seq<u8>),
            Error,
        >(Error::EarlyEndOfStream),
{
    let es = sorted_entries(m);
    let n = es.len() as u32;
    lemma_encodable_entries(m);
    lemma_u32_round_trip(n, entries_payload(es).take(k - 4));
    lemma_take_of_concat(u32_le(n), entries_payload(es), k);
    if k >= 4 {
        lemma_entries_payload_prefix(es, k - 4, Map::empty());
    }
}

/// A cut account ends early.
pub proof fn lemma_account_prefix(a: AccountView, k: int)
    requires
        account_encodable(a),
        0 <= k < account_encoding(a).len(),
    ensures
        account_decoding(account_encoding(a).take(k)) == Err::<(AccountView, Seq<u8>), Error>(
            Error::EarlyEndOfStream,
        ),
{
    let nonce = u64_le(a.nonce);
    let table = named_keys_encoding(a.known_urefs);
    let cut = account_encoding(a).take(k);
    lemma_u64_round_trip(a.nonce, Seq::empty());
    assert(account_encoding(a) == a.public_key + (nonce + table)) by {
        assert(account_encoding(a) =~= a.public_key + (nonce + table));
    }
    lemma_take_of_concat(a.public_key, nonce + table, k);
    if k >= 32 {
        let after_key = (nonce + table).take(k - 32);
        assert(cut.take(32) =~= a.public_key);
        assert(cut.skip(32) =~= after_key);
        lemma_take_of_concat(nonce, table, k - 32);
        if k - 32 >= 8 {
            let after_nonce = table.take(k - 40);
            assert(u64_decoding(after_key) == Ok::<(u64, Seq<u8>), Error>(
                (a.nonce, after_nonce),
            )) by {
                lemma_u64_round_trip(a.nonce, after_nonce);
            }
            lemma_named_keys_prefix(a.known_urefs, k - 40);
        }
    }
}

/// Truncation: every proper prefix of the encoding of a value is rejected
/// as ending early, whatever the variant and wherever the cut falls.
pub proof fn lemma_value_prefix(v: ValueView, k: int)
    requires
        value_encodable(v),
        0 <= k < value_encoding(v).len(),
    ensures
        value_decoding(value_encoding(v).take(k)) == Err::<(ValueView, Seq<u8>), Error>(
            Error::EarlyEndOfStream,
        ),
{
    let cut = value_encoding(v).take(k);
    if k >= 1 {
        let j = k - 1;
        lemma_take_of_concat(seq![v.tag()], v.payload(), k);
        assert(cut[0] == v.tag());
        assert(cut.skip(1) == v.payload().take(j)) by {
            assert(cut.skip(1) =~= v.payload().take(j));
        }
        match v {
            ValueView::Int32(i) => {
                lemma_i32_round_trip(i, Seq::empty());
            },
            ValueView::ByteArray(arr) => {
                lemma_bytes_prefix(arr, j);
            },
            ValueView::ListInt32(arr) => {
                lemma_i32s_prefix(arr, j);
            },
            ValueView::String(s) => {
                lemma_string_prefix(s, j);
            },
            ValueView::Acct(a) => {
                lemma_account_prefix(a, j);
            },
            ValueView::Contract { bytes, known_urefs } => {
                let code = bytes_encoding(bytes);
                let table = named_keys_encoding(known_urefs);
                lemma_take_of_concat(code, table, j);
                if j < code.len() {
                    lemma_bytes_prefix(bytes, j);
                } else {
                    lemma_bytes_round_trip(bytes, table.take(j - code.len()));
                    lemma_named_keys_prefix(known_urefs, j - code.len());
                }
            },
            ValueView::NamedKey(n, key) => {
                let name = string_encoding(n);
                let image = key_encoding(key);
                lemma_take_of_concat(name, image, j);
                if j < name.len() {
                    lemma_string_prefix(n, j);
                } else {
                    lemma_string_round_trip(n, image.take(j - name.len()));
                    lemma_key_prefix(key, j - name.len());
                }
            },
            ValueView::ListString(arr) => {
                lemma_strings_prefix(arr, j);
            },
        }
    }
}

} // verus!
