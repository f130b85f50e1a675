//! The deterministic binary codec: little-endian integers and
//! length-prefixed sequences, with what every encoder writes and every
//! decoder accepts stated as functions on byte sequences.

use vstd::prelude::*;
use vstd::slice::{slice_subrange, slice_to_vec};
use vstd::utf8::{decode_utf8, encode_utf8, valid_utf8};

verus! {

/// Why a buffer could not be decoded.
#[derive(Clone, Copy, Debug, PartialEq, Eq, Structural)]
pub enum Error {
    /// The buffer ends before the value it announces.
    EarlyEndOfStream,
    /// A tag, a flag or a text payload is not one the format knows.
    FormattingError,
}

/// Width in bytes of an encoded `u8`.
pub const U8_SIZE: usize = 1;

/// Width in bytes of an encoded `i32` or `u32`.
pub const U32_SIZE: usize = 4;

/// Width in bytes of an encoded `u64`.
pub const U64_SIZE: usize = 8;

/// Width in bytes of a fixed address or public key.
pub const N32: usize = 32;

/// A value that has a wire image.
pub trait ToBytes {
    /// Whether every length inside the value fits the four-byte prefix that
    /// announces it.
    spec fn encodable(&self) -> bool;

    /// The wire image of the value.
    spec fn encoding(&self) -> Seq<u8>;

    /// Tests `encodable` at run time.
    fn is_encodable(&self) -> (ok: bool)
        ensures
            ok == self.encodable(),
    ;

    /// Writes the wire image into a fresh buffer.
    fn to_bytes(&self) -> (bytes: Vec<u8>)
        requires
            self.encodable(),
        ensures
            bytes@ == self.encoding(),
    ;
}

/// A value that can be read back from the front of a buffer.
pub trait FromBytes: Sized + View {
    /// What the front of `bytes` decodes to, with the unconsumed suffix, or
    /// the reason it does not decode.
    spec fn decoding(bytes: Seq<u8>) -> Result<(Self::V, Seq<u8>), Error>;

    /// Decodes a value from the front of `bytes` and hands back the rest.
    fn from_bytes(bytes: &[u8]) -> (r: Result<(Self, &[u8]), Error>)
        ensures
            match r {
                Ok((v, rest)) => Self::decoding(bytes@) == Ok::<(Self::V, Seq<u8>), Error>(
                    (v@, rest@),
                ),
                Err(e) => Self::decoding(bytes@) == Err::<(Self::V, Seq<u8>), Error>(e),
            },
    ;
}

/// The four bytes of `x`, least significant first.
#[verifier::opaque]
pub open spec fn u32_le(x: u32) -> Seq<u8> {
    seq![
        (x % 256) as u8,
        ((x / 256) % 256) as u8,
        ((x / 65536) % 256) as u8,
        ((x / 16777216) % 256) as u8,
    ]
}

/// The number whose little-endian bytes are the first four of `b`.
#[verifier::opaque]
pub open spec fn u32_from_le(b: Seq<u8>) -> u32 {
    (b[0] + b[1] * 256 + b[2] * 65536 + b[3] * 16777216) as u32
}

impl ToBytes for u32 {
    open spec fn encodable(&self) -> bool {
        true
    }

    open spec fn encoding(&self) -> Seq<u8> {
        u32_le(*self)
    }

    fn is_encodable(&self) -> (ok: bool) {
        true
    }

    fn to_bytes(&self) -> (bytes: Vec<u8>)
        ensures
            bytes@ == u32_le(*self),
    {
        let x: u32 = *self;
        let mut bytes: Vec<u8> = Vec::with_capacity(U32_SIZE);
        bytes.push((x % 256) as u8);
        bytes.push(((x / 256) % 256) as u8);
        bytes.push(((x / 65536) % 256) as u8);
        bytes.push(((x / 16777216) % 256) as u8);
        proof {
            reveal(u32_le);
        }
        assert(bytes@ =~= u32_le(x));
        bytes
    }
}

impl FromBytes for u32 {
    open spec fn decoding(bytes: Seq<u8>) -> Result<(u32, Seq<u8>), Error> {
        if bytes.len() < 4 {
            Err(Error::EarlyEndOfStream)
        } else {
            Ok((u32_from_le(bytes), bytes.skip(4)))
        }
    }

    fn from_bytes(bytes: &[u8]) -> (r: Result<(u32, &[u8]), Error>) {
        if bytes.len() < U32_SIZE {
            return Err(Error::EarlyEndOfStream);
        }
        let b0: u32 = bytes[0] as u32;
        let b1: u32 = bytes[1] as u32;
        let b2: u32 = bytes[2] as u32;
        let b3: u32 = bytes[3] as u32;
        let x: u32 = b0 + b1 * 256 + b2 * 65536 + b3 * 16777216;
        proof {
            reveal(u32_from_le);
        }
        let rest = slice_subrange(bytes, U32_SIZE, bytes.len());
        Ok((x, rest))
    }
}

/// Decoding what `u32` encoding wrote gives the number back and consumes
/// exactly its four bytes.
pub proof fn lemma_u32_round_trip(x: u32, rest: Seq<u8>)
    ensures
        u32::decoding(u32_le(x) + rest) == Ok::<(u32, Seq<u8>), Error>((x, rest)),
        u32_le(x).len() == 4,
{
    reveal(u32_le);
    reveal(u32_from_le);
    let b = u32_le(x) + rest;
    assert(b.skip(4) =~= rest);
    assert(u32_from_le(b) == x);
}

/// The byte itself.
impl ToBytes for u8 {
    open spec fn encodable(&self) -> bool {
        true
    }

    open spec fn encoding(&self) -> Seq<u8> {
        seq![*self]
    }

    fn is_encodable(&self) -> (ok: bool) {
        true
    }

    fn to_bytes(&self) -> (bytes: Vec<u8>)
        ensures
            bytes@ == seq![*self],
    {
        let mut bytes: Vec<u8> = Vec::with_capacity(U8_SIZE);
        bytes.push(*self);
        assert(bytes@ =~= seq![*self]);
        bytes
    }
}

impl FromBytes for u8 {
    open spec fn decoding(bytes: Seq<u8>) -> Result<(u8, Seq<u8>), Error> {
        if bytes.len() < 1 {
            Err(Error::EarlyEndOfStream)
        } else {
            Ok((bytes[0], bytes.skip(1)))
        }
    }

    fn from_bytes(bytes: &[u8]) -> (r: Result<(u8, &[u8]), Error>) {
        if bytes.len() < U8_SIZE {
            return Err(Error::EarlyEndOfStream);
        }
        let rest = slice_subrange(bytes, U8_SIZE, bytes.len());
        Ok((bytes[0], rest))
    }
}

/// The unsigned number with the same 32 bits as `x` in two's complement.
pub open spec fn i32_bits(x: i32) -> u32 {
    if x >= 0 {
        x as u32
    } else {
        (x + 0x1_0000_0000) as u32
    }
}

/// The signed number with the same 32 bits as `u` in two's complement.
pub open spec fn i32_of_bits(u: u32) -> i32 {
    if u < 0x8000_0000 {
        u as i32
    } else {
        (u - 0x1_0000_0000) as i32
    }
}

/// The four bytes of `x` in two's complement, least significant first.
pub open spec fn i32_le(x: i32) -> Seq<u8> {
    u32_le(i32_bits(x))
}

/// What the front of `bytes` decodes to as an `i32`.
pub open spec fn i32_decoding(bytes: Seq<u8>) -> Result<(i32, Seq<u8>), Error> {
    if bytes.len() < 4 {
        Err(Error::EarlyEndOfStream)
    } else {
        Ok((i32_of_bits(u32_from_le(bytes)), bytes.skip(4)))
    }
}

impl ToBytes for i32 {
    open spec fn encodable(&self) -> bool {
        true
    }

    open spec fn encoding(&self) -> Seq<u8> {
        i32_le(*self)
    }

    fn is_encodable(&self) -> (ok: bool) {
        true
    }

    fn to_bytes(&self) -> (bytes: Vec<u8>)
        ensures
            bytes@ == i32_le(*self),
    {
        let x: i32 = *self;
        let bits: u32 = if x >= 0 {
            x as u32
        } else {
            (x as i64 + 0x1_0000_0000i64) as u32
        };
        bits.to_bytes()
    }
}

impl FromBytes for i32 {
    open spec fn decoding(bytes: Seq<u8>) -> Result<(i32, Seq<u8>), Error> {
        i32_decoding(bytes)
    }

    fn from_bytes(bytes: &[u8]) -> (r: Result<(i32, &[u8]), Error>) {
        match u32::from_bytes(bytes) {
            Err(e) => Err(e),
            Ok((bits, rest)) => {
                let x: i32 = if bits < 0x8000_0000u32 {
                    bits as i32
                } else {
                    (bits as i64 - 0x1_0000_0000i64) as i32
                };
                Ok((x, rest))
            },
        }
    }
}

/// Decoding what `i32` encoding wrote gives the number back and consumes
/// exactly its four bytes.
pub proof fn lemma_i32_round_trip(x: i32, rest: Seq<u8>)
    ensures
        i32_decoding(i32_le(x) + rest) == Ok::<(i32, Seq<u8>), Error>((x, rest)),
        i32_le(x).len() == 4,
{
    lemma_u32_round_trip(i32_bits(x), rest);
}

/// The eight bytes of `x`, least significant first.
pub open spec fn u64_le(x: u64) -> Seq<u8> {
    u32_le((x % 0x1_0000_0000) as u32) + u32_le((x / 0x1_0000_0000) as u32)
}

/// The number whose little-endian bytes are the first eight of `b`.
pub open spec fn u64_from_le(b: Seq<u8>) -> u64 {
    (u32_from_le(b) + u32_from_le(b.skip(4)) * 0x1_0000_0000) as u64
}

/// What the front of `bytes` decodes to as a `u64`.
pub open spec fn u64_decoding(bytes: Seq<u8>) -> Result<(u64, Seq<u8>), Error> {
    if bytes.len() < 8 {
        Err(Error::EarlyEndOfStream)
    } else {
        Ok((u64_from_le(bytes), bytes.skip(8)))
    }
}

impl ToBytes for u64 {
    open spec fn encodable(&self) -> bool {
        true
    }

    open spec fn encoding(&self) -> Seq<u8> {
        u64_le(*self)
    }

    fn is_encodable(&self) -> (ok: bool) {
        true
    }

    fn to_bytes(&self) -> (bytes: Vec<u8>)
        ensures
            bytes@ == u64_le(*self),
    {
        let x: u64 = *self;
        let low: u32 = (x % 0x1_0000_0000u64) as u32;
        let high: u32 = (x / 0x1_0000_0000u64) as u32;
        let mut bytes = low.to_bytes();
        let mut upper = high.to_bytes();
        bytes.append(&mut upper);
        bytes
    }
}

impl FromBytes for u64 {
    open spec fn decoding(bytes: Seq<u8>) -> Result<(u64, Seq<u8>), Error> {
        u64_decoding(bytes)
    }

    fn from_bytes(bytes: &[u8]) -> (r: Result<(u64, &[u8]), Error>) {
        if bytes.len() < U64_SIZE {
            return Err(Error::EarlyEndOfStream);
        }
        match u32::from_bytes(bytes) {
            Err(e) => Err(e),
            Ok((low, after_low)) => match u32::from_bytes(after_low) {
                Err(e) => Err(e),
                Ok((high, rest)) => {
                    let x: u64 = low as u64 + high as u64 * 0x1_0000_0000u64;
                    assert(rest@ =~= bytes@.skip(8));
                    Ok((x, rest))
                },
            },
        }
    }
}

/// Decoding what `u64` encoding wrote gives the number back and consumes
/// exactly its eight bytes.
pub proof fn lemma_u64_round_trip(x: u64, rest: Seq<u8>)
    ensures
        u64_decoding(u64_le(x) + rest) == Ok::<(u64, Seq<u8>), Error>((x, rest)),
        u64_le(x).len() == 8,
{
    let low = (x % 0x1_0000_0000) as u32;
    let high = (x / 0x1_0000_0000) as u32;
    let tail = u32_le(high) + rest;
    let b = u64_le(x) + rest;
    assert(b =~= u32_le(low) + tail);
    assert(u32_from_le(b) == low && b.skip(4) == tail) by {
        lemma_u32_round_trip(low, tail);
    }
    assert(u32_from_le(tail) == high && tail.skip(4) == rest) by {
        lemma_u32_round_trip(high, rest);
    }
    assert(u32_le(low).len() == 4 && u32_le(high).len() == 4) by {
        lemma_u32_round_trip(low, tail);
        lemma_u32_round_trip(high, rest);
    }
    assert(b.skip(8) =~= b.skip(4).skip(4));
    assert(low + high * 0x1_0000_0000 == x);
}

/// What the front of `bytes` decodes to as a 32-byte array: its first 32
/// bytes, with no prefix.
pub open spec fn fixed32_decoding(bytes: Seq<u8>) -> Result<(Seq<u8>, Seq<u8>), Error> {
    if bytes.len() < 32 {
        Err(Error::EarlyEndOfStream)
    } else {
        Ok((bytes.take(32), bytes.skip(32)))
    }
}

impl ToBytes for [u8; 32] {
    open spec fn encodable(&self) -> bool {
        true
    }

    open spec fn encoding(&self) -> Seq<u8> {
        self@
    }

    fn is_encodable(&self) -> (ok: bool) {
        true
    }

    fn to_bytes(&self) -> (bytes: Vec<u8>)
        ensures
            bytes@ == self@,
    {
        slice_to_vec(self.as_slice())
    }
}

impl FromBytes for [u8; 32] {
    open spec fn decoding(bytes: Seq<u8>) -> Result<(Seq<u8>, Seq<u8>), Error> {
        fixed32_decoding(bytes)
    }

    fn from_bytes(bytes: &[u8]) -> (r: Result<([u8; 32], &[u8]), Error>) {
        if bytes.len() < N32 {
            return Err(Error::EarlyEndOfStream);
        }
        let mut array: [u8; 32] = [0u8; 32];
        let mut i: usize = 0;
        while i < N32
            invariant
                i <= 32,
                bytes@.len() >= 32,
                forall|j: int| 0 <= j < i ==> array@[j] == bytes@[j],
            decreases 32 - i,
        {
            array[i] = bytes[i];
            i = i + 1;
        }
        let rest = slice_subrange(bytes, N32, bytes.len());
        assert(array@ =~= bytes@.take(32));
        Ok((array, rest))
    }
}

/// The wire image of a byte string: its length in four bytes, then the bytes.
pub open spec fn bytes_encoding(s: Seq<u8>) -> Seq<u8> {
    u32_le(s.len() as u32) + s
}

/// What the front of `bytes` decodes to as a length-prefixed byte string.
pub open spec fn bytes_decoding(bytes: Seq<u8>) -> Result<(Seq<u8>, Seq<u8>), Error> {
    match u32::decoding(bytes) {
        Err(e) => Err(e),
        Ok((n, rest)) => if rest.len() < n {
            Err(Error::EarlyEndOfStream)
        } else {
            Ok((rest.take(n as int), rest.skip(n as int)))
        },
    }
}

/// Appends to `out` the length prefix for `len` items.
fn push_len(out: &mut Vec<u8>, len: usize)
    requires
        len <= u32::MAX,
    ensures
        final(out)@ == old(out)@ + u32_le(len as u32),
{
    let mut prefix = (len as u32).to_bytes();
    out.append(&mut prefix);
}

impl ToBytes for Vec<u8> {
    open spec fn encodable(&self) -> bool {
        self@.len() <= u32::MAX
    }

    open spec fn encoding(&self) -> Seq<u8> {
        bytes_encoding(self@)
    }

    fn is_encodable(&self) -> (ok: bool) {
        self.len() <= u32::MAX as usize
    }

    fn to_bytes(&self) -> (bytes: Vec<u8>)
        ensures
            bytes@ == bytes_encoding(self@),
    {
        let mut bytes: Vec<u8> = Vec::new();
        push_len(&mut bytes, self.len());
        let mut payload = slice_to_vec(self.as_slice());
        bytes.append(&mut payload);
        bytes
    }
}

impl FromBytes for Vec<u8> {
    open spec fn decoding(bytes: Seq<u8>) -> Result<(Seq<u8>, Seq<u8>), Error> {
        bytes_decoding(bytes)
    }

    fn from_bytes(bytes: &[u8]) -> (r: Result<(Vec<u8>, &[u8]), Error>) {
        match u32::from_bytes(bytes) {
            Err(e) => Err(e),
            Ok((n, after_len)) => {
                if after_len.len() < n as usize {
                    return Err(Error::EarlyEndOfStream);
                }
                let payload = slice_subrange(after_len, 0, n as usize);
                let rest = slice_subrange(after_len, n as usize, after_len.len());
                Ok((slice_to_vec(payload), rest))
            },
        }
    }
}

/// Decoding what byte-string encoding wrote gives the bytes back and leaves
/// exactly what followed them.
pub proof fn lemma_bytes_round_trip(s: Seq<u8>, rest: Seq<u8>)
    requires
        s.len() <= u32::MAX,
    ensures
        bytes_decoding(bytes_encoding(s) + rest) == Ok::<(Seq<u8>, Seq<u8>), Error>((s, rest)),
        bytes_encoding(s).len() == 4 + s.len(),
{
    let n = s.len() as u32;
    lemma_u32_round_trip(n, s + rest);
    assert(bytes_encoding(s) + rest =~= u32_le(n) + (s + rest));
    assert((s + rest).take(n as int) =~= s);
    assert((s + rest).skip(n as int) =~= rest);
}

/// A byte string whose prefix announces more bytes than follow it is
/// rejected as ending early.
pub proof fn lemma_bytes_truncated(bytes: Seq<u8>)
    requires
        bytes.len() >= 4,
        u32_from_le(bytes) > bytes.len() - 4,
    ensures
        bytes_decoding(bytes) == Err::<(Seq<u8>, Seq<u8>), Error>(Error::EarlyEndOfStream),
{
}

/// The encodings of the numbers of `s`, one after the other.
pub open spec fn i32s_payload(s: Seq<i32>) -> Seq<u8>
    decreases s.len(),
{
    if s.len() == 0 {
        Seq::empty()
    } else {
        i32_le(s[0]) + i32s_payload(s.drop_first())
    }
}

/// The wire image of a list of numbers: their count in four bytes, then
/// each number.
pub open spec fn i32s_encoding(s: Seq<i32>) -> Seq<u8> {
    u32_le(s.len() as u32) + i32s_payload(s)
}

/// Reads `n` more numbers from the front of `bytes` behind those already
/// read into `acc`.
pub open spec fn i32s_decoding_from(bytes: Seq<u8>, n: nat, acc: Seq<i32>) -> Result<
    (Seq<i32>, Seq<u8>),
    Error,
>
    decreases n,
{
    if n == 0 {
        Ok((acc, bytes))
    } else {
        match i32_decoding(bytes) {
            Err(e) => Err(e),
            Ok((x, rest)) => i32s_decoding_from(rest, (n - 1) as nat, acc.push(x)),
        }
    }
}

/// What the front of `bytes` decodes to as a counted list of numbers.
pub open spec fn i32s_decoding(bytes: Seq<u8>) -> Result<(Seq<i32>, Seq<u8>), Error> {
    match u32::decoding(bytes) {
        Err(e) => Err(e),
        Ok((n, rest)) => i32s_decoding_from(rest, n as nat, Seq::empty()),
    }
}

/// The payload of a list grows at its end by the encoding of the number
/// appended.
pub proof fn lemma_i32s_payload_push(s: Seq<i32>, x: i32)
    ensures
        i32s_payload(s.push(x)) == i32s_payload(s) + i32_le(x),
    decreases s.len(),
{
    let grown = s.push(x);
    assert(grown[0] == if s.len() == 0 { x } else { s[0] });
    if s.len() == 0 {
        assert(grown.drop_first() =~= Seq::<i32>::empty());
        assert(i32s_payload(grown.drop_first()) =~= Seq::<u8>::empty());
        assert(i32s_payload(s) =~= Seq::<u8>::empty());
        assert(i32s_payload(grown) =~= i32_le(x) + i32s_payload(grown.drop_first()));
        assert(i32s_payload(grown) =~= i32s_payload(s) + i32_le(x));
    } else {
        lemma_i32s_payload_push(s.drop_first(), x);
        assert(grown.drop_first() =~= s.drop_first().push(x));
        assert(i32s_payload(grown) =~= i32_le(s[0]) + i32s_payload(grown.drop_first()));
        assert(i32s_payload(grown) =~= i32s_payload(s) + i32_le(x));
    }
}

impl ToBytes for Vec<i32> {
    open spec fn encodable(&self) -> bool {
        self@.len() <= u32::MAX
    }

    open spec fn encoding(&self) -> Seq<u8> {
        i32s_encoding(self@)
    }

    fn is_encodable(&self) -> (ok: bool) {
        self.len() <= u32::MAX as usize
    }

    fn to_bytes(&self) -> (bytes: Vec<u8>)
        ensures
            bytes@ == i32s_encoding(self@),
    {
        let mut bytes: Vec<u8> = Vec::new();
        push_len(&mut bytes, self.len());
        let mut i: usize = 0;
        while i < self.len()
            invariant
                i <= self@.len(),
                bytes@ == u32_le(self@.len() as u32) + i32s_payload(self@.take(i as int)),
            decreases self@.len() - i,
        {
            let mut item = self[i].to_bytes();
            bytes.append(&mut item);
            proof {
                lemma_i32s_payload_push(self@.take(i as int), self@[i as int]);
                assert(self@.take(i as int).push(self@[i as int]) =~= self@.take(i + 1));
            }
            i = i + 1;
        }
        assert(self@.take(i as int) =~= self@);
        bytes
    }
}

impl FromBytes for Vec<i32> {
    open spec fn decoding(bytes: Seq<u8>) -> Result<(Seq<i32>, Seq<u8>), Error> {
        i32s_decoding(bytes)
    }

    fn from_bytes(bytes: &[u8]) -> (r: Result<(Vec<i32>, &[u8]), Error>) {
        match u32::from_bytes(bytes) {
            Err(e) => Err(e),
            Ok((n, after_len)) => {
                let mut stream = after_len;
                let mut list: Vec<i32> = Vec::new();
                let mut i: u32 = 0;
                while i < n
                    invariant
                        i <= n,
                        u32::decoding(bytes@) == Ok::<(u32, Seq<u8>), Error>((n, after_len@)),
                        i32s_decoding_from(after_len@, n as nat, Seq::empty())
                            == i32s_decoding_from(stream@, (n - i) as nat, list@),
                    decreases n - i,
                {
                    match i32::from_bytes(stream) {
                        Err(e) => {
                            return Err(e);
                        },
                        Ok((x, rest)) => {
                            list.push(x);
                            stream = rest;
                        },
                    }
                    i = i + 1;
                }
                Ok((list, stream))
            },
        }
    }
}

/// Reading back the payload of a list gives its numbers in order behind
/// those already read.
pub proof fn lemma_i32s_payload_round_trip(s: Seq<i32>, rest: Seq<u8>, acc: Seq<i32>)
    ensures
        i32s_decoding_from(i32s_payload(s) + rest, s.len(), acc) == Ok::<
            (Seq<i32>, Seq<u8>),
            Error,
        >((acc + s, rest)),
    decreases s.len(),
{
    if s.len() == 0 {
        assert(i32s_payload(s) + rest =~= rest);
        assert(acc + s =~= acc);
    } else {
        let tail = s.drop_first();
        lemma_i32_round_trip(s[0], i32s_payload(tail) + rest);
        assert(i32s_payload(s) + rest =~= i32_le(s[0]) + (i32s_payload(tail) + rest));
        lemma_i32s_payload_round_trip(tail, rest, acc.push(s[0]));
        assert(acc.push(s[0]) + tail =~= acc + s);
    }
}

/// Decoding what list encoding wrote gives the numbers back and leaves
/// exactly what followed them.
pub proof fn lemma_i32s_round_trip(s: Seq<i32>, rest: Seq<u8>)
    requires
        s.len() <= u32::MAX,
    ensures
        i32s_decoding(i32s_encoding(s) + rest) == Ok::<(Seq<i32>, Seq<u8>), Error>((s, rest)),
{
    let n = s.len() as u32;
    lemma_u32_round_trip(n, i32s_payload(s) + rest);
    assert(i32s_encoding(s) + rest =~= u32_le(n) + (i32s_payload(s) + rest));
    lemma_i32s_payload_round_trip(s, rest, Seq::empty());
    assert(Seq::<i32>::empty() + s =~= s);
}

/// A list whose count announces more numbers than the bytes that follow can
/// hold is rejected as ending early.
pub proof fn lemma_i32s_truncated(bytes: Seq<u8>, n: nat, acc: Seq<i32>)
    requires
        bytes.len() < 4 * n,
    ensures
        i32s_decoding_from(bytes, n, acc) == Err::<(Seq<i32>, Seq<u8>), Error>(
            Error::EarlyEndOfStream,
        ),
    decreases n,
{
    if bytes.len() >= 4 {
        let x = i32_of_bits(u32_from_le(bytes));
        lemma_i32s_truncated(bytes.skip(4), (n - 1) as nat, acc.push(x));
    }
}

/// The wire image of a text: the length of its UTF-8 form in four bytes,
/// then that form.
pub open spec fn string_encoding(s: Seq<char>) -> Seq<u8> {
    bytes_encoding(encode_utf8(s))
}

/// Whether the UTF-8 form of a text fits a four-byte length.
pub open spec fn string_encodable(s: Seq<char>) -> bool {
    encode_utf8(s).len() <= u32::MAX
}

/// What the front of `bytes` decodes to as a text: a byte string that must
/// be well-formed UTF-8.
pub open spec fn string_decoding(bytes: Seq<u8>) -> Result<(Seq<char>, Seq<u8>), Error> {
    match bytes_decoding(bytes) {
        Err(e) => Err(e),
        Ok((payload, rest)) => if valid_utf8(payload) {
            Ok((decode_utf8(payload), rest))
        } else {
            Err(Error::FormattingError)
        },
    }
}

/// `String::from_utf8`, with its error dropped: a text comes back exactly
/// when the bytes are well-formed UTF-8, and its UTF-8 form is those bytes.
#[verifier::external_body]
fn string_from_utf8(bytes: Vec<u8>) -> (r: Option<String>)
    ensures
        r is Some <==> valid_utf8(bytes@),
        r matches Some(s) ==> encode_utf8(s@) == bytes@,
{
    String::from_utf8(bytes).ok()
}

impl ToBytes for String {
    open spec fn encodable(&self) -> bool {
        string_encodable(self@)
    }

    open spec fn encoding(&self) -> Seq<u8> {
        string_encoding(self@)
    }

    fn is_encodable(&self) -> (ok: bool) {
        self.as_str().as_bytes().len() <= u32::MAX as usize
    }

    fn to_bytes(&self) -> (bytes: Vec<u8>)
        ensures
            bytes@ == string_encoding(self@),
    {
        let text = self.as_str().as_bytes();
        let mut bytes: Vec<u8> = Vec::new();
        push_len(&mut bytes, text.len());
        let mut payload = slice_to_vec(text);
        bytes.append(&mut payload);
        bytes
    }
}

impl FromBytes for String {
    open spec fn decoding(bytes: Seq<u8>) -> Result<(Seq<char>, Seq<u8>), Error> {
        string_decoding(bytes)
    }

    fn from_bytes(bytes: &[u8]) -> (r: Result<(String, &[u8]), Error>) {
        match Vec::<u8>::from_bytes(bytes) {
            Err(e) => Err(e),
            Ok((payload, rest)) => {
                match string_from_utf8(payload) {
                    None => Err(Error::FormattingError),
                    Some(text) => {
                        proof {
                            vstd::utf8::encode_utf8_decode_utf8(text@);
                        }
                        Ok((text, rest))
                    },
                }
            },
        }
    }
}

/// Decoding what text encoding wrote gives the text back and leaves exactly
/// what followed it.
pub proof fn lemma_string_round_trip(s: Seq<char>, rest: Seq<u8>)
    requires
        string_encodable(s),
    ensures
        string_decoding(string_encoding(s) + rest) == Ok::<(Seq<char>, Seq<u8>), Error>(
            (s, rest),
        ),
{
    lemma_bytes_round_trip(encode_utf8(s), rest);
    vstd::utf8::encode_utf8_valid_utf8(s);
    vstd::utf8::encode_utf8_decode_utf8(s);
}

/// The encodings of the texts of `ss`, one after the other.
pub open spec fn strings_payload(ss: Seq<Seq<char>>) -> Seq<u8>
    decreases ss.len(),
{
    if ss.len() == 0 {
        Seq::empty()
    } else {
        string_encoding(ss[0]) + strings_payload(ss.drop_first())
    }
}

/// The wire image of a list of texts: their count in four bytes, then each
/// text.
pub open spec fn strings_encoding(ss: Seq<Seq<char>>) -> Seq<u8> {
    u32_le(ss.len() as u32) + strings_payload(ss)
}

/// Whether the count of a list of texts, and each text in it, fits a
/// four-byte length.
pub open spec fn strings_encodable(ss: Seq<Seq<char>>) -> bool {
    &&& ss.len() <= u32::MAX
    &&& forall|i: int| 0 <= i < ss.len() ==> string_encodable(#[trigger] ss[i])
}

/// Reads `n` more texts from the front of `bytes` behind those already read
/// into `acc`.
pub open spec fn strings_decoding_from(bytes: Seq<u8>, n: nat, acc: Seq<Seq<char>>) -> Result<
    (Seq<Seq<char>>, Seq<u8>),
    Error,
>
    decreases n,
{
    if n == 0 {
        Ok((acc, bytes))
    } else {
        match string_decoding(bytes) {
            Err(e) => Err(e),
            Ok((s, rest)) => strings_decoding_from(rest, (n - 1) as nat, acc.push(s)),
        }
    }
}

/// What the front of `bytes` decodes to as a counted list of texts.
pub open spec fn strings_decoding(bytes: Seq<u8>) -> Result<(Seq<Seq<char>>, Seq<u8>), Error> {
    match u32::decoding(bytes) {
        Err(e) => Err(e),
        Ok((n, rest)) => strings_decoding_from(rest, n as nat, Seq::empty()),
    }
}

/// The payload of a list grows at its end by the encoding of the text
/// appended.
pub proof fn lemma_strings_payload_push(ss: Seq<Seq<char>>, s: Seq<char>)
    ensures
        strings_payload(ss.push(s)) == strings_payload(ss) + string_encoding(s),
    decreases ss.len(),
{
    let grown = ss.push(s);
    assert(grown[0] == if ss.len() == 0 { s } else { ss[0] });
    if ss.len() == 0 {
        assert(grown.drop_first() =~= Seq::<Seq<char>>::empty());
        assert(strings_payload(grown.drop_first()) =~= Seq::<u8>::empty());
        assert(strings_payload(ss) =~= Seq::<u8>::empty());
        assert(strings_payload(grown) =~= string_encoding(s) + strings_payload(
            grown.drop_first(),
        ));
        assert(strings_payload(grown) =~= strings_payload(ss) + string_encoding(s));
    } else {
        lemma_strings_payload_push(ss.drop_first(), s);
        assert(grown.drop_first() =~= ss.drop_first().push(s));
        assert(strings_payload(grown) =~= string_encoding(ss[0]) + strings_payload(
            grown.drop_first(),
        ));
        assert(strings_payload(grown) =~= strings_payload(ss) + string_encoding(s));
    }
}

/// Tests at run time whether a list of texts can be encoded.
pub fn strings_is_encodable(list: &Vec<String>) -> (ok: bool)
    ensures
        ok == strings_encodable(list.deep_view()),
{
    if list.len() > u32::MAX as usize {
        return false;
    }
    let mut i: usize = 0;
    while i < list.len()
        invariant
            i <= list@.len(),
            list@.len() <= u32::MAX,
            forall|j: int| 0 <= j < i ==> string_encodable(#[trigger] list.deep_view()[j]),
        decreases list@.len() - i,
    {
        if !list[i].is_encodable() {
            assert(!string_encodable(list.deep_view()[i as int]));
            return false;
        }
        i = i + 1;
    }
    true
}

/// Encodes a list of texts.
pub fn strings_to_bytes(list: &Vec<String>) -> (bytes: Vec<u8>)
    requires
        strings_encodable(list.deep_view()),
    ensures
        bytes@ == strings_encoding(list.deep_view()),
{
    let ghost texts = list.deep_view();
    let mut bytes: Vec<u8> = Vec::new();
    push_len(&mut bytes, list.len());
    let mut i: usize = 0;
    while i < list.len()
        invariant
            i <= list@.len(),
            texts == list.deep_view(),
            strings_encodable(texts),
            bytes@ == u32_le(texts.len() as u32) + strings_payload(texts.take(i as int)),
        decreases list@.len() - i,
    {
        assert(string_encodable(texts[i as int]));
        let mut item = list[i].to_bytes();
        bytes.append(&mut item);
        proof {
            lemma_strings_payload_push(texts.take(i as int), texts[i as int]);
            assert(texts.take(i as int).push(texts[i as int]) =~= texts.take(i + 1));
        }
        i = i + 1;
    }
    assert(texts.take(i as int) =~= texts);
    bytes
}

/// Decodes a counted list of texts from the front of `bytes` and hands back
/// the rest.
pub fn strings_from_bytes(bytes: &[u8]) -> (r: Result<(Vec<String>, &[u8]), Error>)
    ensures
        match r {
            Ok((list, rest)) => strings_decoding(bytes@) == Ok::<
                (Seq<Seq<char>>, Seq<u8>),
                Error,
            >((list.deep_view(), rest@)),
            Err(e) => strings_decoding(bytes@) == Err::<(Seq<Seq<char>>, Seq<u8>), Error>(e),
        },
{
    match u32::from_bytes(bytes) {
        Err(e) => Err(e),
        Ok((n, after_len)) => {
            let mut stream = after_len;
            let mut list: Vec<String> = Vec::new();
            let mut i: u32 = 0;
            assert(list.deep_view() =~= Seq::<Seq<char>>::empty());
            while i < n
                invariant
                    i <= n,
                    u32::decoding(bytes@) == Ok::<(u32, Seq<u8>), Error>((n, after_len@)),
                    strings_decoding_from(after_len@, n as nat, Seq::empty())
                        == strings_decoding_from(stream@, (n - i) as nat, list.deep_view()),
                decreases n - i,
            {
                let ghost before = list.deep_view();
                match String::from_bytes(stream) {
                    Err(e) => {
                        return Err(e);
                    },
                    Ok((text, rest)) => {
                        let ghost chars = text@;
                        list.push(text);
                        stream = rest;
                        assert(list.deep_view() =~= before.push(chars));
                    },
                }
                i = i + 1;
            }
            Ok((list, stream))
        },
    }
}

/// Reading back the payload of a list gives its texts in order behind those
/// already read.
pub proof fn lemma_strings_payload_round_trip(
    ss: Seq<Seq<char>>,
    rest: Seq<u8>,
    acc: Seq<Seq<char>>,
)
    requires
        forall|i: int| 0 <= i < ss.len() ==> string_encodable(#[trigger] ss[i]),
    ensures
        strings_decoding_from(strings_payload(ss) + rest, ss.len(), acc) == Ok::<
            (Seq<Seq<char>>, Seq<u8>),
            Error,
        >((acc + ss, rest)),
    decreases ss.len(),
{
    if ss.len() == 0 {
        assert(strings_payload(ss) + rest =~= rest);
        assert(acc + ss =~= acc);
    } else {
        let tail = ss.drop_first();
        assert(string_encodable(ss[0]));
        lemma_string_round_trip(ss[0], strings_payload(tail) + rest);
        assert(strings_payload(ss) + rest =~= string_encoding(ss[0]) + (strings_payload(tail)
            + rest));
        assert forall|i: int| 0 <= i < tail.len() implies string_encodable(#[trigger] tail[i]) by {
            assert(tail[i] == ss[i + 1]);
        }
        lemma_strings_payload_round_trip(tail, rest, acc.push(ss[0]));
        assert(acc.push(ss[0]) + tail =~= acc + ss);
    }
}

/// Decoding what list encoding wrote gives the texts back and leaves
/// exactly what followed them.
pub proof fn lemma_strings_round_trip(ss: Seq<Seq<char>>, rest: Seq<u8>)
    requires
        strings_encodable(ss),
    ensures
        strings_decoding(strings_encoding(ss) + rest) == Ok::<(Seq<Seq<char>>, Seq<u8>), Error>(
            (ss, rest),
        ),
{
    let n = ss.len() as u32;
    lemma_u32_round_trip(n, strings_payload(ss) + rest);
    assert(strings_encoding(ss) + rest =~= u32_le(n) + (strings_payload(ss) + rest));
    lemma_strings_payload_round_trip(ss, rest, Seq::empty());
    assert(Seq::<Seq<char>>::empty() + ss =~= ss);
}

/// Decodes a value that must fill the whole buffer: bytes left over behind
/// it are a formatting error.
pub fn deserialize<T: FromBytes>(bytes: &[u8]) -> (r: Result<T, Error>)
    ensures
        match T::decoding(bytes@) {
            Err(e) => r == Err::<T, Error>(e),
            Ok((v, rest)) => if rest.len() == 0 {
                r matches Ok(t) && t@ == v
            } else {
                r == Err::<T, Error>(Error::FormattingError)
            },
        },
{
    match T::from_bytes(bytes) {
        Err(e) => Err(e),
        Ok((value, rest)) => {
            if rest.len() == 0 {
                Ok(value)
            } else {
                Err(Error::FormattingError)
            }
        },
    }
}

} // verus!
