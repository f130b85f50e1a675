use contract_ffi::bytesrepr::{
    deserialize, strings_from_bytes, strings_is_encodable, strings_to_bytes, Error, FromBytes,
    ToBytes,
};

#[test]
fn u8_is_its_own_encoding() {
    assert_eq!(0xABu8.to_bytes(), vec![0xABu8]);
    let bytes = [0xABu8, 1, 2];
    assert_eq!(u8::from_bytes(&bytes), Ok((0xABu8, &bytes[1..])));
    assert_eq!(u8::from_bytes(&[]), Err(Error::EarlyEndOfStream));
}

#[test]
fn u32_encodes_least_significant_byte_first() {
    assert_eq!(0x0102_0304u32.to_bytes(), vec![4u8, 3, 2, 1]);
    assert_eq!(0u32.to_bytes(), vec![0u8, 0, 0, 0]);
    assert_eq!(u32::MAX.to_bytes(), vec![0xFFu8; 4]);
    let bytes = [4u8, 3, 2, 1, 9];
    assert_eq!(u32::from_bytes(&bytes), Ok((0x0102_0304u32, &bytes[4..])));
    assert_eq!(u32::from_bytes(&bytes[..3]), Err(Error::EarlyEndOfStream));
}

#[test]
fn i32_uses_twos_complement() {
    assert_eq!(42i32.to_bytes(), vec![0x2Au8, 0, 0, 0]);
    assert_eq!((-1i32).to_bytes(), vec![0xFFu8, 0xFF, 0xFF, 0xFF]);
    assert_eq!((-2i32).to_bytes(), vec![0xFEu8, 0xFF, 0xFF, 0xFF]);
    assert_eq!(i32::MIN.to_bytes(), vec![0u8, 0, 0, 0x80]);
    assert_eq!(i32::MAX.to_bytes(), vec![0xFFu8, 0xFF, 0xFF, 0x7F]);
    for x in [0i32, 1, -1, 42, -42, 65536, -65537, i32::MIN, i32::MAX] {
        let bytes = x.to_bytes();
        assert_eq!(bytes, x.to_le_bytes().to_vec());
        assert_eq!(i32::from_bytes(&bytes), Ok((x, &bytes[4..])));
    }
    assert_eq!(i32::from_bytes(&[1, 2, 3]), Err(Error::EarlyEndOfStream));
}

#[test]
fn u64_encodes_eight_bytes() {
    let x = 0x0102_0304_0506_0708u64;
    assert_eq!(x.to_bytes(), vec![8u8, 7, 6, 5, 4, 3, 2, 1]);
    for x in [0u64, 1, 255, 256, u32::MAX as u64, u32::MAX as u64 + 1, u64::MAX] {
        let bytes = x.to_bytes();
        assert_eq!(bytes, x.to_le_bytes().to_vec());
        assert_eq!(u64::from_bytes(&bytes), Ok((x, &bytes[8..])));
    }
    assert_eq!(u64::from_bytes(&[0u8; 7]), Err(Error::EarlyEndOfStream));
}

#[test]
fn fixed_array_has_no_prefix() {
    let mut array = [0u8; 32];
    for (i, b) in array.iter_mut().enumerate() {
        *b = i as u8;
    }
    let bytes = array.to_bytes();
    assert_eq!(bytes.len(), 32);
    assert_eq!(bytes, array.to_vec());
    let mut longer = bytes.clone();
    longer.push(0xEE);
    assert_eq!(<[u8; 32]>::from_bytes(&longer), Ok((array, &longer[32..])));
    assert_eq!(<[u8; 32]>::from_bytes(&bytes[..31]), Err(Error::EarlyEndOfStream));
}

#[test]
fn byte_string_carries_its_length() {
    let v: Vec<u8> = vec![10, 20, 30];
    let bytes = v.to_bytes();
    assert_eq!(bytes, vec![3u8, 0, 0, 0, 10, 20, 30]);
    assert_eq!(Vec::<u8>::from_bytes(&bytes), Ok((v.clone(), &bytes[7..])));
    let empty: Vec<u8> = Vec::new();
    assert_eq!(empty.to_bytes(), vec![0u8, 0, 0, 0]);
    assert!(v.is_encodable());
}

#[test]
fn byte_string_shorter_than_its_prefix_ends_early() {
    assert_eq!(Vec::<u8>::from_bytes(&[3, 0, 0, 0, 10, 20]), Err(Error::EarlyEndOfStream));
    assert_eq!(Vec::<u8>::from_bytes(&[3, 0, 0]), Err(Error::EarlyEndOfStream));
    assert_eq!(
        Vec::<u8>::from_bytes(&[0xFF, 0xFF, 0xFF, 0xFF, 1]),
        Err(Error::EarlyEndOfStream)
    );
}

#[test]
fn byte_string_leaves_trailing_bytes() {
    let bytes = [1u8, 0, 0, 0, 7, 8, 9];
    assert_eq!(Vec::<u8>::from_bytes(&bytes), Ok((vec![7u8], &bytes[5..])));
}

#[test]
fn list_of_numbers_carries_its_count() {
    let v: Vec<i32> = vec![1, -1, 256];
    let bytes = v.to_bytes();
    assert_eq!(
        bytes,
        vec![3u8, 0, 0, 0, 1, 0, 0, 0, 0xFF, 0xFF, 0xFF, 0xFF, 0, 1, 0, 0]
    );
    assert_eq!(Vec::<i32>::from_bytes(&bytes), Ok((v, &bytes[16..])));
    assert_eq!(
        Vec::<i32>::from_bytes(&bytes[..15]),
        Err(Error::EarlyEndOfStream)
    );
    let empty: Vec<i32> = Vec::new();
    assert_eq!(empty.to_bytes(), vec![0u8, 0, 0, 0]);
}

#[test]
fn text_is_length_prefixed_utf8() {
    let s = String::from("hi");
    assert_eq!(s.to_bytes(), vec![2u8, 0, 0, 0, b'h', b'i']);
    let accented = String::from("h\u{e9}");
    let bytes = accented.to_bytes();
    assert_eq!(bytes, vec![3u8, 0, 0, 0, b'h', 0xC3, 0xA9]);
    assert_eq!(String::from_bytes(&bytes), Ok((accented, &bytes[7..])));
    assert_eq!(String::new().to_bytes(), vec![0u8, 0, 0, 0]);
    assert!(s.is_encodable());
}

#[test]
fn text_that_is_not_utf8_is_badly_formatted() {
    assert_eq!(String::from_bytes(&[2, 0, 0, 0, 0xFF, 0xFE]), Err(Error::FormattingError));
    assert_eq!(String::from_bytes(&[1, 0, 0, 0, 0x80]), Err(Error::FormattingError));
    // A text that is cut off is reported as cut off, not as malformed.
    assert_eq!(String::from_bytes(&[2, 0, 0, 0, 0xFF]), Err(Error::EarlyEndOfStream));
}

#[test]
fn decoded_text_is_not_the_raw_payload() {
    // The bytes behind the prefix are the text itself, not the buffer.
    let bytes = [2u8, 0, 0, 0, b'o', b'k', b'!', b'!'];
    let (text, rest) = String::from_bytes(&bytes).unwrap();
    assert_eq!(text, "ok");
    assert_eq!(rest, &bytes[6..]);
}

#[test]
fn list_of_texts_round_trips() {
    let list = vec![String::from("a"), String::new(), String::from("bc")];
    assert!(strings_is_encodable(&list));
    let bytes = strings_to_bytes(&list);
    assert_eq!(
        bytes,
        vec![3u8, 0, 0, 0, 1, 0, 0, 0, b'a', 0, 0, 0, 0, 2, 0, 0, 0, b'b', b'c']
    );
    assert_eq!(strings_from_bytes(&bytes), Ok((list, &bytes[19..])));
    assert_eq!(strings_from_bytes(&bytes[..18]), Err(Error::EarlyEndOfStream));
    assert_eq!(
        strings_from_bytes(&[1, 0, 0, 0, 1, 0, 0, 0, 0xFF]),
        Err(Error::FormattingError)
    );
}

#[test]
fn deserialize_wants_the_whole_buffer() {
    assert_eq!(deserialize::<u32>(&[1, 0, 0, 0]), Ok(1u32));
    assert_eq!(deserialize::<u32>(&[1, 0, 0, 0, 0]), Err(Error::FormattingError));
    assert_eq!(deserialize::<u32>(&[1, 0, 0]), Err(Error::EarlyEndOfStream));
    assert_eq!(deserialize::<String>(&[1, 0, 0, 0, b'x']), Ok(String::from("x")));
}
