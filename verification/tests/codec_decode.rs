use bencodex::codec::decode::{
    decode_byte_string_impl, decode_dict_impl, decode_list_impl, decode_number_impl, decode_impl,
    decode_unicode_string_impl, read_number, Expect,
};
use bencodex::{BencodexNumber, BencodexValue, Decode, DecodeError};

#[test]
fn should_return_error_with_overflowed_start() {
    let expected_error = DecodeError::InvalidBencodexValueError;
    assert_eq!(expected_error, decode_impl(&vec![], 1).unwrap_err());
    assert_eq!(expected_error, decode_impl(&vec![b'1', b'2'], 2).unwrap_err());
    assert_eq!(expected_error, decode_impl(&vec![b'1', b'2'], 20).unwrap_err());
}

#[test]
fn decode_should_return_unexpected_token_error_with_invalid_source() {
    assert_eq!(
        DecodeError::UnexpectedTokenError { token: b'x', point: 0 },
        decode_impl(&vec![b'x'], 0).unwrap_err()
    );
    assert_eq!(
        DecodeError::UnexpectedTokenError { token: b'k', point: 4 },
        decode_impl(&vec![b'x', b'y', b'z', b'o', b'k'], 4).unwrap_err()
    );
    assert_eq!(
        DecodeError::UnexpectedTokenError { token: b'k', point: 1 },
        decode_byte_string_impl(&vec![b'1', b'k', b'a'], 0).unwrap_err()
    );
    assert_eq!(
        DecodeError::UnexpectedTokenError { token: b'k', point: 2 },
        decode_unicode_string_impl(&vec![b'u', b'1', b'k', b'a'], 0).unwrap_err()
    );
    assert_eq!(
        DecodeError::UnexpectedTokenError { token: b'a', point: 1 },
        decode_number_impl(&vec![b'i', b'a', b'a'], 0).unwrap_err()
    );
    assert_eq!(
        DecodeError::UnexpectedTokenError { token: b'a', point: 2 },
        decode_number_impl(&vec![b'i', b'1', b'a'], 0).unwrap_err()
    );
}

#[test]
fn decode_should_return_error_with_insufficient_length_source() {
    let expected_error = DecodeError::InvalidBencodexValueError;
    assert_eq!(expected_error, decode_dict_impl(&vec![b'd'], 0).unwrap_err());
    assert_eq!(expected_error, decode_dict_impl(&vec![b'd'], 2).unwrap_err());
    assert_eq!(expected_error, decode_dict_impl(&vec![], 0).unwrap_err());
    assert_eq!(expected_error, decode_list_impl(&vec![b'l'], 0).unwrap_err());
    assert_eq!(expected_error, decode_list_impl(&vec![b'l'], 2).unwrap_err());
    assert_eq!(expected_error, decode_list_impl(&vec![], 0).unwrap_err());
    assert_eq!(expected_error, decode_byte_string_impl(&vec![b'1'], 0).unwrap_err());
    assert_eq!(expected_error, decode_byte_string_impl(&vec![b'1', b':'], 0).unwrap_err());
    assert_eq!(
        expected_error,
        decode_byte_string_impl(&vec![b'2', b':', b'a'], 0).unwrap_err()
    );
    assert_eq!(expected_error, decode_byte_string_impl(&vec![], 0).unwrap_err());
    assert_eq!(expected_error, decode_unicode_string_impl(&vec![b'u'], 0).unwrap_err());
    assert_eq!(
        expected_error,
        decode_unicode_string_impl(&vec![b'u', b'1'], 0).unwrap_err()
    );
    assert_eq!(
        expected_error,
        decode_unicode_string_impl(&vec![b'u', b'2', b':', b'a'], 0).unwrap_err()
    );
    assert_eq!(
        expected_error,
        decode_unicode_string_impl(&vec![b'u', b'k'], 0).unwrap_err()
    );
    assert_eq!(expected_error, decode_unicode_string_impl(&vec![], 0).unwrap_err());
    assert_eq!(expected_error, decode_number_impl(&vec![b'i'], 0).unwrap_err());
    assert_eq!(expected_error, decode_number_impl(&vec![b'i', b'2'], 0).unwrap_err());
    assert_eq!(
        expected_error,
        decode_number_impl(&vec![b'i', b'-', b'2'], 0).unwrap_err()
    );
    assert_eq!(expected_error, decode_number_impl(&vec![], 0).unwrap_err());
}

#[test]
fn should_return_error_with_source_having_incorrect_key() {
    let expected_error = DecodeError::InvalidBencodexValueError;
    // { 0: null }
    assert_eq!(
        expected_error,
        decode_dict_impl(&vec![b'd', b'i', b'0', b'e', b'n', b'e'], 0).unwrap_err()
    );
    // { null: null }
    assert_eq!(
        expected_error,
        decode_dict_impl(&vec![b'd', b'n', b'n', b'e'], 0).unwrap_err()
    );
    // { list: null }
    assert_eq!(
        expected_error,
        decode_dict_impl(&vec![b'd', b'l', b'e', b'n', b'e'], 0).unwrap_err()
    );
    // { dictionary: null }
    assert_eq!(
        expected_error,
        decode_dict_impl(&vec![b'd', b'd', b'e', b'n', b'e'], 0).unwrap_err()
    );
    // { boolean: null }
    assert_eq!(
        expected_error,
        decode_dict_impl(&vec![b'd', b't', b'e', b'n', b'e'], 0).unwrap_err()
    );
}

#[test]
fn decode_should_pass_error() {
    assert_eq!(
        DecodeError::UnexpectedTokenError { token: b'k', point: 1 },
        decode_dict_impl(&vec![b'd', b'k', b'n', b'e'], 0).unwrap_err()
    );
    assert_eq!(
        DecodeError::UnexpectedTokenError { token: b'k', point: 4 },
        decode_dict_impl(&vec![b'd', b'1', b':', b'a', b'k', b'e'], 0).unwrap_err()
    );
    assert_eq!(
        DecodeError::UnexpectedTokenError { token: b'k', point: 1 },
        decode_list_impl(&vec![b'l', b'k', b'e'], 0).unwrap_err()
    );
    assert_eq!(DecodeError::InvalidBencodexValueError, vec![].decode().unwrap_err());
    assert_eq!(
        DecodeError::UnexpectedTokenError { token: b'_', point: 0 },
        vec![b'_'].decode().unwrap_err()
    );
}

#[test]
fn should_return_unexpected_token_error() {
    let decode_error = b'a'.expect(b'u', 12).unwrap_err();
    if let DecodeError::UnexpectedTokenError { token, point } = decode_error {
        assert_eq!(b'a', token);
        assert_eq!(12, point);
    }

    let decode_error = b'x'.expect(b'u', 100).unwrap_err();
    if let DecodeError::UnexpectedTokenError { token, point } = decode_error {
        assert_eq!(b'x', token);
        assert_eq!(100, point);
    }
}

#[test]
fn fmt() {
    assert_eq!(
        "InvalidBencodexValueError",
        DecodeError::InvalidBencodexValueError.to_string()
    )
}

#[test]
fn should_return_unexpected_token_error_with_negative_length_number() {
    assert_eq!(
        DecodeError::UnexpectedTokenError { token: b'-', point: 1 },
        decode_unicode_string_impl(&vec![b'u', b'-', b'1', b':', b'a'], 0).unwrap_err()
    );
}

#[test]
fn should_return_error_with_invalid_source_having_invalid_unicode_string() {
    assert_eq!(
        DecodeError::InvalidBencodexValueError,
        decode_unicode_string_impl(&vec![b'u', b'1', b':', 0x90], 0).unwrap_err()
    );
}

#[test]
fn should_return_none() {
    assert_eq!(None, read_number(b""));
}

#[test]
fn should_return_ok_with_positive() {
    assert_eq!(Some((BencodexNumber::from_u64(1), 1)), read_number(b"1"));
    assert_eq!(Some((BencodexNumber::from_u64(326), 3)), read_number(b"326"));
}

#[test]
fn should_return_ok_with_negative() {
    assert_eq!(Some((BencodexNumber::from_i64(-1), 2)), read_number(b"-1"));
    assert_eq!(Some((BencodexNumber::from_i64(-845), 4)), read_number(b"-845"));
}

#[test]
fn should_return_none_with_single_minus_sign() {
    assert_eq!(None, read_number(b"-"));
}

#[test]
fn should_return_none_with_single_minus_sign_and_invalid_char() {
    assert_eq!(None, read_number(b"-e"));
    assert_eq!(None, read_number(b"-x"));
}

#[test]
fn read_number_normalizes_leading_zeros() {
    assert_eq!(Some((BencodexNumber::from_u64(7), 3)), read_number(b"007"));
    assert_eq!(Some((BencodexNumber::from_u64(0), 2)), read_number(b"-0"));
}

#[test]
fn decode_scenarios() {
    assert_eq!(BencodexValue::Null, vec![0x6e].decode().unwrap());
    assert_eq!(
        BencodexValue::Binary(b"hello".to_vec()),
        b"5:hello".to_vec().decode().unwrap()
    );
    assert_eq!(
        BencodexValue::Text("foo".to_string()),
        b"u3:foo".to_vec().decode().unwrap()
    );
    assert_eq!(
        BencodexValue::Number(BencodexNumber::from_i64(-42)),
        b"i-42e".to_vec().decode().unwrap()
    );
    assert_eq!(BencodexValue::Boolean(true), vec![b't'].decode().unwrap());
    assert_eq!(BencodexValue::Boolean(false), vec![b'f'].decode().unwrap());
}

#[test]
fn decode_dictionary_scenario() {
    // d1:an1:bne parses to { b"a": null, b"b": null }.
    let decoded = b"d1:an1:bne".to_vec().decode().unwrap();
    let mut expected: bencodex::BencodexDictionary = Vec::new();
    bencodex::dict_insert(&mut expected, vec![b'a'].into(), BencodexValue::Null);
    bencodex::dict_insert(&mut expected, vec![b'b'].into(), BencodexValue::Null);
    assert_eq!(BencodexValue::Dictionary(expected), decoded);
}

#[test]
fn decode_rejects_truncated_byte_string() {
    // A declared length that overruns the buffer is invalid, never read.
    assert_eq!(
        DecodeError::InvalidBencodexValueError,
        b"5:abc".to_vec().decode().unwrap_err()
    );
    assert_eq!(
        DecodeError::InvalidBencodexValueError,
        b"99999999999999999999999999:a".to_vec().decode().unwrap_err()
    );
}

#[test]
fn decode_rejects_negative_byte_string_length_at_top_level() {
    assert_eq!(
        DecodeError::UnexpectedTokenError { token: b'-', point: 1 },
        b"u-1:a".to_vec().decode().unwrap_err()
    );
}

#[test]
fn decode_rejects_duplicate_dictionary_keys() {
    // The same key twice is structurally invalid input.
    assert_eq!(
        DecodeError::InvalidBencodexValueError,
        b"d1:an1:ate".to_vec().decode().unwrap_err()
    );
}

#[test]
fn decode_ignores_trailing_bytes() {
    assert_eq!(BencodexValue::Null, b"nxyz".to_vec().decode().unwrap());
}
