use bencodex::json::{
    from_json, from_json_string, to_json, to_json_with_options, BinaryEncoding, JsonDecodeError,
    JsonEncodeOptions,
};
use bencodex::{dict_insert, BencodexDictionary, BencodexKey, BencodexNumber, BencodexValue};

#[test]
fn to_json_dictionary_scenario() {
    // { "foo": b"bar" } with base64 binary becomes the object with key
    // "\u{FEFF}foo" and value "b64:YmFy".
    let mut dict: BencodexDictionary = Vec::new();
    dict_insert(
        &mut dict,
        BencodexKey::Text("foo".to_string()),
        BencodexValue::Binary(b"bar".to_vec()),
    );
    let value = BencodexValue::Dictionary(dict);
    assert_eq!(
        "{\"\u{FEFF}foo\":\"b64:YmFy\"}",
        to_json_with_options(
            &value,
            JsonEncodeOptions { binary_encoding: BinaryEncoding::Base64 },
        )
    );
    assert_eq!(
        "{\"\u{FEFF}foo\":\"0x626172\"}",
        to_json_with_options(&value, JsonEncodeOptions { binary_encoding: BinaryEncoding::Hex })
    );
}

#[test]
fn to_json_scalars() {
    assert_eq!("null", to_json(&BencodexValue::Null));
    assert_eq!("true", to_json(&BencodexValue::Boolean(true)));
    assert_eq!("false", to_json(&BencodexValue::Boolean(false)));
    assert_eq!(
        "\"-42\"",
        to_json(&BencodexValue::Number(BencodexNumber::from_i64(-42)))
    );
    assert_eq!("\"b64:YmFy\"", to_json(&BencodexValue::Binary(b"bar".to_vec())));
    assert_eq!(
        "\"0xab\"",
        to_json_with_options(
            &BencodexValue::Binary(vec![0xab]),
            JsonEncodeOptions { binary_encoding: BinaryEncoding::Hex },
        )
    );
    assert_eq!(
        "[\"\u{FEFF}a\",null]",
        to_json(&BencodexValue::List(vec![
            BencodexValue::Text("a".to_string()),
            BencodexValue::Null,
        ]))
    );
}

#[test]
fn to_json_escapes_text() {
    // Newlines travel as the two-character sequence, and quotes and
    // backslashes carry their ordinary JSON escapes.
    assert_eq!(
        "\"\u{FEFF}a\\nb\"",
        to_json(&BencodexValue::Text("a\nb".to_string()))
    );
    assert_eq!(
        "\"\u{FEFF}q\\\"w\\\\e\"",
        to_json(&BencodexValue::Text("q\"w\\e".to_string()))
    );
    assert_eq!(
        "\"\u{FEFF}\\u0001\"",
        to_json(&BencodexValue::Text("\u{1}".to_string()))
    );
}

#[test]
fn from_json_accepts_the_bridge_conventions() {
    assert_eq!(
        BencodexValue::Null,
        from_json(&serde_json::Value::Null).unwrap()
    );
    assert_eq!(
        BencodexValue::Boolean(true),
        from_json(&serde_json::Value::Bool(true)).unwrap()
    );
    assert_eq!(
        BencodexValue::Binary(b"bar".to_vec()),
        from_json(&serde_json::Value::String("b64:YmFy".to_string())).unwrap()
    );
    assert_eq!(
        BencodexValue::Binary(vec![0x61, 0x62]),
        from_json(&serde_json::Value::String("0x6162".to_string())).unwrap()
    );
    assert_eq!(
        BencodexValue::Text("foo".to_string()),
        from_json(&serde_json::Value::String("\u{FEFF}foo".to_string())).unwrap()
    );
    assert_eq!(
        BencodexValue::Number(BencodexNumber::from_i64(-7)),
        from_json(&serde_json::Value::String("-7".to_string())).unwrap()
    );
    assert_eq!(
        BencodexValue::Number(BencodexNumber::from_u64(7)),
        from_json(&serde_json::Value::String("007".to_string())).unwrap()
    );
}

#[test]
fn from_json_rejects_what_does_not_fit() {
    assert_eq!(
        JsonDecodeError::InvalidJson,
        from_json(&serde_json::Value::String("0xZZ".to_string())).unwrap_err()
    );
    assert_eq!(
        JsonDecodeError::InvalidJson,
        from_json(&serde_json::Value::String("b64:!!".to_string())).unwrap_err()
    );
    assert_eq!(
        JsonDecodeError::InvalidJson,
        from_json(&serde_json::Value::String("plain".to_string())).unwrap_err()
    );
    assert_eq!(
        JsonDecodeError::InvalidJson,
        from_json(&serde_json::Value::String("1-2".to_string())).unwrap_err()
    );
    assert_eq!(
        JsonDecodeError::InvalidJson,
        from_json(&serde_json::Value::String("-".to_string())).unwrap_err()
    );
    // Numeric literals are always rejected: numbers arrive as strings.
    assert_eq!(
        JsonDecodeError::InvalidJson,
        from_json(&serde_json::Value::Number(serde_json::Number::from(5))).unwrap_err()
    );
}

#[test]
fn from_json_string_distinguishes_the_two_errors() {
    assert_eq!(BencodexValue::Null, from_json_string("null").unwrap());
    assert_eq!(
        JsonDecodeError::InvalidJsonString,
        from_json_string("nulll").unwrap_err()
    );
    assert_eq!(
        JsonDecodeError::InvalidJson,
        from_json_string("\"0xZZ\"").unwrap_err()
    );
}

#[test]
fn json_round_trip_both_encodings() {
    let mut dict: BencodexDictionary = Vec::new();
    dict_insert(
        &mut dict,
        BencodexKey::Binary(vec![1, 2]),
        BencodexValue::Number(BencodexNumber::from_i64(-5)),
    );
    dict_insert(
        &mut dict,
        BencodexKey::Text("k".to_string()),
        BencodexValue::List(vec![
            BencodexValue::Boolean(false),
            BencodexValue::Text("line\nbreak".to_string()),
            BencodexValue::Binary(vec![0, 255]),
        ]),
    );
    let value = BencodexValue::Dictionary(dict);

    let base64 = to_json_with_options(
        &value,
        JsonEncodeOptions { binary_encoding: BinaryEncoding::Base64 },
    );
    assert_eq!(value, from_json_string(&base64).unwrap());

    let hex = to_json_with_options(
        &value,
        JsonEncodeOptions { binary_encoding: BinaryEncoding::Hex },
    );
    assert_eq!(value, from_json_string(&hex).unwrap());
}

#[test]
fn display_string_is_the_hex_json_form() {
    let value = BencodexValue::Binary(vec![0xba, 0xbe]);
    assert_eq!("\"0xbabe\"", value.to_display_string());
    assert_eq!("null", BencodexValue::Null.to_display_string());
}
