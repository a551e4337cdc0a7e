use bencodex::{dict_insert, BencodexDictionary, BencodexKey, BencodexNumber, BencodexValue};
use bencodex::{Decode, Encode};

#[test]
fn text() {
    let s: &str = "value";
    let value: BencodexKey = s.into();
    assert_eq!(value, BencodexKey::Text("value".to_string()));

    let s: String = "value".to_string();
    let value: BencodexKey = s.into();
    assert_eq!(value, BencodexKey::Text("value".to_string()));

    let s: &str = "value";
    let value: BencodexValue = s.into();
    assert_eq!(value, BencodexValue::Text("value".to_string()));

    let s: String = "value".to_string();
    let value: BencodexValue = s.into();
    assert_eq!(value, BencodexValue::Text("value".to_string()));
}

#[test]
fn binary() {
    let b: &[u8] = &[0, 1, 2, 3];
    let value: BencodexKey = b.into();
    assert_eq!(value, BencodexKey::Binary(vec![0, 1, 2, 3]));

    let b: Vec<u8> = vec![0, 1, 2, 3];
    let value: BencodexKey = b.into();
    assert_eq!(value, BencodexKey::Binary(vec![0, 1, 2, 3]));

    let b: &[u8] = &[0, 1, 2, 3];
    let value: BencodexValue = b.into();
    assert_eq!(value, BencodexValue::Binary(vec![0, 1, 2, 3]));

    let b: Vec<u8> = vec![0, 1, 2, 3];
    let value: BencodexValue = b.into();
    assert_eq!(value, BencodexValue::Binary(vec![0, 1, 2, 3]));
}

#[test]
fn number() {
    let zero = BencodexValue::Number(BencodexNumber::from_u64(0));

    let n: u16 = 0;
    let value: BencodexValue = n.into();
    assert_eq!(value, zero);

    let n: u32 = 0;
    let value: BencodexValue = n.into();
    assert_eq!(value, zero);

    let n: u64 = 0;
    let value: BencodexValue = n.into();
    assert_eq!(value, zero);

    let n: i8 = 0;
    let value: BencodexValue = n.into();
    assert_eq!(value, zero);

    let n: i16 = 0;
    let value: BencodexValue = n.into();
    assert_eq!(value, zero);

    let n: i32 = 0;
    let value: BencodexValue = n.into();
    assert_eq!(value, zero);

    let n: i64 = 0;
    let value: BencodexValue = n.into();
    assert_eq!(value, zero);
}

#[test]
fn boolean() {
    let value: BencodexValue = true.into();
    assert_eq!(value, BencodexValue::Boolean(true));

    let value: BencodexValue = false.into();
    assert_eq!(value, BencodexValue::Boolean(false));
}

#[test]
fn null() {
    let value: BencodexValue = BencodexValue::Null;
    assert_eq!(value, BencodexValue::Null);
    assert_eq!(bencodex::BENCODEX_NULL, BencodexValue::Null);
}

#[test]
fn list() {
    let l = vec![
        BencodexValue::Null,
        BencodexValue::Null,
        BencodexValue::Null,
    ];
    let value: BencodexValue = l.into();
    assert_eq!(
        value,
        BencodexValue::List(vec![
            BencodexValue::Null,
            BencodexValue::Null,
            BencodexValue::Null
        ])
    );
}

#[test]
fn number_magnitude_bounds() {
    assert_eq!(
        BencodexValue::Number(BencodexNumber::from_i64(i64::MIN)),
        i64::MIN.into()
    );
    assert_eq!(
        BencodexValue::Number(BencodexNumber::from_u64(u64::MAX)),
        u64::MAX.into()
    );
}

#[test]
fn encode_decode_round_trip() {
    // A nested value goes to bytes and comes back unchanged.
    let mut inner: BencodexDictionary = Vec::new();
    dict_insert(&mut inner, BencodexKey::Binary(vec![9]), BencodexValue::Boolean(true));
    dict_insert(
        &mut inner,
        BencodexKey::Text("n".to_string()),
        BencodexValue::Number(BencodexNumber::from_i64(-123)),
    );
    let value = BencodexValue::List(vec![
        BencodexValue::Null,
        BencodexValue::Binary(vec![0, 1, 255]),
        BencodexValue::Text("text\nwith newline".to_string()),
        BencodexValue::Dictionary(inner),
        BencodexValue::List(vec![]),
    ]);

    let mut buf: Vec<u8> = Vec::new();
    value.clone().encode(&mut buf).unwrap();
    assert_eq!(value, buf.decode().unwrap());
}

#[test]
fn number_display_digits() {
    let n = BencodexNumber::from_i64(-845);
    assert!(n.negative);
    assert_eq!(b"845".to_vec(), n.digits);
    let z = BencodexNumber::zero();
    assert_eq!(b"0".to_vec(), z.digits);
    assert!(!z.negative);
}

#[test]
fn is_canonical_accepts_decoded_values_and_rejects_handmade_flaws() {
    // Everything the decoder returns is canonical.
    let decoded = b"d1:an1:bne".to_vec().decode().unwrap();
    assert!(decoded.is_canonical());

    // A dictionary assembled out of order is not.
    let unsorted = BencodexValue::Dictionary(vec![
        (BencodexKey::Text("b".to_string()), BencodexValue::Null),
        (BencodexKey::Text("a".to_string()), BencodexValue::Null),
    ]);
    assert!(!unsorted.is_canonical());

    // A number with a leading zero is not canonical; nor is negative zero.
    let padded = BencodexValue::Number(bencodex::BencodexNumber {
        negative: false,
        digits: b"007".to_vec(),
    });
    assert!(!padded.is_canonical());
    let negative_zero = BencodexValue::Number(bencodex::BencodexNumber {
        negative: true,
        digits: b"0".to_vec(),
    });
    assert!(!negative_zero.is_canonical());
}
