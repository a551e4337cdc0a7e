use bencodex::{
    compare_key, compare_vector, dict_insert, encode_key, encode_to_bytes, BencodexDictionary,
    BencodexKey, BencodexNumber, BencodexValue, Encode, Sink,
};
use std::cmp::Ordering;

struct ConditionFailWriter {
    throw_counts: Vec<u64>,
    call_count: u64,
}

impl ConditionFailWriter {
    fn new(throw_counts: Vec<u64>) -> ConditionFailWriter {
        ConditionFailWriter { throw_counts, call_count: 0 }
    }
}

impl Sink for ConditionFailWriter {
    // The ghost view of the output and the failure classification are
    // never evaluated at run time.
    fn out(&self) -> vstd::seq::Seq<u8> {
        panic!()
    }

    fn may_fail(&self) -> bool {
        panic!()
    }

    fn write_bytes(&mut self, _bytes: &[u8]) -> Result<(), std::io::Error> {
        self.call_count += 1;
        if self.throw_counts.contains(&self.call_count) {
            Err(std::io::Error::new(std::io::ErrorKind::Other, ""))
        } else {
            Ok(())
        }
    }
}

#[test]
fn should_return_equal() {
    assert_eq!(
        Ordering::Equal,
        compare_key(
            &BencodexKey::Text("foo".to_string()),
            &BencodexKey::Text("foo".to_string())
        )
    );
    assert_eq!(
        Ordering::Equal,
        compare_key(
            &BencodexKey::Binary(b"bar".to_vec()),
            &BencodexKey::Binary(b"bar".to_vec())
        )
    );
}

#[test]
fn encode_should_return_equal() {
    assert_eq!(Ordering::Equal, compare_vector(&Vec::<u8>::new(), &Vec::<u8>::new()));
    assert_eq!(Ordering::Equal, compare_vector(&vec![1, 2, 3], &vec![1, 2, 3]));
}

#[test]
fn should_return_greater() {
    assert_eq!(
        Ordering::Greater,
        compare_key(
            &BencodexKey::Text("".to_string()),
            &BencodexKey::Binary(b"".to_vec())
        )
    );
}

#[test]
fn encode_should_return_greater() {
    assert_eq!(Ordering::Greater, compare_vector(&vec![9], &vec![]));
    assert_eq!(Ordering::Greater, compare_vector(&vec![9], &vec![1, 2, 3]));
    assert_eq!(Ordering::Greater, compare_vector(&vec![1, 9, 2], &vec![1, 2, 2]));
}

#[test]
fn should_return_less() {
    assert_eq!(
        Ordering::Less,
        compare_key(
            &BencodexKey::Binary(b"".to_vec()),
            &BencodexKey::Text("".to_string())
        )
    );
}

#[test]
fn encode_should_return_less() {
    assert_eq!(Ordering::Less, compare_vector(&vec![], &vec![3]));
    assert_eq!(Ordering::Less, compare_vector(&vec![0], &vec![1, 2, 3]));
    assert_eq!(Ordering::Less, compare_vector(&vec![1], &vec![9, 1, 1]));
    assert_eq!(Ordering::Less, compare_vector(&vec![1, 2], &vec![1, 2, 3]));
    assert_eq!(Ordering::Less, compare_vector(&vec![1, 9, 9], &vec![9, 1, 1]));
}

#[test]
fn should_order_keys() {
    let mut bvalue: BencodexDictionary = Vec::new();
    dict_insert(&mut bvalue, BencodexKey::Text("ua".to_string()), BencodexValue::Null);
    dict_insert(&mut bvalue, BencodexKey::Binary(vec![b'a']), BencodexValue::Null);
    dict_insert(&mut bvalue, BencodexKey::Text("ub".to_string()), BencodexValue::Null);
    dict_insert(&mut bvalue, BencodexKey::Binary(vec![b'b']), BencodexValue::Null);

    let mut writer = Vec::new();
    assert!(bvalue.to_owned().encode(&mut writer).is_ok());
    assert_eq!(b"d1:an1:bnu2:uanu2:ubne".to_vec(), writer);
}

#[test]
fn should_pass_error() {
    let bvalue = ();

    // write 'n'
    let mut writer = ConditionFailWriter::new(vec![1]);
    let err = bvalue.encode(&mut writer).unwrap_err();
    assert_eq!(std::io::ErrorKind::Other, err.kind());
    assert_eq!("", err.to_string());
}

#[test]
fn encode_should_pass_error() {
    let bvalue = Vec::<u8>::new();

    // write length
    let mut writer = ConditionFailWriter::new(vec![1]);
    let err = bvalue.to_owned().encode(&mut writer).unwrap_err();
    assert_eq!(std::io::ErrorKind::Other, err.kind());
    assert_eq!("", err.to_string());

    // write ':'
    let mut writer = ConditionFailWriter::new(vec![2]);
    let err = bvalue.to_owned().encode(&mut writer).unwrap_err();
    assert_eq!(std::io::ErrorKind::Other, err.kind());
    assert_eq!("", err.to_string());

    // write bytes
    let mut writer = ConditionFailWriter::new(vec![3]);
    let err = bvalue.to_owned().encode(&mut writer).unwrap_err();
    assert_eq!(std::io::ErrorKind::Other, err.kind());
    assert_eq!("", err.to_string());
}

#[test]
fn sink_failure_aborts_each_production() {
    // Text: the marker, the length digits, the colon, and the bytes.
    let bvalue = String::new();
    for c in 1..=4u64 {
        let mut writer = ConditionFailWriter::new(vec![c]);
        let err = bvalue.to_owned().encode(&mut writer).unwrap_err();
        assert_eq!(std::io::ErrorKind::Other, err.kind());
        assert_eq!("", err.to_string());
    }

    // Boolean: one write for 't'.
    let mut writer = ConditionFailWriter::new(vec![1]);
    let err = true.encode(&mut writer).unwrap_err();
    assert_eq!(std::io::ErrorKind::Other, err.kind());
    assert_eq!("", err.to_string());

    // Machine integer: 'i', the digits, and 'e'.
    let bvalue: i64 = 0;
    for c in 1..=3u64 {
        let mut writer = ConditionFailWriter::new(vec![c]);
        let err = bvalue.encode(&mut writer).unwrap_err();
        assert_eq!(std::io::ErrorKind::Other, err.kind());
        assert_eq!("", err.to_string());
    }

    // Number: 'i', the sign and digits, and 'e'.
    let bvalue = BencodexNumber::from_i64(0);
    for c in 1..=3u64 {
        let mut writer = ConditionFailWriter::new(vec![c]);
        let err = bvalue.to_owned().encode(&mut writer).unwrap_err();
        assert_eq!(std::io::ErrorKind::Other, err.kind());
        assert_eq!("", err.to_string());
    }

    // List of one null: 'l', the element, and 'e'.
    let bvalue: Vec<BencodexValue> = vec![BencodexValue::Null];
    for c in 1..=3u64 {
        let mut writer = ConditionFailWriter::new(vec![c]);
        let err = bvalue.to_owned().encode(&mut writer).unwrap_err();
        assert_eq!(std::io::ErrorKind::Other, err.kind());
        assert_eq!("", err.to_string());
    }

    // Dictionary of one empty-text key and null value: 'd', the key's
    // four writes, the value, and 'e'.
    let mut bvalue: BencodexDictionary = Vec::new();
    dict_insert(&mut bvalue, BencodexKey::Text("".to_string()), BencodexValue::Null);
    for c in 1..=7u64 {
        let mut writer = ConditionFailWriter::new(vec![c]);
        let err = bvalue.to_owned().encode(&mut writer).unwrap_err();
        assert_eq!(std::io::ErrorKind::Other, err.kind());
        assert_eq!("", err.to_string());
    }
}

#[test]
fn encode_text_example() {
    let text = BencodexValue::Text("text".to_string());
    let mut vec = Vec::new();
    text.encode(&mut vec).unwrap();
    assert_eq!(vec, vec![b'u', b'4', b':', b't', b'e', b'x', b't']);
}

#[test]
fn encode_key_writes_canonical_bytes() {
    assert_eq!(
        b"u3:foo".to_vec(),
        encode_key(&BencodexKey::Text("foo".to_string()))
    );
    assert_eq!(b"3:bar".to_vec(), encode_key(&BencodexKey::Binary(b"bar".to_vec())));
}

#[test]
fn encode_numbers() {
    let mut buf = Vec::new();
    BencodexNumber::from_i64(-42).encode(&mut buf).unwrap();
    assert_eq!(b"i-42e".to_vec(), buf);

    let mut buf = Vec::new();
    BencodexNumber::from_u64(0).encode(&mut buf).unwrap();
    assert_eq!(b"i0e".to_vec(), buf);

    let mut buf = Vec::new();
    BencodexValue::Number(BencodexNumber::from_i64(i64::MIN)).encode(&mut buf).unwrap();
    assert_eq!(b"i-9223372036854775808e".to_vec(), buf);
}

#[test]
fn dictionary_insertion_order_does_not_change_the_bytes() {
    // The same logical dictionary, built in two insertion orders, encodes
    // to byte-identical output.
    let mut forward: BencodexDictionary = Vec::new();
    dict_insert(&mut forward, BencodexKey::Text("a".to_string()), BencodexValue::Boolean(true));
    dict_insert(&mut forward, BencodexKey::Binary(vec![1]), BencodexValue::Null);
    dict_insert(&mut forward, BencodexKey::Text("b".to_string()), BencodexValue::Boolean(false));

    let mut backward: BencodexDictionary = Vec::new();
    dict_insert(&mut backward, BencodexKey::Text("b".to_string()), BencodexValue::Boolean(false));
    dict_insert(&mut backward, BencodexKey::Binary(vec![1]), BencodexValue::Null);
    dict_insert(&mut backward, BencodexKey::Text("a".to_string()), BencodexValue::Boolean(true));

    let mut buf_forward = Vec::new();
    forward.encode(&mut buf_forward).unwrap();
    let mut buf_backward = Vec::new();
    backward.encode(&mut buf_backward).unwrap();
    assert_eq!(buf_forward, buf_backward);
}

#[test]
fn dict_insert_replaces_an_equal_key() {
    let mut dict: BencodexDictionary = Vec::new();
    assert_eq!(
        None,
        dict_insert(&mut dict, BencodexKey::Text("k".to_string()), BencodexValue::Boolean(true))
    );
    assert_eq!(
        Some(BencodexValue::Boolean(true)),
        dict_insert(&mut dict, BencodexKey::Text("k".to_string()), BencodexValue::Null)
    );
    assert_eq!(1, dict.len());
}

#[test]
fn encode_to_bytes_matches_the_sink_path() {
    let mut dict: BencodexDictionary = Vec::new();
    dict_insert(&mut dict, BencodexKey::Binary(vec![b'a']), BencodexValue::Null);
    dict_insert(&mut dict, BencodexKey::Text("ua".to_string()), BencodexValue::Null);
    let value = BencodexValue::Dictionary(dict);

    let bytes = encode_to_bytes(&value);
    assert_eq!(b"d1:anu2:uane".to_vec(), bytes);

    let mut buf = Vec::new();
    value.encode(&mut buf).unwrap();
    assert_eq!(bytes, buf);
}
