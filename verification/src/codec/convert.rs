//! Conversions from native scalars, byte strings and texts into keys and
//! values. All of them are total: the value model is a superset of every
//! source type. Where the conversion moves its argument unchanged, its
//! effect is also stated for the verifier through the `From` spec; a
//! conversion that borrows or re-encodes gives no such statement.

use crate::codec::number::BencodexNumber;
use crate::codec::types::{BencodexKey, BencodexValue};
use vstd::prelude::*;
use vstd::std_specs::convert::FromSpecImpl;

verus! {

impl From<String> for BencodexKey {
    fn from(val: String) -> Self {
        BencodexKey::Text(val)
    }
}

impl FromSpecImpl<String> for BencodexKey {
    open spec fn obeys_from_spec() -> bool {
        true
    }

    open spec fn from_spec(val: String) -> Self {
        BencodexKey::Text(val)
    }
}

impl From<&str> for BencodexKey {
    fn from(val: &str) -> Self {
        BencodexKey::Text(val.to_owned())
    }
}

impl FromSpecImpl<&str> for BencodexKey {
    open spec fn obeys_from_spec() -> bool {
        false
    }

    open spec fn from_spec(val: &str) -> Self {
        vstd::pervasive::arbitrary()
    }
}

impl From<&String> for BencodexKey {
    fn from(val: &String) -> Self {
        BencodexKey::Text(val.clone())
    }
}

impl FromSpecImpl<&String> for BencodexKey {
    open spec fn obeys_from_spec() -> bool {
        false
    }

    open spec fn from_spec(val: &String) -> Self {
        vstd::pervasive::arbitrary()
    }
}

impl From<Vec<u8>> for BencodexKey {
    fn from(val: Vec<u8>) -> Self {
        BencodexKey::Binary(val)
    }
}

impl FromSpecImpl<Vec<u8>> for BencodexKey {
    open spec fn obeys_from_spec() -> bool {
        true
    }

    open spec fn from_spec(val: Vec<u8>) -> Self {
        BencodexKey::Binary(val)
    }
}

impl From<&[u8]> for BencodexKey {
    fn from(val: &[u8]) -> Self {
        BencodexKey::Binary(vstd::slice::slice_to_vec(val))
    }
}

impl FromSpecImpl<&[u8]> for BencodexKey {
    open spec fn obeys_from_spec() -> bool {
        false
    }

    open spec fn from_spec(val: &[u8]) -> Self {
        vstd::pervasive::arbitrary()
    }
}

impl From<String> for BencodexValue {
    fn from(val: String) -> Self {
        BencodexValue::Text(val)
    }
}

impl FromSpecImpl<String> for BencodexValue {
    open spec fn obeys_from_spec() -> bool {
        true
    }

    open spec fn from_spec(val: String) -> Self {
        BencodexValue::Text(val)
    }
}

impl From<&str> for BencodexValue {
    fn from(val: &str) -> Self {
        BencodexValue::Text(val.to_owned())
    }
}

impl FromSpecImpl<&str> for BencodexValue {
    open spec fn obeys_from_spec() -> bool {
        false
    }

    open spec fn from_spec(val: &str) -> Self {
        vstd::pervasive::arbitrary()
    }
}

impl From<Vec<u8>> for BencodexValue {
    fn from(val: Vec<u8>) -> Self {
        BencodexValue::Binary(val)
    }
}

impl FromSpecImpl<Vec<u8>> for BencodexValue {
    open spec fn obeys_from_spec() -> bool {
        true
    }

    open spec fn from_spec(val: Vec<u8>) -> Self {
        BencodexValue::Binary(val)
    }
}

impl From<&[u8]> for BencodexValue {
    fn from(val: &[u8]) -> Self {
        BencodexValue::Binary(vstd::slice::slice_to_vec(val))
    }
}

impl FromSpecImpl<&[u8]> for BencodexValue {
    open spec fn obeys_from_spec() -> bool {
        false
    }

    open spec fn from_spec(val: &[u8]) -> Self {
        vstd::pervasive::arbitrary()
    }
}

impl From<bool> for BencodexValue {
    fn from(val: bool) -> Self {
        BencodexValue::Boolean(val)
    }
}

impl FromSpecImpl<bool> for BencodexValue {
    open spec fn obeys_from_spec() -> bool {
        true
    }

    open spec fn from_spec(val: bool) -> Self {
        BencodexValue::Boolean(val)
    }
}

impl From<Vec<BencodexValue>> for BencodexValue {
    fn from(val: Vec<BencodexValue>) -> Self {
        BencodexValue::List(val)
    }
}

impl FromSpecImpl<Vec<BencodexValue>> for BencodexValue {
    open spec fn obeys_from_spec() -> bool {
        true
    }

    open spec fn from_spec(val: Vec<BencodexValue>) -> Self {
        BencodexValue::List(val)
    }
}

impl From<i64> for BencodexValue {
    fn from(val: i64) -> Self {
        BencodexValue::Number(BencodexNumber::from_i64(val))
    }
}

impl FromSpecImpl<i64> for BencodexValue {
    open spec fn obeys_from_spec() -> bool {
        false
    }

    open spec fn from_spec(val: i64) -> Self {
        vstd::pervasive::arbitrary()
    }
}

impl From<i32> for BencodexValue {
    fn from(val: i32) -> Self {
        BencodexValue::Number(BencodexNumber::from_i64(val as i64))
    }
}

impl FromSpecImpl<i32> for BencodexValue {
    open spec fn obeys_from_spec() -> bool {
        false
    }

    open spec fn from_spec(val: i32) -> Self {
        vstd::pervasive::arbitrary()
    }
}

impl From<i16> for BencodexValue {
    fn from(val: i16) -> Self {
        BencodexValue::Number(BencodexNumber::from_i64(val as i64))
    }
}

impl FromSpecImpl<i16> for BencodexValue {
    open spec fn obeys_from_spec() -> bool {
        false
    }

    open spec fn from_spec(val: i16) -> Self {
        vstd::pervasive::arbitrary()
    }
}

impl From<i8> for BencodexValue {
    fn from(val: i8) -> Self {
        BencodexValue::Number(BencodexNumber::from_i64(val as i64))
    }
}

impl FromSpecImpl<i8> for BencodexValue {
    open spec fn obeys_from_spec() -> bool {
        false
    }

    open spec fn from_spec(val: i8) -> Self {
        vstd::pervasive::arbitrary()
    }
}

impl From<u16> for BencodexValue {
    fn from(val: u16) -> Self {
        BencodexValue::Number(BencodexNumber::from_u64(val as u64))
    }
}

impl FromSpecImpl<u16> for BencodexValue {
    open spec fn obeys_from_spec() -> bool {
        false
    }

    open spec fn from_spec(val: u16) -> Self {
        vstd::pervasive::arbitrary()
    }
}

impl From<u32> for BencodexValue {
    fn from(val: u32) -> Self {
        BencodexValue::Number(BencodexNumber::from_u64(val as u64))
    }
}

impl FromSpecImpl<u32> for BencodexValue {
    open spec fn obeys_from_spec() -> bool {
        false
    }

    open spec fn from_spec(val: u32) -> Self {
        vstd::pervasive::arbitrary()
    }
}

impl From<u64> for BencodexValue {
    fn from(val: u64) -> Self {
        BencodexValue::Number(BencodexNumber::from_u64(val))
    }
}

impl FromSpecImpl<u64> for BencodexValue {
    open spec fn obeys_from_spec() -> bool {
        false
    }

    open spec fn from_spec(val: u64) -> Self {
        vstd::pervasive::arbitrary()
    }
}

} // verus!
