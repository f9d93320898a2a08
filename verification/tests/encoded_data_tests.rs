use compact_codec::encoded_data::{
    decode_compact_u64, encode_compact_u64, encode_data_type_length, DecodeError, EncodedData,
    EncodedInteger, EncodedSpecial,
};
use compact_codec::json::{EncodedDataToJsonError, JsonNumber, JsonValue};

fn to_serde(v: &JsonValue) -> serde_json::Value {
    match v {
        JsonValue::Null => serde_json::Value::Null,
        JsonValue::Bool(b) => serde_json::Value::Bool(*b),
        JsonValue::Number(JsonNumber::PosInt(n)) => serde_json::Value::Number((*n).into()),
        JsonValue::Number(JsonNumber::NegInt(n)) => serde_json::Value::Number((*n).into()),
        JsonValue::Number(JsonNumber::Float(bits)) => {
            serde_json::Value::Number(serde_json::Number::from_f64(f64::from_bits(*bits)).unwrap())
        }
        JsonValue::String(s) => serde_json::Value::String(s.clone()),
        JsonValue::Array(list) => serde_json::Value::Array(list.iter().map(to_serde).collect()),
        JsonValue::Object(entries) => serde_json::Value::Object(
            entries
                .iter()
                .map(|(k, o)| (k.clone(), to_serde(o)))
                .collect(),
        ),
    }
}

fn from_serde(v: &serde_json::Value) -> JsonValue {
    match v {
        serde_json::Value::Null => JsonValue::Null,
        serde_json::Value::Bool(b) => JsonValue::Bool(*b),
        serde_json::Value::Number(n) => {
            if let Some(n) = n.as_u64() {
                JsonValue::Number(JsonNumber::PosInt(n))
            } else if let Some(n) = n.as_i64() {
                JsonValue::Number(JsonNumber::NegInt(n))
            } else {
                JsonValue::Number(JsonNumber::Float(n.as_f64().unwrap().to_bits()))
            }
        }
        serde_json::Value::String(s) => JsonValue::String(s.clone()),
        serde_json::Value::Array(list) => JsonValue::Array(list.iter().map(from_serde).collect()),
        serde_json::Value::Object(map) => {
            JsonValue::Object(map.iter().map(|(k, o)| (k.clone(), from_serde(o))).collect())
        }
    }
}

fn check(object: EncodedData, size: usize) {
    let data = object.encode();
    assert_eq!(data.len(), size);
    let (decoded, decoded_size) = EncodedData::decode(&data).unwrap();
    assert_eq!(decoded, object);
    assert_eq!(decoded_size, size);
}

fn check_w_json(object: EncodedData, size: usize) {
    check(object.clone(), size);
    let json: serde_json::Value = to_serde(&object.clone().to_json().unwrap());
    let reencoded: EncodedData = EncodedData::from_json(&from_serde(&json));
    assert_eq!(reencoded, object);
}

fn null() -> EncodedData {
    EncodedData::Special(EncodedSpecial::Null)
}

fn positive(n: u64) -> EncodedData {
    EncodedData::Integer(EncodedInteger::Positive(n))
}

fn negative(n: u64) -> EncodedData {
    EncodedData::Integer(EncodedInteger::Negative(n))
}

fn text(s: &str) -> EncodedData {
    EncodedData::String(s.to_string())
}

#[test]
fn it_works() {
    let a = 2;
    assert_eq!(2 + a, 4);
}

#[test]
fn encoded_data_consistency() {
    check(EncodedData::Special(EncodedSpecial::Absent), 1);
    check_w_json(EncodedData::Special(EncodedSpecial::Null), 1);
    check(
        EncodedData::Special(EncodedSpecial::Define(Box::new(EncodedData::Special(
            EncodedSpecial::Null,
        )))),
        2,
    );
    check(EncodedData::Special(EncodedSpecial::Forget(4)), 2);
    check_w_json(EncodedData::Integer(EncodedInteger::Positive(0)), 2);
    check(EncodedData::Integer(EncodedInteger::Negative(0)), 2);
    check_w_json(EncodedData::Integer(EncodedInteger::Positive(1)), 2);
    check_w_json(EncodedData::Integer(EncodedInteger::Positive(0xFF_FF)), 3);
    check_w_json(
        EncodedData::Integer(EncodedInteger::Negative(0xFF_FF_FF_FF)),
        5,
    );
    check_w_json(EncodedData::Integer(EncodedInteger::Bool(true)), 1);
    check_w_json(EncodedData::Integer(EncodedInteger::Bool(false)), 1);
    check_w_json(EncodedData::Float(1.2f64.to_bits()), 9);
    check_w_json(EncodedData::String("abc".to_string()), 4);
    check_w_json(
        EncodedData::String("1234567890ABCDEF".to_string()),
        1 + 1 + 16,
    );
    check_w_json(
        EncodedData::String("1234567890ABCDEF1234567890ABCDEF".to_string()),
        1 + 1 + 32,
    );
    let array = EncodedData::Array(vec![
        EncodedData::Special(EncodedSpecial::Null),
        EncodedData::Integer(EncodedInteger::Positive(5)),
        EncodedData::String("abc".to_string()),
    ]);
    check_w_json(array.clone(), 1 + 1 + 2 + 4);
    let mut map = Vec::new();
    map.push((
        "null".to_string(),
        EncodedData::Special(EncodedSpecial::Null),
    ));
    map.push((
        "positive".to_string(),
        EncodedData::Integer(EncodedInteger::Positive(5)),
    ));
    map.push(("string".to_string(), EncodedData::String("abc".to_string())));
    check_w_json(EncodedData::Object(map.clone()), 1 + 5 + 1 + 9 + 2 + 7 + 4);

    let mut new_map = Vec::new();
    new_map.push((
        "null".to_string(),
        EncodedData::Special(EncodedSpecial::Null),
    ));
    new_map.push((
        "positive".to_string(),
        EncodedData::Integer(EncodedInteger::Positive(5)),
    ));
    new_map.push(("map".to_string(), EncodedData::Object(map)));
    new_map.push(("array".to_string(), array));
    check_w_json(
        EncodedData::Object(new_map),
        1 + 5 + 1 + 9 + 2 + 4 + 1 + 5 + 1 + 9 + 2 + 7 + 4 + 6 + 1 + 1 + 2 + 4,
    );
}

#[test]
fn absent_is_one_zero_byte() {
    let v = EncodedData::Special(EncodedSpecial::Absent);
    assert_eq!(v.encode(), vec![0x00]);
    assert_eq!(EncodedData::decode(&[0x00]).unwrap(), (v, 1));
}

#[test]
fn null_is_one_byte() {
    assert_eq!(null().encode(), vec![0x01]);
    assert_eq!(EncodedData::decode(&[0x01]).unwrap(), (null(), 1));
}

#[test]
fn define_and_forget_bytes() {
    let define = EncodedData::Special(EncodedSpecial::Define(Box::new(text("abc"))));
    assert_eq!(define.encode(), vec![0x02, 0x63, 0x61, 0x62, 0x63]);
    assert_eq!(EncodedData::decode(&[0x02, 0x63, 0x61, 0x62, 0x63]).unwrap(), (define, 5));
    let forget = EncodedData::Special(EncodedSpecial::Forget(4));
    assert_eq!(forget.encode(), vec![0x03, 0x04]);
    let far = EncodedData::Special(EncodedSpecial::Forget(0x80));
    assert_eq!(far.encode(), vec![0x03, 0x80, 0x00]);
    assert_eq!(EncodedData::decode(&[0x03, 0x80, 0x00]).unwrap(), (far, 3));
}

#[test]
fn booleans_have_no_payload() {
    assert_eq!(EncodedData::Integer(EncodedInteger::Bool(true)).encode(), vec![0x30]);
    assert_eq!(EncodedData::Integer(EncodedInteger::Bool(false)).encode(), vec![0x20]);
    assert_eq!(
        EncodedData::decode(&[0x30]).unwrap(),
        (EncodedData::Integer(EncodedInteger::Bool(true)), 1)
    );
    assert_eq!(
        EncodedData::decode(&[0x20, 0x55]).unwrap(),
        (EncodedData::Integer(EncodedInteger::Bool(false)), 1)
    );
}

#[test]
fn positive_one_takes_one_byte() {
    assert_eq!(positive(1).encode(), vec![0x21, 0x01]);
}

#[test]
fn positive_two_bytes() {
    assert_eq!(positive(0xFFFF).encode(), vec![0x22, 0xFF, 0xFF]);
}

#[test]
fn integer_width_boundaries() {
    assert_eq!(positive(0).encode(), vec![0x21, 0x00]);
    assert_eq!(positive(0xFF).encode(), vec![0x21, 0xFF]);
    assert_eq!(positive(0x100).encode(), vec![0x22, 0x00, 0x01]);
    assert_eq!(positive(0x1_0000).encode(), vec![0x24, 0x00, 0x00, 0x01, 0x00]);
    assert_eq!(positive(0xFFFF_FFFF).encode(), vec![0x24, 0xFF, 0xFF, 0xFF, 0xFF]);
    assert_eq!(
        positive(0x1_0000_0000).encode(),
        vec![0x28, 0x00, 0x00, 0x00, 0x00, 0x01, 0x00, 0x00, 0x00]
    );
    assert_eq!(positive(u64::MAX).encode(), vec![0x28, 0xFF, 0xFF, 0xFF, 0xFF, 0xFF, 0xFF, 0xFF, 0xFF]);
    assert_eq!(negative(0x0102).encode(), vec![0x32, 0x02, 0x01]);
    for n in [0u64, 0xFF, 0x100, 0xFFFF, 0x1_0000, 0xFFFF_FFFF, 0x1_0000_0000, u64::MAX] {
        let width = encode_compact_u64(n).len();
        assert!(width == 1 || width == 2 || width == 4 || width == 8);
        if width < 8 {
            assert!(n < 1u64 << (8 * width));
        }
        check(positive(n), 1 + width);
        check(negative(n), 1 + width);
    }
}

#[test]
fn compact_integers_are_little_endian() {
    assert_eq!(encode_compact_u64(0x0102_0304), vec![0x04, 0x03, 0x02, 0x01]);
    assert_eq!(decode_compact_u64(&[0xAA, 0x04, 0x03, 0x02, 0x01], 1, 4), 0x0102_0304);
    assert_eq!(decode_compact_u64(&[0x01, 0x02, 0x03], 0, 3), 0x03_0201);
}

#[test]
fn reserved_widths_are_read() {
    assert_eq!(EncodedData::decode(&[0x23, 0x01, 0x02, 0x03]).unwrap(), (positive(0x03_0201), 4));
    assert_eq!(
        EncodedData::decode(&[0x37, 1, 0, 0, 0, 0, 0, 1]).unwrap(),
        (negative(0x01_0000_0000_0001), 8)
    );
    assert_eq!(EncodedData::decode(&[0x31, 0x00]).unwrap(), (negative(0), 2));
}

#[test]
fn float_is_eight_bytes() {
    let mut expected = vec![0x48];
    expected.extend_from_slice(&1.2f64.to_le_bytes());
    let v = EncodedData::Float(1.2f64.to_bits());
    assert_eq!(v.encode(), expected);
    let (decoded, size) = EncodedData::decode(&expected).unwrap();
    assert_eq!(size, 9);
    match decoded {
        EncodedData::Float(bits) => assert_eq!(f64::from_bits(bits), 1.2),
        _ => panic!("not a float"),
    }
    check(EncodedData::Float(f64::NAN.to_bits()), 9);
    check(EncodedData::Float(f64::NEG_INFINITY.to_bits()), 9);
}

#[test]
fn short_string_is_inline() {
    assert_eq!(text("abc").encode(), vec![0x63, 0x61, 0x62, 0x63]);
    assert_eq!(text("").encode(), vec![0x60]);
    check(text(""), 1);
}

#[test]
fn string_of_sixteen_continues() {
    let s = "0123456789abcdef";
    let mut expected = vec![0x70, 0x00];
    expected.extend_from_slice(s.as_bytes());
    assert_eq!(text(s).encode(), expected);
    assert_eq!(EncodedData::decode(&expected).unwrap(), (text(s), 18));
}

#[test]
fn string_length_boundaries() {
    let s15 = "a".repeat(15);
    assert_eq!(text(&s15).encode()[0], 0x6F);
    check(text(&s15), 1 + 15);
    let s17 = "a".repeat(17);
    assert_eq!(&text(&s17).encode()[..2], &[0x71, 0x00]);
    let s270 = "b".repeat(270);
    assert_eq!(&text(&s270).encode()[..2], &[0x7E, 0x0F]);
    check(text(&s270), 2 + 270);
    let last_short = "c".repeat(16 + 127 * 16 + 15);
    assert_eq!(&text(&last_short).encode()[..2], &[0x7F, 0x7F]);
    check(text(&last_short), 2 + 2063);
    let first_long = "c".repeat(16 + 128 * 16);
    assert_eq!(&text(&first_long).encode()[..3], &[0x70, 0x80, 0x00]);
    check(text(&first_long), 3 + 2064);
    let second_base = "d".repeat(16 + 0x4080 * 16);
    assert_eq!(&text(&second_base).encode()[..4], &[0x70, 0x80, 0x80, 0x00]);
    check(text(&second_base), 4 + 16 + 0x4080 * 16);
    check(text("h\u{e9}llo \u{1F600}"), 1 + 11);
}

#[test]
fn length_flag_and_tail() {
    assert_eq!(encode_data_type_length(0, 5), (0, vec![]));
    assert_eq!(encode_data_type_length(15, 5), (15, vec![]));
    assert_eq!(encode_data_type_length(16, 5), (16, vec![0x00]));
    assert_eq!(encode_data_type_length(24, 5), (0x18, vec![0x00]));
    assert_eq!(encode_data_type_length(270, 5), (0x1E, vec![0x0F]));
    assert_eq!(encode_data_type_length(3, 2), (3, vec![0x00]));
}

#[test]
fn array_of_three() {
    let v = EncodedData::Array(vec![null(), positive(5), text("abc")]);
    let bytes = vec![0x83, 0x01, 0x21, 0x05, 0x63, 0x61, 0x62, 0x63];
    assert_eq!(v.encode(), bytes);
    assert_eq!(EncodedData::decode(&bytes).unwrap(), (v, 8));
}

#[test]
fn object_of_one() {
    let v = EncodedData::Object(vec![("k".to_string(), null())]);
    let bytes = vec![0xA1, 0x01, 0x6B, 0x01];
    assert_eq!(v.encode(), bytes);
    assert_eq!(EncodedData::decode(&bytes).unwrap(), (v, 4));
}

#[test]
fn empty_and_nested_containers() {
    assert_eq!(EncodedData::Array(vec![]).encode(), vec![0x80]);
    assert_eq!(EncodedData::Object(vec![]).encode(), vec![0xA0]);
    check(EncodedData::Array(vec![]), 1);
    check(EncodedData::Object(vec![]), 1);
    let mut v = EncodedData::Array(vec![]);
    for _ in 0..100 {
        v = EncodedData::Array(vec![v]);
    }
    check(v, 101);
    let long = EncodedData::Array((0..40).map(positive).collect());
    assert_eq!(&long.encode()[..2], &[0x98, 0x01]);
    check(long, 2 + 80);
}

#[test]
fn duplicate_keys_are_refused() {
    let bytes = [0xA2, 0x01, 0x6B, 0x01, 0x01, 0x6B, 0x20];
    assert_eq!(
        EncodedData::decode(&bytes).unwrap_err(),
        DecodeError::DuplicateKey("k".to_string())
    );
    let distinct = [0xA2, 0x01, 0x6B, 0x01, 0x01, 0x6C, 0x20];
    assert_eq!(
        EncodedData::decode(&distinct).unwrap(),
        (
            EncodedData::Object(vec![
                ("k".to_string(), null()),
                ("l".to_string(), EncodedData::Integer(EncodedInteger::Bool(false))),
            ]),
            7
        )
    );
}

#[test]
fn alias_bytes() {
    assert_eq!(EncodedData::Alias(5).encode(), vec![0xC5]);
    assert_eq!(EncodedData::Alias(16).encode(), vec![0xD0, 0x00]);
    assert_eq!(EncodedData::decode(&[0xD3, 0x02]).unwrap(), (EncodedData::Alias(16 + 32 + 3), 2));
    check(EncodedData::Alias(0), 1);
    check(EncodedData::Alias(15), 1);
    check(EncodedData::Alias(16), 2);
    check(EncodedData::Alias(u64::MAX), 10);
}

#[test]
fn decode_stops_at_the_end_of_the_value() {
    let v = EncodedData::Array(vec![null(), positive(5), text("abc")]);
    let mut bytes = v.encode();
    let size = bytes.len();
    bytes.extend_from_slice(&[0xFF, 0xE0, 0x00]);
    assert_eq!(EncodedData::decode(&bytes).unwrap(), (v.clone(), size));
    let last = bytes.len() - 1;
    bytes[last] = 0x42;
    assert_eq!(EncodedData::decode(&bytes).unwrap(), (v, size));
}

#[test]
fn decode_from_a_position() {
    let bytes = [0xFF, 0x21, 0x07, 0x01];
    assert_eq!(EncodedData::decode_from(&bytes, 1).unwrap(), (positive(7), 3));
    assert_eq!(EncodedData::decode_from(&bytes, 3).unwrap(), (null(), 4));
    assert_eq!(EncodedData::decode_from(&bytes, 4).unwrap_err(), DecodeError::MissingBytes(1));
}

#[test]
fn encode_into_appends() {
    let mut out = vec![0xAA];
    positive(1).encode_into(&mut out);
    null().encode_into(&mut out);
    assert_eq!(out, vec![0xAA, 0x21, 0x01, 0x01]);
}

#[test]
fn unknown_tags() {
    assert_eq!(EncodedData::decode(&[0xE0]).unwrap_err(), DecodeError::UnknownDataType(7));
    assert_eq!(EncodedData::decode(&[0xFF, 0x00]).unwrap_err(), DecodeError::UnknownDataType(7));
    assert_eq!(EncodedData::decode(&[0x04]).unwrap_err(), DecodeError::UnknownSpecialType(4));
    assert_eq!(EncodedData::decode(&[0x1F]).unwrap_err(), DecodeError::UnknownSpecialType(31));
}

#[test]
fn missing_bytes_are_counted() {
    assert_eq!(EncodedData::decode(&[]).unwrap_err(), DecodeError::MissingBytes(1));
    assert_eq!(EncodedData::decode(&[0x02]).unwrap_err(), DecodeError::MissingBytes(1));
    assert_eq!(EncodedData::decode(&[0x03]).unwrap_err(), DecodeError::MissingBytes(1));
    assert_eq!(EncodedData::decode(&[0x03, 0x80]).unwrap_err(), DecodeError::MissingBytes(1));
    assert_eq!(EncodedData::decode(&[0x22, 0xFF]).unwrap_err(), DecodeError::MissingBytes(1));
    assert_eq!(EncodedData::decode(&[0x28]).unwrap_err(), DecodeError::MissingBytes(8));
    assert_eq!(EncodedData::decode(&[0x48, 0, 0]).unwrap_err(), DecodeError::MissingBytes(6));
    assert_eq!(EncodedData::decode(&[0x63, 0x61]).unwrap_err(), DecodeError::MissingBytes(2));
    assert_eq!(EncodedData::decode(&[0x70]).unwrap_err(), DecodeError::MissingBytes(1));
    assert_eq!(EncodedData::decode(&[0x70, 0x00, 0x61]).unwrap_err(), DecodeError::MissingBytes(15));
    assert_eq!(EncodedData::decode(&[0x83, 0x01]).unwrap_err(), DecodeError::MissingBytes(2));
    assert_eq!(EncodedData::decode(&[0x82, 0x22, 0x01]).unwrap_err(), DecodeError::MissingBytes(1));
    assert_eq!(EncodedData::decode(&[0xA1, 0x05, 0x6B]).unwrap_err(), DecodeError::MissingBytes(4));
    assert_eq!(EncodedData::decode(&[0xA1, 0x01, 0x6B]).unwrap_err(), DecodeError::MissingBytes(1));
    assert_eq!(EncodedData::decode(&[0xD0]).unwrap_err(), DecodeError::MissingBytes(1));
}

#[test]
fn varint_overflow_in_a_header() {
    let mut bytes = vec![0xD0];
    bytes.extend_from_slice(&[0x80; 10]);
    assert_eq!(EncodedData::decode(&bytes).unwrap_err(), DecodeError::VarintTooBig);
    let mut wide = vec![0x70];
    wide.extend_from_slice(&compact_codec::varint::encode(u64::MAX / 16 + 1));
    assert_eq!(EncodedData::decode(&wide).unwrap_err(), DecodeError::VarintTooBig);
    let mut forget = vec![0x03];
    forget.extend_from_slice(&[0xFF; 10]);
    assert_eq!(EncodedData::decode(&forget).unwrap_err(), DecodeError::VarintTooBig);
}

#[test]
fn bad_utf8_is_refused() {
    assert!(matches!(
        EncodedData::decode(&[0x61, 0xFF]).unwrap_err(),
        DecodeError::BadUtf8(_)
    ));
    assert!(matches!(
        EncodedData::decode(&[0x62, 0xC3, 0x28]).unwrap_err(),
        DecodeError::BadUtf8(_)
    ));
    assert!(matches!(
        EncodedData::decode(&[0xA1, 0x01, 0x80, 0x01]).unwrap_err(),
        DecodeError::BadUtf8(_)
    ));
    assert_eq!(EncodedData::decode(&[0x62, 0xC3, 0xA9]).unwrap(), (text("\u{e9}"), 3));
}

#[test]
fn duplicate_keeps_the_value() {
    let v = EncodedData::Object(vec![
        ("a".to_string(), EncodedData::Array(vec![null(), text("x")])),
        ("b".to_string(), EncodedData::Special(EncodedSpecial::Define(Box::new(positive(3))))),
    ]);
    assert_eq!(v.duplicate(), v);
    assert_eq!(v.clone(), v);
}

#[test]
fn json_numbers() {
    let from = |n: JsonNumber| EncodedData::from_json(&JsonValue::Number(n));
    assert_eq!(from(JsonNumber::PosInt(7)), positive(7));
    assert_eq!(from(JsonNumber::NegInt(-7)), negative(7));
    assert_eq!(from(JsonNumber::NegInt(i64::MIN)), negative(1 << 63));
    assert_eq!(from(JsonNumber::Float(1.5f64.to_bits())), EncodedData::Float(1.5f64.to_bits()));
    assert_eq!(positive(7).to_json().unwrap(), JsonValue::Number(JsonNumber::PosInt(7)));
    assert_eq!(negative(7).to_json().unwrap(), JsonValue::Number(JsonNumber::NegInt(-7)));
    assert_eq!(negative(0).to_json().unwrap(), JsonValue::Number(JsonNumber::PosInt(0)));
    assert_eq!(
        negative(1 << 63).to_json().unwrap(),
        JsonValue::Number(JsonNumber::NegInt(i64::MIN))
    );
    assert_eq!(
        negative((1 << 63) - 1).to_json().unwrap(),
        JsonValue::Number(JsonNumber::NegInt(-i64::MAX))
    );
}

#[test]
fn json_errors() {
    assert_eq!(
        negative((1 << 63) + 1).to_json().unwrap_err(),
        EncodedDataToJsonError::NegativeIntegerTooBig((1 << 63) + 1)
    );
    assert_eq!(
        EncodedData::Float(f64::INFINITY.to_bits()).to_json().unwrap_err(),
        EncodedDataToJsonError::BadFloat(f64::INFINITY.to_bits())
    );
    assert_eq!(
        EncodedData::Float(f64::NAN.to_bits()).to_json().unwrap_err(),
        EncodedDataToJsonError::BadFloat(f64::NAN.to_bits())
    );
    assert!(EncodedData::Float(f64::MAX.to_bits()).to_json().is_ok());
    assert!(EncodedData::Float((-0.0f64).to_bits()).to_json().is_ok());
    assert_eq!(
        EncodedData::Alias(1).to_json().unwrap_err(),
        EncodedDataToJsonError::UnsupportedAliasDataType
    );
    assert_eq!(
        EncodedData::Special(EncodedSpecial::Absent).to_json().unwrap_err(),
        EncodedDataToJsonError::UnsupportedNoneDataType
    );
    assert_eq!(
        EncodedData::Special(EncodedSpecial::Define(Box::new(null()))).to_json().unwrap_err(),
        EncodedDataToJsonError::UnsupportedDefineDataType
    );
    assert_eq!(
        EncodedData::Special(EncodedSpecial::Forget(1)).to_json().unwrap_err(),
        EncodedDataToJsonError::UnsupportedForgetDataType
    );
    let nested = EncodedData::Array(vec![
        null(),
        EncodedData::Object(vec![("a".to_string(), EncodedData::Alias(2))]),
        EncodedData::Special(EncodedSpecial::Absent),
    ]);
    assert_eq!(nested.to_json().unwrap_err(), EncodedDataToJsonError::UnsupportedAliasDataType);
}

#[test]
fn json_round_trip() {
    let j = JsonValue::Object(vec![
        ("n".to_string(), JsonValue::Null),
        ("b".to_string(), JsonValue::Bool(true)),
        (
            "list".to_string(),
            JsonValue::Array(vec![
                JsonValue::Number(JsonNumber::PosInt(u64::MAX)),
                JsonValue::Number(JsonNumber::NegInt(-1)),
                JsonValue::Number(JsonNumber::Float(2.5f64.to_bits())),
                JsonValue::String("s".to_string()),
            ]),
        ),
    ]);
    let v = EncodedData::from_json(&j);
    assert_eq!(v.to_json().unwrap(), j);
    let bytes = v.encode();
    assert_eq!(EncodedData::decode(&bytes).unwrap(), (v, bytes.len()));
    let parsed: serde_json::Value =
        serde_json::from_str("{\"n\":null,\"b\":true,\"list\":[18446744073709551615,-1,2.5,\"s\"]}")
            .unwrap();
    assert_eq!(from_serde(&parsed), j);
    assert_eq!(to_serde(&j), parsed);
}

#[test]
fn well_formed_values_hold_no_key_twice() {
    let good = EncodedData::Object(vec![
        ("a".to_string(), null()),
        ("b".to_string(), EncodedData::Array(vec![text("a"), text("a")])),
    ]);
    assert!(good.is_well_formed());
    let twice = EncodedData::Object(vec![("a".to_string(), null()), ("a".to_string(), positive(1))]);
    assert!(!twice.is_well_formed());
    assert!(!EncodedData::Array(vec![null(), twice.clone()]).is_well_formed());
    assert!(!EncodedData::Special(EncodedSpecial::Define(Box::new(twice.clone()))).is_well_formed());
    assert!(!EncodedData::Object(vec![("k".to_string(), twice.clone())]).is_well_formed());
    assert!(EncodedData::decode(&twice.encode()).is_err());
    assert!(text("abc").is_well_formed());
    assert!(EncodedData::Alias(3).is_well_formed());
    let (decoded, _) = EncodedData::decode(&good.encode()).unwrap();
    assert!(decoded.is_well_formed());
}
