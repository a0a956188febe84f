use lil_json::container::{ArrayJsonArray, ArrayJsonObject, JsonObject};
use lil_json::parse::{parse_json_object, ParseBuffer, StringBuffer};
use lil_json::serialize::{serialize_json_object, JsonSerializeFailure};
use lil_json::value::{JsonField, JsonParseFailure, JsonValue};

fn sample_object() -> ArrayJsonObject<'static, 8> {
    let mut object = ArrayJsonObject::<8>::new();
    object.push_field("k", JsonValue::String("v\"v")).unwrap();
    object.push_field("n", JsonValue::Number(-42)).unwrap();
    object.push_field("t", JsonValue::Boolean(true)).unwrap();
    object.push_field("z", JsonValue::Null).unwrap();
    object.push_field("e", JsonValue::String("a/b\\c\n\t")).unwrap();
    object
}

#[test]
fn round_trip_keeps_fields_in_order() {
    let object = sample_object();
    let mut text = [0_u8; 200];
    let n = object.serialize(text.as_mut_slice()).unwrap();
    let mut escape = [0_u8; 64];
    let (consumed, parsed) = ArrayJsonObject::<8>::new_parsed(&text[..n], &mut escape).unwrap();
    assert_eq!(consumed, n);
    assert_eq!(parsed.fields(), object.fields());
}

#[test]
fn round_trip_quote_in_string() {
    let data = br#"{"k":"v\"v"}"#;
    let mut escape = [0_u8; 16];
    let (consumed, object) = ArrayJsonObject::<1>::new_parsed(data, &mut escape).unwrap();
    assert_eq!(consumed, data.len());
    assert_eq!(object.fields()[0], JsonField::new("k", JsonValue::String("v\"v")));
    let mut out = [0_u8; 32];
    let n = object.serialize(out.as_mut_slice()).unwrap();
    assert_eq!(&out[..n], data);
}

#[test]
fn serialize_escapes_and_numbers() {
    let object = sample_object();
    assert_eq!(
        object.to_string(),
        r#"{"k":"v\"v","n":-42,"t":true,"z":null,"e":"a\/b\\c\n\t"}"#
    );
}

#[test]
fn serialize_extreme_numbers() {
    let mut object = ArrayJsonObject::<2>::new();
    object.push_field("min", JsonValue::Number(i64::MIN)).unwrap();
    object.push_field("max", JsonValue::Number(i64::MAX)).unwrap();
    let text = object.to_string();
    assert_eq!(text, r#"{"min":-9223372036854775808,"max":9223372036854775807}"#);
    let mut escape = [0_u8; 16];
    let (_, parsed) = ArrayJsonObject::<2>::new_parsed(text.as_bytes(), &mut escape).unwrap();
    assert_eq!(parsed.fields(), object.fields());
}

#[test]
fn serialize_refuses_non_ascii() {
    let mut object = ArrayJsonObject::<2>::new();
    object.push_field("k", JsonValue::Number(1)).unwrap();
    object.push_field("k\u{e9}", JsonValue::String("caf\u{e9}!")).unwrap();
    assert!(!object.strings_are_ascii());
    let mut out = [7_u8; 32];
    assert_eq!(object.serialize(out.as_mut_slice()), Err(JsonSerializeFailure::NonAsciiString));
    assert_eq!(object.serialize_resume(out.as_mut_slice(), 3), Err((0, JsonSerializeFailure::NonAsciiString)));
    assert_eq!(out, [7_u8; 32]);
    let mut array = ArrayJsonArray::<1>::new();
    array.push_const(JsonValue::String("\u{e9}")).unwrap();
    assert_eq!(array.serialize(out.as_mut_slice()), Err(JsonSerializeFailure::NonAsciiString));
}

#[test]
fn resume_gives_every_suffix() {
    let object = sample_object();
    let full = object.to_string();
    let full = full.as_bytes();
    for k in 0..=full.len() + 2 {
        let mut out = [0_u8; 200];
        let n = object.serialize_resume(out.as_mut_slice(), k).unwrap();
        let expected: &[u8] = if k < full.len() { &full[k..] } else { &[] };
        assert_eq!(&out[..n], expected);
    }
}

#[test]
fn resume_into_short_buffer_reports_bytes_written() {
    let object = sample_object();
    let full = object.to_string();
    let mut out = [0_u8; 5];
    match object.serialize_resume(out.as_mut_slice(), 3) {
        Err((5, JsonSerializeFailure::Sink(embedded_io::SliceWriteError::Full))) => {}
        other => panic!("{:?}", other),
    }
    assert_eq!(&out[..], &full.as_bytes()[3..8]);
}

#[test]
fn generic_serializer_into_vec() {
    let object = sample_object();
    let mut sink: Vec<u8> = Vec::new();
    let n = serialize_json_object(&mut sink, object.fields(), 4).unwrap();
    assert_eq!(n, sink.len());
    assert_eq!(&sink[..], &object.to_string().as_bytes()[4..]);
}

#[test]
fn incremental_feeding_matches_single_call() {
    let data = br#"{"sub":"1","name":"John Doe","iat":1,"something":false,"null_thing":null}"#;
    let mut escape = [0_u8; 64];
    let (whole_end, whole) = ArrayJsonObject::<8>::new_parsed(data, &mut escape).unwrap();
    for split in 0..data.len() {
        let mut escape = [0_u8; 64];
        match ArrayJsonObject::<8>::new_parsed(&data[..split], &mut escape) {
            Err(JsonParseFailure::Incomplete) => {}
            other => panic!("split {}: {:?}", split, other),
        }
    }
    let mut escape = [0_u8; 64];
    let (end, again) = ArrayJsonObject::<8>::new_parsed(data, &mut escape).unwrap();
    assert_eq!(end, whole_end);
    assert_eq!(again.fields(), whole.fields());
}

#[test]
fn five_fields_with_kinds_in_order() {
    let data = br#"{"sub":"1","name":"John Doe","iat":1,"something":false,"null_thing":null}"#;
    let mut escape = [0_u8; 64];
    let (end, object) = ArrayJsonObject::<5>::new_parsed(data, &mut escape).unwrap();
    assert_eq!(end, data.len());
    let fields = object.fields();
    assert_eq!(fields.len(), 5);
    assert!(matches!(fields[0].value, JsonValue::String("1")));
    assert!(matches!(fields[1].value, JsonValue::String("John Doe")));
    assert!(matches!(fields[2].value, JsonValue::Number(1)));
    assert!(matches!(fields[3].value, JsonValue::Boolean(false)));
    assert!(matches!(fields[4].value, JsonValue::Null));
}

#[test]
fn capacity_boundary() {
    let data = br#"{"a":1,"b":2,"c":3}"#;
    let mut escape = [0_u8; 16];
    match ArrayJsonObject::<2>::new_parsed(data, &mut escape) {
        Err(JsonParseFailure::FieldBufferTooSmall) => {}
        other => panic!("{:?}", other),
    }
    let mut escape = [0_u8; 16];
    let (_, object) = ArrayJsonObject::<3>::new_parsed(data, &mut escape).unwrap();
    assert_eq!(object.len(), 3);
}

#[test]
fn empty_object_scenario() {
    let mut escape = [0_u8; 4];
    let (end, object) = ArrayJsonObject::<4>::new_parsed(b"{}", &mut escape).unwrap();
    assert_eq!(end, 2);
    assert_eq!(object.len(), 0);
}

#[test]
fn single_number_field_scenario() {
    let mut escape = [0_u8; 4];
    let (end, object) = ArrayJsonObject::<4>::new_parsed(br#"{"a":0}"#, &mut escape).unwrap();
    assert_eq!(end, 7);
    assert_eq!(object.fields(), &[JsonField::new("a", JsonValue::Number(0))]);
}

#[test]
fn lone_minus_is_invalid_numeric() {
    let mut escape = [0_u8; 4];
    match ArrayJsonObject::<1>::new_parsed(br#"{"x": -}"#, &mut escape) {
        Err(JsonParseFailure::InvalidNumericField) => {}
        other => panic!("{:?}", other),
    }
}

fn parse_error(data: &[u8], fields: usize, escape: usize) -> JsonParseFailure {
    let mut slots = vec![JsonField::new("", JsonValue::Null); fields];
    let mut escape_buffer = vec![0_u8; escape];
    parse_json_object(
        data,
        ParseBuffer::Finite(0, &mut slots),
        &mut StringBuffer::Finite(0, &mut escape_buffer),
    )
    .unwrap_err()
}

#[test]
fn each_failure_kind() {
    assert_eq!(parse_error(b"  ", 4, 16), JsonParseFailure::Incomplete);
    assert_eq!(parse_error(br#"{"a":"b"}"#, 0, 16), JsonParseFailure::FieldBufferTooSmall);
    assert_eq!(parse_error(br#"{"ab":1}"#, 4, 1), JsonParseFailure::EscapeBufferTooSmall);
    assert_eq!(parse_error(br#"["a"]"#, 4, 16), JsonParseFailure::InvalidStructure);
    assert_eq!(parse_error(br#"{"a" 1}"#, 4, 16), JsonParseFailure::InvalidStructure);
    assert_eq!(parse_error(br#"{"a":1 "b":2}"#, 4, 16), JsonParseFailure::InvalidStructure);
    assert_eq!(parse_error(br#"{"a":x}"#, 4, 16), JsonParseFailure::InvalidStructure);
    assert_eq!(parse_error(br#"{a:1}"#, 4, 16), JsonParseFailure::InvalidStringField);
    assert_eq!(parse_error(br#"{"\q":1}"#, 4, 16), JsonParseFailure::InvalidStringField);
    assert_eq!(parse_error("{\"\u{e9}\":1}".as_bytes(), 4, 16), JsonParseFailure::InvalidStringField);
    assert_eq!(parse_error(br#"{"a":12x}"#, 4, 16), JsonParseFailure::InvalidNumericField);
    assert_eq!(parse_error(br#"{"a":99999999999999999999}"#, 4, 16), JsonParseFailure::NumberParseError);
    assert_eq!(parse_error(br#"{"a":tru }"#, 4, 16), JsonParseFailure::InvalidBooleanField);
    assert_eq!(parse_error(br#"{"a":fals"#, 4, 16), JsonParseFailure::Incomplete);
    assert_eq!(parse_error(br#"{"a":nul }"#, 4, 16), JsonParseFailure::InvalidNullField);
    assert_eq!(parse_error(br#"{"a":1"#, 4, 16), JsonParseFailure::Incomplete);
}

#[test]
fn nine_starts_a_number() {
    let mut escape = [0_u8; 4];
    let (_, object) = ArrayJsonObject::<1>::new_parsed(br#"{"a":9}"#, &mut escape).unwrap();
    assert_eq!(object.fields()[0].value, JsonValue::Number(9));
}

#[test]
fn vec_fields_grow() {
    let mut escape = [0_u8; 64];
    let mut object = JsonObject::wrap(Vec::new());
    let n = object.parse_alloc_fields(br#"{"a":1,"b":"c"}"#, &mut escape).unwrap();
    assert_eq!(n, 15);
    assert_eq!(object.fields(), &[JsonField::new("a", JsonValue::Number(1)), JsonField::new("b", JsonValue::String("c"))]);
}

#[test]
fn arena_keeps_strings() {
    let arena = elsa::FrozenVec::new();
    let mut object = ArrayJsonObject::<2>::new();
    let n = object.parse_alloc_escape(br#"{"key":"va\nl"}"#, &arena).unwrap();
    assert_eq!(n, 15);
    assert_eq!(object.fields()[0], JsonField::new("key", JsonValue::String("va\nl")));
    let mut all = JsonObject::wrap(Vec::new());
    let arena2 = elsa::FrozenVec::new();
    all.parse_alloc(br#"{"x":"y","z":true}"#, &arena2).unwrap();
    assert_eq!(all.len(), 2);
    assert_eq!(all.fields()[0], JsonField::new("x", JsonValue::String("y")));
}

#[test]
fn push_pop_and_capacity() {
    let mut object = ArrayJsonObject::<2>::new();
    assert_eq!(object.capacity(), 2);
    object.push(JsonField::new_number("a", 1)).unwrap();
    object.push(JsonField::new_boolean("b", false)).unwrap();
    assert_eq!(object.push(JsonField::new_string("c", "d")), Err(JsonField::new_string("c", "d")));
    assert_eq!(object.pop_const(), Some(&JsonField::new_boolean("b", false)));
    assert_eq!(object.pop(), Some(JsonField::new_boolean("b", false)));
    assert_eq!(object.len(), 1);
    assert_eq!(object.pop(), Some(JsonField::new_number("a", 1)));
    assert_eq!(object.pop(), None);
    assert!(object.push_const("x", JsonValue::Null).is_ok());
    assert_eq!(object.fields_const(), &[JsonField::new("x", JsonValue::Null)]);
}

#[test]
fn array_serialize_and_push() {
    let mut array = ArrayJsonArray::<3>::new();
    array.push_const(JsonValue::Number(1)).unwrap();
    array.push_const(JsonValue::String("two")).unwrap();
    array.push_const(JsonValue::Boolean(true)).unwrap();
    assert!(array.push_const(JsonValue::Null).is_err());
    assert_eq!(array.to_string(), r#"[1,"two",true]"#);
    assert_eq!(array.values_const().len(), 3);
    assert_eq!(array.pop_const(), Some(&JsonValue::Boolean(true)));
}

#[test]
fn value_parse_string_and_negative() {
    let mut escape = [0_u8; 8];
    let (end, value) = JsonValue::parse(br#" "a\tb" "#, &mut escape).unwrap();
    assert_eq!(end, 7);
    assert_eq!(value, JsonValue::String("a\tb"));
    let (end, value) = JsonValue::parse(b"-17,", &mut [0_u8; 0]).unwrap();
    assert_eq!(end, 3);
    assert_eq!(value, JsonValue::Number(-17));
}

#[test]
fn wrap_init_counts_all() {
    let fields = [JsonField::new("a", JsonValue::Null), JsonField::new("b", JsonValue::Number(2))];
    let object = JsonObject::wrap_init(fields);
    assert_eq!(object.len(), 2);
    assert_eq!(object.to_string(), r#"{"a":null,"b":2}"#);
    let (inner, n) = object.into_inner();
    assert_eq!(n, 2);
    assert_eq!(inner[1].value, JsonValue::Number(2));
}

#[test]
fn objects_equal_on_entries_only() {
    let mut a = ArrayJsonObject::<3>::new();
    let mut b = ArrayJsonObject::<3>::new();
    a.push_field("x", JsonValue::Number(1)).unwrap();
    b.push_field("x", JsonValue::Number(1)).unwrap();
    b.push_field("stale", JsonValue::Boolean(true)).unwrap();
    assert!(a != b);
    b.pop().unwrap();
    assert!(a == b);
    b.pop().unwrap();
    b.push_field("x", JsonValue::Number(2)).unwrap();
    assert!(a != b);
}

#[test]
fn values_from_plain_types() {
    assert_eq!(JsonValue::from(5_i64), JsonValue::Number(5));
    assert_eq!(JsonValue::from(true), JsonValue::Boolean(true));
    assert_eq!(JsonValue::from("s"), JsonValue::String("s"));
    assert_eq!(JsonValue::from(()), JsonValue::Null);
    let arena = lil_json::container::AllocEscapeBuffer::new();
    let mut object = ArrayJsonObject::<1>::new();
    object.parse_alloc_escape(br#"{"a":"b"}   "#, &arena).unwrap();
    assert_eq!(object.fields()[0], JsonField::new_string("a", "b"));
}

#[test]
fn array_round_trip_and_errors() {
    let mut array = ArrayJsonArray::<4>::new();
    array.push_const(JsonValue::Number(-3)).unwrap();
    array.push_const(JsonValue::String("q\"")).unwrap();
    array.push_const(JsonValue::Null).unwrap();
    let text = array.to_string();
    assert_eq!(text, r#"[-3,"q\"",null]"#);
    let mut escape = [0_u8; 8];
    let (end, parsed) = ArrayJsonArray::<4>::new_parsed(text.as_bytes(), &mut escape).unwrap();
    assert_eq!(end, text.len());
    assert_eq!(parsed.values(), array.values());
    let mut escape = [0_u8; 8];
    match ArrayJsonArray::<2>::new_parsed(text.as_bytes(), &mut escape) {
        Err(JsonParseFailure::FieldBufferTooSmall) => {}
        other => panic!("{:?}", other),
    }
    let mut escape = [0_u8; 8];
    match ArrayJsonArray::<4>::new_parsed(b"[1 2]", &mut escape) {
        Err(JsonParseFailure::InvalidStructure) => {}
        other => panic!("{:?}", other),
    }
    let mut escape = [0_u8; 8];
    match ArrayJsonArray::<4>::new_parsed(b"[1,", &mut escape) {
        Err(JsonParseFailure::Incomplete) => {}
        other => panic!("{:?}", other),
    }
    let mut escape = [0_u8; 8];
    let (end, empty) = ArrayJsonArray::<0>::new_parsed(b" [ ] ", &mut escape).unwrap();
    assert_eq!(end, 4);
    assert_eq!(empty.len(), 0);
}
