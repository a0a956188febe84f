use embedded_io::{SliceWriteError, Write};
use lil_json::container::{ArrayJsonArray, ArrayJsonObject, JsonObject};
use lil_json::parse::{parse_json_object, ParseBuffer, StringBuffer};
use lil_json::serialize::JsonSerializeFailure;
use lil_json::value::{JsonField, JsonParseFailure, JsonValue};

#[test]
fn test_parse_core_vec_no_alloc_too_many_fields() {
    match parse_json_object(
        br#"{"a":0}"#,
        ParseBuffer::Finite(0, &mut Vec::new()),
        &mut StringBuffer::Finite(0, &mut [0_u8; 256]),
    ) {
        Err(JsonParseFailure::FieldBufferTooSmall) => {}
        other => panic!("{:?}", other),
    }
}

#[test]
fn test_parse_core_vec_with_alloc_simple() {
    let mut fields = Vec::new();
    match parse_json_object(
        br#"{"a":0}"#,
        ParseBuffer::Infinite(0, &mut fields),
        &mut StringBuffer::Finite(0, &mut [0_u8; 256]),
    ) {
        Ok((num_bytes, num_fields)) => {
            assert_eq!(7, num_bytes);
            assert_eq!(1, num_fields);
            assert_eq!(1, fields.len());
            assert_eq!(JsonField::new("a", JsonValue::Number(0)), fields[0])
        }
        other => panic!("{:?}", other),
    }
}

#[test]
fn test_parse_core_vec_success_empty() {
    let (bytes_consumed, num_fields_parsed) = parse_json_object(
        b"{}",
        ParseBuffer::Infinite(0, &mut Vec::new()),
        &mut StringBuffer::Finite(0, &mut [0_u8; 256]),
    )
    .unwrap();
    assert_eq!(2, bytes_consumed);
    assert_eq!(0, num_fields_parsed);
}

#[test]
fn test_parse_object_vec_success_empty() {
    let mut escape_buffer = [0_u8; 256];
    let mut parser = JsonObject::wrap(Vec::new());
    let bytes_consumed = parser.parse(b"{}", &mut escape_buffer).unwrap();
    assert_eq!(0, parser.fields().len());
    assert_eq!(bytes_consumed, 2);
}

#[test]
fn test_serialize_empty_to_string() {
    let string: String = ArrayJsonObject::<0>::new().to_string();
    assert_eq!("{}", string);
}

#[test]
fn test_parse_value_string() {
    let data = br#""this is a string""#;
    match JsonValue::parse(data, &mut [0_u8; 16]) {
        Ok((value_end, value)) => {
            assert_eq!(data.len(), value_end);
            match value {
                JsonValue::String(s) => {
                    assert_eq!("this is a string", s);
                }
                other => panic!("{:?}", other),
            }
        }
        other => panic!("{:?}", other),
    }
}

#[test]
fn test_parse_value_integer() {
    let data = br#"12345 "#;
    match JsonValue::parse(data, &mut [0_u8; 16]) {
        Ok((value_end, value)) => {
            assert_eq!(data.len(), value_end + 1); // need non-numeric to recognize end
            match value {
                JsonValue::Number(n) => {
                    assert_eq!(12345, n);
                }
                other => panic!("{:?}", other),
            }
        }
        other => panic!("{:?}", other),
    }
}

#[test]
fn test_parse_value_null() {
    let data = br#"null"#;
    match JsonValue::parse(data, &mut [0_u8; 16]) {
        Ok((value_end, value)) => {
            assert_eq!(data.len(), value_end);
            match value {
                JsonValue::Null => {}
                other => panic!("{:?}", other),
            }
        }
        other => panic!("{:?}", other),
    }
}

#[test]
fn test_parse_object_empty_core() {
    let mut escape_buffer = [0_u8; 256];
    let (bytes_consumed, num_fields) = parse_json_object(
        b"{}",
        ParseBuffer::Finite(0, &mut []),
        &mut StringBuffer::Finite(0, &mut escape_buffer),
    )
    .unwrap();
    assert_eq!(bytes_consumed, 2);
    assert_eq!(num_fields, 0);
}

#[test]
fn test_parse_object_empty_trait_array() {
    let mut parser = JsonObject::wrap([]);
    let bytes_consumed = parser.parse(b"{}", &mut []).unwrap();
    assert_eq!(bytes_consumed, 2);
    assert_eq!(parser.len(), 0);
}

#[test]
fn test_parse_object_empty_trait_slice() {
    let mut parser = JsonObject::wrap(&mut []);
    let bytes_consumed = parser.parse(b"{}", &mut []).unwrap();
    assert_eq!(bytes_consumed, 2);
    assert_eq!(parser.len(), 0);
}

#[test]
fn test_parse_object_empty_arrayhelper() {
    let mut parser = ArrayJsonObject::<0>::new();
    let bytes_consumed = parser.parse(b"{}", &mut []).unwrap();
    assert_eq!(bytes_consumed, 2);
    assert_eq!(parser.len(), 0);
}

#[test]
fn test_parse_object_simple() {
    let data = br#"{"sub":"1234567890","name":"John Doe","iat":1516239022,"something":false,"null_thing":null}"#;
    let mut escape_buffer = [0_u8; 256];
    let (data_end, json_object) = ArrayJsonObject::<50>::new_parsed(data, &mut escape_buffer).unwrap();
    assert_eq!(data_end, data.len());
    let test_fields = json_object.fields();
    assert_eq!(5, test_fields.len());
    assert_eq!(JsonField { key: "sub", value: JsonValue::String("1234567890") }, test_fields[0]);
    assert_eq!(JsonField { key: "name", value: JsonValue::String("John Doe") }, test_fields[1]);
    assert_eq!(JsonField { key: "iat", value: JsonValue::Number(1516239022) }, test_fields[2]);
    assert_eq!(JsonField { key: "something", value: JsonValue::Boolean(false) }, test_fields[3]);
    assert_eq!(JsonField { key: "null_thing", value: JsonValue::Null }, test_fields[4]);
}

#[test]
fn test_parse_object_empty_strings() {
    let data = br#"{"":""}"#;
    let mut escape_buffer = [0_u8; 0];
    let (data_end, json_object) = ArrayJsonObject::<50>::new_parsed(data, &mut escape_buffer).unwrap();
    assert_eq!(data_end, data.len());
    let test_fields = json_object.fields();
    assert_eq!(1, test_fields.len());
    assert_eq!(JsonField { key: "", value: JsonValue::String("") }, test_fields[0]);
}

#[test]
fn test_parse_object_escape_backspace() {
    let data = br#"{"\b":null}"#;
    let mut escape_buffer = [0_u8; 1];
    let (data_end, json_object) = ArrayJsonObject::<50>::new_parsed(data, &mut escape_buffer).unwrap();
    assert_eq!(data_end, data.len());
    let test_fields = json_object.fields();
    assert_eq!(1, test_fields.len());
    assert_eq!(JsonField { key: "\u{0008}", value: JsonValue::Null }, test_fields[0]);
}

#[test]
fn test_parse_object_escape_newline() {
    let data = br#"{"\n":null}"#;
    let mut escape_buffer = [0_u8; 1];
    let (data_end, json_object) = ArrayJsonObject::<50>::new_parsed(data, &mut escape_buffer).unwrap();
    assert_eq!(data_end, data.len());
    let test_fields = json_object.fields();
    assert_eq!(1, test_fields.len());
    assert_eq!(JsonField { key: "\n", value: JsonValue::Null }, test_fields[0]);
}

#[test]
fn test_parse_object_escape_carriage_return() {
    let data = br#"{"\r":null}"#;
    let mut escape_buffer = [0_u8; 1];
    let (data_end, json_object) = ArrayJsonObject::<50>::new_parsed(data, &mut escape_buffer).unwrap();
    assert_eq!(data_end, data.len());
    let test_fields = json_object.fields();
    assert_eq!(1, test_fields.len());
    assert_eq!(JsonField { key: "\r", value: JsonValue::Null }, test_fields[0]);
}

#[test]
fn test_parse_object_escape_quote() {
    let data = br#"{"\"":null}"#;
    let mut escape_buffer = [0_u8; 1];
    let (data_end, json_object) = ArrayJsonObject::<50>::new_parsed(data, &mut escape_buffer).unwrap();
    assert_eq!(data_end, data.len());
    let test_fields = json_object.fields();
    assert_eq!(1, test_fields.len());
    assert_eq!(JsonField { key: "\"", value: JsonValue::Null }, test_fields[0]);
}

#[test]
fn test_parse_object_ignore_trailing_whitespace() {
    let data = br#"{}    "#; // add 4 spaces to the end
    let (data_end, _) = ArrayJsonObject::<0>::new_parsed(data, &mut []).unwrap();
    assert_eq!(data_end, data.len() - 4);
}

#[test]
fn test_parse_object_failure_too_many_fields() {
    match ArrayJsonObject::<0>::new_parsed(br#"{"some":"thing"}"#, &mut [0_u8; 256]) {
        Err(JsonParseFailure::FieldBufferTooSmall) => {}
        other => panic!("{:?}", other),
    }
}

#[test]
fn test_parse_object_failure_invalid_number_minus() {
    match ArrayJsonObject::<1>::new_parsed(br#"{"": -}"#, &mut []) {
        Err(JsonParseFailure::InvalidNumericField) => {}
        other => panic!("{:?}", other),
    }
}

#[test]
fn test_parse_object_failure_incomplete_a() {
    match ArrayJsonObject::<0>::new_parsed(b"{", &mut []) {
        Err(JsonParseFailure::Incomplete) => {}
        other => panic!("{:?}", other),
    }
}

#[test]
fn test_parse_object_failure_incomplete_b() {
    let mut escape_buffer = [0_u8; 256];
    match ArrayJsonObject::<50>::new_parsed(
        br#"{"sub":"1234567890","name":"John Doe","iat":1516239022,"something":false"#,
        &mut escape_buffer,
    ) {
        Err(JsonParseFailure::Incomplete) => {}
        other => panic!("{:?}", other),
    }
}

#[test]
fn test_serialize_array_empty() {
    let mut buffer = [0_u8; 2];
    let test_array = ArrayJsonArray::<0>::new();
    let n = test_array.serialize(buffer.as_mut_slice()).unwrap();
    assert_eq!(b"[]", buffer.split_at(n).0)
}

#[test]
fn test_serialize_resume_array_empty() {
    let mut buffer = [0_u8; 2];
    let test_array = ArrayJsonArray::<0>::new();
    let n = test_array.serialize_resume(buffer.as_mut_slice(), 1).unwrap();
    assert_eq!(b"]", buffer.split_at(n).0)
}

#[test]
fn test_display_array_empty() {
    let mut buffer = [0_u8; 2];
    buffer
        .as_mut_slice()
        .write_all(ArrayJsonArray::<0>::new().to_string().as_bytes())
        .unwrap();
    assert_eq!(b"[]", buffer.as_slice())
}

#[test]
fn test_serialize_object_empty() {
    let mut buffer = [0_u8; 2];
    let test_object = ArrayJsonObject::<0>::new();
    let n = test_object.serialize(buffer.as_mut_slice()).unwrap();
    assert_eq!(b"{}", buffer.split_at(n).0)
}

#[test]
fn test_serialize_resume_object_empty() {
    let mut buffer = [0_u8; 2];
    let test_object = ArrayJsonObject::<0>::new();
    let n = test_object.serialize_resume(buffer.as_mut_slice(), 1).unwrap();
    assert_eq!(b"}", buffer.split_at(n).0)
}

#[test]
fn test_serialize_resume_skip_object_empty() {
    let mut buffer = [0_u8; 2];
    let test_object = ArrayJsonObject::<0>::new();
    let n = test_object.serialize_resume(buffer.as_mut_slice(), 2).unwrap();
    assert_eq!(b"", buffer.split_at(n).0)
}

#[test]
fn test_serialize_resume_too_many_object_empty() {
    let mut buffer = [0_u8; 2];
    let test_object = ArrayJsonObject::<0>::new();
    let n = test_object.serialize_resume(buffer.as_mut_slice(), 3).unwrap();
    assert_eq!(b"", buffer.split_at(n).0)
}

#[test]
fn test_display_object_empty() {
    let mut buffer = [0_u8; 2];
    buffer
        .as_mut_slice()
        .write_all(ArrayJsonObject::<0>::new().to_string().as_bytes())
        .unwrap();
    assert_eq!(b"{}", buffer.as_slice())
}

#[test]
fn test_serialize_object_simple() {
    let mut buffer = [0_u8; 1000];
    let mut test_map = ArrayJsonObject::<50>::new();
    test_map.push_field("sub", JsonValue::String("1234567890")).unwrap();
    test_map.push_field("name", JsonValue::String("John Doe")).unwrap();
    test_map.push_field("iat", JsonValue::Number(1516239022)).unwrap();
    test_map.push_field("something", JsonValue::Boolean(false)).unwrap();
    test_map.push_field("null_thing", JsonValue::Null).unwrap();
    let n = test_map.serialize(buffer.as_mut_slice()).unwrap();
    assert_eq!(
        br#"{"sub":"1234567890","name":"John Doe","iat":1516239022,"something":false,"null_thing":null}"#,
        buffer.split_at(n).0
    )
}

#[test]
fn test_serialize_resume_object_simple() {
    const SKIP: usize = 10;
    const EXPECTED: &[u8] = br#"{"sub":"1234567890","name":"John Doe","iat":1516239022,"something":false,"null_thing":null}"#
        .split_at(SKIP)
        .1;

    let mut buffer = [0_u8; 1000];
    let mut test_map = ArrayJsonObject::<50>::new();
    test_map.push_field("sub", JsonValue::String("1234567890")).unwrap();
    test_map.push_field("name", JsonValue::String("John Doe")).unwrap();
    test_map.push_field("iat", JsonValue::Number(1516239022)).unwrap();
    test_map.push_field("something", JsonValue::Boolean(false)).unwrap();
    test_map.push_field("null_thing", JsonValue::Null).unwrap();
    let n = test_map.serialize_resume(buffer.as_mut_slice(), 10).unwrap();
    assert_eq!(EXPECTED, buffer.split_at(n).0)
}

#[test]
fn test_serialize_resume_object_single_byte() {
    const EXPECTED: &[u8] = br#"{"sub":"1234567890","name":"John Doe","iat":1516239022,"something":false,"null_thing":null}"#;

    let mut buffer = [0_u8; 1];
    let mut test_map = ArrayJsonObject::<50>::new();
    test_map.push_field("sub", JsonValue::String("1234567890")).unwrap();
    test_map.push_field("name", JsonValue::String("John Doe")).unwrap();
    test_map.push_field("iat", JsonValue::Number(1516239022)).unwrap();
    test_map.push_field("something", JsonValue::Boolean(false)).unwrap();
    test_map.push_field("null_thing", JsonValue::Null).unwrap();

    // attempt to resume from every each byte
    for (index, expected_byte) in EXPECTED.iter().enumerate() {
        match test_map.serialize_resume(buffer.as_mut_slice(), index) {
            Err((1, JsonSerializeFailure::Sink(SliceWriteError::Full))) => {
                assert_eq!(*expected_byte as char, buffer[0] as char)
            }
            Ok(0) => assert_eq!(EXPECTED.len(), index),
            Ok(1) => assert_eq!(EXPECTED.len() - 1, index),
            unexpected => panic!("{:?}", unexpected),
        };
    }
}
