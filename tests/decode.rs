use rrr::{
    parse, pieces_text, AstKind, BufWalker, DecodeError, JsonDisplay, JsonFormattingStyle,
    JsonPiece, Number, ParamStack, Schema, Value,
};

fn json(schema: &Schema, buf: &[u8], style: JsonFormattingStyle) -> Result<String, DecodeError> {
    let pieces = JsonDisplay::new(schema, buf, style).render()?;
    Ok(pieces
        .iter()
        .map(|p| match *p {
            JsonPiece::Char(c) => char::from_u32(c).unwrap().to_string(),
            JsonPiece::Float32(b) => f32::from_bits(b).to_string(),
            JsonPiece::Float64(b) => f64::from_bits(b).to_string(),
        })
        .collect())
}

fn minimal(schema: &str, buf: &[u8]) -> Result<String, DecodeError> {
    json(&parse(schema).unwrap(), buf, JsonFormattingStyle::Minimal)
}

fn schema_without_str() -> Schema {
    parse(
        "date:[year:UINT16,month:UINT8,day:UINT8],\
        data:{4}[loc:<4>NSTR,temp:INT16,rhum:UINT16],comment:<16>NSTR",
    )
    .unwrap()
}

fn schema_with_str() -> Schema {
    parse(
        "date:[year:UINT16,month:UINT8,day:UINT8],\
        data:{4}[loc:STR,temp:INT16,rhum:UINT16],comment:<16>NSTR",
    )
    .unwrap()
}

const RECORD_BUF: [u8; 63] = [
    0x07, 0xe6, 0x01, 0x01, 0x54, 0x4f, 0x4b, 0x59, 0x4f, 0x00, 0x00, 0x64, 0x00, 0x0a, 0x4f,
    0x53, 0x41, 0x4b, 0x41, 0x00, 0x00, 0x64, 0x00, 0x0a, 0x4e, 0x41, 0x47, 0x4f, 0x59, 0x41,
    0x00, 0x00, 0x64, 0x00, 0x0a, 0x46, 0x55, 0x4b, 0x55, 0x4f, 0x4b, 0x41, 0x00, 0x00, 0x64,
    0x00, 0x0a, 0x30, 0x31, 0x32, 0x33, 0x34, 0x35, 0x36, 0x37, 0x38, 0x39, 0x61, 0x62, 0x63,
    0x64, 0x65, 0x66,
];

#[test]
fn visitor_basic_functionality() {
    let schema = schema_without_str();
    assert_eq!(schema.ast.fixed_size(), Some(52));
}

#[test]
fn visitor_skip() {
    let schema = schema_with_str();
    let mut walker = BufWalker::new(&RECORD_BUF);
    walker.skip_tree(&schema.ast).unwrap();
    assert_eq!(walker.pos(), 63);
}

#[test]
fn fixed_size_is_none_with_text_of_unknown_length() {
    assert_eq!(schema_with_str().ast.fixed_size(), None);
}

fn read_number_at_2(buf: Vec<u8>, kind: AstKind) -> Number {
    let mut walker = BufWalker::new(&buf);
    walker.set_pos(2);
    walker.read_number(&kind).unwrap()
}

#[test]
fn reading_i8() {
    assert_eq!(read_number_at_2(vec![0x00, 0x00, 0xfe, 0x00, 0x00], AstKind::Int8), Number::Int8(-2));
}

#[test]
fn reading_i16() {
    let n = read_number_at_2(vec![0x00, 0x00, 0xfe, 0xdc, 0x00, 0x00], AstKind::Int16);
    assert_eq!(n, Number::Int16(-292));
}

#[test]
fn reading_i32() {
    let n = read_number_at_2(vec![0x00, 0x00, 0xfe, 0xdc, 0xba, 0x98, 0x00], AstKind::Int32);
    assert_eq!(n, Number::Int32(-19088744));
}

#[test]
fn reading_u8() {
    assert_eq!(read_number_at_2(vec![0x00, 0x00, 0xfe, 0x00, 0x00], AstKind::UInt8), Number::UInt8(254));
}

#[test]
fn reading_u16() {
    let n = read_number_at_2(vec![0x00, 0x00, 0xfe, 0xdc, 0x00, 0x00], AstKind::UInt16);
    assert_eq!(n, Number::UInt16(65244));
}

#[test]
fn reading_u32() {
    let n = read_number_at_2(vec![0x00, 0x00, 0xfe, 0xdc, 0xba, 0x98, 0x00, 0x00], AstKind::UInt32);
    assert_eq!(n, Number::UInt32(4275878552));
}

#[test]
fn reading_f32() {
    let n = read_number_at_2(vec![0x00, 0x00, 0xbf, 0x80, 0x00, 0x00, 0x00, 0x00], AstKind::Float32);
    match n {
        Number::Float32(b) => assert_eq!(f32::from_bits(b), -1.0),
        other => panic!("unexpected {other:?}"),
    }
}

#[test]
fn reading_f64() {
    let buf = vec![0x00, 0x00, 0xbf, 0xf0, 0x00, 0x00, 0x00, 0x00, 0x00, 0x00, 0x00, 0x00];
    match read_number_at_2(buf, AstKind::Float64) {
        Number::Float64(b) => assert_eq!(f64::from_bits(b), -1.0),
        other => panic!("unexpected {other:?}"),
    }
}

#[test]
fn read_str() {
    let buf = vec![0x00, 0x00, 0x54, 0x4f, 0x4b, 0x59, 0x4f, 0x00, 0x00, 0x00];
    let mut walker = BufWalker::new(buf.as_slice());
    walker.set_pos(2);
    let result = walker.read_str().unwrap();
    assert_eq!(result, "TOKYO".as_bytes());
}

#[test]
fn read_nstr() {
    let buf = vec![0x00, 0x00, 0x54, 0x4f, 0x4b, 0x00, 0x00, 0x00];
    let mut walker = BufWalker::new(buf.as_slice());
    walker.set_pos(2);
    let result = walker.read_nstr(4).unwrap();
    assert_eq!(result, "TOK\x00".as_bytes());
}

#[test]
fn read_str_without_nul_is_truncated() {
    let buf = vec![0x41, 0x42];
    let mut walker = BufWalker::new(buf.as_slice());
    assert_eq!(walker.read_str(), Err(DecodeError::Truncated));
    assert_eq!(walker.pos(), 0);
}

#[test]
fn read_nstr_keeps_nul_padding_as_text() {
    let schema = parse("a:<4>NSTR").unwrap();
    let buf = [0x54u8, 0x4f, 0x4b, 0x00];
    let mut walker = BufWalker::new(&buf);
    let kind = match &schema.ast.kind {
        AstKind::Struct(children) => &children[0],
        _ => unreachable!(),
    };
    assert_eq!(walker.read(kind), Ok(Value::String("TOK\u{0}".to_owned())));
}

#[test]
fn visitor_read_of_record_values() {
    assert_eq!(
        minimal(
            "date:[year:UINT16,month:UINT8,day:UINT8],\
            data:{4}[loc:STR,temp:INT16,rhum:UINT16],comment:<16>NSTR",
            &RECORD_BUF
        )
        .unwrap(),
        "{\"date\":{\"year\":2022,\"month\":1,\"day\":1},\"data\":[\
        {\"loc\":\"TOKYO\",\"temp\":100,\"rhum\":10},\
        {\"loc\":\"OSAKA\",\"temp\":100,\"rhum\":10},\
        {\"loc\":\"NAGOYA\",\"temp\":100,\"rhum\":10},\
        {\"loc\":\"FUKUOKA\",\"temp\":100,\"rhum\":10}],\
        \"comment\":\"0123456789abcdef\"}"
    );
}

const NESTED_DATA_SCHEMA: &str =
    "count:UINT8,fld1:{count}[sfld1:[ssfld1:{count}[count:UINT8,sssfld1:{count}[ssssfld1:\
    {count}[sssssfld1:UINT8,count:UINT8]]]]]";
const NESTED_DATA_BUF: &[u8] = &[
    0x02, 0x02, 0x01, 0x01, 0x02, 0x02, 0x03, 0x03, 0x04, 0x04, 0x03, 0x01, 0x01, 0x02, 0x02,
    0x03, 0x03, 0x04, 0x04, 0x05, 0x05, 0x06, 0x06, 0x07, 0x07, 0x08, 0x08, 0x09, 0x09, 0x01,
    0x01, 0x01, 0x02, 0x01, 0x01, 0x02, 0x02, 0x03, 0x03, 0x04, 0x04,
];
const NESTED_DATA_EXPECTED: &str = r#"{
  "count": 2,
  "fld1": [
    {
      "sfld1": {
        "ssfld1": [
          {
            "count": 2,
            "sssfld1": [
              {
                "ssssfld1": [
                  {
                    "sssssfld1": 1,
                    "count": 1
                  },
                  {
                    "sssssfld1": 2,
                    "count": 2
                  }
                ]
              },
              {
                "ssssfld1": [
                  {
                    "sssssfld1": 3,
                    "count": 3
                  },
                  {
                    "sssssfld1": 4,
                    "count": 4
                  }
                ]
              }
            ]
          },
          {
            "count": 3,
            "sssfld1": [
              {
                "ssssfld1": [
                  {
                    "sssssfld1": 1,
                    "count": 1
                  },
                  {
                    "sssssfld1": 2,
                    "count": 2
                  },
                  {
                    "sssssfld1": 3,
                    "count": 3
                  }
                ]
              },
              {
                "ssssfld1": [
                  {
                    "sssssfld1": 4,
                    "count": 4
                  },
                  {
                    "sssssfld1": 5,
                    "count": 5
                  },
                  {
                    "sssssfld1": 6,
                    "count": 6
                  }
                ]
              },
              {
                "ssssfld1": [
                  {
                    "sssssfld1": 7,
                    "count": 7
                  },
                  {
                    "sssssfld1": 8,
                    "count": 8
                  },
                  {
                    "sssssfld1": 9,
                    "count": 9
                  }
                ]
              }
            ]
          }
        ]
      }
    },
    {
      "sfld1": {
        "ssfld1": [
          {
            "count": 1,
            "sssfld1": [
              {
                "ssssfld1": [
                  {
                    "sssssfld1": 1,
                    "count": 1
                  }
                ]
              }
            ]
          },
          {
            "count": 2,
            "sssfld1": [
              {
                "ssssfld1": [
                  {
                    "sssssfld1": 1,
                    "count": 1
                  },
                  {
                    "sssssfld1": 2,
                    "count": 2
                  }
                ]
              },
              {
                "ssssfld1": [
                  {
                    "sssssfld1": 3,
                    "count": 3
                  },
                  {
                    "sssssfld1": 4,
                    "count": 4
                  }
                ]
              }
            ]
          }
        ]
      }
    }
  ]
}"#;

#[test]
fn json_serialization_with_pretty_printing_style() {
    let schema = parse(NESTED_DATA_SCHEMA).unwrap();
    let actual = json(&schema, NESTED_DATA_BUF, JsonFormattingStyle::Pretty).unwrap();
    assert_eq!(actual, NESTED_DATA_EXPECTED.to_string());
}

#[test]
fn json_serialization_for_data_with_variable_length_struct_array() {
    let expected: String =
        NESTED_DATA_EXPECTED.chars().filter(|c| *c != ' ' && *c != '\n').collect();
    assert_eq!(minimal(NESTED_DATA_SCHEMA, NESTED_DATA_BUF).unwrap(), expected);
}

#[test]
fn json_serialization_for_data_with_fixed_length_builtin_type_array() {
    assert_eq!(minimal("fld1:{3}INT8", &[0x01, 0x02, 0x03]).unwrap(), "{\"fld1\":[1,2,3]}");
}

#[test]
fn parameter_resolution() {
    assert_eq!(
        minimal("n:UINT8,a:{n}[x:UINT8]", &[3, 1, 2, 3]).unwrap(),
        "{\"n\":3,\"a\":[{\"x\":1},{\"x\":2},{\"x\":3}]}"
    );
}

#[test]
fn unlimited_array() {
    assert_eq!(
        minimal("a:+[x:UINT8]", &[1, 2, 3]).unwrap(),
        "{\"a\":[{\"x\":1},{\"x\":2},{\"x\":3}]}"
    );
}

#[test]
fn unlimited_array_of_empty_buffer_is_empty() {
    assert_eq!(minimal("a:+UINT8", &[]).unwrap(), "{\"a\":[]}");
}

#[test]
fn unlimited_array_of_zero_width_elements_stalls() {
    assert_eq!(minimal("n:UINT8,a:+{n}UINT8", &[0, 1]), Err(DecodeError::StalledArray));
}

#[test]
fn truncation() {
    assert_eq!(minimal("x:UINT32", &[0, 1]), Err(DecodeError::Truncated));
}

#[test]
fn unresolved_parameter_is_an_error() {
    assert_eq!(
        minimal("a:{n}UINT8,n:UINT8", &[1, 2]),
        Err(DecodeError::UnresolvedParameter("n".to_owned()))
    );
}

#[test]
fn negative_parameter_is_an_error() {
    assert_eq!(
        minimal("n:INT8,a:{n}UINT8", &[0xff]),
        Err(DecodeError::InvalidParameterValue("n".to_owned()))
    );
}

#[test]
fn float_parameter_is_an_error() {
    assert_eq!(
        minimal("n:FLOAT32,a:{n}UINT8", &[0, 0, 0, 0]),
        Err(DecodeError::InvalidParameterValue("n".to_owned()))
    );
}

#[test]
fn scope_isolation_between_sibling_elements() {
    // The first element sets n to 2, the second to 1; each inner array sees
    // only its own element's n, and the outer n is seen again afterwards.
    let schema = "n:UINT8,e:{2}[n:UINT8,v:{n}UINT8],w:{n}UINT8";
    let buf = [1u8, 2, 10, 11, 1, 20, 30];
    assert_eq!(
        minimal(schema, &buf).unwrap(),
        "{\"n\":1,\"e\":[{\"n\":2,\"v\":[10,11]},{\"n\":1,\"v\":[20]}],\"w\":[30]}"
    );
}

#[test]
fn fixed_array_consumes_count_times_width() {
    let schema = parse("a:{3}UINT16,b:UINT8").unwrap();
    let buf = [0u8, 1, 0, 2, 0, 3, 9];
    assert_eq!(
        json(&schema, &buf, JsonFormattingStyle::Minimal).unwrap(),
        "{\"a\":[1,2,3],\"b\":9}"
    );
    assert_eq!(
        json(&schema, &buf[..5], JsonFormattingStyle::Minimal),
        Err(DecodeError::Truncated)
    );
}

#[test]
fn floats_are_left_as_bit_patterns() {
    let schema = parse("f:FLOAT32").unwrap();
    let pieces = JsonDisplay::new(&schema, &[0x3f, 0xc0, 0, 0], JsonFormattingStyle::Minimal)
        .render()
        .unwrap();
    assert!(pieces.contains(&JsonPiece::Float32(0x3fc0_0000)));
    assert_eq!(pieces_text(&pieces), None);
    assert_eq!(json(&schema, &[0x3f, 0xc0, 0, 0], JsonFormattingStyle::Minimal).unwrap(), "{\"f\":1.5}");
}

#[test]
fn strings_are_escaped_in_json() {
    assert_eq!(
        minimal("s:STR", &[0x61, 0x22, 0x5c, 0x0a, 0x01, 0x00]).unwrap(),
        "{\"s\":\"a\\\"\\\\\\n\\u0001\"}"
    );
}

#[test]
fn json_escape_for_all_ascii_characters() {
    let input: String = (0x00u8..0x80u8).map(|b| b as char).collect();
    let expected = [
        r##"\u0000\u0001\u0002\u0003\u0004\u0005\u0006\u0007\b\t\n\u000B\f\r\u000E\u000F"##,
        r##"\u0010\u0011\u0012\u0013\u0014\u0015\u0016\u0017\u0018\u0019\u001A\u001B\u001C\u001D\u001E\u001F"##,
        r##" !\"#$%&'()*+,-./0123456789:;<=>?"##,
        r##"@ABCDEFGHIJKLMNOPQRSTUVWXYZ[\\]^_"##,
        r##"`abcdefghijklmnopqrstuvwxyz{|}~\u007F"##,
    ]
    .join("");
    assert_eq!(rrr::json_escape_str(&input), expected);
}

#[test]
fn json_escape_with_no_escapes() {
    let input: String = (0x61u8..0x7bu8).map(|b| b as char).collect();
    assert_eq!(rrr::json_escape_str(&input), "abcdefghijklmnopqrstuvwxyz");
}

#[test]
fn json_escape_for_string_to_be_escaped_from_the_middle() {
    let input: String = (0x41u8..0x5eu8).map(|b| b as char).collect();
    assert_eq!(rrr::json_escape_str(&input), r##"ABCDEFGHIJKLMNOPQRSTUVWXYZ[\\]"##);
}

#[test]
fn json_escape_keeps_non_ascii_text() {
    assert_eq!(rrr::json_escape_str("東京\t"), "東京\\t");
}

#[test]
fn scope() {
    let mut params = ParamStack::new();
    params.add_entry("p1");

    params.create_scope();
    params.push_value("p1", 1);
    assert_eq!(params.stack("p1"), Some(&vec![(1, 1)]));

    params.create_scope();
    assert_eq!(params.stack("p1"), Some(&vec![(1, 1)]));

    params.create_scope();
    params.push_value("p1", 2);
    assert_eq!(params.stack("p1"), Some(&vec![(1, 1), (3, 2)]));

    params.clear_scope();
    assert_eq!(params.stack("p1"), Some(&vec![(1, 1)]));

    params.clear_scope();
    assert_eq!(params.stack("p1"), Some(&vec![(1, 1)]));

    params.clear_scope();
    assert_eq!(params.stack("p1"), Some(&Vec::new()));
}

#[test]
fn params_lookup_and_unregistered_push() {
    let mut params = ParamStack::new();
    assert!(!params.contains("n"));
    assert_eq!(params.push_value("n", 3), None);
    params.add_entry("n");
    assert!(params.contains("n"));
    assert_eq!(params.get_value("n"), None);
    assert_eq!(params.push_value("n", 3), Some(()));
    assert_eq!(params.get_value("n"), Some(3));
    params.add_entry("n");
    assert_eq!(params.get_value("n"), None);
}

#[test]
fn pieces_text_joins_characters() {
    let schema = parse("a:UINT8,b:<2>NSTR").unwrap();
    let pieces = JsonDisplay::new(&schema, &[7, 0x68, 0x69], JsonFormattingStyle::Minimal)
        .render()
        .unwrap();
    assert_eq!(pieces_text(&pieces), Some("{\"a\":7,\"b\":\"hi\"}".to_owned()));
}
