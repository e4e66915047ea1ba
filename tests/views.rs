use rrr::{
    error_excerpt, parse, parse_with, schema_tree_lines, DataReaderOptions, FieldCounter,
    Location, SchemaParseError, SchemaParseErrorKind,
};

fn tree(input: &str) -> String {
    let schema = parse(input).unwrap();
    schema_tree_lines(&schema.ast)
        .iter()
        .map(|l| format!("{}{}: {}\n", l.prefix, l.name, l.label))
        .collect()
}

fn report(input: &str, kind: SchemaParseErrorKind, start: usize, end: usize) -> String {
    let error = SchemaParseError { kind, location: Location(start, end) };
    let excerpt = error_excerpt(&error, input.as_bytes());
    let field = "format =";
    let before = if excerpt.cut_before { " .. " } else { "    " };
    let after = if excerpt.cut_after { " .." } else { "" };
    let padding = " ".repeat(field.len() + before.len() + excerpt.offset);
    format!(
        "reason: {}\n\n    {}{}{}{}\n    {}{}\n",
        kind.short_reason(),
        field,
        before,
        excerpt.text,
        after,
        padding,
        "^".repeat(excerpt.carets)
    )
}

#[test]
fn schema_tree_display_for_data_with_fixed_length_builtin_type_array() {
    assert_eq!(
        tree("fld1:{3}INT8"),
        "/: Struct
└── fld1: Array (length: fixed (3))
    └── [index]: INT8
"
    );
}

#[test]
fn schema_tree_display_for_data_with_variable_length_struct_array() {
    assert_eq!(
        tree(
            "fld1:[sfld1:[ssfld1:<4>NSTR,ssfld2:STR,ssfld3:INT32]],\
            fld2:INT8,fld3:{fld1}[sfld1:<4>NSTR,sfld2:STR,sfld3:INT32]"
        ),
        "/: Struct
├── fld1: Struct
│   └── sfld1: Struct
│       ├── ssfld1: <4>NSTR
│       ├── ssfld2: STR
│       └── ssfld3: INT32
├── fld2: INT8
└── fld3: Array (length: variable (fld1))
    └── [index]: Struct
        ├── sfld1: <4>NSTR
        ├── sfld2: STR
        └── sfld3: INT32
"
    );
}

#[test]
fn schema_tree_display_for_data_with_unlimited_length_struct_array() {
    assert_eq!(
        tree(
            "fld1:[sfld1:[ssfld1:<4>NSTR,ssfld2:STR,ssfld3:INT32]],\
            fld2:INT8,fld3:+[sfld1:<4>NSTR,sfld2:STR,sfld3:INT32]"
        ),
        "/: Struct
├── fld1: Struct
│   └── sfld1: Struct
│       ├── ssfld1: <4>NSTR
│       ├── ssfld2: STR
│       └── ssfld3: INT32
├── fld2: INT8
└── fld3: Array (length: unlimited)
    └── [index]: Struct
        ├── sfld1: <4>NSTR
        ├── sfld2: STR
        └── sfld3: INT32
"
    );
}

#[test]
fn field_count_counts_every_node() {
    let schema = parse("a:INT8,b:[c:STR,d:{2}[e:INT8]]").unwrap();
    assert_eq!(FieldCounter::count(&schema.ast), Some(7));
}

#[test]
fn field_count_of_lenient_schema() {
    let options = DataReaderOptions::from_bits(rrr::options::ALLOW_TRAILING_COMMA);
    let schema = parse_with("a:INT8,".as_bytes(), options).unwrap();
    assert_eq!(FieldCounter::count(&schema.ast), Some(2));
}

#[test]
fn report_empty() {
    assert_eq!(
        report("", SchemaParseErrorKind::UnexpectedEof, 0, 0),
        "reason: unexpected end of the schema statement reached

    format =    
                ^
"
    );
}

#[test]
fn report_unknown_token() {
    assert_eq!(
        report("fld1:%$", SchemaParseErrorKind::UnknownToken, 5, 6),
        "reason: unknown token found

    format =    fld1:%$
                     ^
"
    );
}

#[test]
fn report_unknown_builtin_type() {
    assert_eq!(
        report("fld1:INT64", SchemaParseErrorKind::UnknownBuiltinType, 5, 10),
        "reason: unknown built type found

    format =    fld1:INT64
                     ^^^^^
"
    );
}

#[test]
fn report_error_starting_from_location_33() {
    assert_eq!(
        report("fld1:INT8,fld2:INT8,fld3:INT8,ff:", SchemaParseErrorKind::UnexpectedEof, 33, 33),
        "reason: unexpected end of the schema statement reached

    format = .. ld1:INT8,fld2:INT8,fld3:INT8,ff:
                                                ^
"
    );
}

#[test]
fn report_error_at_33_characters_from_end() {
    assert_eq!(
        report(
            "fld1:INT64,fld2:INT8,fld3:INT8,fffffff:INT8",
            SchemaParseErrorKind::UnknownBuiltinType,
            5,
            10
        ),
        "reason: unknown built type found

    format =    fld1:INT64,fld2:INT8,fld3:INT8,fffffff:INT ..
                     ^^^^^
"
    );
}
