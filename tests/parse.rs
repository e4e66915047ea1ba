use rrr::{
    parse, parse_with, AstVisitor, SchemaOnelineFormatter, Ast, AstKind, DataReaderOptions, Len, Location, ParamStack, Schema,
    SchemaLexer, SchemaOnelineDisplay, SchemaParseError, SchemaParseErrorKind, Token, TokenKind,
};

fn field(name: &str, kind: AstKind) -> Ast {
    Ast { name: name.to_owned(), kind }
}

fn parse_error(input: &str) -> SchemaParseError {
    match parse(input) {
        Ok(_) => panic!("parsing {input:?} should fail"),
        Err(e) => e,
    }
}

fn assert_parse_error(input: &str, kind: SchemaParseErrorKind, start: usize, end: usize) {
    assert_eq!(parse_error(input), SchemaParseError { kind, location: Location(start, end) });
}

fn oneline(input: &str) -> String {
    let schema = parse(input).unwrap();
    SchemaOnelineDisplay(&schema.ast).to_text()
}

#[test]
fn parse_single_field() {
    let input = "fld1:INT16";
    let actual = parse(input);
    let expected_ast = field("", AstKind::Struct(vec![field("fld1", AstKind::Int16)]));
    let expected = Ok(Schema { ast: expected_ast, params: ParamStack::new() });
    assert_eq!(actual, expected);
}

#[test]
fn parse_single_struct() {
    let input = "fld1:[sfld1:<4>NSTR,sfld2:STR,sfld3:INT32]";
    let actual = parse(input);
    let expected_ast = field(
        "",
        AstKind::Struct(vec![field(
            "fld1",
            AstKind::Struct(vec![
                field("sfld1", AstKind::NStr(4)),
                field("sfld2", AstKind::Str),
                field("sfld3", AstKind::Int32),
            ]),
        )]),
    );
    let expected = Ok(Schema { ast: expected_ast, params: ParamStack::new() });
    assert_eq!(actual, expected);
}

#[test]
fn parse_nested_struct() {
    let input = "fld1:[sfld1:[ssfld1:<4>NSTR,ssfld2:STR,ssfld3:INT32]]";
    let actual = parse(input);
    let expected_ast = field(
        "",
        AstKind::Struct(vec![field(
            "fld1",
            AstKind::Struct(vec![field(
                "sfld1",
                AstKind::Struct(vec![
                    field("ssfld1", AstKind::NStr(4)),
                    field("ssfld2", AstKind::Str),
                    field("ssfld3", AstKind::Int32),
                ]),
            )]),
        )]),
    );
    let expected = Ok(Schema { ast: expected_ast, params: ParamStack::new() });
    assert_eq!(actual, expected);
}

#[test]
fn parse_single_fixed_length_array() {
    let input = "fld1:{3}[sfld1:<4>NSTR,sfld2:STR,sfld3:INT32]";
    let actual = parse(input);
    let expected_ast = field(
        "",
        AstKind::Struct(vec![field(
            "fld1",
            AstKind::Array(
                Len::Fixed(3),
                Box::new(field(
                    "[]",
                    AstKind::Struct(vec![
                        field("sfld1", AstKind::NStr(4)),
                        field("sfld2", AstKind::Str),
                        field("sfld3", AstKind::Int32),
                    ]),
                )),
            ),
        )]),
    );
    let expected = Ok(Schema { ast: expected_ast, params: ParamStack::new() });
    assert_eq!(actual, expected);
}

#[test]
fn parse_single_variable_length_array() {
    let input = "fld1:INT8,fld2:{fld1}[sfld1:<4>NSTR,sfld2:STR,sfld3:INT32]";
    let actual = parse(input);
    let expected_ast = field(
        "",
        AstKind::Struct(vec![
            field("fld1", AstKind::Int8),
            field(
                "fld2",
                AstKind::Array(
                    Len::Variable("fld1".to_owned()),
                    Box::new(field(
                        "[]",
                        AstKind::Struct(vec![
                            field("sfld1", AstKind::NStr(4)),
                            field("sfld2", AstKind::Str),
                            field("sfld3", AstKind::Int32),
                        ]),
                    )),
                ),
            ),
        ]),
    );
    let mut params = ParamStack::new();
    params.add_entry("fld1");
    let expected = Ok(Schema { ast: expected_ast, params });
    assert_eq!(actual, expected);
}

#[test]
fn parse_empty() {
    assert_parse_error("", SchemaParseErrorKind::UnexpectedEof, 0, 0);
}

#[test]
fn parse_unknown_token() {
    assert_parse_error("fld1:%$", SchemaParseErrorKind::UnknownToken, 5, 6);
}

#[test]
fn parse_unexpected_token_at_top_level() {
    assert_parse_error("fld1:INT8]", SchemaParseErrorKind::UnexpectedToken, 9, 10);
}

#[test]
fn parse_unexpected_token_as_ident_in_field_list() {
    assert_parse_error("[fld1:INT8]", SchemaParseErrorKind::UnexpectedToken, 0, 1);
}

#[test]
fn parse_unexpected_eof_as_colon_in_field_list() {
    assert_parse_error("fld1", SchemaParseErrorKind::UnexpectedEof, 4, 4);
}

#[test]
fn parse_unexpected_token_as_colon_in_field_list() {
    assert_parse_error("fld1,INT8", SchemaParseErrorKind::UnexpectedToken, 4, 5);
}

#[test]
fn parse_unexpected_token_as_comma_in_field_list() {
    assert_parse_error("fld1:INT8:fld2:INT8", SchemaParseErrorKind::UnexpectedToken, 9, 10);
}

#[test]
fn parse_unexpected_eof_as_type() {
    assert_parse_error("fld1:", SchemaParseErrorKind::UnexpectedEof, 5, 5);
}

#[test]
fn parse_unexpected_token_as_type() {
    assert_parse_error("fld1::INT8", SchemaParseErrorKind::UnexpectedToken, 5, 6);
}

#[test]
fn parse_unknown_builtin_type() {
    assert_parse_error("fld1:INT64", SchemaParseErrorKind::UnknownBuiltinType, 5, 10);
}

#[test]
fn parse_unknown_length_in_nstr() {
    assert_parse_error("fld1:<len>NSTR", SchemaParseErrorKind::UnexpectedToken, 6, 9);
}

#[test]
fn parse_unexpected_token_as_ranglebracket_in_nstr() {
    assert_parse_error("fld1:<5}NSTR", SchemaParseErrorKind::UnexpectedToken, 7, 8);
}

#[test]
fn parse_unexpected_string_as_type_in_nstr() {
    assert_parse_error("fld1:<5>STR", SchemaParseErrorKind::UnexpectedToken, 8, 11);
}

#[test]
fn parse_number_too_large_for_usize() {
    let e = parse_error("a:{99999999999999999999999}INT8");
    assert_eq!(e, SchemaParseError { kind: SchemaParseErrorKind::UnknownToken, location: Location(3, 26) });
}

#[test]
fn error_location_of_unknown_builtin_type_spans_the_identifier() {
    let e = parse_error("fld1:INT64");
    assert_eq!(e.kind, SchemaParseErrorKind::UnknownBuiltinType);
    assert_eq!(e.location, Location(5, 10));
}

#[test]
fn trailing_comma_needs_its_option() {
    assert_parse_error("a:INT8,", SchemaParseErrorKind::UnexpectedEof, 7, 7);
    let lenient = DataReaderOptions::from_bits(rrr::options::ALLOW_TRAILING_COMMA);
    let schema = parse_with("a:INT8,b:[c:INT8,]".as_bytes(), lenient).unwrap();
    assert_eq!(SchemaOnelineDisplay(&schema.ast).to_text(), "a:INT8,b:[c:INT8]");
}

#[test]
fn empty_field_name_needs_its_option() {
    assert_parse_error(":INT8", SchemaParseErrorKind::UnexpectedToken, 0, 1);
    let lenient = DataReaderOptions::from_bits(rrr::options::ALLOW_EMPTY_FIELD_NAME);
    let schema = parse_with(":INT8".as_bytes(), lenient).unwrap();
    assert_eq!(schema.ast, field("", AstKind::Struct(vec![field("", AstKind::Int8)])));
}

#[test]
fn str_in_place_of_nstr_needs_its_option() {
    assert_parse_error("a:<4>STR", SchemaParseErrorKind::UnexpectedToken, 5, 8);
    let lenient = DataReaderOptions::from_bits(rrr::options::ALLOW_STR_INSTEAD_OF_NSTR);
    let schema = parse_with("a:<4>STR".as_bytes(), lenient).unwrap();
    assert_eq!(schema.ast, field("", AstKind::Struct(vec![field("a", AstKind::NStr(4))])));
}

#[test]
fn schema_oneline_display_for_data_with_fixed_length_builtin_type_array() {
    let input = "fld1:{3}INT8";
    assert_eq!(oneline(input), input);
}

#[test]
fn schema_oneline_display_for_data_with_variable_length_struct_array() {
    let input = "fld1:[sfld1:[ssfld1:<4>NSTR,ssfld2:STR,ssfld3:INT32]],\
        fld2:INT8,fld3:{fld1}[sfld1:<4>NSTR,sfld2:STR,sfld3:INT32],\
        fld3:+INT8";
    assert_eq!(oneline(input), input);
}

#[test]
fn oneline_round_trip_of_every_kind() {
    let input = "a:INT8,b:INT16,c:INT32,d:UINT8,e:UINT16,f:UINT32,g:FLOAT32,h:FLOAT64,\
        i:STR,j:<10>NSTR,k:{2}{3}UINT8,l:+[m:UINT8,n:{l}<2>NSTR]";
    assert_eq!(oneline(input), input);
}

#[test]
fn lex() {
    let input = "fld1:INT16,fld2:[sfld1:INT16,sfld2:INT8],fld3:{3}[sfld1:INT16,sfld2:INT8]";
    let mut lexer = SchemaLexer::new(input.as_bytes());
    let mut actual = Vec::new();
    while let Some(t) = lexer.next() {
        actual.push(t);
    }
    let ident = |s: &str| TokenKind::Ident(s.to_owned());
    let expected = vec![
        (ident("fld1"), 4),
        (TokenKind::Colon, 5),
        (ident("INT16"), 10),
        (TokenKind::Comma, 11),
        (ident("fld2"), 15),
        (TokenKind::Colon, 16),
        (TokenKind::LBracket, 17),
        (ident("sfld1"), 22),
        (TokenKind::Colon, 23),
        (ident("INT16"), 28),
        (TokenKind::Comma, 29),
        (ident("sfld2"), 34),
        (TokenKind::Colon, 35),
        (ident("INT8"), 39),
        (TokenKind::RBracket, 40),
        (TokenKind::Comma, 41),
        (ident("fld3"), 45),
        (TokenKind::Colon, 46),
        (TokenKind::LBrace, 47),
        (TokenKind::Number(3), 48),
        (TokenKind::RBrace, 49),
        (TokenKind::LBracket, 50),
        (ident("sfld1"), 55),
        (TokenKind::Colon, 56),
        (ident("INT16"), 61),
        (TokenKind::Comma, 62),
        (ident("sfld2"), 67),
        (TokenKind::Colon, 68),
        (ident("INT8"), 72),
        (TokenKind::RBracket, 73),
    ];
    let expected: Vec<Result<Token, SchemaParseError>> =
        expected.into_iter().map(|(kind, pos)| Ok(Token { kind, pos })).collect();
    assert_eq!(actual, expected);
}

#[test]
fn lex_empty() {
    let mut lexer = SchemaLexer::new("".as_bytes());
    let mut actual = Vec::new();
    while let Some(t) = lexer.next() {
        actual.push(t);
    }
    assert_eq!(actual, Vec::<Result<Token, SchemaParseError>>::new());
}

#[test]
fn oneline_formatter_through_the_visitor_trait() {
    let input = "a:INT8,b:{a}[c:STR]";
    let schema = parse(input).unwrap();
    let mut formatter = SchemaOnelineFormatter::new();
    formatter.visit(&schema.ast).unwrap();
    assert_eq!(formatter.out, input);
}
