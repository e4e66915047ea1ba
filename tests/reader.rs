use rrr::options::{ALLOW_TRAILING_COMMA, ENABLE_READING_BODY, IGNORE_DATA_SIZE_FIELD};
use rrr::{parse, DataReader, DataReaderOptions, Error, SchemaOnelineDisplay};

fn read_body_result(bytes: &[u8], options: DataReaderOptions) -> Result<Vec<u8>, Error> {
    DataReader::new(bytes, options).read().map(|(_, _, body)| body)
}

fn read_unit(bytes: &[u8]) -> Result<(), Error> {
    DataReader::new(bytes, DataReaderOptions::from_bits(ENABLE_READING_BODY))
        .read()
        .map(|_| ())
}

fn uncompressed_body_data() -> Vec<u8> {
    b"\x00\x01\x02\x03".to_vec()
}

fn gzip_compressed_body_data() -> Vec<u8> {
    b"\
\x1f\x8b\x08\x08\x37\xd5\x67\x63\x02\xff\x66\x69\x6c\x65\x00\x63\
\x60\x64\x62\x06\x00\x13\x86\xb9\x8b\x04\x00\x00\x00"
        .to_vec()
}

fn bzip2_compressed_body_data() -> Vec<u8> {
    b"\
\x42\x5a\x68\x39\x31\x41\x59\x26\x53\x59\x94\x92\x36\xd5\x00\x00\
\x00\x40\x00\x78\x00\x20\x00\x21\x9a\x68\x33\x4d\x13\x3c\x5d\xc9\
\x14\xe1\x42\x42\x52\x48\xdb\x54"
        .to_vec()
}

fn container(body: &[u8], extra: isize, compress_type_field: &str) -> Vec<u8> {
    let body_size = body.len() as isize + extra;
    let header = format!(
        "WN\ndata_size={body_size}\nformat=field:{{10}}UINT8\n{compress_type_field}\x04\x1a"
    );
    [header.as_bytes(), body].concat()
}

fn body_options(ignore_size: bool) -> DataReaderOptions {
    let options = DataReaderOptions::from_bits(ENABLE_READING_BODY);
    if ignore_size {
        options.union(DataReaderOptions::from_bits(IGNORE_DATA_SIZE_FIELD))
    } else {
        options
    }
}

fn size_case(body: Vec<u8>, extra: isize, ignore: bool, compress: &str) -> Result<Vec<u8>, Error> {
    read_body_result(&container(&body, extra, compress), body_options(ignore))
}

#[test]
fn options_default_is_zero() {
    let actual = DataReaderOptions::default();
    let expected = DataReaderOptions(0);
    assert_eq!(actual, expected);
}

#[test]
fn options_union_zero_and_non_zero() {
    assert_eq!(DataReaderOptions(0b00).union(DataReaderOptions(0b10)), DataReaderOptions(0b10));
}

#[test]
fn options_union_non_zero_and_zero() {
    assert_eq!(DataReaderOptions(0b10).union(DataReaderOptions(0b00)), DataReaderOptions(0b10));
}

#[test]
fn options_union_non_zero_and_non_zero() {
    assert_eq!(DataReaderOptions(0b10).union(DataReaderOptions(0b01)), DataReaderOptions(0b11));
}

#[test]
fn options_union_the_same() {
    assert_eq!(DataReaderOptions(0b10).union(DataReaderOptions(0b10)), DataReaderOptions(0b10));
}

#[test]
fn options_non_zero_contains_non_zero() {
    assert!(DataReaderOptions(0b11).contains(DataReaderOptions(0b10)));
}

#[test]
fn options_non_zero_does_not_contain_non_zero() {
    assert!(!DataReaderOptions(0b01).contains(DataReaderOptions(0b10)));
}

#[test]
fn options_non_zero_does_not_contain_zero() {
    assert!(!DataReaderOptions(0b01).contains(DataReaderOptions(0b00)));
}

#[test]
fn options_zero_does_not_contain_non_zero() {
    assert!(!DataReaderOptions(0b00).contains(DataReaderOptions(0b10)));
}

#[test]
fn options_zero_does_not_contain_zero() {
    assert!(!DataReaderOptions(0b00).contains(DataReaderOptions(0b00)));
}

#[test]
fn read_error_for_empty_data() {
    assert_eq!(read_unit(b""), Err(Error::MagicNotFound));
}

#[test]
fn read_error_for_too_short_data() {
    assert_eq!(read_unit(b"WN"), Err(Error::MagicNotFound));
}

#[test]
fn read_error_for_data_without_magic() {
    assert_eq!(read_unit(b"abcde"), Err(Error::MagicNotFound));
}

#[test]
fn read_error_for_data_with_eof_before_newline() {
    assert_eq!(read_unit(b"WN\ndata_size=0\nformat=field:UINT8"), Err(Error::HeaderEof));
}

#[test]
fn read_error_for_data_with_eof_before_newline_with_escaped_newlines() {
    assert_eq!(
        read_unit(b"WN\ndata_size=0\nf\\\normat\\\n=\\\nfield:\\\nUINT8\\\n"),
        Err(Error::HeaderEof)
    );
}

#[test]
fn read_error_for_data_with_eof_before_separator_magic() {
    assert_eq!(read_unit(b"WN\ndata_size=0\nformat=field:UINT8\n"), Err(Error::HeaderEof));
}

#[test]
fn read_error_for_data_with_eof_before_separator_magic_with_escaped_newlines() {
    assert_eq!(
        read_unit(b"WN\ndata_size=0\nf\\\normat\\\n=\\\nfield:\\\nUINT8\\\n\n"),
        Err(Error::HeaderEof)
    );
}

#[test]
fn no_read_error_for_minimal_data() {
    assert_eq!(read_unit(b"WN\ndata_size=0\nformat=field:UINT8\n\x04\x1a"), Ok(()));
}

#[test]
fn no_read_error_for_data_with_escaped_newlines() {
    let bytes = b"WN\ndata_size=0\nf\\\normat\\\n=\\\nfield:\\\nUINT8\\\n\n\x04\x1a";
    assert_eq!(read_unit(bytes), Ok(()));
    let (schema, fields, _) =
        DataReader::new(bytes, DataReaderOptions::from_bits(ENABLE_READING_BODY)).read().unwrap();
    assert_eq!(schema, parse("field:UINT8").unwrap());
    assert_eq!(fields.get_field(b"format"), Some(&b"field:UINT8".to_vec()));
}

#[test]
fn read_error_for_data_with_invalid_line() {
    assert_eq!(
        read_unit(b"WN\ndata_size=0\nformat=field1:UINT8\nfield2:UINT8\n\x04\x1a"),
        Err(Error::InvalidHeaderLine)
    );
}

#[test]
fn read_errors_for_data_without_schema() {
    assert_eq!(
        read_unit(b"WN\ndata_size=0\n\x04\x1a"),
        Err(Error::MissingField("format".to_owned()))
    );
}

#[test]
fn read_errors_for_data_without_body_size() {
    assert_eq!(
        read_unit(b"WN\nformat=field:UINT8\n\x04\x1a"),
        Err(Error::MissingField("data_size".to_owned()))
    );
}

#[test]
fn read_errors_for_data_with_wrong_body_size() {
    assert_eq!(
        read_unit(b"WN\ndata_size=0byte\nformat=field:UINT8\n\x04\x1a"),
        Err(Error::InvalidDataSize)
    );
}

#[test]
fn read_error_for_bad_schema_keeps_its_text() {
    match read_unit(b"WN\ndata_size=0\nformat=fld1:INT64\n\x04\x1a") {
        Err(Error::Schema(e, text)) => {
            assert_eq!(e.location, rrr::Location(5, 10));
            assert_eq!(text, b"fld1:INT64".to_vec());
        },
        other => panic!("unexpected {other:?}"),
    }
}

#[test]
fn header_only_read_skips_the_body() {
    let bytes = container(&uncompressed_body_data(), 5, "");
    let (_, _, body) = DataReader::new(&bytes, DataReaderOptions::default()).read().unwrap();
    assert!(body.is_empty());
}

#[test]
fn later_header_line_overrides_earlier_one() {
    let bytes = b"junk line\nWN\nformat=a:UINT8\nformat=b:UINT8\ndata_size=+1\n\x04\x1a\x07";
    let (schema, fields, body) =
        DataReader::new(bytes, DataReaderOptions::from_bits(ENABLE_READING_BODY)).read().unwrap();
    assert_eq!(SchemaOnelineDisplay(&schema.ast).to_text(), "b:UINT8");
    assert_eq!(fields.inner().len(), 2);
    assert_eq!(fields.get_field(b"format"), Some(&b"b:UINT8".to_vec()));
    assert_eq!(body, vec![7]);
}

#[test]
fn trailing_comma_option_reaches_the_format_field() {
    let bytes = b"WN\nformat=a:UINT8,\n\x04\x1a";
    assert!(DataReader::new(bytes, DataReaderOptions::default()).read().is_err());
    let lenient = DataReaderOptions::from_bits(ALLOW_TRAILING_COMMA);
    assert!(DataReader::new(bytes, lenient).read().is_ok());
}

#[test]
fn container_round_trip() {
    let mut bytes = b"WN\ndata_size=4\nformat=x:{4}UINT8\n\x04\x1a".to_vec();
    bytes.extend_from_slice(&[9, 8, 7, 6]);
    let (schema, _, body) =
        DataReader::new(&bytes, DataReaderOptions::from_bits(ENABLE_READING_BODY)).read().unwrap();
    assert_eq!(schema, parse("x:{4}UINT8").unwrap());
    assert_eq!(body, vec![9, 8, 7, 6]);
}

#[test]
fn container_round_trip_with_gzip() {
    let compressed = gzip_compressed_body_data();
    let mut bytes = format!(
        "WN\ndata_size={}\nformat=x:{{4}}UINT8\ncompress_type=gzip\n\x04\x1a",
        compressed.len()
    )
    .into_bytes();
    bytes.extend_from_slice(&compressed);
    let (schema, _, body) =
        DataReader::new(&bytes, DataReaderOptions::from_bits(ENABLE_READING_BODY)).read().unwrap();
    assert_eq!(schema, parse("x:{4}UINT8").unwrap());
    assert_eq!(body, uncompressed_body_data());
}

#[test]
fn data_size_handling_for_uncompressed_body_with_no_extra_bytes() {
    assert_eq!(size_case(uncompressed_body_data(), 0, false, ""), Ok(b"\x00\x01\x02\x03".to_vec()));
}

#[test]
fn data_size_handling_for_uncompressed_body_with_negative_extra_bytes() {
    assert_eq!(size_case(uncompressed_body_data(), -1, false, ""), Ok(b"\x00\x01\x02".to_vec()));
}

#[test]
fn data_size_handling_for_uncompressed_body_with_negative_extra_bytes_ignoring_field_value() {
    assert_eq!(size_case(uncompressed_body_data(), -1, true, ""), Ok(b"\x00\x01\x02\x03".to_vec()));
}

#[test]
fn data_size_handling_for_uncompressed_body_with_positive_extra_bytes() {
    assert_eq!(
        size_case(uncompressed_body_data(), 1, false, ""),
        Err(Error::BodyTooShort { read: 4, expected: 5 })
    );
}

#[test]
fn data_size_handling_for_uncompressed_body_with_positive_extra_bytes_ignoring_field_value() {
    assert_eq!(size_case(uncompressed_body_data(), 1, true, ""), Ok(b"\x00\x01\x02\x03".to_vec()));
}

#[test]
fn data_size_handling_for_gzip_compressed_body_with_no_extra_bytes() {
    let r = size_case(gzip_compressed_body_data(), 0, false, "compress_type=gzip\n");
    assert_eq!(r, Ok(b"\x00\x01\x02\x03".to_vec()));
}

#[test]
fn data_size_handling_for_gzip_compressed_body_with_negative_extra_bytes() {
    let r = size_case(gzip_compressed_body_data(), -1, false, "compress_type=gzip\n");
    assert!(matches!(r, Err(Error::GzipFailed(_))), "{r:?}");
}

#[test]
fn data_size_handling_for_gzip_compressed_body_with_negative_extra_bytes_ignoring_field_value() {
    let r = size_case(gzip_compressed_body_data(), -1, true, "compress_type=gzip\n");
    assert_eq!(r, Ok(b"\x00\x01\x02\x03".to_vec()));
}

#[test]
fn data_size_handling_for_gzip_compressed_body_with_positive_extra_bytes() {
    let r = size_case(gzip_compressed_body_data(), 1, false, "compress_type=gzip\n");
    assert_eq!(r, Err(Error::BodyTooShort { read: 29, expected: 30 }));
}

#[test]
fn data_size_handling_for_gzip_compressed_body_with_positive_extra_bytes_ignoring_field_value() {
    let r = size_case(gzip_compressed_body_data(), 1, true, "compress_type=gzip\n");
    assert_eq!(r, Ok(b"\x00\x01\x02\x03".to_vec()));
}

#[test]
fn data_size_handling_for_bzip2_compressed_body_with_no_extra_bytes() {
    let r = size_case(bzip2_compressed_body_data(), 0, false, "compress_type=bzip2\n");
    assert_eq!(r, Ok(b"\x00\x01\x02\x03".to_vec()));
}

#[test]
fn data_size_handling_for_bzip2_compressed_body_with_negative_extra_bytes() {
    let r = size_case(bzip2_compressed_body_data(), -1, false, "compress_type=bzip2\n");
    assert!(matches!(r, Err(Error::Bzip2Failed(_))), "{r:?}");
}

#[test]
fn data_size_handling_for_bzip2_compressed_body_with_negative_extra_bytes_ignoring_field_value() {
    let r = size_case(bzip2_compressed_body_data(), -1, true, "compress_type=bzip2\n");
    assert_eq!(r, Ok(b"\x00\x01\x02\x03".to_vec()));
}

#[test]
fn data_size_handling_for_bzip2_compressed_body_with_positive_extra_bytes() {
    let r = size_case(bzip2_compressed_body_data(), 1, false, "compress_type=bzip2\n");
    assert_eq!(r, Err(Error::BodyTooShort { read: 40, expected: 41 }));
}

#[test]
fn data_size_handling_for_bzip2_compressed_body_with_positive_extra_bytes_ignoring_field_value() {
    let r = size_case(bzip2_compressed_body_data(), 1, true, "compress_type=bzip2\n");
    assert_eq!(r, Ok(b"\x00\x01\x02\x03".to_vec()));
}

#[test]
fn data_size_handling_for_gzip_decoding_of_bzip2_compressed_data() {
    let r = size_case(bzip2_compressed_body_data(), 0, false, "compress_type=gzip\n");
    assert!(matches!(r, Err(Error::GzipFailed(_))), "{r:?}");
}

#[test]
fn data_size_handling_for_bzip2_decoding_of_gzip_compressed_data() {
    let r = size_case(gzip_compressed_body_data(), 0, false, "compress_type=bzip2\n");
    assert!(matches!(r, Err(Error::Bzip2Failed(_))), "{r:?}");
}

#[test]
fn data_size_handling_for_unknown_compress_type() {
    let r = size_case(uncompressed_body_data(), 0, false, "compress_type=xz\n");
    assert_eq!(r, Err(Error::UnknownCompressType(b"xz".to_vec())));
}
