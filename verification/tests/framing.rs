use git_rust::decimal::{format_decimal, parse_decimal_field};
use git_rust::error::Error;
use git_rust::object::read::parse_header;
use git_rust::object::{decode_object, encode_header, encode_object, FileTypeParseError, ObjectKind};

#[test]
fn blob_is_framed_with_kind_and_size() {
    let framed = encode_object(ObjectKind::Blob, b"hello\n");
    assert_eq!(framed, b"blob 6\0hello\n".to_vec());
}

#[test]
fn headers_of_each_kind() {
    assert_eq!(encode_header(ObjectKind::Blob, 0), b"blob 0\0".to_vec());
    assert_eq!(encode_header(ObjectKind::Tree, 37), b"tree 37\0".to_vec());
    assert_eq!(encode_header(ObjectKind::Commit, 1234567890), b"commit 1234567890\0".to_vec());
}

#[test]
fn decoding_undoes_encoding() {
    let payload = b"some payload \0 with a nul and a space".to_vec();
    for kind in [ObjectKind::Blob, ObjectKind::Tree, ObjectKind::Commit] {
        let framed = encode_object(kind, &payload);
        assert_eq!(decode_object(&framed), Ok((kind, payload.clone())));
    }
}

#[test]
fn decoding_undoes_encoding_of_empty_payload() {
    let framed = encode_object(ObjectKind::Commit, b"");
    assert_eq!(framed, b"commit 0\0".to_vec());
    assert_eq!(decode_object(&framed), Ok((ObjectKind::Commit, Vec::new())));
}

#[test]
fn size_mismatch_is_malformed() {
    assert_eq!(decode_object(b"blob 5\0hello\n"), Err(Error::MalformedObject));
    assert_eq!(decode_object(b"blob 7\0hello\n"), Err(Error::MalformedObject));
}

#[test]
fn unknown_kind_is_malformed() {
    assert_eq!(decode_object(b"blub 6\0hello\n"), Err(Error::MalformedObject));
    assert_eq!(decode_object(b"Blob 6\0hello\n"), Err(Error::MalformedObject));
    assert_eq!(decode_object(b" 6\0hello\n"), Err(Error::MalformedObject));
}

#[test]
fn size_that_is_no_number_is_malformed() {
    assert_eq!(decode_object(b"blob six\0hello\n"), Err(Error::MalformedObject));
    assert_eq!(decode_object(b"blob \0"), Err(Error::MalformedObject));
    assert_eq!(decode_object(b"blob +6\0hello\n"), Err(Error::MalformedObject));
    assert_eq!(decode_object(b"blob 6 \0hello\n"), Err(Error::MalformedObject));
    assert_eq!(decode_object(b"blob \xc3\xa9\0"), Err(Error::MalformedObject));
}

#[test]
fn header_without_end_or_space_is_malformed() {
    assert_eq!(decode_object(b"blob 6"), Err(Error::MalformedObject));
    assert_eq!(decode_object(b"blob6\0hello\n"), Err(Error::MalformedObject));
    assert_eq!(decode_object(b""), Err(Error::MalformedObject));
}

#[test]
fn header_tells_kind_size_and_start() {
    assert_eq!(parse_header(b"tree 37\0rest"), Ok((ObjectKind::Tree, 37, 8)));
    assert_eq!(parse_header(b"commit 007\0"), Ok((ObjectKind::Commit, 7, 11)));
    assert_eq!(parse_header(b"blob 3\0abcdef"), Ok((ObjectKind::Blob, 3, 7)));
}

#[test]
fn kinds_are_read_from_their_names() {
    assert_eq!(ObjectKind::from_str("blob"), Ok(ObjectKind::Blob));
    assert_eq!(ObjectKind::from_str("tree"), Ok(ObjectKind::Tree));
    assert_eq!(ObjectKind::from_str("commit"), Ok(ObjectKind::Commit));
    assert_eq!(ObjectKind::from_str("tag"), Err(FileTypeParseError));
    assert_eq!(ObjectKind::from_str(""), Err(FileTypeParseError));
    assert_eq!(FileTypeParseError.message(), "Unknown object type");
    assert_eq!(ObjectKind::Tree.name(), b"tree".to_vec());
}

#[test]
fn decimal_is_written_without_leading_zeros() {
    assert_eq!(format_decimal(0), b"0".to_vec());
    assert_eq!(format_decimal(9), b"9".to_vec());
    assert_eq!(format_decimal(10), b"10".to_vec());
    assert_eq!(format_decimal(40000), b"40000".to_vec());
    assert_eq!(format_decimal(u64::MAX), b"18446744073709551615".to_vec());
}

#[test]
fn decimal_is_read_up_to_what_fits() {
    assert_eq!(parse_decimal_field(b"0"), Some(0));
    assert_eq!(parse_decimal_field(b"0042"), Some(42));
    assert_eq!(parse_decimal_field(b"18446744073709551615"), Some(u64::MAX));
    assert_eq!(parse_decimal_field(b"18446744073709551616"), None);
    assert_eq!(parse_decimal_field(b"99999999999999999999999"), None);
    assert_eq!(parse_decimal_field(b""), None);
    assert_eq!(parse_decimal_field(b"12a"), None);
    assert_eq!(parse_decimal_field(b"-1"), None);
}
