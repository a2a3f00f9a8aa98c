use git_rust::error::Error;
use git_rust::hexstr::{check_all_hex_digits, from_hex, to_hex};
use git_rust::object::ObjectKind;
use git_rust::sha::{digest_of_framed, hash_object};
use git_rust::store::{check_object_name, locate, parse_digest};
use git_rust::utf8::is_text;
use git_rust::zlib::{compress, decompress};

#[test]
fn blob_of_hello_has_its_published_digest() {
    let id = hash_object(ObjectKind::Blob, b"hello\n");
    assert_eq!(to_hex(&id), b"ce013625030ba8dba906f756967f9e9ca394464a".to_vec());
}

#[test]
fn empty_blob_has_its_published_digest() {
    let id = hash_object(ObjectKind::Blob, b"");
    assert_eq!(to_hex(&id), b"e69de29bb2d1d6434b8b29ae775ad8c2e48c5391".to_vec());
}

#[test]
fn digest_is_sha1_of_the_bytes() {
    let id = digest_of_framed(b"abc");
    assert_eq!(to_hex(&id), b"a9993e364706816aba3e25717850c26c9cd0d89d".to_vec());
}

#[test]
fn kind_is_part_of_what_is_hashed() {
    assert_ne!(hash_object(ObjectKind::Blob, b"x"), hash_object(ObjectKind::Commit, b"x"));
}

#[test]
fn hex_is_lowercase_two_digits_a_byte() {
    assert_eq!(to_hex(&[0x00, 0x0f, 0x10, 0xab, 0xff]), b"000f10abff".to_vec());
    assert_eq!(to_hex(&[]), Vec::<u8>::new());
}

#[test]
fn hex_is_read_in_either_case() {
    assert_eq!(from_hex(b"000f10abff"), Some(vec![0x00, 0x0f, 0x10, 0xab, 0xff]));
    assert_eq!(from_hex(b"000F10ABFf"), Some(vec![0x00, 0x0f, 0x10, 0xab, 0xff]));
    assert_eq!(from_hex(b""), Some(vec![]));
    assert_eq!(from_hex(b"abc"), None);
    assert_eq!(from_hex(b"zz"), None);
    assert_eq!(from_hex(b"0g"), None);
}

#[test]
fn digest_is_read_from_its_full_name_only() {
    let id = hash_object(ObjectKind::Blob, b"hello\n");
    assert_eq!(parse_digest(b"ce013625030ba8dba906f756967f9e9ca394464a"), Some(id));
    assert_eq!(parse_digest(b"CE013625030BA8DBA906F756967F9E9CA394464A"), Some(id));
    assert_eq!(parse_digest(b"ce013625030ba8dba906f756967f9e9ca394464"), None);
    assert_eq!(parse_digest(b"ce013625030ba8dba906f756967f9e9ca394464a00"), None);
    assert_eq!(parse_digest(b"xe013625030ba8dba906f756967f9e9ca394464a"), None);
}

#[test]
fn object_is_kept_under_two_and_thirty_eight_digits() {
    let id = hash_object(ObjectKind::Blob, b"hello\n");
    let (dir, file) = locate(&id);
    assert_eq!(dir, b"ce".to_vec());
    assert_eq!(file, b"013625030ba8dba906f756967f9e9ca394464a".to_vec());
}

#[test]
fn object_names_are_four_to_forty_hex_digits() {
    assert!(check_object_name(b"ce01"));
    assert!(check_object_name(b"ce013"));
    assert!(check_object_name(b"CE01ab"));
    assert!(check_object_name(b"ce013625030ba8dba906f756967f9e9ca394464a"));
    assert!(!check_object_name(b"ce0"));
    assert!(!check_object_name(b""));
    assert!(!check_object_name(b"ce013625030ba8dba906f756967f9e9ca394464a0"));
    assert!(!check_object_name(b"ce0g"));
    assert!(!check_object_name(b"ce 1"));
    assert!(check_all_hex_digits(b""));
    assert!(!check_all_hex_digits(b"0x10"));
}

#[test]
fn compression_is_undone_by_decompression() {
    let data = b"blob 6\0hello\n".to_vec();
    let packed = compress(&data);
    assert_ne!(packed, data);
    assert_eq!(decompress(&packed), Ok(data));
}

#[test]
fn compression_is_a_zlib_stream() {
    let packed = compress(b"aaaaaaaaaaaaaaaaaaaaaaaaaaaaaaaaaaaaaaaaaaaaaaaaaaaaaaaaaaaaaaaaaaaaaaaaaaaaaaaa");
    assert_eq!(packed[0], 0x78);
    assert!(packed.len() < 80);
    assert_eq!(compress(b"abc"), compress(b"abc"));
}

#[test]
fn empty_input_compresses_and_comes_back() {
    let packed = compress(b"");
    assert!(!packed.is_empty());
    assert_eq!(decompress(&packed), Ok(Vec::new()));
}

#[test]
fn truncated_stream_is_an_error() {
    let packed = compress(b"blob 6\0hello\n");
    assert_eq!(decompress(&packed[..packed.len() - 3]), Err(Error::CorruptStream));
    assert_eq!(decompress(&packed[..2]), Err(Error::CorruptStream));
}

#[test]
fn corrupt_stream_is_an_error() {
    assert_eq!(decompress(b"this is no zlib stream"), Err(Error::CorruptStream));
    let mut packed = compress(b"blob 6\0hello\n");
    let last = packed.len() - 1;
    packed[last] ^= 0xff;
    assert_eq!(decompress(&packed), Err(Error::CorruptStream));
}

#[test]
fn text_is_well_formed_utf8() {
    assert!(is_text(b"plain"));
    assert!(is_text("caf\u{e9} \u{3000}".as_bytes()));
    assert!(is_text(b""));
    assert!(!is_text(b"\xff"));
    assert!(!is_text(b"ab\xc3"));
    assert!(!is_text(b"\xed\xa0\x80"));
}

#[test]
fn errors_describe_themselves() {
    assert_eq!(Error::MissingFlag.message(), "Missing flag: -p");
    assert_eq!(Error::NotATree.message(), "not a tree object");
    assert_eq!(Error::EmptyDirectory.message(), "Empty dir");
    assert_eq!(Error::MissingAuthorName.message(), "No author name found in config");
    assert_eq!(Error::MissingAuthorEmail.message(), "No author email found in config");
}
