use git_rust::error::Error;
use git_rust::object::ObjectKind;
use git_rust::sha::hash_object;
use git_rust::tree::{decode_first_entry, decode_tree, encode_tree, FileMode, TreeEntry};

fn hello_id() -> [u8; 20] {
    hash_object(ObjectKind::Blob, b"hello\n")
}

fn entry(mode: FileMode, name: &[u8]) -> TreeEntry {
    TreeEntry { mode, name: name.to_vec(), hash: hello_id() }
}

#[test]
fn modes_have_their_codes_and_texts() {
    assert_eq!(FileMode::Directory.code(), 40000);
    assert_eq!(FileMode::File.code(), 100644);
    assert_eq!(FileMode::Executable.code(), 100755);
    assert_eq!(FileMode::Symlink.code(), 120000);
    assert_eq!(FileMode::Directory.text(), b"40000".to_vec());
    assert_eq!(FileMode::Symlink.text(), b"120000".to_vec());
    assert_eq!(FileMode::Directory.kind(), ObjectKind::Tree);
    assert_eq!(FileMode::File.kind(), ObjectKind::Blob);
    assert_eq!(FileMode::Executable.kind(), ObjectKind::Blob);
    assert_eq!(FileMode::Symlink.kind(), ObjectKind::Blob);
}

#[test]
fn modes_are_read_from_their_exact_texts() {
    assert_eq!(FileMode::from_text(b"40000"), Some(FileMode::Directory));
    assert_eq!(FileMode::from_text(b"100644"), Some(FileMode::File));
    assert_eq!(FileMode::from_text(b"100755"), Some(FileMode::Executable));
    assert_eq!(FileMode::from_text(b"120000"), Some(FileMode::Symlink));
    assert_eq!(FileMode::from_text(b"040000"), None);
    assert_eq!(FileMode::from_text(b"100600"), None);
    assert_eq!(FileMode::from_text(b""), None);
}

#[test]
fn entry_is_mode_space_name_nul_digest() {
    let mut expected = b"100644 hello.txt\0".to_vec();
    expected.extend_from_slice(&hello_id());
    assert_eq!(entry(FileMode::File, b"hello.txt").encode(), expected);
    assert_eq!(expected.len(), 37);
}

#[test]
fn tree_payload_keeps_the_order_given() {
    let a = entry(FileMode::File, b"b");
    let b = entry(FileMode::Directory, b"a");
    let mut expected = a.encode();
    expected.extend_from_slice(&b.encode());
    assert_eq!(encode_tree(&vec![a, b]), expected);
    assert_eq!(encode_tree(&vec![]), Vec::<u8>::new());
}

#[test]
fn tree_payload_is_read_back() {
    let entries = vec![
        entry(FileMode::File, b"a name with spaces"),
        entry(FileMode::Directory, b"dir"),
        entry(FileMode::Executable, b"run.sh"),
        entry(FileMode::Symlink, "li\u{e9}n".as_bytes()),
    ];
    let payload = encode_tree(&entries);
    assert_eq!(decode_tree(&payload), Ok(entries));
    assert_eq!(decode_tree(b""), Ok(vec![]));
}

#[test]
fn entry_is_parsed_from_segment_and_digest() {
    let parsed = TreeEntry::parse(&b"100755 run.sh\0".to_vec(), &hello_id());
    assert_eq!(parsed, Ok(entry(FileMode::Executable, b"run.sh")));
    let empty_name = TreeEntry::parse(&b"40000 \0".to_vec(), &hello_id());
    assert_eq!(empty_name, Ok(entry(FileMode::Directory, b"")));
}

#[test]
fn entry_with_unknown_mode_is_malformed() {
    assert_eq!(TreeEntry::parse(&b"100600 f\0".to_vec(), &hello_id()), Err(Error::MalformedObject));
    assert_eq!(TreeEntry::parse(&b"040000 d\0".to_vec(), &hello_id()), Err(Error::MalformedObject));
    assert_eq!(TreeEntry::parse(&b" name\0".to_vec(), &hello_id()), Err(Error::MalformedObject));
}

#[test]
fn entry_without_shape_is_malformed() {
    assert_eq!(TreeEntry::parse(&b"100644\0".to_vec(), &hello_id()), Err(Error::MalformedObject));
    assert_eq!(TreeEntry::parse(&b"100644 f".to_vec(), &hello_id()), Err(Error::MalformedObject));
    assert_eq!(TreeEntry::parse(&b"".to_vec(), &hello_id()), Err(Error::MalformedObject));
    assert_eq!(
        TreeEntry::parse(&b"100644 a\0b\0".to_vec(), &hello_id()),
        Err(Error::MalformedObject)
    );
}

#[test]
fn entry_that_is_not_text_is_malformed() {
    assert_eq!(
        TreeEntry::parse(&b"100644 f\xff\0".to_vec(), &hello_id()),
        Err(Error::MalformedObject)
    );
}

#[test]
fn tree_with_short_digest_is_malformed() {
    let mut payload = entry(FileMode::File, b"f").encode();
    payload.pop();
    assert_eq!(decode_tree(&payload), Err(Error::MalformedObject));
    assert_eq!(decode_tree(b"100644 f"), Err(Error::MalformedObject));
}

#[test]
fn tree_with_a_malformed_later_entry_is_malformed() {
    let mut payload = entry(FileMode::File, b"f").encode();
    payload.extend_from_slice(b"777 g\0");
    payload.extend_from_slice(&hello_id());
    assert_eq!(decode_tree(&payload), Err(Error::MalformedObject));
}

#[test]
fn first_entry_tells_how_much_it_takes() {
    let first = entry(FileMode::File, b"f");
    let mut payload = first.encode();
    payload.extend_from_slice(&entry(FileMode::File, b"g").encode());
    assert_eq!(decode_first_entry(&payload), Ok((first, 29)));
    assert_eq!(decode_first_entry(b""), Err(Error::MalformedObject));
}

#[test]
fn full_line_shows_mode_kind_digest_and_name() {
    assert_eq!(
        entry(FileMode::File, b"hello.txt").to_line(false),
        b"100644 blob ce013625030ba8dba906f756967f9e9ca394464a\thello.txt\n".to_vec()
    );
    assert_eq!(
        entry(FileMode::Directory, b"sub").to_line(false),
        b"040000 tree ce013625030ba8dba906f756967f9e9ca394464a\tsub\n".to_vec()
    );
    assert_eq!(
        entry(FileMode::Symlink, b"l").to_line(false),
        b"120000 blob ce013625030ba8dba906f756967f9e9ca394464a\tl\n".to_vec()
    );
}

#[test]
fn name_only_line_shows_the_name() {
    assert_eq!(entry(FileMode::Executable, b"run.sh").to_line(true), b"run.sh\n".to_vec());
}
