use git_rust::error::Error;
use git_rust::object::read::{read_tree, GitObjectReader, ReadOptions};
use git_rust::object::ObjectKind;
use git_rust::tree::{encode_tree, FileMode, TreeEntry};

fn entries() -> Vec<TreeEntry> {
    vec![
        TreeEntry { mode: FileMode::File, name: b"a.txt".to_vec(), hash: [0x11; 20] },
        TreeEntry { mode: FileMode::Directory, name: b"dir".to_vec(), hash: [0xab; 20] },
    ]
}

fn full_listing() -> Vec<u8> {
    let mut text = b"100644 blob 1111111111111111111111111111111111111111\ta.txt\n".to_vec();
    text.extend_from_slice(b"040000 tree abababababababababababababababababababab\tdir\n");
    text
}

fn drain(reader: &mut GitObjectReader, max: usize) -> Result<Vec<u8>, Error> {
    let mut all = Vec::new();
    loop {
        let chunk = reader.read(max)?;
        assert!(chunk.len() <= max);
        if chunk.is_empty() {
            return Ok(all);
        }
        all.extend_from_slice(&chunk);
    }
}

#[test]
fn blob_is_passed_through_unchanged() {
    let mut reader = GitObjectReader::new(ObjectKind::Blob, b"hello\n".to_vec(), 6, None);
    assert_eq!(reader.read(4), Ok(b"hell".to_vec()));
    assert_eq!(reader.read(4), Ok(b"o\n".to_vec()));
    assert_eq!(reader.read(4), Ok(vec![]));
    assert_eq!(reader.read(4), Ok(vec![]));
}

#[test]
fn reads_are_bounded_to_the_declared_size() {
    let mut reader = GitObjectReader::new(ObjectKind::Commit, b"hello, world".to_vec(), 5, None);
    assert_eq!(reader.read_to_end(), Ok(b"hello".to_vec()));
    let mut short = GitObjectReader::new(ObjectKind::Blob, b"abc".to_vec(), 100, None);
    assert_eq!(short.read_to_end(), Err(Error::MalformedObject));
    let mut none = GitObjectReader::new(ObjectKind::Blob, b"abc".to_vec(), 0, None);
    assert_eq!(none.read_to_end(), Ok(vec![]));
    let mut exact = GitObjectReader::new(ObjectKind::Blob, b"abc".to_vec(), 3, None);
    assert_eq!(exact.read_to_end(), Ok(b"abc".to_vec()));
}

#[test]
fn source_shorter_than_declared_fails_at_its_end() {
    for kind in [ObjectKind::Blob, ObjectKind::Commit] {
        let mut reader = GitObjectReader::new(kind, b"abc".to_vec(), 4, None);
        assert_eq!(reader.read(2), Ok(b"ab".to_vec()));
        assert_eq!(reader.read(2), Ok(b"c".to_vec()));
        assert_eq!(reader.read(2), Err(Error::MalformedObject));
        assert_eq!(reader.read(2), Err(Error::MalformedObject));
    }
    let mut empty = GitObjectReader::new(ObjectKind::Blob, Vec::new(), 1, None);
    assert_eq!(empty.read(10), Err(Error::MalformedObject));
    let mut nothing = GitObjectReader::new(ObjectKind::Blob, Vec::new(), 0, None);
    assert_eq!(nothing.read(10), Ok(vec![]));
}

#[test]
fn tree_shorter_than_declared_fails_after_its_entries() {
    let payload = encode_tree(&entries());
    let size = payload.len() as u64 + 1;
    let options = ReadOptions { tree_name_only: true };
    let mut reader = GitObjectReader::new(ObjectKind::Tree, payload.clone(), size, Some(&options));
    assert_eq!(reader.read(100), Ok(b"a.txt\n".to_vec()));
    assert_eq!(reader.read(100), Ok(b"dir\n".to_vec()));
    assert_eq!(reader.read(100), Err(Error::MalformedObject));
    let mut reader = GitObjectReader::new(ObjectKind::Tree, payload, size, Some(&options));
    assert_eq!(reader.read_to_end(), Err(Error::MalformedObject));
}

#[test]
fn a_read_of_no_bytes_consumes_nothing() {
    let payload = encode_tree(&entries());
    let size = payload.len() as u64;
    let options = ReadOptions { tree_name_only: true };
    let mut reader = GitObjectReader::new(ObjectKind::Tree, payload, size, Some(&options));
    assert_eq!(reader.read(0), Ok(vec![]));
    assert_eq!(reader.read(0), Ok(vec![]));
    assert_eq!(reader.read_to_end(), Ok(b"a.txt\ndir\n".to_vec()));
    let mut bad = GitObjectReader::new(ObjectKind::Tree, b"100644 f\0short".to_vec(), 14, None);
    assert_eq!(bad.read(0), Ok(vec![]));
    assert_eq!(bad.read(1), Err(Error::MalformedObject));
    let mut short = GitObjectReader::new(ObjectKind::Blob, Vec::new(), 5, None);
    assert_eq!(short.read(0), Ok(vec![]));
    assert_eq!(short.read(1), Err(Error::MalformedObject));
}

#[test]
fn tree_is_shown_as_a_full_listing() {
    let payload = encode_tree(&entries());
    let size = payload.len() as u64;
    let mut reader = GitObjectReader::new(ObjectKind::Tree, payload, size, None);
    assert_eq!(reader.read_to_end(), Ok(full_listing()));
}

#[test]
fn tree_is_shown_by_names_only_on_request() {
    let payload = encode_tree(&entries());
    let size = payload.len() as u64;
    let options = ReadOptions { tree_name_only: true };
    let mut reader = GitObjectReader::new(ObjectKind::Tree, payload.clone(), size, Some(&options));
    assert_eq!(reader.read_to_end(), Ok(b"a.txt\ndir\n".to_vec()));
    let all = ReadOptions { tree_name_only: false };
    let mut reader = GitObjectReader::new(ObjectKind::Tree, payload, size, Some(&all));
    assert_eq!(reader.read_to_end(), Ok(full_listing()));
}

#[test]
fn small_reads_lose_nothing_of_a_listing() {
    let payload = encode_tree(&entries());
    let size = payload.len() as u64;
    for max in [1usize, 2, 3, 7, 58, 59, 60, 1000] {
        let mut reader = GitObjectReader::new(ObjectKind::Tree, payload.clone(), size, None);
        assert_eq!(drain(&mut reader, max), Ok(full_listing()));
    }
}

#[test]
fn a_read_hands_out_one_line_at_most() {
    let payload = encode_tree(&entries());
    let size = payload.len() as u64;
    let options = ReadOptions { tree_name_only: true };
    let mut reader = GitObjectReader::new(ObjectKind::Tree, payload, size, Some(&options));
    assert_eq!(reader.read(100), Ok(b"a.txt\n".to_vec()));
    assert_eq!(reader.read(2), Ok(b"di".to_vec()));
    assert_eq!(reader.read(100), Ok(b"r\n".to_vec()));
    assert_eq!(reader.read(100), Ok(vec![]));
}

#[test]
fn malformed_entry_fails_when_it_is_reached() {
    let mut payload = encode_tree(&entries());
    payload.extend_from_slice(b"100644 cut short\0abc");
    let size = payload.len() as u64;
    let options = ReadOptions { tree_name_only: true };
    let mut reader = GitObjectReader::new(ObjectKind::Tree, payload.clone(), size, Some(&options));
    assert_eq!(reader.read(100), Ok(b"a.txt\n".to_vec()));
    assert_eq!(reader.read(100), Ok(b"dir\n".to_vec()));
    assert_eq!(reader.read(100), Err(Error::MalformedObject));
    assert_eq!(reader.read(100), Err(Error::MalformedObject));
    let mut reader = GitObjectReader::new(ObjectKind::Tree, payload, size, Some(&options));
    assert_eq!(reader.read_to_end(), Err(Error::MalformedObject));
}

#[test]
fn tree_cut_by_the_declared_size_is_malformed() {
    let payload = encode_tree(&entries());
    let size = payload.len() as u64 - 1;
    let mut reader = GitObjectReader::new(ObjectKind::Tree, payload, size, None);
    assert_eq!(reader.read_to_end(), Err(Error::MalformedObject));
}

#[test]
fn whole_tree_payload_is_rendered_at_once() {
    let payload = encode_tree(&entries());
    assert_eq!(read_tree(&payload, None), Ok(full_listing()));
    let options = ReadOptions { tree_name_only: true };
    assert_eq!(read_tree(&payload, Some(&options)), Ok(b"a.txt\ndir\n".to_vec()));
    assert_eq!(read_tree(b"", None), Ok(vec![]));
    assert_eq!(read_tree(b"100644 f\0short", None), Err(Error::MalformedObject));
}
