use git_rust::error::Error;
use git_rust::hexstr::to_hex;
use git_rust::object::read::{GitObjectReader, ReadOptions};
use git_rust::object::write::{
    calc_hash_object, is_metadata_name, mode_of_permissions, write_blob, write_tree,
};
use git_rust::object::{decode_object, ObjectKind};
use git_rust::store::ObjectStore;
use git_rust::tree::{decode_tree, FileMode};
use git_rust::worktree::{check_base_name, Directory, Node};
use git_rust::zlib::decompress;

fn file(content: &[u8]) -> Node {
    Node::File { permissions: 0o644, content: content.to_vec() }
}

fn directory(members: Vec<(&[u8], Node)>) -> Directory {
    let mut dir = Directory::new();
    for (name, node) in members {
        assert!(dir.add(name.to_vec(), node));
    }
    dir
}

fn hex(id: &[u8; 20]) -> String {
    String::from_utf8(to_hex(id)).unwrap()
}

fn payload_of(store: &ObjectStore, name: &str) -> (ObjectKind, Vec<u8>) {
    let raw = decompress(store.open(name).unwrap()).unwrap();
    decode_object(&raw).unwrap()
}

#[test]
fn blob_for_hello_round_trip_scenario() {
    let mut store = ObjectStore::new();
    let blob = write_blob(&mut store, b"hello\n");
    assert_eq!(hex(&blob), "ce013625030ba8dba906f756967f9e9ca394464a");

    let dir = directory(vec![(b"hello.txt", file(b"hello\n"))]);
    let tree = write_tree(&dir, &mut store).unwrap().unwrap();
    assert_eq!(hex(&tree), "aaa96ced2d9a1c8e72c56b253a0e2fe78393feb7");
    assert_eq!(store.len(), 2);

    let (kind, payload) = payload_of(&store, &hex(&tree));
    assert_eq!(kind, ObjectKind::Tree);
    let options = ReadOptions { tree_name_only: true };
    let size = payload.len() as u64;
    let mut reader = GitObjectReader::new(kind, payload, size, Some(&options));
    assert_eq!(reader.read_to_end(), Ok(b"hello.txt\n".to_vec()));
}

#[test]
fn empty_directory_yields_no_tree() {
    let mut store = ObjectStore::new();
    assert_eq!(write_tree(&Directory::new(), &mut store), Ok(None));
    assert_eq!(store.len(), 0);
}

#[test]
fn directory_of_empty_directories_yields_no_tree() {
    let mut store = ObjectStore::new();
    let dir = directory(vec![
        (b"a", Node::Directory(Directory::new())),
        (b"b", Node::Directory(directory(vec![(b"c", Node::Directory(Directory::new()))]))),
    ]);
    assert_eq!(write_tree(&dir, &mut store), Ok(None));
    assert_eq!(store.len(), 0);
}

#[test]
fn empty_subdirectory_leaves_no_entry() {
    let mut store = ObjectStore::new();
    let with_empty = directory(vec![
        (b"empty", Node::Directory(Directory::new())),
        (b"hello.txt", file(b"hello\n")),
    ]);
    let tree = write_tree(&with_empty, &mut store).unwrap().unwrap();
    assert_eq!(hex(&tree), "aaa96ced2d9a1c8e72c56b253a0e2fe78393feb7");
}

#[test]
fn metadata_directory_is_not_recorded() {
    let mut store = ObjectStore::new();
    let dir = directory(vec![
        (b".git", Node::Directory(directory(vec![(b"HEAD", file(b"ref: refs/heads/main\n"))]))),
        (b"hello.txt", file(b"hello\n")),
    ]);
    let tree = write_tree(&dir, &mut store).unwrap().unwrap();
    assert_eq!(hex(&tree), "aaa96ced2d9a1c8e72c56b253a0e2fe78393feb7");
    assert_eq!(store.len(), 2);
    assert!(is_metadata_name(b".git"));
    assert!(!is_metadata_name(b".gitignore"));
    assert!(!is_metadata_name(b"git"));
}

#[test]
fn fixture_with_directory_between_files_has_its_digest() {
    let mut store = ObjectStore::new();
    let dir = directory(vec![
        (b"foo2", file(b"hello\n")),
        (b"foo", Node::Directory(directory(vec![(b"x", file(b"hello\n"))]))),
        (b"foo.txt", file(b"hello\n")),
    ]);
    let tree = write_tree(&dir, &mut store).unwrap().unwrap();
    assert_eq!(hex(&tree), "2d351d6a613761a7aacddd303bd77facb1776e6e");
    assert!(store.open("e31a96220fbfbe7601ecc086a36b96dc27a8867e").is_ok());

    let (_, payload) = payload_of(&store, &hex(&tree));
    let entries = decode_tree(&payload).unwrap();
    let names: Vec<Vec<u8>> = entries.iter().map(|e| e.name.clone()).collect();
    assert_eq!(names, vec![b"foo.txt".to_vec(), b"foo".to_vec(), b"foo2".to_vec()]);
    assert_eq!(entries[1].mode, FileMode::Directory);
    assert_eq!(hex(&entries[1].hash), "e31a96220fbfbe7601ecc086a36b96dc27a8867e");
}

#[test]
fn listing_order_does_not_change_the_digest() {
    let members = |order: [usize; 3]| {
        let mut all: Vec<(&[u8], Node)> = Vec::new();
        for i in order {
            match i {
                0 => all.push((b"foo2", file(b"hello\n"))),
                1 => all.push((b"foo", Node::Directory(directory(vec![(b"x", file(b"hello\n"))])))),
                _ => all.push((b"foo.txt", file(b"hello\n"))),
            }
        }
        directory(all)
    };
    let orders = [[0, 1, 2], [0, 2, 1], [1, 0, 2], [1, 2, 0], [2, 0, 1], [2, 1, 0]];
    for order in orders {
        let mut store = ObjectStore::new();
        let tree = write_tree(&members(order), &mut store).unwrap().unwrap();
        assert_eq!(hex(&tree), "2d351d6a613761a7aacddd303bd77facb1776e6e");
    }
}

#[test]
fn listing_order_below_does_not_change_the_digest() {
    let inner = |flip: bool| {
        if flip {
            directory(vec![(b"b", file(b"two")), (b"a", file(b"one"))])
        } else {
            directory(vec![(b"a", file(b"one")), (b"b", file(b"two"))])
        }
    };
    let outer = |flip_outer: bool, flip_inner: bool| {
        if flip_outer {
            directory(vec![
                (b"z", file(b"last")),
                (b"sub", Node::Directory(inner(flip_inner))),
                (b"sub.txt", file(b"first")),
            ])
        } else {
            directory(vec![
                (b"sub.txt", file(b"first")),
                (b"sub", Node::Directory(inner(flip_inner))),
                (b"z", file(b"last")),
            ])
        }
    };
    let mut store = ObjectStore::new();
    let expected = write_tree(&outer(false, false), &mut store).unwrap().unwrap();
    for (flip_outer, flip_inner) in [(false, true), (true, false), (true, true)] {
        let mut other = ObjectStore::new();
        let tree = write_tree(&outer(flip_outer, flip_inner), &mut other).unwrap().unwrap();
        assert_eq!(tree, expected);
        assert_eq!(other.len(), store.len());
    }
}

#[test]
fn building_twice_gives_the_same_digest() {
    let dir = directory(vec![
        (b"b", file(b"two")),
        (b"a", file(b"one")),
        (b"sub", Node::Directory(directory(vec![(b"c", file(b"three"))]))),
    ]);
    let mut store = ObjectStore::new();
    let first = write_tree(&dir, &mut store).unwrap();
    let count = store.len();
    let second = write_tree(&dir, &mut store).unwrap();
    assert_eq!(first, second);
    assert!(first.is_some());
    assert_eq!(store.len(), count);
    let mut other = ObjectStore::new();
    assert_eq!(write_tree(&dir, &mut other).unwrap(), first);
}

#[test]
fn executable_and_symlink_get_their_modes() {
    let mut store = ObjectStore::new();
    let dir = directory(vec![
        (b"z-link", Node::Symlink { content: b"run.sh".to_vec() }),
        (b"run.sh", Node::File { permissions: 0o755, content: b"hello\n".to_vec() }),
    ]);
    let tree = write_tree(&dir, &mut store).unwrap().unwrap();
    assert_eq!(hex(&tree), "1efb0831ac3a7833ffe555a8a0ad9e8649a94171");
    assert!(store.open("e0e63473c2593040d7d1c67637864821b28cef4b").is_ok());
}

#[test]
fn any_execute_bit_makes_a_file_executable() {
    assert_eq!(mode_of_permissions(0o644), FileMode::File);
    assert_eq!(mode_of_permissions(0o600), FileMode::File);
    assert_eq!(mode_of_permissions(0o100644), FileMode::File);
    assert_eq!(mode_of_permissions(0o755), FileMode::Executable);
    assert_eq!(mode_of_permissions(0o700), FileMode::Executable);
    assert_eq!(mode_of_permissions(0o610), FileMode::Executable);
    assert_eq!(mode_of_permissions(0o601), FileMode::Executable);
    assert_eq!(mode_of_permissions(0), FileMode::File);
}

#[test]
fn unsupported_member_fails_and_writes_nothing() {
    let mut store = ObjectStore::new();
    let dir = directory(vec![
        (b"a", file(b"one")),
        (b"sub", Node::Directory(directory(vec![(b"socket", Node::Other)]))),
    ]);
    assert!(!dir.is_supported());
    assert_eq!(write_tree(&dir, &mut store), Err(Error::UnsupportedFileType));
    assert_eq!(store.len(), 0);
}

#[test]
fn unsupported_member_under_metadata_directory_is_skipped() {
    let mut store = ObjectStore::new();
    let dir = directory(vec![
        (b".git", Node::Directory(directory(vec![(b"socket", Node::Other)]))),
        (b"hello.txt", file(b"hello\n")),
    ]);
    assert!(dir.is_supported());
    let tree = write_tree(&dir, &mut store).unwrap().unwrap();
    assert_eq!(hex(&tree), "aaa96ced2d9a1c8e72c56b253a0e2fe78393feb7");
}

#[test]
fn hash_without_saving_stores_nothing() {
    let mut store = ObjectStore::new();
    let id = calc_hash_object(&mut store, b"hello\n", false);
    assert_eq!(hex(&id), "ce013625030ba8dba906f756967f9e9ca394464a");
    assert_eq!(store.len(), 0);
    let again = calc_hash_object(&mut store, b"hello\n", true);
    assert_eq!(again, id);
    assert_eq!(store.len(), 1);
}

#[test]
fn directory_refuses_bad_and_repeated_names() {
    let mut dir = Directory::new();
    assert!(dir.add(b"a".to_vec(), file(b"")));
    assert!(!dir.add(b"a".to_vec(), file(b"other")));
    assert!(!dir.add(b"".to_vec(), file(b"")));
    assert!(!dir.add(b"a/b".to_vec(), file(b"")));
    assert!(!dir.add(b"a\0b".to_vec(), file(b"")));
    assert_eq!(dir.members.len(), 1);
    assert!(dir.has_member(b"a"));
    assert!(!dir.has_member(b"b"));
    assert!(dir.validate());
    assert!(check_base_name(b"a b"));
    assert!(!check_base_name(b"/"));
}

#[test]
fn validation_finds_repeated_names_below() {
    let mut inner = Directory::new();
    assert!(inner.add(b"x".to_vec(), file(b"")));
    inner.members.push(git_rust::worktree::Member { name: b"x".to_vec(), node: file(b"") });
    assert!(!inner.validate());
    let outer = Directory {
        members: vec![git_rust::worktree::Member { name: b"d".to_vec(), node: Node::Directory(inner) }],
    };
    assert!(!outer.validate());
    assert!(!Node::Directory(outer).validate());
}
