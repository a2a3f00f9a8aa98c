use git_rust::order::{entry_precedes, key_before, sort_entries};
use git_rust::tree::{FileMode, TreeEntry};

fn entry(mode: FileMode, name: &[u8]) -> TreeEntry {
    TreeEntry { mode, name: name.to_vec(), hash: [7u8; 20] }
}

fn names(entries: &Vec<TreeEntry>) -> Vec<Vec<u8>> {
    entries.iter().map(|e| e.name.clone()).collect()
}

#[test]
fn directory_sorts_as_if_followed_by_a_slash() {
    let sorted = sort_entries(vec![
        entry(FileMode::File, b"foo2"),
        entry(FileMode::Directory, b"foo"),
        entry(FileMode::File, b"foo.txt"),
    ]);
    assert_eq!(names(&sorted), vec![b"foo.txt".to_vec(), b"foo".to_vec(), b"foo2".to_vec()]);
}

#[test]
fn file_sorts_as_if_followed_by_a_nul() {
    let sorted = sort_entries(vec![
        entry(FileMode::File, b"foo2"),
        entry(FileMode::File, b"foo.txt"),
        entry(FileMode::File, b"foo"),
    ]);
    assert_eq!(names(&sorted), vec![b"foo".to_vec(), b"foo.txt".to_vec(), b"foo2".to_vec()]);
}

#[test]
fn names_compare_by_their_bytes() {
    let sorted = sort_entries(vec![
        entry(FileMode::File, b"b"),
        entry(FileMode::File, b"a"),
        entry(FileMode::File, b"B"),
        entry(FileMode::File, "\u{e9}".as_bytes()),
        entry(FileMode::File, b"ab"),
    ]);
    assert_eq!(
        names(&sorted),
        vec![
            b"B".to_vec(),
            b"a".to_vec(),
            b"ab".to_vec(),
            b"b".to_vec(),
            "\u{e9}".as_bytes().to_vec()
        ]
    );
}

#[test]
fn every_listing_order_sorts_the_same() {
    let a = entry(FileMode::File, b"foo.txt");
    let b = entry(FileMode::Directory, b"foo");
    let c = entry(FileMode::File, b"foo2");
    let expected = vec![a.clone(), b.clone(), c.clone()];
    let orders = vec![
        vec![a.clone(), b.clone(), c.clone()],
        vec![a.clone(), c.clone(), b.clone()],
        vec![b.clone(), a.clone(), c.clone()],
        vec![b.clone(), c.clone(), a.clone()],
        vec![c.clone(), a.clone(), b.clone()],
        vec![c.clone(), b.clone(), a.clone()],
    ];
    for order in orders {
        assert_eq!(sort_entries(order), expected);
    }
}

#[test]
fn sorting_nothing_gives_nothing() {
    assert_eq!(sort_entries(vec![]), vec![]);
}

#[test]
fn sorted_entries_are_strictly_ascending() {
    let sorted = sort_entries(vec![
        entry(FileMode::File, b"z"),
        entry(FileMode::Directory, b"lib"),
        entry(FileMode::File, b"lib.rs"),
        entry(FileMode::Executable, b"a.out"),
        entry(FileMode::Symlink, b"lib-old"),
    ]);
    assert_eq!(sorted.len(), 5);
    for i in 0..sorted.len() {
        for j in (i + 1)..sorted.len() {
            assert!(entry_precedes(&sorted[i], &sorted[j]));
            assert!(!entry_precedes(&sorted[j], &sorted[i]));
        }
    }
    assert_eq!(
        names(&sorted),
        vec![
            b"a.out".to_vec(),
            b"lib-old".to_vec(),
            b"lib.rs".to_vec(),
            b"lib".to_vec(),
            b"z".to_vec()
        ]
    );
}

#[test]
fn entry_never_precedes_itself() {
    let e = entry(FileMode::Directory, b"foo");
    assert!(!entry_precedes(&e, &e));
    assert!(entry_precedes(&entry(FileMode::File, b"foo"), &e));
    assert!(!entry_precedes(&e, &entry(FileMode::File, b"foo")));
}

#[test]
fn keys_compare_name_then_terminator() {
    assert!(key_before(b"foo.txt", 0, b"foo", 47));
    assert!(key_before(b"foo", 47, b"foo2", 0));
    assert!(!key_before(b"foo2", 0, b"foo", 47));
    assert!(key_before(b"foo", 0, b"foo", 47));
    assert!(!key_before(b"foo", 0, b"foo", 0));
    assert!(key_before(b"", 0, b"a", 0));
    assert!(key_before(b"a", 0, b"a\0", 0));
}
