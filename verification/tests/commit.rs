use git_rust::commit::{encode_commit, format_signature, format_signed, format_zone};
use git_rust::config::parse_config_from_file;
use git_rust::error::Error;
use git_rust::hexstr::to_hex;
use git_rust::object::write::{write_commit, write_commit_at};
use git_rust::object::{decode_object, ObjectKind};
use git_rust::store::ObjectStore;
use git_rust::zlib::decompress;

const TREE: &[u8] = b"aaa96ced2d9a1c8e72c56b253a0e2fe78393feb7";

fn author() -> git_rust::config::Config {
    parse_config_from_file(b"[user]\n\tname = A U Thor\n\temail = author@example.com\n")
}

#[test]
fn commit_payload_has_its_fixed_field_order() {
    let payload = encode_commit(
        TREE,
        None,
        b"A U Thor",
        b"author@example.com",
        1700000000,
        7200,
        b"initial",
    );
    let expected = b"tree aaa96ced2d9a1c8e72c56b253a0e2fe78393feb7\n\
author A U Thor <author@example.com> 1700000000 +0200\n\
committer A U Thor <author@example.com> 1700000000 +0200\n\
\n\
initial\n";
    assert_eq!(payload, expected.to_vec());
}

#[test]
fn commit_payload_names_its_parent_after_the_tree() {
    let payload = encode_commit(
        TREE,
        Some(b"6449460161bedaf7aa27f408f87b5a528bd0add1"),
        b"A U Thor",
        b"author@example.com",
        1700000000,
        -18000,
        b"second",
    );
    let expected = b"tree aaa96ced2d9a1c8e72c56b253a0e2fe78393feb7\n\
parent 6449460161bedaf7aa27f408f87b5a528bd0add1\n\
author A U Thor <author@example.com> 1700000000 -0500\n\
committer A U Thor <author@example.com> 1700000000 -0500\n\
\n\
second\n";
    assert_eq!(payload, expected.to_vec());
}

#[test]
fn zone_is_whole_hours_with_zero_minutes() {
    assert_eq!(format_zone(0), b"+0000".to_vec());
    assert_eq!(format_zone(3600), b"+0100".to_vec());
    assert_eq!(format_zone(19800), b"+0500".to_vec());
    assert_eq!(format_zone(-19800), b"-0500".to_vec());
    assert_eq!(format_zone(-1800), b"+0000".to_vec());
    assert_eq!(format_zone(1800), b"+0000".to_vec());
    assert_eq!(format_zone(-3600), b"-0100".to_vec());
    assert_eq!(format_zone(36000), b"+1000".to_vec());
    assert_eq!(format_zone(-43200), b"-1200".to_vec());
    assert_eq!(format_zone(50400), b"+1400".to_vec());
    assert_eq!(format_zone(i32::MAX), b"+59652300".to_vec());
    assert_eq!(format_zone(i32::MIN), b"-59652300".to_vec());
}

#[test]
fn timestamps_keep_their_sign() {
    assert_eq!(format_signed(0), b"0".to_vec());
    assert_eq!(format_signed(1700000000), b"1700000000".to_vec());
    assert_eq!(format_signed(-1), b"-1".to_vec());
    assert_eq!(format_signed(i64::MIN), b"-9223372036854775808".to_vec());
    assert_eq!(format_signed(i64::MAX), b"9223372036854775807".to_vec());
}

#[test]
fn signature_is_name_email_time_zone() {
    assert_eq!(
        format_signature(b"N", b"e@x", 12, -3600),
        b"N <e@x> 12 -0100".to_vec()
    );
}

#[test]
fn commit_at_a_given_time_has_its_digest() {
    let mut store = ObjectStore::new();
    let id = write_commit_at(&mut store, &author(), TREE, None, b"initial", 1700000000, 7200);
    let id = id.unwrap();
    assert_eq!(to_hex(&id), b"6449460161bedaf7aa27f408f87b5a528bd0add1".to_vec());
    assert_eq!(store.len(), 1);
    let second = write_commit_at(
        &mut store,
        &author(),
        TREE,
        Some(b"6449460161bedaf7aa27f408f87b5a528bd0add1"),
        b"second",
        1700000000,
        -18000,
    );
    assert_eq!(to_hex(&second.unwrap()), b"33dfd175860ca55e5cfa5827ac13e68d01332ff1".to_vec());
    assert_eq!(store.len(), 2);
}

#[test]
fn commit_without_author_name_is_refused() {
    let mut store = ObjectStore::new();
    let config = parse_config_from_file(b"[user]\nemail = author@example.com\n");
    let res = write_commit_at(&mut store, &config, TREE, None, b"m", 1, 0);
    assert_eq!(res, Err(Error::MissingAuthorName));
    assert_eq!(store.len(), 0);
    let none = parse_config_from_file(b"");
    assert_eq!(
        write_commit(&mut store, &none, "t".to_string(), None, "m".to_string()),
        Err(Error::MissingAuthorName)
    );
}

#[test]
fn commit_without_author_email_is_refused() {
    let mut store = ObjectStore::new();
    let config = parse_config_from_file(b"[user]\nname = A U Thor\n");
    let res = write_commit_at(&mut store, &config, TREE, None, b"m", 1, 0);
    assert_eq!(res, Err(Error::MissingAuthorEmail));
    assert_eq!(
        write_commit(&mut store, &config, "t".to_string(), None, "m".to_string()),
        Err(Error::MissingAuthorEmail)
    );
    assert_eq!(store.len(), 0);
}

#[test]
fn commit_as_of_now_is_stored_under_its_digest() {
    let mut store = ObjectStore::new();
    let tree = String::from_utf8(TREE.to_vec()).unwrap();
    let id = write_commit(
        &mut store,
        &author(),
        tree,
        Some("6449460161bedaf7aa27f408f87b5a528bd0add1".to_string()),
        "now".to_string(),
    )
    .unwrap();
    assert_eq!(store.len(), 1);
    let name = String::from_utf8(to_hex(&id)).unwrap();
    let raw = decompress(store.open(&name).unwrap()).unwrap();
    let (kind, payload) = decode_object(&raw).unwrap();
    assert_eq!(kind, ObjectKind::Commit);
    let text = String::from_utf8(payload).unwrap();
    let lines: Vec<&str> = text.split('\n').collect();
    assert_eq!(lines.len(), 7);
    assert_eq!(lines[0], "tree aaa96ced2d9a1c8e72c56b253a0e2fe78393feb7");
    assert_eq!(lines[1], "parent 6449460161bedaf7aa27f408f87b5a528bd0add1");
    assert!(lines[2].starts_with("author A U Thor <author@example.com> "));
    assert!(lines[3].starts_with("committer A U Thor <author@example.com> "));
    assert_eq!(&lines[2]["author ".len()..], &lines[3]["committer ".len()..]);
    assert_eq!(lines[4], "");
    assert_eq!(lines[5], "now");
    assert_eq!(lines[6], "");
    let fields: Vec<&str> = lines[2].rsplitn(3, ' ').collect();
    let zone = fields[0];
    let seconds: i64 = fields[1].parse().unwrap();
    assert!(seconds > 1_600_000_000);
    assert_eq!(zone.len(), 5);
    assert!(zone.starts_with('+') || zone.starts_with('-'));
    assert!(zone.ends_with("00"));
}
