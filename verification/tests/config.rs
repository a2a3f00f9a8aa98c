use git_rust::config::{parse_config_from_file, trim, Config};

fn get(config: &Config, query: &str) -> Option<Vec<u8>> {
    config.get(query).cloned()
}

#[test]
fn values_are_found_by_section_and_key() {
    let config = parse_config_from_file(
        b"[core]\n\tbare = false\n[user]\n\tname = A U Thor\n\temail = author@example.com\n",
    );
    assert_eq!(get(&config, "user.name"), Some(b"A U Thor".to_vec()));
    assert_eq!(get(&config, "user.email"), Some(b"author@example.com".to_vec()));
    assert_eq!(get(&config, "core.bare"), Some(b"false".to_vec()));
    assert_eq!(get(&config, "core.name"), None);
    assert_eq!(get(&config, "other.name"), None);
}

#[test]
fn query_needs_a_section_and_a_key() {
    let config = parse_config_from_file(b"[user]\nname = n\n = empty key\n[]\nk = v\n");
    assert_eq!(get(&config, "user"), None);
    assert_eq!(get(&config, ""), None);
    assert_eq!(get(&config, "user.name.more"), Some(b"n".to_vec()));
    assert_eq!(get(&config, "user."), Some(b"empty key".to_vec()));
    assert_eq!(get(&config, ".k"), Some(b"v".to_vec()));
    assert_eq!(config.get_bytes(b"user.name"), Some(&b"n".to_vec()));
}

#[test]
fn later_value_replaces_earlier_one() {
    let config = parse_config_from_file(b"[user]\nname = first\nname = second\n");
    assert_eq!(get(&config, "user.name"), Some(b"second".to_vec()));
}

#[test]
fn repeated_header_starts_the_section_anew() {
    let config =
        parse_config_from_file(b"[user]\nname = first\n[core]\na = b\n[user]\nemail = e\n");
    assert_eq!(get(&config, "user.name"), None);
    assert_eq!(get(&config, "user.email"), Some(b"e".to_vec()));
    assert_eq!(get(&config, "core.a"), Some(b"b".to_vec()));
}

#[test]
fn lines_before_any_header_are_ignored() {
    let config = parse_config_from_file(b"name = early\n[user]\nemail = e\n");
    assert_eq!(get(&config, "user.name"), None);
    assert_eq!(get(&config, ".name"), None);
    assert_eq!(get(&config, "user.email"), Some(b"e".to_vec()));
}

#[test]
fn value_is_split_at_the_first_equals_sign() {
    let config = parse_config_from_file(b"[a]\nkey = x = y\nplain line\n");
    assert_eq!(get(&config, "a.key"), Some(b"x = y".to_vec()));
    assert_eq!(get(&config, "a.plain line"), None);
}

#[test]
fn header_must_fill_the_line() {
    let config = parse_config_from_file(b" [a]\nk = v\n[b] \nk = w\n[c]\r\nk = x\r\n");
    assert_eq!(get(&config, "a.k"), None);
    assert_eq!(get(&config, "b.k"), None);
    assert_eq!(get(&config, "c.k"), Some(b"x".to_vec()));
}

#[test]
fn last_line_needs_no_newline() {
    let config = parse_config_from_file(b"[user]\nname = n");
    assert_eq!(get(&config, "user.name"), Some(b"n".to_vec()));
}

#[test]
fn reading_stops_at_a_line_that_is_not_text() {
    let config = parse_config_from_file(b"[user]\nname = n\nbad = \xff\nemail = e\n");
    assert_eq!(get(&config, "user.name"), Some(b"n".to_vec()));
    assert_eq!(get(&config, "user.bad"), None);
    assert_eq!(get(&config, "user.email"), None);
}

#[test]
fn empty_configuration_holds_nothing() {
    assert_eq!(get(&parse_config_from_file(b""), "user.name"), None);
    assert_eq!(get(&Config::new(), "user.name"), None);
}

#[test]
fn white_space_is_trimmed_on_both_sides() {
    assert_eq!(trim(b"  a b \t\r\n"), b"a b".to_vec());
    assert_eq!(trim(b""), b"".to_vec());
    assert_eq!(trim(b" \t "), b"".to_vec());
    assert_eq!(trim(b"x"), b"x".to_vec());
    assert_eq!(trim("\u{a0}\u{3000}x\u{2003}\u{85}".as_bytes()), b"x".to_vec());
    assert_eq!(trim("\u{1680}\u{2028}\u{2029}\u{202f}\u{205f}y\u{200a}".as_bytes()), b"y".to_vec());
    assert_eq!(trim("\u{200b}z\u{feff}".as_bytes()), "\u{200b}z\u{feff}".as_bytes().to_vec());
    assert_eq!(trim("\u{e9} ".as_bytes()), "\u{e9}".as_bytes().to_vec());
    assert_eq!(trim("  \u{e9}t\u{e9}  ".as_bytes()), "  \u{e9}t\u{e9}  ".trim().as_bytes().to_vec());
}
