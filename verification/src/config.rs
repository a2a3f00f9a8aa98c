//! The configuration: `[section]` headers and `key = value` lines, asked for
//! as `section.key`.

use vstd::prelude::*;
use vstd::string::StringSliceAdditionalSpecFns;
use vstd::utf8::valid_utf8;
use crate::bytes;
use crate::bytes::first_index_of;
use crate::utf8::is_text;

verus! {

/// A configuration as a mathematical value: for each section its keys and
/// their values.
pub type ConfigMap = Map<Seq<u8>, Map<Seq<u8>, Seq<u8>>>;

/// Whether the three bytes encode a white-space character of three bytes.
pub open spec fn is_wide_space(a: u8, b: u8, c: u8) -> bool {
    ||| (a == 0xE1 && b == 0x9A && c == 0x80)
    ||| (a == 0xE2 && b == 0x80 && (0x80 <= c <= 0x8A || c == 0xA8 || c == 0xA9 || c == 0xAF))
    ||| (a == 0xE2 && b == 0x81 && c == 0x9F)
    ||| (a == 0xE3 && b == 0x80 && c == 0x80)
}

/// Whether the byte is a white-space character of one byte.
pub open spec fn is_narrow_space(a: u8) -> bool {
    9 <= a <= 13 || a == 32
}

/// Whether the two bytes encode a white-space character of two bytes.
pub open spec fn is_medium_space(a: u8, b: u8) -> bool {
    a == 0xC2 && (b == 0x85 || b == 0xA0)
}

/// The number of bytes of the white-space character that `s` begins with,
/// or 0 where it begins with none.
pub open spec fn leading_space(s: Seq<u8>) -> int {
    if s.len() >= 1 && is_narrow_space(s[0]) {
        1
    } else if s.len() >= 2 && is_medium_space(s[0], s[1]) {
        2
    } else if s.len() >= 3 && is_wide_space(s[0], s[1], s[2]) {
        3
    } else {
        0
    }
}

/// The number of bytes of the white-space character that `s` ends with, or
/// 0 where it ends with none.
pub open spec fn trailing_space(s: Seq<u8>) -> int {
    let n = s.len() as int;
    if n >= 1 && is_narrow_space(s[n - 1]) {
        1
    } else if n >= 2 && is_medium_space(s[n - 2], s[n - 1]) {
        2
    } else if n >= 3 && is_wide_space(s[n - 3], s[n - 2], s[n - 1]) {
        3
    } else {
        0
    }
}

/// `s` without the white space it begins with.
pub open spec fn trim_start(s: Seq<u8>) -> Seq<u8>
    decreases s.len(),
{
    if leading_space(s) > 0 {
        trim_start(s.skip(leading_space(s)))
    } else {
        s
    }
}

/// `s` without the white space it ends with.
pub open spec fn trim_end(s: Seq<u8>) -> Seq<u8>
    decreases s.len(),
{
    if trailing_space(s) > 0 {
        trim_end(s.take(s.len() - trailing_space(s)))
    } else {
        s
    }
}

/// `s` without the white space around it.
pub open spec fn trimmed(s: Seq<u8>) -> Seq<u8> {
    trim_end(trim_start(s))
}

/// Gives the number of bytes of the white-space character at `at`, or 0.
fn space_at(s: &[u8], at: usize) -> (n: usize)
    requires
        at <= s.len(),
    ensures
        n == leading_space(s@.skip(at as int)),
        at + n <= s.len(),
{
    let left = s.len() - at;
    let ghost t = s@.skip(at as int);
    if left >= 1 && ((9 <= s[at] && s[at] <= 13) || s[at] == 32) {
        assert(t[0] == s@[at as int]);
        return 1;
    }
    if left >= 2 && s[at] == 0xC2 && (s[at + 1] == 0x85 || s[at + 1] == 0xA0) {
        assert(t[0] == s@[at as int] && t[1] == s@[at + 1]);
        return 2;
    }
    if left >= 3 {
        let a = s[at];
        let b = s[at + 1];
        let c = s[at + 2];
        assert(t[0] == a && t[1] == b && t[2] == c);
        if (a == 0xE1 && b == 0x9A && c == 0x80) || (a == 0xE2 && b == 0x80 && ((0x80 <= c && c
            <= 0x8A) || c == 0xA8 || c == 0xA9 || c == 0xAF)) || (a == 0xE2 && b == 0x81 && c
            == 0x9F) || (a == 0xE3 && b == 0x80 && c == 0x80) {
            return 3;
        }
    }
    proof {
        if left >= 1 {
            assert(t[0] == s@[at as int]);
        }
        if left >= 2 {
            assert(t[1] == s@[at + 1]);
        }
    }
    0
}

/// Gives the number of bytes of the white-space character that ends just
/// before `end`, looking no further back than `start`; or 0.
fn space_before(s: &[u8], start: usize, end: usize) -> (n: usize)
    requires
        start <= end <= s.len(),
    ensures
        n == trailing_space(s@.subrange(start as int, end as int)),
        start + n <= end,
{
    let len = end - start;
    let ghost t = s@.subrange(start as int, end as int);
    if len >= 1 && ((9 <= s[end - 1] && s[end - 1] <= 13) || s[end - 1] == 32) {
        assert(t[len - 1] == s@[end - 1]);
        return 1;
    }
    if len >= 2 && s[end - 2] == 0xC2 && (s[end - 1] == 0x85 || s[end - 1] == 0xA0) {
        assert(t[len - 1] == s@[end - 1] && t[len - 2] == s@[end - 2]);
        return 2;
    }
    if len >= 3 {
        let a = s[end - 3];
        let b = s[end - 2];
        let c = s[end - 1];
        assert(t[len - 3] == a && t[len - 2] == b && t[len - 1] == c);
        if (a == 0xE1 && b == 0x9A && c == 0x80) || (a == 0xE2 && b == 0x80 && ((0x80 <= c && c
            <= 0x8A) || c == 0xA8 || c == 0xA9 || c == 0xAF)) || (a == 0xE2 && b == 0x81 && c
            == 0x9F) || (a == 0xE3 && b == 0x80 && c == 0x80) {
            return 3;
        }
    }
    proof {
        if len >= 1 {
            assert(t[len - 1] == s@[end - 1]);
        }
        if len >= 2 {
            assert(t[len - 2] == s@[end - 2]);
        }
    }
    0
}

/// Copies `s` without the white space around it.
pub fn trim(s: &[u8]) -> (out: Vec<u8>)
    ensures
        out@ == trimmed(s@),
{
    let mut start: usize = 0;
    assert(s@.skip(0) =~= s@);
    loop
        invariant
            start <= s.len(),
            trim_start(s@) == trim_start(s@.skip(start as int)),
        ensures
            start <= s.len(),
            trim_start(s@) == s@.skip(start as int),
        decreases s.len() - start,
    {
        let n = space_at(s, start);
        if n == 0 {
            break;
        }
        assert(s@.skip(start as int).skip(n as int) =~= s@.skip(start + n));
        start = start + n;
    }
    let mut end: usize = s.len();
    assert(s@.subrange(start as int, end as int) =~= s@.skip(start as int));
    loop
        invariant
            start <= end <= s.len(),
            trimmed(s@) == trim_end(s@.subrange(start as int, end as int)),
        ensures
            start <= end <= s.len(),
            trimmed(s@) == s@.subrange(start as int, end as int),
        decreases end - start,
    {
        let n = space_before(s, start, end);
        if n == 0 {
            break;
        }
        assert(s@.subrange(start as int, end as int).take(end - start - n) =~= s@.subrange(
            start as int,
            end - n,
        ));
        end = end - n;
    }
    bytes::to_vec(bytes::slice_subrange(s, start, end))
}

/// What has been read of a configuration so far: the sections, and the name
/// of the section that `key = value` lines go into, once a header was seen.
pub struct ConfigState {
    pub sections: ConfigMap,
    pub current: Option<Seq<u8>>,
}

/// Whether a line is a section header: it begins with `[` and ends with `]`.
pub open spec fn is_section_header(line: Seq<u8>) -> bool {
    line.len() >= 2 && line[0] == 91 && line[line.len() - 1] == 93
}

/// The state after one more line. A header starts its section anew and makes
/// it the current one. A line with `=` in it sets, in the current section if
/// there is one, the key before the first `=` to the value after it, both
/// without the white space around them. Any other line changes nothing.
pub open spec fn apply_line(st: ConfigState, line: Seq<u8>) -> ConfigState {
    if is_section_header(line) {
        let name = line.subrange(1, line.len() - 1);
        ConfigState { sections: st.sections.insert(name, Map::empty()), current: Some(name) }
    } else {
        match (first_index_of(line, 61), st.current) {
            (Some(eq), Some(section)) => ConfigState {
                sections: st.sections.insert(
                    section,
                    st.sections[section].insert(
                        trimmed(line.take(eq)),
                        trimmed(line.skip(eq + 1)),
                    ),
                ),
                current: st.current,
            },
            _ => st,
        }
    }
}

/// The first line of a text that is not empty: what stands before the first
/// newline, without a carriage return just before it; or the whole text
/// where it holds no newline.
pub open spec fn first_line(text: Seq<u8>) -> Seq<u8> {
    match first_index_of(text, 10) {
        Some(end) => if end > 0 && text[end - 1] == 13 {
            text.take(end - 1)
        } else {
            text.take(end)
        },
        None => text,
    }
}

/// What follows the first line of a text and its newline.
pub open spec fn after_first_line(text: Seq<u8>) -> Seq<u8> {
    match first_index_of(text, 10) {
        Some(end) => text.skip(end + 1),
        None => Seq::empty(),
    }
}

/// The state after the lines of `text` are read, one after another, up to
/// the end or to the first line that is not text.
pub open spec fn read_lines(st: ConfigState, text: Seq<u8>) -> ConfigState
    decreases text.len(),
{
    if text.len() == 0 {
        st
    } else if !valid_utf8(first_line(text)) {
        st
    } else if after_first_line(text).len() < text.len() {
        read_lines(apply_line(st, first_line(text)), after_first_line(text))
    } else {
        st
    }
}

/// The configuration that a text holds.
pub open spec fn config_of(text: Seq<u8>) -> ConfigMap {
    read_lines(ConfigState { sections: Map::empty(), current: None }, text).sections
}

/// The section and the key that a query asks for: what stands before its
/// first dot, and what stands between that dot and the next, or the end.
/// `None` where the query holds no dot.
pub open spec fn query_parts(query: Seq<u8>) -> Option<(Seq<u8>, Seq<u8>)> {
    match first_index_of(query, 46) {
        None => None,
        Some(dot) => {
            let rest = query.skip(dot + 1);
            match first_index_of(rest, 46) {
                None => Some((query.take(dot), rest)),
                Some(next) => Some((query.take(dot), rest.take(next))),
            }
        },
    }
}

/// The value that a configuration holds for a query, if any.
pub open spec fn lookup(config: ConfigMap, query: Seq<u8>) -> Option<Seq<u8>> {
    match query_parts(query) {
        Some((section, key)) => if config.dom().contains(section) && config[section].dom().contains(
            key,
        ) {
            Some(config[section][key])
        } else {
            None
        },
        None => None,
    }
}

/// One section as it was read: its name, and its keys with their values, a
/// later one replacing an earlier one of the same key.
pub struct Section {
    name: Vec<u8>,
    entries: Vec<(Vec<u8>, Vec<u8>)>,
}

/// A configuration: its sections in the order they were read, a later one
/// replacing an earlier one of the same name.
pub struct Config {
    sections: Vec<Section>,
}

/// The keys and values of the first `k` of `entries`.
pub closed spec fn entries_map(entries: Seq<(Vec<u8>, Vec<u8>)>, k: int) -> Map<Seq<u8>, Seq<u8>>
    decreases k,
{
    if k <= 0 || k > entries.len() {
        Map::empty()
    } else {
        entries_map(entries, k - 1).insert(entries[k - 1].0@, entries[k - 1].1@)
    }
}

/// The sections of the first `k` of `sections`.
pub closed spec fn sections_map(sections: Seq<Section>, k: int) -> ConfigMap
    decreases k,
{
    if k <= 0 || k > sections.len() {
        Map::empty()
    } else {
        sections_map(sections, k - 1).insert(
            sections[k - 1].name@,
            entries_map(sections[k - 1].entries@, sections[k - 1].entries@.len() as int),
        )
    }
}

impl View for Config {
    type V = ConfigMap;

    closed spec fn view(&self) -> ConfigMap {
        sections_map(self.sections@, self.sections@.len() as int)
    }
}

/// Finds the value of `key` among `entries`.
fn find_entry<'a>(entries: &'a Vec<(Vec<u8>, Vec<u8>)>, key: &[u8]) -> (res: Option<&'a Vec<u8>>)
    ensures
        match res {
            Some(value) => entries_map(entries@, entries@.len() as int).dom().contains(key@)
                && entries_map(entries@, entries@.len() as int)[key@] == value@,
            None => !entries_map(entries@, entries@.len() as int).dom().contains(key@),
        },
{
    let mut i: usize = entries.len();
    while i > 0
        invariant
            i <= entries.len(),
            entries_map(entries@, entries@.len() as int).dom().contains(key@) == entries_map(
                entries@,
                i as int,
            ).dom().contains(key@),
            entries_map(entries@, i as int).dom().contains(key@) ==> entries_map(
                entries@,
                entries@.len() as int,
            )[key@] == entries_map(entries@, i as int)[key@],
        decreases i,
    {
        if bytes::equal(entries[i - 1].0.as_slice(), key) {
            return Some(&entries[i - 1].1);
        }
        i -= 1;
    }
    None
}

impl Config {
    /// A configuration that holds nothing.
    pub fn new() -> (config: Config)
        ensures
            config@ == Map::<Seq<u8>, Map<Seq<u8>, Seq<u8>>>::empty(),
    {
        Config { sections: Vec::new() }
    }

    /// Looks up `section.key`. The query is split at its first dot and, if
    /// there is another, at that one too; what follows is not looked at.
    pub fn get(&self, query: &str) -> (res: Option<&Vec<u8>>)
        ensures
            match res {
                Some(value) => lookup(self@, query.spec_bytes()) == Some(value@),
                None => lookup(self@, query.spec_bytes()) is None,
            },
    {
        self.get_bytes(query.as_bytes())
    }

    /// Looks up `section.key`, the query given as bytes.
    pub fn get_bytes(&self, q: &[u8]) -> (res: Option<&Vec<u8>>)
        ensures
            match res {
                Some(value) => lookup(self@, q@) == Some(value@),
                None => lookup(self@, q@) is None,
            },
    {
        let dot = match bytes::find(q, 46) {
            Some(dot) => dot,
            None => {
                return None;
            },
        };
        let section = bytes::slice_subrange(q, 0, dot);
        let rest = bytes::slice_subrange(q, dot + 1, q.len());
        assert(rest@ =~= q@.skip(dot + 1));
        let key = match bytes::find(rest, 46) {
            Some(next) => bytes::slice_subrange(rest, 0, next),
            None => rest,
        };
        proof {
            assert(section@ =~= q@.take(dot as int));
            match first_index_of(rest@, 46) {
                Some(next) => {
                    assert(key@ =~= rest@.take(next));
                },
                None => {},
            }
            assert(query_parts(q@) == Some((section@, key@)));
        }
        let mut i: usize = self.sections.len();
        while i > 0
            invariant
                i <= self.sections.len(),
                query_parts(q@) == Some((section@, key@)),
                self@.dom().contains(section@) == sections_map(
                    self.sections@,
                    i as int,
                ).dom().contains(section@),
                sections_map(self.sections@, i as int).dom().contains(section@) ==> self@[section@]
                    == sections_map(self.sections@, i as int)[section@],
            decreases i,
        {
            if bytes::equal(self.sections[i - 1].name.as_slice(), section) {
                let found = &self.sections[i - 1];
                assert(sections_map(self.sections@, i as int)[section@] == entries_map(
                    found.entries@,
                    found.entries@.len() as int,
                ));
                return find_entry(&found.entries, key);
            }
            i -= 1;
        }
        None
    }
}

/// The map of the first entries does not depend on what follows them.
proof fn lemma_entries_map_prefix(
    a: Seq<(Vec<u8>, Vec<u8>)>,
    b: Seq<(Vec<u8>, Vec<u8>)>,
    k: int,
)
    requires
        0 <= k <= a.len(),
        k <= b.len(),
        forall|i: int| 0 <= i < k ==> a[i] == b[i],
    ensures
        entries_map(a, k) == entries_map(b, k),
    decreases k,
{
    if k > 0 {
        lemma_entries_map_prefix(a, b, k - 1);
    }
}

/// The map of the first sections does not depend on what follows them.
proof fn lemma_sections_map_prefix(a: Seq<Section>, b: Seq<Section>, k: int)
    requires
        0 <= k <= a.len(),
        k <= b.len(),
        forall|i: int| 0 <= i < k ==> a[i] == b[i],
    ensures
        sections_map(a, k) == sections_map(b, k),
    decreases k,
{
    if k > 0 {
        lemma_sections_map_prefix(a, b, k - 1);
    }
}

/// One more section at the end sets its name to its entries.
proof fn lemma_sections_push(front: Seq<Section>, last: Section)
    ensures
        sections_map(front.push(last), (front.len() + 1) as int) == sections_map(
            front,
            front.len() as int,
        ).insert(last.name@, entries_map(last.entries@, last.entries@.len() as int)),
{
    lemma_sections_map_prefix(front.push(last), front, front.len() as int);
}

/// One more entry at the end sets its key to its value.
proof fn lemma_entries_push(front: Seq<(Vec<u8>, Vec<u8>)>, last: (Vec<u8>, Vec<u8>))
    ensures
        entries_map(front.push(last), (front.len() + 1) as int) == entries_map(
            front,
            front.len() as int,
        ).insert(last.0@, last.1@),
{
    lemma_entries_map_prefix(front.push(last), front, front.len() as int);
}

/// Reads a configuration from the content of its file: line by line, up to
/// the end or to the first line that is not text.
pub fn parse_config_from_file(content: &[u8]) -> (config: Config)
    ensures
        config@ == config_of(content@),
{
    let mut sections: Vec<Section> = Vec::new();
    let mut pos: usize = 0;
    let ghost mut st = ConfigState { sections: Map::empty(), current: None };
    assert(content@.skip(0) =~= content@);
    while pos < content.len()
        invariant
            pos <= content.len(),
            st.sections == sections_map(sections@, sections@.len() as int),
            st.current == if sections@.len() > 0 {
                Some(sections@.last().name@)
            } else {
                None::<Seq<u8>>
            },
            config_of(content@) == read_lines(st, content@.skip(pos as int)).sections,
        decreases content.len() - pos,
    {
        let rest = bytes::slice_subrange(content, pos, content.len());
        assert(rest@ =~= content@.skip(pos as int));
        let (line, next): (&[u8], usize) = match bytes::find(rest, 10) {
            Some(end) => {
                if end > 0 && rest[end - 1] == 13 {
                    (bytes::slice_subrange(rest, 0, end - 1), end + 1)
                } else {
                    (bytes::slice_subrange(rest, 0, end), end + 1)
                }
            },
            None => (rest, rest.len()),
        };
        proof {
            bytes::lemma_first_index_of(rest@, 10);
            assert(line@ =~= first_line(rest@));
            assert(rest@.skip(next as int) =~= after_first_line(rest@));
            assert(rest@.skip(next as int) =~= content@.skip(pos + next));
        }
        if !is_text(line) {
            pos = content.len();
            proof {
                assert(content@.skip(pos as int).len() == 0);
            }
        } else {
            let ghost before = st;
            proof {
                st = apply_line(before, line@);
            }
            if line.len() >= 2 && line[0] == 91 && line[line.len() - 1] == 93 {
                let name = bytes::to_vec(bytes::slice_subrange(line, 1, line.len() - 1));
                let section = Section { name, entries: Vec::new() };
                proof {
                    lemma_sections_push(sections@, section);
                }
                sections.push(section);
            } else {
                proof {
                    bytes::lemma_first_index_of(line@, 61);
                }
                match bytes::find(line, 61) {
                    Some(eq) => {
                        if sections.len() > 0 {
                            let key = trim(bytes::slice_subrange(line, 0, eq));
                            let value = trim(bytes::slice_subrange(line, eq + 1, line.len()));
                            let ghost whole = sections@;
                            let mut section = sections.pop().unwrap();
                            let ghost front = sections@;
                            let ghost older = section;
                            proof {
                                assert(whole =~= front.push(older));
                                lemma_sections_push(front, older);
                                lemma_entries_push(older.entries@, (key, value));
                                assert(line@.subrange(0, eq as int) =~= line@.take(eq as int));
                                assert(line@.subrange(eq + 1, line@.len() as int) =~= line@.skip(
                                    eq + 1,
                                ));
                            }
                            section.entries.push((key, value));
                            proof {
                                lemma_sections_push(front, section);
                                let base = sections_map(front, front.len() as int);
                                let old_entries = entries_map(
                                    older.entries@,
                                    older.entries@.len() as int,
                                );
                                let new_entries = old_entries.insert(key@, value@);
                                assert(base.insert(section.name@, old_entries).insert(
                                    section.name@,
                                    new_entries,
                                ) =~= base.insert(section.name@, new_entries));
                            }
                            sections.push(section);
                        }
                    },
                    None => {},
                }
            }
            pos = pos + next;
        }
    }
    proof {
        assert(content@.skip(pos as int).len() == 0);
    }
    Config { sections }
}

} // verus!
