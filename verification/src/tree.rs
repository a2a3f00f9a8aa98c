//! The tree codec: how a directory listing is written as a tree payload,
//! read back, and shown as text.

use vstd::prelude::*;
use vstd::utf8::valid_utf8;
use crate::bytes;
use crate::bytes::first_index_of;
use crate::decimal::{
    all_digits, decimal_digits, format_decimal, is_digit, lemma_decimal_digits_are_digits,
    lemma_digits_value_of_decimal,
};
use crate::error::Error;
use crate::hexstr::{hex_of, to_hex};
use crate::object::{kind_name, ObjectKind};
use crate::utf8::is_text;

verus! {

/// The mode of a tree entry: what kind of directory member it records.
#[derive(Debug, Clone, Copy, PartialEq, Eq, Structural)]
pub enum FileMode {
    /// A subdirectory, recorded as a tree: `40000`.
    Directory,
    /// A regular file: `100644`.
    File,
    /// A regular file with an executable bit: `100755`.
    Executable,
    /// A symbolic link: `120000`.
    Symlink,
}

/// The number that stands for a mode.
pub open spec fn mode_code(mode: FileMode) -> u32 {
    match mode {
        FileMode::Directory => 40000,
        FileMode::File => 100644,
        FileMode::Executable => 100755,
        FileMode::Symlink => 120000,
    }
}

/// A mode as it is written in a tree payload: its code in decimal.
pub open spec fn mode_text(mode: FileMode) -> Seq<u8> {
    decimal_digits(mode_code(mode) as nat)
}

/// The mode that a text denotes, if it is exactly the text of one.
pub open spec fn mode_of_text(text: Seq<u8>) -> Option<FileMode> {
    if text == mode_text(FileMode::Directory) {
        Some(FileMode::Directory)
    } else if text == mode_text(FileMode::File) {
        Some(FileMode::File)
    } else if text == mode_text(FileMode::Executable) {
        Some(FileMode::Executable)
    } else if text == mode_text(FileMode::Symlink) {
        Some(FileMode::Symlink)
    } else {
        None
    }
}

/// The kind of object that an entry of this mode refers to.
pub open spec fn mode_kind(mode: FileMode) -> ObjectKind {
    if mode == FileMode::Directory {
        ObjectKind::Tree
    } else {
        ObjectKind::Blob
    }
}

impl FileMode {
    /// The number that stands for the mode.
    pub fn code(&self) -> (code: u32)
        ensures
            code == mode_code(*self),
    {
        match self {
            FileMode::Directory => 40000,
            FileMode::File => 100644,
            FileMode::Executable => 100755,
            FileMode::Symlink => 120000,
        }
    }

    /// The mode as it is written in a tree payload.
    pub fn text(&self) -> (out: Vec<u8>)
        ensures
            out@ == mode_text(*self),
    {
        format_decimal(self.code() as u64)
    }

    /// Reads a mode from its text; anything but the four known texts is `None`.
    pub fn from_text(text: &[u8]) -> (res: Option<FileMode>)
        ensures
            res == mode_of_text(text@),
    {
        if bytes::equal(text, FileMode::Directory.text().as_slice()) {
            Some(FileMode::Directory)
        } else if bytes::equal(text, FileMode::File.text().as_slice()) {
            Some(FileMode::File)
        } else if bytes::equal(text, FileMode::Executable.text().as_slice()) {
            Some(FileMode::Executable)
        } else if bytes::equal(text, FileMode::Symlink.text().as_slice()) {
            Some(FileMode::Symlink)
        } else {
            None
        }
    }

    /// The kind of object that an entry of this mode refers to.
    pub fn kind(&self) -> (kind: ObjectKind)
        ensures
            kind == mode_kind(*self),
    {
        match self {
            FileMode::Directory => ObjectKind::Tree,
            _ => ObjectKind::Blob,
        }
    }
}

/// One member of a directory as a tree records it.
#[derive(Debug, Clone, PartialEq, Eq)]
pub struct TreeEntry {
    /// What kind of member it is.
    pub mode: FileMode,
    /// Its base name.
    pub name: Vec<u8>,
    /// The digest of the blob or tree that holds it.
    pub hash: [u8; 20],
}

/// A tree entry as a mathematical value.
pub struct TreeEntryView {
    pub mode: FileMode,
    pub name: Seq<u8>,
    pub hash: Seq<u8>,
}

impl View for TreeEntry {
    type V = TreeEntryView;

    open spec fn view(&self) -> TreeEntryView {
        TreeEntryView { mode: self.mode, name: self.name@, hash: self.hash@ }
    }
}

/// The views of a sequence of entries.
pub open spec fn entry_views(entries: Seq<TreeEntry>) -> Seq<TreeEntryView> {
    entries.map_values(|e: TreeEntry| e@)
}

/// One entry as it stands in a tree payload: `mode SPACE name NUL`, then the
/// 20 raw bytes of the digest.
pub open spec fn entry_bytes(e: TreeEntryView) -> Seq<u8> {
    mode_text(e.mode) + seq![32u8] + e.name + seq![0u8] + e.hash
}

/// The payload of a tree: its entries one after another, in the order given.
pub open spec fn tree_payload(entries: Seq<TreeEntryView>) -> Seq<u8>
    decreases entries.len(),
{
    if entries.len() == 0 {
        Seq::empty()
    } else {
        tree_payload(entries.drop_last()) + entry_bytes(entries.last())
    }
}

/// The entry that a `mode name` segment and a digest make up: the segment is
/// text, and splits at its first space into a known mode and a name.
pub open spec fn parsed_entry(segment: Seq<u8>, hash: Seq<u8>) -> Option<TreeEntryView> {
    if !valid_utf8(segment) {
        None
    } else {
        match first_index_of(segment, 32) {
            None => None,
            Some(sp) => match mode_of_text(segment.take(sp)) {
                None => None,
                Some(mode) => Some(TreeEntryView { mode, name: segment.skip(sp + 1), hash }),
            },
        }
    }
}

/// The entry at the start of a tree payload and the number of bytes it
/// takes: a segment up to the first NUL, then exactly 20 bytes of digest.
pub open spec fn first_entry(payload: Seq<u8>) -> Option<(TreeEntryView, int)> {
    match first_index_of(payload, 0) {
        None => None,
        Some(end) => if 0 <= end && end + 21 <= payload.len() {
            match parsed_entry(payload.take(end), payload.subrange(end + 1, end + 21)) {
                Some(e) => Some((e, end + 21)),
                None => None,
            }
        } else {
            None
        },
    }
}

/// The entries that a tree payload holds: one entry after another until
/// nothing is left. `None` where a segment has no end, a digest is cut
/// short, or an entry is malformed.
pub open spec fn parsed_tree(payload: Seq<u8>) -> Option<Seq<TreeEntryView>>
    decreases payload.len(),
{
    if payload.len() == 0 {
        Some(Seq::empty())
    } else {
        match first_entry(payload) {
            Some((e, used)) => if 0 < used <= payload.len() {
                match parsed_tree(payload.skip(used)) {
                    Some(rest) => Some(seq![e] + rest),
                    None => None,
                }
            } else {
                None
            },
            None => None,
        }
    }
}

/// A mode as it is shown in a listing: its text, with zeros in front to a
/// width of six.
pub open spec fn padded_mode(mode: FileMode) -> Seq<u8> {
    let text = mode_text(mode);
    if text.len() < 6 {
        Seq::new((6 - text.len()) as nat, |i: int| 48u8) + text
    } else {
        text
    }
}

/// One line of a listing. In full: the padded mode, the kind of object the
/// entry refers to, the digest in hex, a tab, and the name; with `name_only`,
/// the name alone. Either way the line ends in a newline.
pub open spec fn listing_line(e: TreeEntryView, name_only: bool) -> Seq<u8> {
    if name_only {
        e.name + seq![10u8]
    } else {
        padded_mode(e.mode) + seq![32u8] + kind_name(mode_kind(e.mode)) + seq![32u8] + hex_of(
            e.hash,
        ) + seq![9u8] + e.name + seq![10u8]
    }
}

/// The listing of a sequence of entries: one line for each, in order.
pub open spec fn listing(entries: Seq<TreeEntryView>, name_only: bool) -> Seq<u8>
    decreases entries.len(),
{
    if entries.len() == 0 {
        Seq::empty()
    } else {
        listing_line(entries.first(), name_only) + listing(entries.drop_first(), name_only)
    }
}

impl TreeEntry {
    /// Writes the line that shows the entry in a listing.
    pub fn to_line(&self, name_only: bool) -> (out: Vec<u8>)
        ensures
            out@ == listing_line(self@, name_only),
            out@.len() > 0,
    {
        let mut out: Vec<u8> = Vec::new();
        if !name_only {
            let text = self.mode.text();
            let mut width: usize = text.len();
            while width < 6
                invariant
                    width >= text.len(),
                    width <= 6 || width == text.len(),
                    out@ == Seq::new((width - text.len()) as nat, |i: int| 48u8),
                decreases 6 - width,
            {
                out.push(48);
                width += 1;
                assert(out@ =~= Seq::new((width - text.len()) as nat, |i: int| 48u8));
            }
            bytes::append(&mut out, text.as_slice());
            assert(out@ =~= padded_mode(self.mode));
            out.push(32);
            let kind = self.mode.kind().name();
            bytes::append(&mut out, kind.as_slice());
            out.push(32);
            let hex = to_hex(self.hash.as_slice());
            bytes::append(&mut out, hex.as_slice());
            out.push(9);
        }
        bytes::append(&mut out, self.name.as_slice());
        out.push(10);
        assert(out@ =~= listing_line(self@, name_only));
        out
    }

    /// Makes an entry from a segment `mode SPACE name NUL` and a digest. The
    /// segment must end in its only NUL, be text, and name a known mode.
    pub fn parse(mode_name: &Vec<u8>, hash: &[u8; 20]) -> (res: Result<TreeEntry, Error>)
        ensures
            match res {
                Ok(e) => first_index_of(mode_name@, 0) == Some(mode_name@.len() - 1)
                    && parsed_entry(mode_name@.drop_last(), hash@) == Some(e@),
                Err(err) => err == Error::MalformedObject && (first_index_of(mode_name@, 0)
                    != Some(mode_name@.len() - 1) || parsed_entry(
                    mode_name@.drop_last(),
                    hash@,
                ) is None),
            },
    {
        let all = mode_name.as_slice();
        match bytes::find(all, 0) {
            Some(end) => {
                if end + 1 != all.len() {
                    return Err(Error::MalformedObject);
                }
            },
            None => {
                return Err(Error::MalformedObject);
            },
        }
        let segment = bytes::slice_subrange(all, 0, all.len() - 1);
        assert(segment@ =~= mode_name@.drop_last());
        if !is_text(segment) {
            return Err(Error::MalformedObject);
        }
        let sp = match bytes::find(segment, 32) {
            Some(sp) => sp,
            None => {
                return Err(Error::MalformedObject);
            },
        };
        let mode = match FileMode::from_text(bytes::slice_subrange(segment, 0, sp)) {
            Some(mode) => mode,
            None => {
                return Err(Error::MalformedObject);
            },
        };
        let name = bytes::to_vec(bytes::slice_subrange(segment, sp + 1, segment.len()));
        assert(name@ =~= segment@.skip(sp + 1));
        Ok(TreeEntry { mode, name, hash: *hash })
    }

    /// Writes the entry as it stands in a tree payload.
    pub fn encode(&self) -> (out: Vec<u8>)
        ensures
            out@ == entry_bytes(self@),
    {
        let mut out = self.mode.text();
        out.push(32);
        bytes::append(&mut out, self.name.as_slice());
        out.push(0);
        bytes::append(&mut out, self.hash.as_slice());
        assert(out@ =~= entry_bytes(self@));
        out
    }
}

/// Writes a tree payload: the entries one after another, in the order given.
pub fn encode_tree(entries: &Vec<TreeEntry>) -> (out: Vec<u8>)
    ensures
        out@ == tree_payload(entry_views(entries@)),
{
    let mut out: Vec<u8> = Vec::new();
    let mut i: usize = 0;
    while i < entries.len()
        invariant
            i <= entries.len(),
            out@ == tree_payload(entry_views(entries@.take(i as int))),
        decreases entries.len() - i,
    {
        let piece = entries[i].encode();
        bytes::append(&mut out, piece.as_slice());
        proof {
            let before = entry_views(entries@.take(i as int));
            let after = entry_views(entries@.take(i + 1));
            assert(after.drop_last() =~= before);
            assert(after.last() == entries@[i as int]@);
        }
        i += 1;
    }
    assert(entries@.take(i as int) =~= entries@);
    out
}

/// Reads the entry at the start of a tree payload, and tells how many bytes
/// it takes.
pub fn decode_first_entry(payload: &[u8]) -> (res: Result<(TreeEntry, usize), Error>)
    ensures
        match res {
            Ok((entry, used)) => first_entry(payload@) == Some((entry@, used as int)) && 21
                <= used <= payload@.len(),
            Err(e) => e == Error::MalformedObject && first_entry(payload@) is None,
        },
{
    let end = match bytes::find(payload, 0) {
        Some(end) => end,
        None => {
            return Err(Error::MalformedObject);
        },
    };
    if payload.len() - end < 21 {
        return Err(Error::MalformedObject);
    }
    let segment = bytes::to_vec(bytes::slice_subrange(payload, 0, end + 1));
    let mut hash: [u8; 20] = [0u8; 20];
    let mut k: usize = 0;
    while k < 20
        invariant
            k <= 20,
            end + 21 <= payload.len(),
            forall|j: int| 0 <= j < k ==> hash@[j] == payload@[end + 1 + j],
        decreases 20 - k,
    {
        hash[k] = payload[end + 1 + k];
        k += 1;
    }
    assert(hash@ =~= payload@.subrange(end + 1, end + 21));
    proof {
        bytes::lemma_first_index_of(payload@, 0);
        bytes::lemma_first_index_is(segment@, 0, end as int);
        assert(segment@.drop_last() =~= payload@.take(end as int));
    }
    match TreeEntry::parse(&segment, &hash) {
        Ok(entry) => Ok((entry, end + 21)),
        Err(e) => Err(e),
    }
}

/// Reading entries one by one: what a payload holds is what has been read so
/// far, then what the rest holds.
proof fn lemma_parsed_tree_step(payload: Seq<u8>, done: Seq<TreeEntryView>, pos: int)
    requires
        0 <= pos < payload.len(),
        parsed_tree(payload) == match parsed_tree(payload.skip(pos)) {
            Some(rest) => Some(done + rest),
            None => None,
        },
    ensures
        first_entry(payload.skip(pos)) is None ==> parsed_tree(payload) is None,
        first_entry(payload.skip(pos)) matches Some((e, used)) ==> 0 < used <= payload.len() - pos
            ==> parsed_tree(payload) == match parsed_tree(payload.skip(pos + used)) {
            Some(rest) => Some(done.push(e) + rest),
            None => None,
        },
{
    let here = payload.skip(pos);
    match first_entry(here) {
        Some((e, used)) => {
            if 0 < used <= here.len() {
                assert(here.skip(used) =~= payload.skip(pos + used));
                match parsed_tree(here.skip(used)) {
                    Some(rest) => {
                        assert(done + (seq![e] + rest) =~= done.push(e) + rest);
                    },
                    None => {},
                }
            }
        },
        None => {},
    }
}

/// Reads a tree payload into its entries, or reports it malformed.
pub fn decode_tree(payload: &[u8]) -> (res: Result<Vec<TreeEntry>, Error>)
    ensures
        match res {
            Ok(entries) => parsed_tree(payload@) == Some(entry_views(entries@)),
            Err(e) => e == Error::MalformedObject && parsed_tree(payload@) is None,
        },
{
    let mut entries: Vec<TreeEntry> = Vec::new();
    let mut pos: usize = 0;
    assert(payload@.skip(0) =~= payload@);
    assert(entry_views(entries@) =~= Seq::<TreeEntryView>::empty());
    assert(forall|s: Seq<TreeEntryView>| Seq::<TreeEntryView>::empty() + s =~= s);
    while pos < payload.len()
        invariant
            pos <= payload.len(),
            parsed_tree(payload@) == match parsed_tree(payload@.skip(pos as int)) {
                Some(rest) => Some(entry_views(entries@) + rest),
                None => None,
            },
        decreases payload.len() - pos,
    {
        let rest = bytes::slice_subrange(payload, pos, payload.len());
        assert(rest@ =~= payload@.skip(pos as int));
        proof {
            lemma_parsed_tree_step(payload@, entry_views(entries@), pos as int);
        }
        let (entry, used) = match decode_first_entry(rest) {
            Ok(found) => found,
            Err(e) => {
                return Err(e);
            },
        };
        assert(entry_views(entries@.push(entry)) =~= entry_views(entries@).push(entry@));
        entries.push(entry);
        pos = pos + used;
    }
    assert(payload@.skip(pos as int) =~= Seq::<u8>::empty());
    assert(entry_views(entries@) + Seq::<TreeEntryView>::empty() =~= entry_views(entries@));
    Ok(entries)
}

/// Whether an entry can stand in a tree payload and be read back: its
/// digest has 20 bytes, and its name is text without a NUL.
pub open spec fn is_recordable(e: TreeEntryView) -> bool {
    &&& e.hash.len() == 20
    &&& valid_utf8(e.name)
    &&& forall|i: int| 0 <= i < e.name.len() ==> (#[trigger] e.name[i]) != 0
}

/// The text of a mode is a run of digits that denotes that mode alone.
pub proof fn lemma_mode_text(mode: FileMode)
    ensures
        mode_text(mode).len() > 0,
        all_digits(mode_text(mode)),
        mode_of_text(mode_text(mode)) == Some(mode),
{
    lemma_decimal_digits_are_digits(mode_code(mode) as nat);
    lemma_digits_value_of_decimal(mode_code(FileMode::Directory) as nat);
    lemma_digits_value_of_decimal(mode_code(FileMode::File) as nat);
    lemma_digits_value_of_decimal(mode_code(FileMode::Executable) as nat);
    lemma_digits_value_of_decimal(mode_code(FileMode::Symlink) as nat);
}

/// Bytes below 128 are text.
pub proof fn lemma_ascii_is_text(s: Seq<u8>)
    requires
        forall|i: int| 0 <= i < s.len() ==> (#[trigger] s[i]) < 128,
    ensures
        valid_utf8(s),
{
    assert(s.subrange(0, 0) =~= Seq::<u8>::empty());
    assert(vstd::utf8::partial_valid_utf8(s, 0));
    assert forall|i: int| 0 <= 0 <= i < s.len() <= s.len() implies #[trigger]
        vstd::utf8::is_leading_byte_width_1(s[i]) by {
        assert(s[i] < 128);
    }
    vstd::utf8::partial_valid_utf8_extend_ascii_block(s, 0, s.len() as int);
    assert(s.subrange(0, s.len() as int) =~= s);
}

/// What stands first in the bytes of a recordable entry, whatever follows
/// them, is that entry.
pub proof fn lemma_first_entry_of_encoded(e: TreeEntryView, tail: Seq<u8>)
    requires
        is_recordable(e),
    ensures
        first_entry(entry_bytes(e) + tail) == Some((e, entry_bytes(e).len() as int)),
{
    let mode = mode_text(e.mode);
    let head = mode + seq![32u8];
    let segment = head + e.name;
    let bytes = entry_bytes(e) + tail;
    let end = segment.len() as int;
    lemma_mode_text(e.mode);
    assert(bytes =~= segment + seq![0u8] + e.hash + tail);
    assert forall|j: int| 0 <= j < end implies bytes[j] != 0 by {
        if j < mode.len() {
            assert(bytes[j] == mode[j]);
            assert(is_digit(mode[j]));
        } else if j > mode.len() {
            assert(bytes[j] == e.name[j - mode.len() - 1]);
        }
    }
    assert(bytes[end] == 0);
    bytes::lemma_first_index_is(bytes, 0, end);
    assert(bytes.take(end) =~= segment);
    assert(bytes.subrange(end + 1, end + 21) =~= e.hash);
    assert forall|j: int| 0 <= j < head.len() implies (#[trigger] head[j]) < 128 by {
        if j < mode.len() {
            assert(head[j] == mode[j]);
            assert(is_digit(mode[j]));
        }
    }
    lemma_ascii_is_text(head);
    vstd::utf8::valid_utf8_concat(head, e.name);
    let sp = mode.len() as int;
    assert(segment[sp] == 32);
    assert forall|j: int| 0 <= j < sp implies segment[j] != 32 by {
        assert(segment[j] == mode[j]);
        assert(is_digit(mode[j]));
    }
    bytes::lemma_first_index_is(segment, 32, sp);
    assert(segment.take(sp) =~= mode);
    assert(segment.skip(sp + 1) =~= e.name);
    assert(entry_bytes(e).len() == end + 21);
}

/// A payload is the bytes of its first entry, then the payload of the rest.
pub proof fn lemma_tree_payload_front(e: TreeEntryView, rest: Seq<TreeEntryView>)
    ensures
        tree_payload(seq![e] + rest) == entry_bytes(e) + tree_payload(rest),
    decreases rest.len(),
{
    let all = seq![e] + rest;
    if rest.len() == 0 {
        assert(all.drop_last() =~= Seq::<TreeEntryView>::empty());
        assert(tree_payload(all.drop_last()) =~= Seq::<u8>::empty());
        assert(tree_payload(all) =~= entry_bytes(e));
        assert(entry_bytes(e) + tree_payload(rest) =~= entry_bytes(e));
    } else {
        lemma_tree_payload_front(e, rest.drop_last());
        assert(all.drop_last() =~= seq![e] + rest.drop_last());
        assert(all.last() == rest.last());
        assert((entry_bytes(e) + tree_payload(rest.drop_last())) + entry_bytes(rest.last())
            =~= entry_bytes(e) + (tree_payload(rest.drop_last()) + entry_bytes(rest.last())));
    }
}

/// Reading undoes writing: the payload of recordable entries holds those
/// entries, in their order.
pub proof fn lemma_parsed_tree_of_payload(entries: Seq<TreeEntryView>)
    requires
        forall|i: int| 0 <= i < entries.len() ==> is_recordable(#[trigger] entries[i]),
    ensures
        parsed_tree(tree_payload(entries)) == Some(entries),
    decreases entries.len(),
{
    if entries.len() == 0 {
        assert(tree_payload(entries) =~= Seq::<u8>::empty());
    } else {
        let e = entries.first();
        let rest = entries.drop_first();
        assert(entries =~= seq![e] + rest);
        lemma_tree_payload_front(e, rest);
        assert(is_recordable(entries[0]));
        assert forall|i: int| 0 <= i < rest.len() implies is_recordable(#[trigger] rest[i]) by {
            assert(rest[i] == entries[i + 1]);
        }
        lemma_parsed_tree_of_payload(rest);
        let bytes = tree_payload(entries);
        let used = entry_bytes(e).len() as int;
        lemma_first_entry_of_encoded(e, tree_payload(rest));
        assert(bytes.skip(used) =~= tree_payload(rest));
    }
}

} // verus!
