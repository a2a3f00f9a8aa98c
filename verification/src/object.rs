//! Object kinds and the framing shared by every stored object:
//! `<kind> <size>\0<payload>`.

use vstd::prelude::*;
use vstd::string::StringSliceAdditionalSpecFns;
use crate::bytes;
use crate::bytes::first_index_of;
use crate::decimal::{
    all_digits, decimal_digits, format_decimal, is_digit, lemma_decimal_digits_are_digits,
    lemma_parse_decimal_roundtrip, parse_decimal,
};
use crate::error::Error;

pub mod read;
pub mod write;

verus! {

/// The three kinds of stored object.
#[derive(Debug, Clone, Copy, PartialEq, Eq, Structural)]
pub enum ObjectKind {
    Blob,
    Tree,
    Commit,
}

/// The failure of reading an object kind from its name.
#[derive(Debug, Clone, Copy, PartialEq, Eq, Structural)]
pub struct FileTypeParseError;

impl FileTypeParseError {
    /// A short description of the failure.
    pub fn message(&self) -> (text: &'static str)
        ensures
            text@ == "Unknown object type"@,
    {
        "Unknown object type"
    }
}

/// The ASCII space that separates the fields of a header.
pub const SPACE: u8 = 32;

/// The byte that ends a header.
pub const NUL: u8 = 0;

/// The name of a kind as it stands in a header: `blob`, `tree` or `commit`.
pub open spec fn kind_name(kind: ObjectKind) -> Seq<u8> {
    match kind {
        ObjectKind::Blob => seq![98u8, 108, 111, 98],
        ObjectKind::Tree => seq![116u8, 114, 101, 101],
        ObjectKind::Commit => seq![99u8, 111, 109, 109, 105, 116],
    }
}

/// The kind that a name denotes, if any.
pub open spec fn kind_of_name(name: Seq<u8>) -> Option<ObjectKind> {
    if name == kind_name(ObjectKind::Blob) {
        Some(ObjectKind::Blob)
    } else if name == kind_name(ObjectKind::Tree) {
        Some(ObjectKind::Tree)
    } else if name == kind_name(ObjectKind::Commit) {
        Some(ObjectKind::Commit)
    } else {
        None
    }
}

/// The header of an object of `kind` whose payload has `size` bytes.
pub open spec fn header(kind: ObjectKind, size: nat) -> Seq<u8> {
    kind_name(kind) + seq![32u8] + decimal_digits(size) + seq![0u8]
}

/// The serialized form of an object: its header, then its payload.
pub open spec fn framed(kind: ObjectKind, payload: Seq<u8>) -> Seq<u8> {
    header(kind, payload.len()) + payload
}

/// What the header at the start of `bytes` declares: the kind, the size, and
/// the number of bytes the header itself takes. `None` where there is no NUL,
/// no space before it, an unknown kind, or a size that is not a decimal number.
pub open spec fn parsed_header(bytes: Seq<u8>) -> Option<(ObjectKind, u64, int)> {
    match first_index_of(bytes, 0) {
        None => None,
        Some(end) => match first_index_of(bytes.take(end), 32) {
            None => None,
            Some(sp) => match (
                kind_of_name(bytes.take(sp)),
                parse_decimal(bytes.subrange(sp + 1, end)),
            ) {
                (Some(kind), Some(size)) => Some((kind, size, end + 1)),
                _ => None,
            },
        },
    }
}

/// What a serialized object holds: its kind and payload. `None` where the
/// header is malformed or the declared size is not the payload's length.
pub open spec fn unframed(bytes: Seq<u8>) -> Option<(ObjectKind, Seq<u8>)> {
    match parsed_header(bytes) {
        Some((kind, size, start)) => if bytes.len() - start == size {
            Some((kind, bytes.skip(start)))
        } else {
            None
        },
        None => None,
    }
}

/// A kind's name is not empty, holds neither a space nor a NUL, and denotes
/// that kind alone.
pub proof fn lemma_kind_name(kind: ObjectKind)
    ensures
        kind_name(kind).len() > 0,
        forall|j: int|
            0 <= j < kind_name(kind).len() ==> (#[trigger] kind_name(kind)[j]) != 0
                && kind_name(kind)[j] != 32,
        kind_of_name(kind_name(kind)) == Some(kind),
{
    assert(kind_name(ObjectKind::Blob)[0] == 98);
    assert(kind_name(ObjectKind::Tree)[0] == 116);
    assert(kind_name(ObjectKind::Commit)[0] == 99);
}

/// Where the two separators of `name SPACE digits NUL rest` are found.
proof fn lemma_separators(name: Seq<u8>, digits: Seq<u8>, rest: Seq<u8>)
    requires
        forall|j: int| 0 <= j < name.len() ==> (#[trigger] name[j]) != 0 && name[j] != 32,
        all_digits(digits),
    ensures
        first_index_of(name + seq![32u8] + digits + seq![0u8] + rest, 0) == Some(
            (name.len() + 1 + digits.len()) as int,
        ),
        first_index_of(name + seq![32u8] + digits, 32) == Some(name.len() as int),
{
    let bytes = name + seq![32u8] + digits + seq![0u8] + rest;
    let sp = name.len() as int;
    let end = sp + 1 + digits.len();
    assert forall|j: int| 0 <= j < end implies bytes[j] != 0 by {
        if j < sp {
            assert(bytes[j] == name[j]);
        } else if j > sp {
            assert(bytes[j] == digits[j - sp - 1]);
            assert(is_digit(digits[j - sp - 1]));
        }
    }
    assert(bytes[end] == 0);
    bytes::lemma_first_index_is(bytes, 0, end);
    let head = name + seq![32u8] + digits;
    assert(head[sp] == 32);
    assert forall|j: int| 0 <= j < sp implies head[j] != 32 by {
        assert(head[j] == name[j]);
    }
    bytes::lemma_first_index_is(head, 32, sp);
}

/// The header of a serialized object parses to the kind, the payload's
/// length, and the header's own length.
pub proof fn lemma_parsed_header_of_framed(kind: ObjectKind, payload: Seq<u8>)
    requires
        payload.len() <= u64::MAX,
    ensures
        parsed_header(framed(kind, payload)) == Some(
            (kind, payload.len() as u64, header(kind, payload.len()).len() as int),
        ),
{
    let name = kind_name(kind);
    let digits = decimal_digits(payload.len());
    let bytes = name + seq![32u8] + digits + seq![0u8] + payload;
    let sp = name.len() as int;
    let end = sp + 1 + digits.len();
    lemma_kind_name(kind);
    lemma_decimal_digits_are_digits(payload.len());
    lemma_parse_decimal_roundtrip(payload.len() as u64);
    lemma_separators(name, digits, payload);
    assert(bytes == framed(kind, payload));
    assert(bytes.take(end) =~= name + seq![32u8] + digits);
    assert(bytes.take(sp) =~= name);
    assert(bytes.subrange(sp + 1, end) =~= digits);
    assert(header(kind, payload.len()).len() == end + 1);
}

/// Decoding undoes encoding: a serialized object holds the kind and the
/// payload that it was made from, whatever they are.
pub proof fn lemma_unframed_of_framed(kind: ObjectKind, payload: Seq<u8>)
    requires
        payload.len() <= u64::MAX,
    ensures
        unframed(framed(kind, payload)) == Some((kind, payload)),
{
    lemma_parsed_header_of_framed(kind, payload);
    let head = header(kind, payload.len());
    assert((head + payload).skip(head.len() as int) =~= payload);
}

impl ObjectKind {
    /// The name of the kind as it stands in a header.
    pub fn name(&self) -> (out: Vec<u8>)
        ensures
            out@ == kind_name(*self),
    {
        let out = match self {
            ObjectKind::Blob => vec![98u8, 108, 111, 98],
            ObjectKind::Tree => vec![116u8, 114, 101, 101],
            ObjectKind::Commit => vec![99u8, 111, 109, 109, 105, 116],
        };
        assert(out@ =~= kind_name(*self));
        out
    }

    /// Reads a kind from the bytes of its name.
    pub fn from_name(name: &[u8]) -> (res: Option<ObjectKind>)
        ensures
            res == kind_of_name(name@),
    {
        let blob = ObjectKind::Blob.name();
        let tree = ObjectKind::Tree.name();
        let commit = ObjectKind::Commit.name();
        if bytes::equal(name, blob.as_slice()) {
            Some(ObjectKind::Blob)
        } else if bytes::equal(name, tree.as_slice()) {
            Some(ObjectKind::Tree)
        } else if bytes::equal(name, commit.as_slice()) {
            Some(ObjectKind::Commit)
        } else {
            None
        }
    }

    /// Reads a kind from its name: `blob`, `tree` or `commit`, and nothing else.
    pub fn from_str(s: &str) -> (res: Result<ObjectKind, FileTypeParseError>)
        ensures
            res == match kind_of_name(s.spec_bytes()) {
                Some(kind) => Ok::<ObjectKind, FileTypeParseError>(kind),
                None => Err(FileTypeParseError),
            },
    {
        match ObjectKind::from_name(s.as_bytes()) {
            Some(kind) => Ok(kind),
            None => Err(FileTypeParseError),
        }
    }
}

/// Writes the header of an object of `kind` with a payload of `size` bytes.
pub fn encode_header(kind: ObjectKind, size: u64) -> (out: Vec<u8>)
    ensures
        out@ == header(kind, size as nat),
{
    let mut out = kind.name();
    out.push(SPACE);
    let digits = format_decimal(size);
    bytes::append(&mut out, digits.as_slice());
    out.push(NUL);
    assert(out@ =~= header(kind, size as nat));
    out
}

/// Serializes an object: header, then payload.
pub fn encode_object(kind: ObjectKind, payload: &[u8]) -> (out: Vec<u8>)
    ensures
        out@ == framed(kind, payload@),
{
    let mut out = encode_header(kind, payload.len() as u64);
    bytes::append(&mut out, payload);
    out
}

/// Takes a serialized object apart into its kind and payload, rejecting a
/// malformed header and a declared size that is not the payload's length.
pub fn decode_object(bytes: &[u8]) -> (res: Result<(ObjectKind, Vec<u8>), Error>)
    ensures
        match res {
            Ok((kind, payload)) => unframed(bytes@) == Some((kind, payload@)),
            Err(e) => e == Error::MalformedObject && unframed(bytes@) is None,
        },
{
    let (kind, size, start) = match read::parse_header(bytes) {
        Ok(h) => h,
        Err(e) => {
            return Err(e);
        },
    };
    if (bytes.len() - start) as u64 != size {
        return Err(Error::MalformedObject);
    }
    let payload = bytes::to_vec(bytes::slice_subrange(bytes, start, bytes.len()));
    assert(payload@ =~= bytes@.skip(start as int));
    Ok((kind, payload))
}

} // verus!
