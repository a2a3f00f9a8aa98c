//! The commit encoder: the text record that a commit's payload is.

use vstd::prelude::*;
use crate::bytes;
use crate::decimal::{decimal_digits, format_decimal};

verus! {

/// `tree `
pub open spec fn tree_label() -> Seq<u8> {
    seq![116u8, 114, 101, 101, 32]
}

/// `parent `
pub open spec fn parent_label() -> Seq<u8> {
    seq![112u8, 97, 114, 101, 110, 116, 32]
}

/// `author `
pub open spec fn author_label() -> Seq<u8> {
    seq![97u8, 117, 116, 104, 111, 114, 32]
}

/// `committer `
pub open spec fn committer_label() -> Seq<u8> {
    seq![99u8, 111, 109, 109, 105, 116, 116, 101, 114, 32]
}

/// A number in decimal, with a minus sign in front where it is negative.
pub open spec fn signed_decimal(n: int) -> Seq<u8> {
    if n < 0 {
        seq![45u8] + decimal_digits((-n) as nat)
    } else {
        decimal_digits(n as nat)
    }
}

/// The whole hours of an offset in seconds, rounded toward zero.
pub open spec fn zone_hours(offset: int) -> int {
    if offset >= 0 {
        offset / 3600
    } else {
        -((-offset) / 3600)
    }
}

/// A number of hours with a zero in front where it has one digit only.
pub open spec fn two_digits(n: nat) -> Seq<u8> {
    if n < 10 {
        seq![48u8] + decimal_digits(n)
    } else {
        decimal_digits(n)
    }
}

/// The zone of a commit line: a sign, the whole hours of the offset in two
/// digits, and two zeros for the minutes, which are not recorded.
pub open spec fn zone_text(offset: int) -> Seq<u8> {
    let hours = zone_hours(offset);
    if hours >= 0 {
        seq![43u8] + two_digits(hours as nat) + seq![48u8, 48]
    } else {
        seq![45u8] + two_digits((-hours) as nat) + seq![48u8, 48]
    }
}

/// Who made a commit and when: `name <email> seconds zone`.
pub open spec fn signature(name: Seq<u8>, email: Seq<u8>, timestamp: int, offset: int) -> Seq<u8> {
    name + seq![32u8, 60] + email + seq![62u8, 32] + signed_decimal(timestamp) + seq![32u8]
        + zone_text(offset)
}

/// The parent line of a commit, or nothing where it has no parent.
pub open spec fn parent_line(parent: Option<Seq<u8>>) -> Seq<u8> {
    match parent {
        Some(p) => parent_label() + p + seq![10u8],
        None => Seq::empty(),
    }
}

/// The payload of a commit: the tree line, the parent line if there is a
/// parent, the author and committer lines, an empty line, and the message
/// with a newline after it.
pub open spec fn commit_payload(
    tree_hash: Seq<u8>,
    parent: Option<Seq<u8>>,
    name: Seq<u8>,
    email: Seq<u8>,
    timestamp: int,
    offset: int,
    message: Seq<u8>,
) -> Seq<u8> {
    tree_label() + tree_hash + seq![10u8] + parent_line(parent) + author_label() + signature(
        name,
        email,
        timestamp,
        offset,
    ) + seq![10u8] + committer_label() + signature(name, email, timestamp, offset) + seq![
        10u8,
        10u8,
    ] + message + seq![10u8]
}

/// Writes a number in decimal, with a minus sign where it is negative.
pub fn format_signed(n: i64) -> (out: Vec<u8>)
    ensures
        out@ == signed_decimal(n as int),
{
    if n < 0 {
        let magnitude: u64 = if n == i64::MIN {
            9223372036854775808u64
        } else {
            (-n) as u64
        };
        let mut out: Vec<u8> = Vec::new();
        out.push(45);
        let digits = format_decimal(magnitude);
        bytes::append(&mut out, digits.as_slice());
        out
    } else {
        format_decimal(n as u64)
    }
}

/// Writes the zone of a commit line for an offset in seconds.
pub fn format_zone(offset: i32) -> (out: Vec<u8>)
    ensures
        out@ == zone_text(offset as int),
{
    let mut out: Vec<u8> = Vec::new();
    let hours: u64 = if offset >= 0 {
        out.push(43);
        (offset as u64) / 3600
    } else {
        let magnitude: u64 = (-(offset as i64)) as u64;
        let hours = magnitude / 3600;
        if hours == 0 {
            out.push(43);
        } else {
            out.push(45);
        }
        hours
    };
    if hours < 10 {
        out.push(48);
    }
    let digits = format_decimal(hours);
    bytes::append(&mut out, digits.as_slice());
    out.push(48);
    out.push(48);
    assert(out@ =~= zone_text(offset as int));
    out
}

/// Writes who made a commit and when.
pub fn format_signature(name: &[u8], email: &[u8], timestamp: i64, offset: i32) -> (out: Vec<u8>)
    ensures
        out@ == signature(name@, email@, timestamp as int, offset as int),
{
    let mut out = bytes::to_vec(name);
    out.push(32);
    out.push(60);
    bytes::append(&mut out, email);
    out.push(62);
    out.push(32);
    let seconds = format_signed(timestamp);
    bytes::append(&mut out, seconds.as_slice());
    out.push(32);
    let zone = format_zone(offset);
    bytes::append(&mut out, zone.as_slice());
    assert(out@ =~= signature(name@, email@, timestamp as int, offset as int));
    out
}

/// Writes the payload of a commit.
pub fn encode_commit(
    tree_hash: &[u8],
    parent: Option<&[u8]>,
    name: &[u8],
    email: &[u8],
    timestamp: i64,
    offset: i32,
    message: &[u8],
) -> (out: Vec<u8>)
    ensures
        out@ == commit_payload(
            tree_hash@,
            match parent {
                Some(p) => Some(p@),
                None => None,
            },
            name@,
            email@,
            timestamp as int,
            offset as int,
            message@,
        ),
{
    let tree: [u8; 5] = [116, 114, 101, 101, 32];
    let parent_word: [u8; 7] = [112, 97, 114, 101, 110, 116, 32];
    let author: [u8; 7] = [97, 117, 116, 104, 111, 114, 32];
    let committer: [u8; 10] = [99, 111, 109, 109, 105, 116, 116, 101, 114, 32];
    assert(tree@ =~= tree_label());
    assert(parent_word@ =~= parent_label());
    assert(author@ =~= author_label());
    assert(committer@ =~= committer_label());
    let who = format_signature(name, email, timestamp, offset);
    let mut out: Vec<u8> = Vec::new();
    bytes::append(&mut out, tree.as_slice());
    bytes::append(&mut out, tree_hash);
    out.push(10);
    let ghost parent_view: Option<Seq<u8>> = match parent {
        Some(p) => Some(p@),
        None => None,
    };
    match parent {
        Some(p) => {
            bytes::append(&mut out, parent_word.as_slice());
            bytes::append(&mut out, p);
            out.push(10);
        },
        None => {},
    }
    assert(out@ =~= tree_label() + tree_hash@ + seq![10u8] + parent_line(parent_view));
    bytes::append(&mut out, author.as_slice());
    bytes::append(&mut out, who.as_slice());
    out.push(10);
    bytes::append(&mut out, committer.as_slice());
    bytes::append(&mut out, who.as_slice());
    out.push(10);
    out.push(10);
    bytes::append(&mut out, message);
    out.push(10);
    assert(out@ =~= commit_payload(
        tree_hash@,
        parent_view,
        name@,
        email@,
        timestamp as int,
        offset as int,
        message@,
    ));
    out
}

} // verus!
