//! `init`: what a new repository consists of.

use vstd::prelude::*;

verus! {

/// The directories and the one file that make up a new repository.
#[derive(Debug, Clone, PartialEq, Eq)]
pub struct Layout {
    /// The directories to make, each after the one it lies in.
    pub directories: Vec<Vec<u8>>,
    /// The file that points at the default branch.
    pub head_path: Vec<u8>,
    /// What that file holds.
    pub head_content: Vec<u8>,
}

/// `.git`
pub open spec fn metadata_directory() -> Seq<u8> {
    seq![46u8, 103, 105, 116]
}

/// `.git/objects`
pub open spec fn objects_directory() -> Seq<u8> {
    metadata_directory() + seq![47u8, 111, 98, 106, 101, 99, 116, 115]
}

/// `.git/refs`
pub open spec fn refs_directory() -> Seq<u8> {
    metadata_directory() + seq![47u8, 114, 101, 102, 115]
}

/// `.git/HEAD`
pub open spec fn head_file() -> Seq<u8> {
    metadata_directory() + seq![47u8, 72, 69, 65, 68]
}

/// `ref: refs/heads/main`, and a newline.
pub open spec fn head_pointer() -> Seq<u8> {
    seq![
        114u8,
        101,
        102,
        58,
        32,
        114,
        101,
        102,
        115,
        47,
        104,
        101,
        97,
        100,
        115,
        47,
        109,
        97,
        105,
        110,
        10,
    ]
}

/// `Git repo inited!`, and a newline: what `init` prints when it is done.
pub open spec fn init_message() -> Seq<u8> {
    seq![71u8, 105, 116, 32, 114, 101, 112, 111, 32, 105, 110, 105, 116, 101, 100, 33, 10]
}

/// Gives what a new repository consists of: the metadata directory with its
/// `objects` and `refs` directories, and the pointer to the default branch.
pub fn invoke() -> (layout: Layout)
    ensures
        layout.directories@.len() == 3,
        layout.directories@[0]@ == metadata_directory(),
        layout.directories@[1]@ == objects_directory(),
        layout.directories@[2]@ == refs_directory(),
        layout.head_path@ == head_file(),
        layout.head_content@ == head_pointer(),
{
    let root: Vec<u8> = vec![46u8, 103, 105, 116];
    let objects: Vec<u8> = vec![46u8, 103, 105, 116, 47, 111, 98, 106, 101, 99, 116, 115];
    let refs: Vec<u8> = vec![46u8, 103, 105, 116, 47, 114, 101, 102, 115];
    let head_path: Vec<u8> = vec![46u8, 103, 105, 116, 47, 72, 69, 65, 68];
    let head_content: Vec<u8> = vec![
        114u8,
        101,
        102,
        58,
        32,
        114,
        101,
        102,
        115,
        47,
        104,
        101,
        97,
        100,
        115,
        47,
        109,
        97,
        105,
        110,
        10,
    ];
    assert(root@ =~= metadata_directory());
    assert(objects@ =~= objects_directory());
    assert(refs@ =~= refs_directory());
    assert(head_path@ =~= head_file());
    assert(head_content@ =~= head_pointer());
    let mut directories: Vec<Vec<u8>> = Vec::new();
    directories.push(root);
    directories.push(objects);
    directories.push(refs);
    Layout { directories, head_path, head_content }
}

/// Gives what `init` prints when it is done.
pub fn done_message() -> (out: Vec<u8>)
    ensures
        out@ == init_message(),
{
    let out: Vec<u8> = vec![
        71u8,
        105,
        116,
        32,
        114,
        101,
        112,
        111,
        32,
        105,
        110,
        105,
        116,
        101,
        100,
        33,
        10,
    ];
    assert(out@ =~= init_message());
    out
}

} // verus!
