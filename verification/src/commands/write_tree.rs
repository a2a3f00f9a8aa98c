//! `write-tree`: records a directory.

use vstd::prelude::*;
use crate::commands::hash_object::{digest_line, print_digest};
use crate::error::{outcome, Error};
use crate::object::write::{
    directory_supported, stored_tree, tree_id, tree_reads_back, write_tree,
};
use crate::store::{ObjectRecord, ObjectStore};
use crate::worktree::Directory;

verus! {

/// What `write-tree` gives for a directory: the name of its tree, or why
/// it has none.
pub open spec fn write_tree_output(dir: Directory) -> Result<Seq<u8>, Error> {
    if !directory_supported(dir) {
        Err(Error::UnsupportedFileType)
    } else {
        match tree_id(dir) {
            Some(id) => Ok(digest_line(id)),
            None => Err(Error::EmptyDirectory),
        }
    }
}

/// What `write-tree` leaves in the store.
pub open spec fn write_tree_stores(before: Seq<ObjectRecord>, dir: Directory) -> Seq<ObjectRecord> {
    if directory_supported(dir) {
        stored_tree(before, dir)
    } else {
        before
    }
}

/// Records a directory and names its tree. A directory with nothing to
/// record is refused, and so is one that holds a member of an unsupported
/// type.
pub fn invoke(store: &mut ObjectStore, dir: &Directory) -> (res: Result<Vec<u8>, Error>)
    requires
        old(store).wf(),
        dir.wf(),
    ensures
        final(store).wf(),
        outcome(res) == write_tree_output(*dir),
        final(store)@ == write_tree_stores(old(store)@, *dir),
        directory_supported(*dir) ==> tree_reads_back(*dir),
{
    match write_tree(dir, store) {
        Ok(Some(id)) => Ok(print_digest(&id)),
        Ok(None) => Err(Error::EmptyDirectory),
        Err(e) => Err(e),
    }
}

} // verus!
