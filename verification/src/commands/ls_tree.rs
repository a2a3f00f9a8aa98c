//! `ls-tree`: lists the entries of a tree.

use vstd::prelude::*;
use vstd::utf8::encode_utf8;
use crate::commands::cat_file::{show_object, shows_named};
use crate::error::{outcome, Error};
use crate::object::read::ReadOptions;
use crate::object::ObjectKind;
use crate::store::{ObjectRecord, ObjectStore};

verus! {

/// Whether `result` is what `ls-tree` gives: the named object's listing,
/// where it is a tree.
pub open spec fn ls_tree_gives(
    records: Seq<ObjectRecord>,
    name_only: bool,
    key: Seq<u8>,
    result: Result<Seq<u8>, Error>,
) -> bool {
    shows_named(records, key, Some(ObjectKind::Tree), Error::NotATree, name_only, result)
}

/// Lists the tree that `tree_hash` names, one line for each entry: in full,
/// or with `name_only` the names alone. An object of another kind is refused.
pub fn invoke(store: &ObjectStore, name_only: bool, tree_hash: String) -> (res: Result<
    Vec<u8>,
    Error,
>)
    ensures
        ls_tree_gives(store@, name_only, encode_utf8(tree_hash@), outcome(res)),
{
    let data = match store.open(tree_hash.as_str()) {
        Ok(data) => data,
        Err(e) => {
            return Err(e);
        },
    };
    let opt = ReadOptions { tree_name_only: name_only };
    show_object(data.as_slice(), Some(ObjectKind::Tree), Error::NotATree, Some(&opt))
}

} // verus!
