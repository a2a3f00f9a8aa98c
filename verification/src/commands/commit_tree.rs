//! `commit-tree`: makes a commit of a tree.

use vstd::prelude::*;
use vstd::utf8::encode_utf8;
use crate::commands::hash_object::{digest_line, print_digest};
use crate::config::{Config, ConfigMap};
use crate::error::{outcome, Error};
use crate::object::write::{commit_failure, is_commit_made_at, optional_bytes, write_commit};
use crate::store::{ObjectRecord, ObjectStore};

verus! {

/// Whether `result` and `after` are what `commit-tree` gives and leaves in
/// the store: the name of the commit made at some time, and the store with
/// that commit; or, without an author, a refusal and the store as it was.
pub open spec fn commit_tree_gives(
    config: ConfigMap,
    tree_hash: Seq<u8>,
    parent: Option<Seq<u8>>,
    message: Seq<u8>,
    before: Seq<ObjectRecord>,
    after: Seq<ObjectRecord>,
    result: Result<Seq<u8>, Error>,
) -> bool {
    match commit_failure(config) {
        Some(e) => result == Err::<Seq<u8>, Error>(e) && after == before,
        None => exists|timestamp: i64, offset: i32, id: Seq<u8>|
            result == Ok::<Seq<u8>, Error>(digest_line(id)) && #[trigger] is_commit_made_at(
                config,
                tree_hash,
                parent,
                message,
                timestamp,
                offset,
                id,
                before,
                after,
            ),
    }
}

/// Makes a commit of the tree that `tree_hash` names, as of now, and names
/// the commit. Without an author in the configuration it is refused and
/// nothing is stored.
pub fn invoke(
    store: &mut ObjectStore,
    config: &Config,
    tree_hash: String,
    parent: Option<String>,
    message: String,
) -> (res: Result<Vec<u8>, Error>)
    requires
        old(store).wf(),
    ensures
        final(store).wf(),
        commit_tree_gives(
            config@,
            encode_utf8(tree_hash@),
            optional_bytes(parent),
            encode_utf8(message@),
            old(store)@,
            final(store)@,
            outcome(res),
        ),
{
    match write_commit(store, config, tree_hash, parent, message) {
        Ok(id) => {
            let out = print_digest(&id);
            assert(exists|timestamp: i64, offset: i32|
                #[trigger] is_commit_made_at(
                    config@,
                    encode_utf8(tree_hash@),
                    optional_bytes(parent),
                    encode_utf8(message@),
                    timestamp,
                    offset,
                    id@,
                    old(store)@,
                    store@,
                ));
            Ok(out)
        },
        Err(e) => Err(e),
    }
}

} // verus!
