//! The commands of the tool, each as a function from what it is given to
//! what it prints.

use vstd::prelude::*;
use vstd::utf8::encode_utf8;
use std::path::PathBuf;
use crate::commands::cat_file::cat_file_gives;
use crate::commands::commit_tree::commit_tree_gives;
use crate::commands::hash_object::digest_line;
use crate::commands::init::init_message;
use crate::commands::ls_tree::ls_tree_gives;
use crate::commands::write_tree::{write_tree_output, write_tree_stores};
use crate::config::Config;
use crate::error::{outcome, Error};
use crate::object::write::{directory_supported, optional_bytes, tree_reads_back};
use crate::object::ObjectKind;
use crate::sha::object_id;
use crate::store::{reads_back, record_of, with_record, ObjectRecord, ObjectStore};
use crate::worktree::Directory;

pub mod cat_file;
pub mod commit_tree;
pub mod hash_object;
pub mod init;
pub mod ls_tree;
pub mod write_tree;

verus! {

#[verifier::external_type_specification]
#[verifier::external_body]
pub struct ExPathBuf(PathBuf);

/// A command of the tool with its arguments.
#[derive(Debug)]
pub enum Command {
    /// Make a new repository.
    Init,
    /// Show an object.
    CatFile { pretty_print: bool, object_key: String },
    /// Name the blob that a file makes, and with `write` store it.
    HashObject { file_path: PathBuf, write: bool },
    /// List a tree.
    LsTree { name_only: bool, tree_hash: String },
    /// Record the working directory.
    WriteTree {},
    /// Make a commit of a tree.
    CommitTree { parent: Option<String>, tree_hash: String, message: String },
}

/// What a command works on, read for it beforehand: the objects it may
/// look up, the working directory, the content of the file it names, and
/// the configuration. What it writes is added to the objects.
pub struct Environment {
    pub store: ObjectStore,
    pub worktree: Directory,
    pub file: Vec<u8>,
    pub config: Config,
}

/// Whether `result` and `after` are what a command gives and leaves in the
/// store, run where the store holds `before`.
pub open spec fn command_gives(
    command: Command,
    env: Environment,
    before: Seq<ObjectRecord>,
    after: Seq<ObjectRecord>,
    result: Result<Seq<u8>, Error>,
) -> bool {
    match command {
        Command::Init => result == Ok::<Seq<u8>, Error>(init_message()) && after == before,
        Command::CatFile { pretty_print, object_key } => cat_file_gives(
            before,
            pretty_print,
            encode_utf8(object_key@),
            result,
        ) && after == before,
        Command::HashObject { file_path, write } => result == Ok::<Seq<u8>, Error>(
            digest_line(object_id(ObjectKind::Blob, env.file@)),
        ) && after == if write {
            with_record(before, record_of(ObjectKind::Blob, env.file@))
        } else {
            before
        } && (write ==> reads_back(ObjectKind::Blob, env.file@)),
        Command::LsTree { name_only, tree_hash } => ls_tree_gives(
            before,
            name_only,
            encode_utf8(tree_hash@),
            result,
        ) && after == before,
        Command::WriteTree {} => result == write_tree_output(env.worktree) && after
            == write_tree_stores(before, env.worktree) && (directory_supported(env.worktree)
            ==> tree_reads_back(env.worktree)),
        Command::CommitTree { parent, tree_hash, message } => commit_tree_gives(
            env.config@,
            encode_utf8(tree_hash@),
            optional_bytes(parent),
            encode_utf8(message@),
            before,
            after,
            result,
        ),
    }
}

impl Command {
    /// Runs the command on what was read for it, and gives what it prints.
    /// Only the store is changed, and only by what the command writes.
    pub fn execute(self, env: &mut Environment) -> (res: Result<Vec<u8>, Error>)
        requires
            old(env).store.wf(),
            old(env).worktree.wf(),
        ensures
            final(env).store.wf(),
            final(env).worktree == old(env).worktree,
            final(env).file == old(env).file,
            final(env).config == old(env).config,
            command_gives(self, *old(env), old(env).store@, final(env).store@, outcome(res)),
    {
        match self {
            Command::Init => Ok(init::done_message()),
            Command::CatFile { pretty_print, object_key } => cat_file::invoke(
                &env.store,
                pretty_print,
                object_key.as_str(),
            ),
            Command::HashObject { file_path, write } => Ok(
                hash_object::invoke(&mut env.store, env.file.as_slice(), write),
            ),
            Command::LsTree { name_only, tree_hash } => ls_tree::invoke(
                &env.store,
                name_only,
                tree_hash,
            ),
            Command::WriteTree {} => write_tree::invoke(&mut env.store, &env.worktree),
            Command::CommitTree { parent, tree_hash, message } => commit_tree::invoke(
                &mut env.store,
                &env.config,
                tree_hash,
                parent,
                message,
            ),
        }
    }
}

} // verus!
