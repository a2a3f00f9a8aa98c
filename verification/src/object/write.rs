//! Writing objects: blobs from file contents, and trees from directories,
//! bottom-up, each level giving the digest that its parent records.

use vstd::prelude::*;
use vstd::utf8::encode_utf8;
use crate::bytes;
use crate::clock::local_now;
use crate::commit::{commit_payload, encode_commit};
use crate::config::{lookup, Config, ConfigMap};
use crate::error::Error;
use crate::object::ObjectKind;
use crate::order::{
    ascending, entry_names, is_canonical_order_of, lemma_canonical_order_exists,
    lemma_canonical_order_unique, sort_entries,
};
use crate::sha::object_id;
use crate::store::{reads_back, record_of, with_record, ObjectRecord, ObjectStore};
use crate::tree::{encode_tree, entry_views, tree_payload, FileMode, TreeEntry, TreeEntryView};
use crate::worktree::{lemma_members_wf, member_names, node_wf, Directory, Member, Node};

verus! {

/// The name of the directory that holds the store itself: `.git`. A member
/// of that name is never recorded.
pub open spec fn metadata_name() -> Seq<u8> {
    seq![46u8, 103, 105, 116]
}

/// The mode of a regular file with the given permission bits: executable
/// where any of the three execute bits is set.
pub open spec fn file_mode(permissions: u32) -> FileMode {
    if permissions & 0o111 != 0 {
        FileMode::Executable
    } else {
        FileMode::File
    }
}

/// Whether a node can be recorded: nothing in it is of an unsupported type,
/// but for what lies under a member that is skipped anyway.
pub open spec fn node_supported(node: Node) -> bool
    decreases node,
{
    match node {
        Node::Directory(dir) => directory_supported(dir),
        Node::Other => false,
        _ => true,
    }
}

/// Whether the first `k` of `members` can be recorded.
pub open spec fn members_supported(members: Seq<Member>, k: int) -> bool
    decreases members, k,
{
    if k <= 0 || k > members.len() {
        true
    } else {
        members_supported(members, k - 1) && (members[k - 1].name@ == metadata_name()
            || node_supported(members[k - 1].node))
    }
}

/// Whether a directory can be recorded.
pub open spec fn directory_supported(dir: Directory) -> bool
    decreases dir,
{
    members_supported(dir.members@, dir.members@.len() as int)
}

/// The tree entry that records a member, or `None` where the member leaves
/// no entry: the store's own directory, a subdirectory with nothing to
/// record, and what cannot be recorded at all.
pub open spec fn member_entry(member: Member) -> Option<TreeEntryView>
    decreases member,
{
    if member.name@ == metadata_name() {
        None
    } else {
        match member.node {
            Node::File { permissions, content } => Some(
                TreeEntryView {
                    mode: file_mode(permissions),
                    name: member.name@,
                    hash: object_id(ObjectKind::Blob, content@),
                },
            ),
            Node::Symlink { content } => Some(
                TreeEntryView {
                    mode: FileMode::Symlink,
                    name: member.name@,
                    hash: object_id(ObjectKind::Blob, content@),
                },
            ),
            Node::Directory(dir) => match tree_id(dir) {
                Some(id) => Some(
                    TreeEntryView { mode: FileMode::Directory, name: member.name@, hash: id },
                ),
                None => None,
            },
            Node::Other => None,
        }
    }
}

/// The entries that record the first `k` of `members`, in listing order.
pub open spec fn listed_entries(members: Seq<Member>, k: int) -> Seq<TreeEntryView>
    decreases members, k,
{
    if k <= 0 || k > members.len() {
        Seq::empty()
    } else {
        match member_entry(members[k - 1]) {
            Some(e) => listed_entries(members, k - 1).push(e),
            None => listed_entries(members, k - 1),
        }
    }
}

/// The entries of `entries` in the canonical order of a tree.
pub open spec fn canonical_order(entries: Seq<TreeEntryView>) -> Seq<TreeEntryView> {
    choose|sorted: Seq<TreeEntryView>| is_canonical_order_of(sorted, entries)
}

/// The payload of the tree that records a directory: its entries in
/// canonical order, whatever order the members were listed in.
pub open spec fn directory_payload(dir: Directory) -> Seq<u8>
    decreases dir, 0int,
{
    tree_payload(canonical_order(listed_entries(dir.members@, dir.members@.len() as int)))
}

/// The digest of the tree that records a directory, or `None` where the
/// directory has nothing to record and so gets no tree at all.
pub open spec fn tree_id(dir: Directory) -> Option<Seq<u8>>
    decreases dir, 1int,
{
    if listed_entries(dir.members@, dir.members@.len() as int).len() == 0 {
        None
    } else {
        Some(object_id(ObjectKind::Tree, directory_payload(dir)))
    }
}

/// The store after the objects of one member are written into it.
pub open spec fn stored_member(records: Seq<ObjectRecord>, member: Member) -> Seq<ObjectRecord>
    decreases member,
{
    if member.name@ == metadata_name() {
        records
    } else {
        match member.node {
            Node::File { permissions, content } => with_record(
                records,
                record_of(ObjectKind::Blob, content@),
            ),
            Node::Symlink { content } => with_record(records, record_of(ObjectKind::Blob, content@)),
            Node::Directory(dir) => stored_tree(records, dir),
            Node::Other => records,
        }
    }
}

/// The store after the objects of the first `k` of `members` are written
/// into it, one member after another.
pub open spec fn stored_members(records: Seq<ObjectRecord>, members: Seq<Member>, k: int) -> Seq<
    ObjectRecord,
>
    decreases members, k,
{
    if k <= 0 || k > members.len() {
        records
    } else {
        stored_member(stored_members(records, members, k - 1), members[k - 1])
    }
}

/// The store after a directory is written into it: the objects of its
/// members, then its own tree, if it has one.
pub open spec fn stored_tree(records: Seq<ObjectRecord>, dir: Directory) -> Seq<ObjectRecord>
    decreases dir,
{
    let below = stored_members(records, dir.members@, dir.members@.len() as int);
    if tree_id(dir) is None {
        below
    } else {
        with_record(below, record_of(ObjectKind::Tree, directory_payload(dir)))
    }
}

/// Whether the objects that record one member read back as what they were
/// made from.
pub open spec fn member_reads_back(member: Member) -> bool
    decreases member,
{
    if member.name@ == metadata_name() {
        true
    } else {
        match member.node {
            Node::File { permissions, content } => reads_back(ObjectKind::Blob, content@),
            Node::Symlink { content } => reads_back(ObjectKind::Blob, content@),
            Node::Directory(dir) => tree_reads_back(dir),
            Node::Other => true,
        }
    }
}

/// Whether the objects that record the first `k` of `members` read back as
/// what they were made from.
pub open spec fn members_read_back(members: Seq<Member>, k: int) -> bool
    decreases members, k,
{
    if k <= 0 || k > members.len() {
        true
    } else {
        members_read_back(members, k - 1) && member_reads_back(members[k - 1])
    }
}

/// Whether every object that recording a directory stores reads back as
/// what it was made from: the blob of every file and symlink with its
/// content, and the tree of the directory and of every directory below it
/// with its payload.
pub open spec fn tree_reads_back(dir: Directory) -> bool
    decreases dir,
{
    members_read_back(dir.members@, dir.members@.len() as int) && (tree_id(dir) is Some
        ==> reads_back(ObjectKind::Tree, directory_payload(dir)))
}

/// Computes the digest of a blob with the given content, and stores the
/// blob if `save_file` is set. What is stored reads back as that blob.
pub fn calc_hash_object(store: &mut ObjectStore, content: &[u8], save_file: bool) -> (id: [u8; 20])
    requires
        old(store).wf(),
    ensures
        final(store).wf(),
        id@ == object_id(ObjectKind::Blob, content@),
        final(store)@ == if save_file {
            with_record(old(store)@, record_of(ObjectKind::Blob, content@))
        } else {
            old(store)@
        },
        save_file ==> reads_back(ObjectKind::Blob, content@),
{
    store.write(ObjectKind::Blob, content, save_file)
}

/// Stores a blob with the given content and returns its digest.
pub fn write_blob(store: &mut ObjectStore, content: &[u8]) -> (id: [u8; 20])
    requires
        old(store).wf(),
    ensures
        final(store).wf(),
        id@ == object_id(ObjectKind::Blob, content@),
        final(store)@ == with_record(old(store)@, record_of(ObjectKind::Blob, content@)),
        reads_back(ObjectKind::Blob, content@),
{
    calc_hash_object(store, content, true)
}

/// Tells whether `name` is the name of the store's own directory.
pub fn is_metadata_name(name: &[u8]) -> (res: bool)
    ensures
        res == (name@ == metadata_name()),
{
    let expected: [u8; 4] = [46, 103, 105, 116];
    assert(expected@ =~= metadata_name());
    bytes::equal(name, expected.as_slice())
}

/// Gives the mode of a regular file with the given permission bits.
pub fn mode_of_permissions(permissions: u32) -> (mode: FileMode)
    ensures
        mode == file_mode(permissions),
{
    if permissions & 0o111 != 0 {
        FileMode::Executable
    } else {
        FileMode::File
    }
}

/// What support says of each single member.
pub proof fn lemma_members_supported(members: Seq<Member>, k: int, i: int)
    requires
        members_supported(members, k),
        0 <= i < k <= members.len(),
    ensures
        members[i].name@ == metadata_name() || node_supported(members[i].node),
        members_supported(members, i),
    decreases k,
{
    if i < k - 1 {
        lemma_members_supported(members, k - 1, i);
    } else if i > 0 {
        lemma_members_supported(members, k - 1, i - 1);
    }
}

/// The entry that records a member has the member's name.
pub proof fn lemma_member_entry_name(member: Member)
    ensures
        member_entry(member) matches Some(e) ==> e.name == member.name@,
{
}

/// Whether one of the first `k` of `members` has the name `name`.
pub open spec fn is_name_among(members: Seq<Member>, k: int, name: Seq<u8>) -> bool {
    exists|q: int| 0 <= q < k && #[trigger] member_names(members)[q] == name
}

/// Every listed entry has the name of one of the members it was listed from.
pub proof fn lemma_listed_entry_names(members: Seq<Member>, k: int)
    requires
        0 <= k <= members.len(),
    ensures
        forall|p: int|
            0 <= p < listed_entries(members, k).len() ==> is_name_among(
                members,
                k,
                (#[trigger] listed_entries(members, k)[p]).name,
            ),
        listed_entries(members, k).len() <= k,
    decreases k,
{
    if k > 0 {
        lemma_listed_entry_names(members, k - 1);
        let before = listed_entries(members, k - 1);
        let now = listed_entries(members, k);
        assert forall|p: int| 0 <= p < now.len() implies is_name_among(
            members,
            k,
            (#[trigger] now[p]).name,
        ) by {
            if p < before.len() {
                assert(now[p] == before[p]);
                assert(is_name_among(members, k - 1, before[p].name));
                let q = choose|q: int|
                    0 <= q < k - 1 && #[trigger] member_names(members)[q] == before[p].name;
                assert(0 <= q < k && member_names(members)[q] == now[p].name);
            } else {
                lemma_member_entry_name(members[k - 1]);
                assert(now[p] == member_entry(members[k - 1])->0);
                assert(member_names(members)[k - 1] == now[p].name);
            }
        }
    }
}

/// Members with different names give entries with different names.
pub proof fn lemma_listed_entries_distinct(members: Seq<Member>, k: int)
    requires
        0 <= k <= members.len(),
        member_names(members).no_duplicates(),
    ensures
        entry_names(listed_entries(members, k)).no_duplicates(),
    decreases k,
{
    if k > 0 {
        lemma_listed_entries_distinct(members, k - 1);
        lemma_listed_entry_names(members, k - 1);
        let before = listed_entries(members, k - 1);
        let now = listed_entries(members, k);
        if now.len() > before.len() {
            let names = entry_names(now);
            assert forall|i: int, j: int|
                0 <= i < names.len() && 0 <= j < names.len() && i != j implies names[i]
                != names[j] by {
                let last = names.len() - 1;
                if i < last && j < last {
                    assert(entry_names(before)[i] != entry_names(before)[j]);
                } else {
                    let other = if i < last { i } else { j };
                    lemma_member_entry_name(members[k - 1]);
                    assert(now[last] == member_entry(members[k - 1])->0);
                    assert(names[last] == member_names(members)[k - 1]);
                    assert(now[other] == before[other]);
                    assert(is_name_among(members, k - 1, before[other].name));
                    let q = choose|q: int|
                        0 <= q < k - 1 && #[trigger] member_names(members)[q] == before[other].name;
                    assert(member_names(members)[q] != member_names(members)[k - 1]);
                }
            }
        }
    }
}

/// The entries of a well-formed directory stand in its tree in strictly
/// ascending order, each entry once.
pub proof fn lemma_tree_entries_ascending(dir: Directory)
    requires
        dir.wf(),
    ensures
        is_canonical_order_of(
            canonical_order(listed_entries(dir.members@, dir.members@.len() as int)),
            listed_entries(dir.members@, dir.members@.len() as int),
        ),
        ascending(canonical_order(listed_entries(dir.members@, dir.members@.len() as int))),
{
    let listed = listed_entries(dir.members@, dir.members@.len() as int);
    lemma_listed_entries_distinct(dir.members@, dir.members@.len() as int);
    lemma_canonical_order_exists(listed);
}

/// The order in which members are listed does not matter: two well-formed
/// directories whose members are recorded by the same entries, in whatever
/// order, get the same tree payload and the same digest.
pub proof fn lemma_tree_id_ignores_listing_order(a: Directory, b: Directory)
    requires
        a.wf(),
        b.wf(),
        listed_entries(a.members@, a.members@.len() as int).to_multiset() == listed_entries(
            b.members@,
            b.members@.len() as int,
        ).to_multiset(),
    ensures
        directory_payload(a) == directory_payload(b),
        tree_id(a) == tree_id(b),
{
    let la = listed_entries(a.members@, a.members@.len() as int);
    let lb = listed_entries(b.members@, b.members@.len() as int);
    lemma_tree_entries_ascending(a);
    lemma_tree_entries_ascending(b);
    lemma_canonical_order_unique(canonical_order(la), canonical_order(lb));
    vstd::seq_lib::to_multiset_len(la);
    vstd::seq_lib::to_multiset_len(lb);
}

/// Whether two nodes hold the same: files of the same mode and content,
/// symlinks of the same content, directories with the same members, or two
/// nodes of no supported type.
pub open spec fn same_node(x: Node, y: Node) -> bool
    decreases x,
{
    match x {
        Node::File { permissions, content } => y is File && file_mode(permissions) == file_mode(
            y->File_permissions,
        ) && content@ == y->File_content@,
        Node::Symlink { content } => y is Symlink && content@ == y->Symlink_content@,
        Node::Directory(dir) => y is Directory && same_members(dir, y->Directory_0),
        Node::Other => y is Other,
    }
}

/// Whether two members have the same name and hold the same.
pub open spec fn same_member(m: Member, n: Member) -> bool
    decreases m,
{
    m.name@ == n.name@ && same_node(m.node, n.node)
}

/// The member at position `i`.
pub open spec fn member_at(members: Seq<Member>, i: int) -> Member {
    members[i]
}

/// Whether two directories have the same members, in whatever order they
/// are listed: each member of either has its like in the other.
pub open spec fn same_members(a: Directory, b: Directory) -> bool
    decreases a,
{
    &&& forall|i: int|
        0 <= i < a.members@.len() ==> exists|j: int|
            0 <= j < b.members@.len() && same_member(
                #[trigger] member_at(a.members@, i),
                #[trigger] b.members@[j],
            )
    &&& forall|j: int|
        0 <= j < b.members@.len() ==> exists|i: int|
            0 <= i < a.members@.len() && same_member(
                #[trigger] a.members@[i],
                #[trigger] member_at(b.members@, j),
            )
}

/// An entry is listed exactly where it records one of the members.
pub proof fn lemma_listed_contains(members: Seq<Member>, k: int, e: TreeEntryView)
    requires
        0 <= k <= members.len(),
    ensures
        listed_entries(members, k).contains(e) <==> exists|i: int|
            0 <= i < k && #[trigger] member_entry(members[i]) == Some(e),
    decreases k,
{
    if k > 0 {
        lemma_listed_contains(members, k - 1, e);
        let before = listed_entries(members, k - 1);
        let now = listed_entries(members, k);
        if now.contains(e) {
            let p = choose|p: int| 0 <= p < now.len() && now[p] == e;
            if p < before.len() {
                assert(before[p] == e);
                assert(before.contains(e));
            } else {
                assert(member_entry(members[k - 1]) == Some(e));
            }
        }
        if exists|i: int| 0 <= i < k && #[trigger] member_entry(members[i]) == Some(e) {
            let i = choose|i: int| 0 <= i < k && #[trigger] member_entry(members[i]) == Some(e);
            if i < k - 1 {
                assert(before.contains(e));
                let p = choose|p: int| 0 <= p < before.len() && before[p] == e;
                assert(now[p] == e);
            } else {
                assert(now[now.len() - 1] == e);
            }
        }
    }
}

/// Members that hold the same are recorded by the same entry.
pub proof fn lemma_same_member_same_entry(m: Member, n: Member)
    requires
        same_member(m, n),
        node_wf(m.node),
        node_wf(n.node),
    ensures
        member_entry(m) == member_entry(n),
    decreases m,
{
    match m.node {
        Node::Directory(dir) => {
            lemma_same_members_same_tree(dir, n.node->Directory_0);
        },
        _ => {},
    }
}

/// Each member of either of two directories with the same members has its
/// like in the other.
pub proof fn lemma_like_member(a: Directory, b: Directory, i: int, j: int) -> (like: (int, int))
    requires
        same_members(a, b),
    ensures
        0 <= i < a.members@.len() ==> 0 <= like.0 < b.members@.len() && same_member(
            a.members@[i],
            b.members@[like.0],
        ),
        0 <= j < b.members@.len() ==> 0 <= like.1 < a.members@.len() && same_member(
            a.members@[like.1],
            b.members@[j],
        ),
{
    let first = if 0 <= i < a.members@.len() {
        let m = member_at(a.members@, i);
        choose|q: int| 0 <= q < b.members@.len() && same_member(m, #[trigger] b.members@[q])
    } else {
        0
    };
    let second = if 0 <= j < b.members@.len() {
        let n = member_at(b.members@, j);
        choose|p: int| 0 <= p < a.members@.len() && same_member(#[trigger] a.members@[p], n)
    } else {
        0
    };
    (first, second)
}

/// Sequences without repetition that hold the same elements hold each as
/// often.
pub proof fn lemma_same_elements_same_multiset(x: Seq<TreeEntryView>, y: Seq<TreeEntryView>)
    requires
        x.no_duplicates(),
        y.no_duplicates(),
        forall|e: TreeEntryView| x.contains(e) <==> y.contains(e),
    ensures
        x.to_multiset() == y.to_multiset(),
{
    x.lemma_multiset_has_no_duplicates();
    y.lemma_multiset_has_no_duplicates();
    assert forall|e: TreeEntryView| x.to_multiset().count(e) == y.to_multiset().count(e) by {
        vstd::seq_lib::to_multiset_contains(x, e);
        vstd::seq_lib::to_multiset_contains(y, e);
    }
    assert(x.to_multiset() =~= y.to_multiset());
}

/// Entries with different names are different entries.
pub proof fn lemma_distinct_names_distinct_entries(x: Seq<TreeEntryView>)
    requires
        entry_names(x).no_duplicates(),
    ensures
        x.no_duplicates(),
{
    assert forall|p: int, q: int| 0 <= p < x.len() && 0 <= q < x.len() && p != q implies x[p]
        != x[q] by {
        assert(entry_names(x)[p] != entry_names(x)[q]);
    }
}

/// What one of two directories with the same members lists, the other lists.
proof fn lemma_listed_in_both(a: Directory, b: Directory, e: TreeEntryView)
    requires
        a.wf(),
        b.wf(),
        same_members(a, b),
    ensures
        listed_entries(a.members@, a.members@.len() as int).contains(e) <==> listed_entries(
            b.members@,
            b.members@.len() as int,
        ).contains(e),
    decreases a, 0int,
{
    let ma = a.members@;
    let mb = b.members@;
    lemma_listed_contains(ma, ma.len() as int, e);
    lemma_listed_contains(mb, mb.len() as int, e);
    if listed_entries(ma, ma.len() as int).contains(e) {
        let i = choose|i: int| 0 <= i < ma.len() && #[trigger] member_entry(ma[i]) == Some(e);
        let j = lemma_like_member(a, b, i, 0).0;
        lemma_members_wf(ma, ma.len() as int, i);
        lemma_members_wf(mb, mb.len() as int, j);
        lemma_same_member_same_entry(ma[i], mb[j]);
        assert(member_entry(mb[j]) == Some(e));
    }
    if listed_entries(mb, mb.len() as int).contains(e) {
        let j = choose|j: int| 0 <= j < mb.len() && #[trigger] member_entry(mb[j]) == Some(e);
        let i = lemma_like_member(a, b, 0, j).1;
        lemma_members_wf(ma, ma.len() as int, i);
        lemma_members_wf(mb, mb.len() as int, j);
        lemma_same_member_same_entry(ma[i], mb[j]);
        assert(member_entry(ma[i]) == Some(e));
    }
}

/// Directories with the same members are recorded by the same entries,
/// whatever the order in which each lists them.
pub proof fn lemma_same_members_same_entries(a: Directory, b: Directory)
    requires
        a.wf(),
        b.wf(),
        same_members(a, b),
    ensures
        listed_entries(a.members@, a.members@.len() as int).to_multiset() == listed_entries(
            b.members@,
            b.members@.len() as int,
        ).to_multiset(),
    decreases a, 1int,
{
    let la = listed_entries(a.members@, a.members@.len() as int);
    let lb = listed_entries(b.members@, b.members@.len() as int);
    lemma_listed_entries_distinct(a.members@, a.members@.len() as int);
    lemma_listed_entries_distinct(b.members@, b.members@.len() as int);
    lemma_distinct_names_distinct_entries(la);
    lemma_distinct_names_distinct_entries(lb);
    assert forall|e: TreeEntryView| la.contains(e) <==> lb.contains(e) by {
        lemma_listed_in_both(a, b, e);
    }
    lemma_same_elements_same_multiset(la, lb);
}

/// The digest of a tree depends on what the directory holds, not on the
/// order in which its members, or those of any directory below it, are
/// listed: two well-formed directories with the same members get the same
/// tree, or both get none.
pub proof fn lemma_same_members_same_tree(a: Directory, b: Directory)
    requires
        a.wf(),
        b.wf(),
        same_members(a, b),
    ensures
        tree_id(a) == tree_id(b),
        directory_payload(a) == directory_payload(b),
    decreases a, 2int,
{
    lemma_same_members_same_entries(a, b);
    lemma_tree_id_ignores_listing_order(a, b);
}

impl Node {
    /// Tells whether the node can be recorded.
    pub fn is_supported(&self) -> (res: bool)
        ensures
            res == node_supported(*self),
        decreases self,
    {
        match self {
            Node::Directory(dir) => dir.is_supported(),
            Node::Other => false,
            _ => true,
        }
    }
}

impl Directory {
    /// Tells whether the directory can be recorded: whether nothing in it,
    /// outside what is skipped, is of an unsupported type.
    pub fn is_supported(&self) -> (res: bool)
        ensures
            res == directory_supported(*self),
        decreases self,
    {
        let mut i: usize = 0;
        while i < self.members.len()
            invariant
                i <= self.members.len(),
                members_supported(self.members@, i as int),
            decreases self.members.len() - i,
        {
            let member = &self.members[i];
            if !is_metadata_name(member.name.as_slice()) && !member.node.is_supported() {
                proof {
                    if directory_supported(*self) {
                        lemma_members_supported(
                            self.members@,
                            self.members@.len() as int,
                            i as int,
                        );
                    }
                }
                return false;
            }
            i += 1;
        }
        true
    }
}

/// Writes the objects of a directory that can be recorded, and returns the
/// digest of its tree, if it has one.
fn build_tree(dir: &Directory, store: &mut ObjectStore) -> (id: Option<[u8; 20]>)
    requires
        old(store).wf(),
        dir.wf(),
        directory_supported(*dir),
    ensures
        final(store).wf(),
        match id {
            Some(d) => tree_id(*dir) == Some(d@),
            None => tree_id(*dir) is None,
        },
        final(store)@ == stored_tree(old(store)@, *dir),
        tree_reads_back(*dir),
    decreases dir,
{
    let ghost start = store@;
    let ghost members = dir.members@;
    let mut entries: Vec<TreeEntry> = Vec::new();
    let mut i: usize = 0;
    assert(entry_views(entries@) =~= listed_entries(members, 0));
    while i < dir.members.len()
        invariant
            i <= dir.members.len(),
            members == dir.members@,
            dir.wf(),
            directory_supported(*dir),
            store.wf(),
            entry_views(entries@) == listed_entries(members, i as int),
            store@ == stored_members(start, members, i as int),
            members_read_back(members, i as int),
        decreases dir.members.len() - i,
    {
        let member = &dir.members[i];
        proof {
            lemma_members_wf(members, members.len() as int, i as int);
            lemma_members_supported(members, members.len() as int, i as int);
        }
        let ghost before = entry_views(entries@);
        let ghost held = store@;
        if !is_metadata_name(member.name.as_slice()) {
            let found: Option<(FileMode, [u8; 20])> = match &member.node {
                Node::File { permissions, content } => {
                    let id = write_blob(store, content.as_slice());
                    Some((mode_of_permissions(*permissions), id))
                },
                Node::Symlink { content } => {
                    let id = write_blob(store, content.as_slice());
                    Some((FileMode::Symlink, id))
                },
                Node::Directory(sub) => {
                    match build_tree(sub, store) {
                        Some(id) => Some((FileMode::Directory, id)),
                        None => None,
                    }
                },
                Node::Other => None,
            };
            match found {
                Some((mode, hash)) => {
                    let entry = TreeEntry {
                        mode,
                        name: bytes::to_vec(member.name.as_slice()),
                        hash,
                    };
                    entries.push(entry);
                    assert(entry_views(entries@) =~= before.push(entry@));
                    assert(member_entry(*member) == Some(entry@));
                },
                None => {
                    assert(member_entry(*member) is None);
                },
            }
            assert(store@ == stored_member(held, *member));
            assert(member_reads_back(*member));
        } else {
            assert(member_entry(*member) is None);
            assert(store@ == stored_member(held, *member));
            assert(member_reads_back(*member));
        }
        i += 1;
    }
    let ghost listed = entry_views(entries@);
    if entries.len() == 0 {
        return None;
    }
    proof {
        lemma_listed_entries_distinct(members, members.len() as int);
    }
    let sorted = sort_entries(entries);
    proof {
        let chosen = canonical_order(listed);
        assert(is_canonical_order_of(entry_views(sorted@), listed));
        lemma_canonical_order_unique(entry_views(sorted@), chosen);
    }
    let payload = encode_tree(&sorted);
    let id = store.write(ObjectKind::Tree, payload.as_slice(), true);
    Some(id)
}

/// Records a directory: writes a blob for every file and symlink in it and a
/// tree for every directory with something to record, bottom-up, and returns
/// the digest of the directory's own tree. A directory with nothing to
/// record gets no tree, and `None` is returned. Where anything that would be
/// recorded is of an unsupported type, nothing is written at all. Every
/// object that is written reads back as what it was made from.
pub fn write_tree(dir: &Directory, store: &mut ObjectStore) -> (res: Result<
    Option<[u8; 20]>,
    Error,
>)
    requires
        old(store).wf(),
        dir.wf(),
    ensures
        final(store).wf(),
        match res {
            Ok(Some(id)) => directory_supported(*dir) && tree_id(*dir) == Some(id@),
            Ok(None) => directory_supported(*dir) && tree_id(*dir) is None,
            Err(e) => e == Error::UnsupportedFileType && !directory_supported(*dir),
        },
        final(store)@ == if directory_supported(*dir) {
            stored_tree(old(store)@, *dir)
        } else {
            old(store)@
        },
        directory_supported(*dir) ==> tree_reads_back(*dir),
        dir.members@.len() == 0 ==> res == Ok::<Option<[u8; 20]>, Error>(None) && final(store)@
            == old(store)@,
{
    if !dir.is_supported() {
        return Err(Error::UnsupportedFileType);
    }
    Ok(build_tree(dir, store))
}

/// The query for the author's name: `user.name`.
pub open spec fn name_query() -> Seq<u8> {
    seq![117u8, 115, 101, 114, 46, 110, 97, 109, 101]
}

/// The query for the author's email address: `user.email`.
pub open spec fn email_query() -> Seq<u8> {
    seq![117u8, 115, 101, 114, 46, 101, 109, 97, 105, 108]
}

/// Why no commit can be made with a configuration, if none can: it names
/// no author, or gives no email address for the author.
pub open spec fn commit_failure(config: ConfigMap) -> Option<Error> {
    if lookup(config, name_query()) is None {
        Some(Error::MissingAuthorName)
    } else if lookup(config, email_query()) is None {
        Some(Error::MissingAuthorEmail)
    } else {
        None
    }
}

/// The payload of the commit that is made, at a given time, with the
/// author that a configuration names.
pub open spec fn commit_text(
    config: ConfigMap,
    tree_hash: Seq<u8>,
    parent: Option<Seq<u8>>,
    message: Seq<u8>,
    timestamp: int,
    offset: int,
) -> Seq<u8> {
    commit_payload(
        tree_hash,
        parent,
        lookup(config, name_query())->0,
        lookup(config, email_query())->0,
        timestamp,
        offset,
        message,
    )
}

/// The bytes of an optional string.
pub open spec fn optional_bytes(text: Option<String>) -> Option<Seq<u8>> {
    match text {
        Some(t) => Some(encode_utf8(t@)),
        None => None,
    }
}

/// Makes and stores a commit as of a given time: `timestamp` seconds since
/// the epoch, in a zone `offset` seconds ahead of UTC. The author is the one
/// that the configuration names; without a name or an email address there,
/// nothing is stored.
pub fn write_commit_at(
    store: &mut ObjectStore,
    config: &Config,
    tree_hash: &[u8],
    parent: Option<&[u8]>,
    message: &[u8],
    timestamp: i64,
    offset: i32,
) -> (res: Result<[u8; 20], Error>)
    requires
        old(store).wf(),
    ensures
        final(store).wf(),
        match res {
            Ok(id) => {
                let text = commit_text(
                    config@,
                    tree_hash@,
                    match parent {
                        Some(p) => Some(p@),
                        None => None,
                    },
                    message@,
                    timestamp as int,
                    offset as int,
                );
                &&& commit_failure(config@) is None
                &&& id@ == object_id(ObjectKind::Commit, text)
                &&& final(store)@ == with_record(old(store)@, record_of(ObjectKind::Commit, text))
                &&& reads_back(ObjectKind::Commit, text)
            },
            Err(e) => commit_failure(config@) == Some(e) && final(store)@ == old(store)@,
        },
{
    let name_key: [u8; 9] = [117, 115, 101, 114, 46, 110, 97, 109, 101];
    let email_key: [u8; 10] = [117, 115, 101, 114, 46, 101, 109, 97, 105, 108];
    assert(name_key@ =~= name_query());
    assert(email_key@ =~= email_query());
    let name = match config.get_bytes(name_key.as_slice()) {
        Some(name) => name,
        None => {
            return Err(Error::MissingAuthorName);
        },
    };
    let email = match config.get_bytes(email_key.as_slice()) {
        Some(email) => email,
        None => {
            return Err(Error::MissingAuthorEmail);
        },
    };
    let payload = encode_commit(
        tree_hash,
        parent,
        name.as_slice(),
        email.as_slice(),
        timestamp,
        offset,
        message,
    );
    Ok(store.write(ObjectKind::Commit, payload.as_slice(), true))
}

/// Whether `id` and `after` are what storing a commit into `before` gives,
/// for the commit made at the given time, and what is stored reads back as
/// that commit.
pub open spec fn is_commit_made_at(
    config: ConfigMap,
    tree_hash: Seq<u8>,
    parent: Option<Seq<u8>>,
    message: Seq<u8>,
    timestamp: i64,
    offset: i32,
    id: Seq<u8>,
    before: Seq<ObjectRecord>,
    after: Seq<ObjectRecord>,
) -> bool {
    let text = commit_text(config, tree_hash, parent, message, timestamp as int, offset as int);
    &&& id == object_id(ObjectKind::Commit, text)
    &&& after == with_record(before, record_of(ObjectKind::Commit, text))
    &&& reads_back(ObjectKind::Commit, text)
}

/// Makes and stores a commit as of now, by the local clock, and returns its
/// digest. It records the tree and the parent as they are given, without
/// looking at them. Whatever the clock says, the commit is the one that
/// `write_commit_at` makes for that time.
pub fn write_commit(
    store: &mut ObjectStore,
    config: &Config,
    tree_hash: String,
    parent: Option<String>,
    message: String,
) -> (res: Result<[u8; 20], Error>)
    requires
        old(store).wf(),
    ensures
        final(store).wf(),
        match res {
            Ok(id) => commit_failure(config@) is None && exists|timestamp: i64, offset: i32|
                #[trigger] is_commit_made_at(
                    config@,
                    encode_utf8(tree_hash@),
                    optional_bytes(parent),
                    encode_utf8(message@),
                    timestamp,
                    offset,
                    id@,
                    old(store)@,
                    final(store)@,
                ),
            Err(e) => commit_failure(config@) == Some(e) && final(store)@ == old(store)@,
        },
{
    let (timestamp, offset) = local_now();
    let parent_bytes: Option<&[u8]> = match &parent {
        Some(p) => Some(p.as_str().as_bytes()),
        None => None,
    };
    let res = write_commit_at(
        store,
        config,
        tree_hash.as_str().as_bytes(),
        parent_bytes,
        message.as_str().as_bytes(),
        timestamp,
        offset,
    );
    proof {
        if res is Ok {
            assert(is_commit_made_at(
                config@,
                encode_utf8(tree_hash@),
                optional_bytes(parent),
                encode_utf8(message@),
                timestamp,
                offset,
                res->Ok_0@,
                old(store)@,
                store@,
            ));
        }
    }
    res
}

} // verus!
