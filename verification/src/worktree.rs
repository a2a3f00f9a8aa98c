//! A directory tree as it is handed to the tree builder: names, kinds,
//! permission bits and file contents, already read from wherever they live.

use vstd::prelude::*;
use crate::bytes;

verus! {

/// What a member of a directory is.
#[derive(Debug)]
pub enum Node {
    /// A regular file, with its permission bits and its content.
    File { permissions: u32, content: Vec<u8> },
    /// A symbolic link, with the bytes that are stored for it.
    Symlink { content: Vec<u8> },
    /// A subdirectory.
    Directory(Directory),
    /// Anything else: a device, a socket, a pipe.
    Other,
}

/// A member of a directory: its base name and what it is.
#[derive(Debug)]
pub struct Member {
    pub name: Vec<u8>,
    pub node: Node,
}

/// The direct members of a directory, in the order they were listed.
#[derive(Debug)]
pub struct Directory {
    pub members: Vec<Member>,
}

/// Whether `name` can be the base name of a directory member: not empty,
/// and with no path separator and no NUL in it.
pub open spec fn is_base_name(name: Seq<u8>) -> bool {
    name.len() > 0 && forall|i: int| 0 <= i < name.len() ==> (#[trigger] name[i]) != 47 && name[i] != 0
}

/// The names of a sequence of members.
pub open spec fn member_names(members: Seq<Member>) -> Seq<Seq<u8>> {
    members.map_values(|m: Member| m.name@)
}

/// Whether a node is well formed: every directory in it is.
pub open spec fn node_wf(node: Node) -> bool
    decreases node,
{
    match node {
        Node::Directory(dir) => directory_wf(dir),
        _ => true,
    }
}

/// Whether the first `k` of `members` are well formed: each has a base name
/// and a well-formed node.
pub open spec fn members_wf(members: Seq<Member>, k: int) -> bool
    decreases members, k,
{
    if k <= 0 || k > members.len() {
        true
    } else {
        members_wf(members, k - 1) && is_base_name(members[k - 1].name@) && node_wf(
            members[k - 1].node,
        )
    }
}

/// Whether a directory is well formed: its members have base names, no two
/// the same, and every directory below it is well formed too.
pub open spec fn directory_wf(dir: Directory) -> bool
    decreases dir,
{
    member_names(dir.members@).no_duplicates() && members_wf(
        dir.members@,
        dir.members@.len() as int,
    )
}

/// What well-formedness says of each single member.
pub proof fn lemma_members_wf(members: Seq<Member>, k: int, i: int)
    requires
        members_wf(members, k),
        0 <= i < k <= members.len(),
    ensures
        is_base_name(members[i].name@),
        node_wf(members[i].node),
        members_wf(members, i),
        members_wf(members, i + 1),
    decreases k,
{
    if i < k - 1 {
        lemma_members_wf(members, k - 1, i);
    } else if i > 0 {
        lemma_members_wf(members, k - 1, i - 1);
    }
}

/// Tells whether `name` can be the base name of a directory member.
pub fn check_base_name(name: &[u8]) -> (res: bool)
    ensures
        res == is_base_name(name@),
{
    if name.len() == 0 {
        return false;
    }
    let mut i: usize = 0;
    while i < name.len()
        invariant
            i <= name.len(),
            forall|j: int| 0 <= j < i ==> (#[trigger] name@[j]) != 47 && name@[j] != 0,
        decreases name.len() - i,
    {
        if name[i] == 47 || name[i] == 0 {
            return false;
        }
        i += 1;
    }
    true
}

impl Node {
    /// Tells whether the node is well formed.
    pub fn validate(&self) -> (res: bool)
        ensures
            res == node_wf(*self),
        decreases self,
    {
        match self {
            Node::Directory(dir) => dir.validate(),
            _ => true,
        }
    }
}

impl Directory {
    /// Whether the directory is well formed.
    pub open spec fn wf(&self) -> bool {
        directory_wf(*self)
    }

    /// A directory without members.
    pub fn new() -> (dir: Directory)
        ensures
            dir.wf(),
            dir.members@.len() == 0,
    {
        Directory { members: Vec::new() }
    }

    /// Tells whether a member of this directory has the name `name`.
    pub fn has_member(&self, name: &[u8]) -> (res: bool)
        ensures
            res == member_names(self.members@).contains(name@),
    {
        let mut i: usize = 0;
        while i < self.members.len()
            invariant
                i <= self.members.len(),
                forall|j: int| 0 <= j < i ==> (#[trigger] member_names(self.members@)[j]) != name@,
            decreases self.members.len() - i,
        {
            if bytes::equal(self.members[i].name.as_slice(), name) {
                assert(member_names(self.members@)[i as int] == name@);
                return true;
            }
            i += 1;
        }
        false
    }

    /// Adds a member at the end, if its name is a base name that no member
    /// has yet; else leaves the directory as it is. Returns whether it was
    /// added.
    pub fn add(&mut self, name: Vec<u8>, node: Node) -> (added: bool)
        requires
            old(self).wf(),
            node_wf(node),
        ensures
            final(self).wf(),
            added == (is_base_name(name@) && !member_names(old(self).members@).contains(name@)),
            final(self).members@ == if added {
                old(self).members@.push(Member { name, node })
            } else {
                old(self).members@
            },
    {
        if !check_base_name(name.as_slice()) || self.has_member(name.as_slice()) {
            return false;
        }
        let ghost before = self.members@;
        let member = Member { name, node };
        self.members.push(member);
        proof {
            let after = self.members@;
            assert(after == before.push(member));
            assert(member_names(after) =~= member_names(before).push(member.name@));
            lemma_members_wf_unchanged(before, after, before.len() as int);
        }
        true
    }

    /// Tells whether the directory is well formed.
    pub fn validate(&self) -> (res: bool)
        ensures
            res == self.wf(),
        decreases self,
    {
        let mut i: usize = 0;
        while i < self.members.len()
            invariant
                i <= self.members.len(),
                members_wf(self.members@, i as int),
                member_names(self.members@.take(i as int)).no_duplicates(),
            decreases self.members.len() - i,
        {
            let member = &self.members[i];
            if !check_base_name(member.name.as_slice()) || !member.node.validate() {
                proof {
                    if members_wf(self.members@, self.members@.len() as int) {
                        lemma_members_wf(self.members@, self.members@.len() as int, i as int);
                    }
                }
                return false;
            }
            let mut j: usize = 0;
            while j < i
                invariant
                    j <= i,
                    i < self.members.len(),
                    member == &self.members[i as int],
                    forall|k: int| 0 <= k < j ==> self.members@[k].name@ != member.name@,
                decreases i - j,
            {
                if bytes::equal(self.members[j].name.as_slice(), member.name.as_slice()) {
                    proof {
                        let names = member_names(self.members@);
                        assert(names[j as int] == names[i as int]);
                    }
                    return false;
                }
                j += 1;
            }
            proof {
                let before = member_names(self.members@.take(i as int));
                let after = member_names(self.members@.take(i + 1));
                assert(after =~= before.push(member.name@));
                assert forall|p: int, q: int|
                    0 <= p < after.len() && 0 <= q < after.len() && p != q implies after[p]
                    != after[q] by {
                    if p < i && q < i {
                        assert(before[p] != before[q]);
                    }
                }
            }
            i += 1;
        }
        assert(self.members@.take(i as int) =~= self.members@);
        true
    }
}

/// Well-formedness of the first members does not depend on what follows them.
pub proof fn lemma_members_wf_unchanged(a: Seq<Member>, b: Seq<Member>, k: int)
    requires
        0 <= k <= a.len(),
        k <= b.len(),
        forall|i: int| 0 <= i < k ==> a[i] == b[i],
    ensures
        members_wf(a, k) == members_wf(b, k),
    decreases k,
{
    if k > 0 {
        lemma_members_wf_unchanged(a, b, k - 1);
    }
}

} // verus!
