//! Reading objects: the header, and the payload as a bounded forward stream
//! that shows a tree as a text listing.

use vstd::prelude::*;
use crate::bytes;
use crate::error::Error;
use crate::object::{parsed_header, ObjectKind, NUL, SPACE};
use crate::decimal::parse_decimal_field;
use crate::tree::{
    decode_first_entry, first_entry, listing, listing_line, parsed_tree, TreeEntryView,
};

verus! {

/// How an object is to be shown.
#[derive(Debug, Clone, Copy, PartialEq, Eq, Structural)]
pub struct ReadOptions {
    /// Show only the name of each entry of a tree.
    pub tree_name_only: bool,
}

/// Whether the options ask for names only; without options they do not.
pub open spec fn wants_names_only(opt: Option<&ReadOptions>) -> bool {
    match opt {
        Some(o) => o.tree_name_only,
        None => false,
    }
}

/// Reads the header at the start of `bytes`: the kind, the declared size, and
/// where the payload starts.
pub fn parse_header(bytes: &[u8]) -> (res: Result<(ObjectKind, u64, usize), Error>)
    ensures
        match res {
            Ok((kind, size, start)) => parsed_header(bytes@) == Some((kind, size, start as int))
                && 0 < start <= bytes@.len(),
            Err(e) => e == Error::MalformedObject && parsed_header(bytes@) is None,
        },
{
    proof {
        bytes::lemma_first_index_of(bytes@, 0);
    }
    let end = match bytes::find(bytes, NUL) {
        Some(end) => end,
        None => {
            return Err(Error::MalformedObject);
        },
    };
    let total = bytes.len();
    assert(end < total);
    let head = bytes::slice_subrange(bytes, 0, end);
    proof {
        bytes::lemma_first_index_of(head@, 32);
    }
    let sp = match bytes::find(head, SPACE) {
        Some(sp) => sp,
        None => {
            return Err(Error::MalformedObject);
        },
    };
    let name = bytes::slice_subrange(head, 0, sp);
    let digits = bytes::slice_subrange(head, sp + 1, end);
    assert(name@ =~= bytes@.take(sp as int));
    assert(digits@ =~= bytes@.subrange(sp + 1, end as int));
    match (ObjectKind::from_name(name), parse_decimal_field(digits)) {
        (Some(kind), Some(size)) => Ok((kind, size, end + 1)),
        _ => Err(Error::MalformedObject),
    }
}

/// What an object's payload is shown as: a blob or a commit as it is, a tree
/// as its listing. `None` where a tree's payload is malformed.
pub open spec fn rendered(kind: ObjectKind, payload: Seq<u8>, name_only: bool) -> Option<Seq<u8>> {
    match kind {
        ObjectKind::Tree => match parsed_tree(payload) {
            Some(entries) => Some(listing(entries, name_only)),
            None => None,
        },
        _ => Some(payload),
    }
}

/// Shows a whole tree payload as a listing, one line for each entry.
pub fn read_tree(source: &[u8], opt: Option<&ReadOptions>) -> (res: Result<Vec<u8>, Error>)
    ensures
        match res {
            Ok(out) => rendered(ObjectKind::Tree, source@, wants_names_only(opt)) == Some(out@),
            Err(e) => e == Error::MalformedObject && parsed_tree(source@) is None,
        },
{
    let name_only = match opt {
        Some(o) => o.tree_name_only,
        None => false,
    };
    let mut out: Vec<u8> = Vec::new();
    let mut pos: usize = 0;
    assert(source@.skip(0) =~= source@);
    while pos < source.len()
        invariant
            pos <= source.len(),
            name_only == wants_names_only(opt),
            rendered(ObjectKind::Tree, source@, name_only) == match rendered(
                ObjectKind::Tree,
                source@.skip(pos as int),
                name_only,
            ) {
                Some(rest) => Some(out@ + rest),
                None => None,
            },
        decreases source.len() - pos,
    {
        let rest = bytes::slice_subrange(source, pos, source.len());
        assert(rest@ =~= source@.skip(pos as int));
        let (entry, used) = match decode_first_entry(rest) {
            Ok(found) => found,
            Err(e) => {
                return Err(e);
            },
        };
        let line = entry.to_line(name_only);
        proof {
            lemma_rendered_tree_step(rest@, name_only);
            assert(rest@.skip(used as int) =~= source@.skip(pos + used));
            match rendered(ObjectKind::Tree, rest@.skip(used as int), name_only) {
                Some(tail) => {
                    assert(out@ + (line@ + tail) =~= (out@ + line@) + tail);
                },
                None => {},
            }
        }
        bytes::append(&mut out, line.as_slice());
        pos = pos + used;
    }
    proof {
        assert(source@.skip(pos as int) =~= Seq::<u8>::empty());
        assert(listing(Seq::<TreeEntryView>::empty(), name_only) =~= Seq::<u8>::empty());
        assert(out@ + Seq::<u8>::empty() =~= out@);
    }
    Ok(out)
}

/// A tree payload that is not empty is shown as the line of its first entry,
/// then what the rest is shown as.
pub proof fn lemma_rendered_tree_step(payload: Seq<u8>, name_only: bool)
    requires
        payload.len() > 0,
    ensures
        rendered(ObjectKind::Tree, payload, name_only) == match first_entry(payload) {
            Some((e, used)) => if 0 < used <= payload.len() {
                match rendered(ObjectKind::Tree, payload.skip(used), name_only) {
                    Some(rest) => Some(listing_line(e, name_only) + rest),
                    None => None,
                }
            } else {
                None
            },
            None => None,
        },
{
    match first_entry(payload) {
        Some((e, used)) => {
            if 0 < used <= payload.len() {
                match parsed_tree(payload.skip(used)) {
                    Some(rest) => {
                        let all = seq![e] + rest;
                        assert(all.first() == e);
                        assert(all.drop_first() =~= rest);
                    },
                    None => {},
                }
            }
        },
        None => {},
    }
}

/// The state of a reader: what it reads, what of the source it has not
/// consumed yet, what it has rendered but not handed out yet, and how many
/// bytes the source falls short of the declared size.
pub struct ReaderState {
    pub kind: ObjectKind,
    pub unread: Seq<u8>,
    pub pending: Seq<u8>,
    pub name_only: bool,
    pub missing: nat,
}

/// Everything a reader in state `st` will still hand out, or `None` where it
/// will fail: on a malformed entry, or at the end of a source that falls
/// short of the declared size.
pub open spec fn remaining_output(st: ReaderState) -> Option<Seq<u8>> {
    if st.missing > 0 {
        None
    } else {
        match rendered(st.kind, st.unread, st.name_only) {
            Some(text) => Some(st.pending + text),
            None => None,
        }
    }
}

/// The first `max` elements of `s`, or all of it where it has fewer.
pub open spec fn at_most(s: Seq<u8>, max: int) -> Seq<u8> {
    if max < s.len() {
        s.take(max)
    } else {
        s
    }
}

/// What is left of `s` after its first `max` elements are taken.
pub open spec fn beyond(s: Seq<u8>, max: int) -> Seq<u8> {
    if max < s.len() {
        s.skip(max)
    } else {
        Seq::empty()
    }
}

/// One read of at most `max` bytes: what it hands out, or how it fails, and
/// the state it leaves. A read of no bytes hands out nothing and consumes
/// nothing. Else text that is pending goes out first. Else a blob or a commit
/// hands out the next bytes of its source, and a tree consumes one entry and
/// hands out the start of its line, keeping the rest pending. At the end of
/// the source a read hands out nothing where the declared size was reached,
/// and fails where the source fell short of it.
pub open spec fn read_step(st: ReaderState, max: int) -> (Result<Seq<u8>, Error>, ReaderState) {
    if max <= 0 {
        (Ok(Seq::empty()), st)
    } else if st.pending.len() > 0 {
        (
            Ok(at_most(st.pending, max)),
            ReaderState { pending: beyond(st.pending, max), ..st },
        )
    } else if st.unread.len() == 0 {
        if st.missing > 0 {
            (Err(Error::MalformedObject), st)
        } else {
            (Ok(Seq::empty()), st)
        }
    } else if st.kind == ObjectKind::Tree {
        match first_entry(st.unread) {
            Some((e, used)) => {
                let line = listing_line(e, st.name_only);
                (
                    Ok(at_most(line, max)),
                    ReaderState {
                        unread: st.unread.skip(used),
                        pending: beyond(line, max),
                        ..st
                    },
                )
            },
            None => (Err(Error::MalformedObject), st),
        }
    } else {
        (
            Ok(at_most(st.unread, max)),
            ReaderState { unread: beyond(st.unread, max), ..st },
        )
    }
}

/// A read hands out the start of what was still to come and leaves the rest
/// to come; it fails only where the whole could not be read to its end.
pub proof fn lemma_read_step(st: ReaderState, max: int)
    requires
        max >= 0,
    ensures
        match read_step(st, max).0 {
            Ok(chunk) => remaining_output(st) == match remaining_output(read_step(st, max).1) {
                Some(rest) => Some(chunk + rest),
                None => None,
            },
            Err(_) => remaining_output(st) is None,
        },
{
    let (res, next) = read_step(st, max);
    if max <= 0 {
        match remaining_output(st) {
            Some(rest) => {
                assert(Seq::<u8>::empty() + rest =~= rest);
            },
            None => {},
        }
    } else if st.pending.len() > 0 {
        assert(at_most(st.pending, max) + beyond(st.pending, max) =~= st.pending);
        match rendered(st.kind, st.unread, st.name_only) {
            Some(text) => {
                assert(at_most(st.pending, max) + (beyond(st.pending, max) + text) =~= st.pending
                    + text);
            },
            None => {},
        }
    } else if st.unread.len() == 0 {
        match remaining_output(st) {
            Some(rest) => {
                assert(Seq::<u8>::empty() + rest =~= rest);
            },
            None => {},
        }
    } else if st.kind == ObjectKind::Tree {
        lemma_rendered_tree_step(st.unread, st.name_only);
        match first_entry(st.unread) {
            Some((e, used)) => {
                let line = listing_line(e, st.name_only);
                assert(at_most(line, max) + beyond(line, max) =~= line);
                assert(st.pending + line =~= line);
                match rendered(st.kind, st.unread.skip(used), st.name_only) {
                    Some(text) => {
                        assert(at_most(line, max) + (beyond(line, max) + text) =~= line + text);
                        assert(st.pending + (line + text) =~= line + text);
                    },
                    None => {},
                }
            },
            None => {},
        }
    } else {
        assert(at_most(st.unread, max) + beyond(st.unread, max) =~= st.unread);
        assert(st.pending + st.unread =~= st.unread);
        assert(at_most(st.unread, max) + (st.pending + beyond(st.unread, max)) =~= st.unread);
    }
}

/// A forward reader over the payload of one object: bounded to the declared
/// size, and showing a tree as a listing, line by line.
pub struct GitObjectReader<'a> {
    kind: ObjectKind,
    source: Vec<u8>,
    position: usize,
    limit: usize,
    pending: Vec<u8>,
    handed: usize,
    missing: u64,
    opt: Option<&'a ReadOptions>,
}

impl<'a> View for GitObjectReader<'a> {
    type V = ReaderState;

    closed spec fn view(&self) -> ReaderState {
        ReaderState {
            kind: self.kind,
            unread: self.source@.subrange(self.position as int, self.limit as int),
            pending: self.pending@.skip(self.handed as int),
            name_only: wants_names_only(self.opt),
            missing: self.missing as nat,
        }
    }
}

impl<'a> GitObjectReader<'a> {
    /// What holds of every reader: its cursors lie within what they point into.
    pub closed spec fn wf(&self) -> bool {
        self.position <= self.limit <= self.source@.len() && self.handed <= self.pending@.len()
    }

    /// A reader over `source`, the bytes that follow an object's header, for
    /// an object whose header declares a payload of `size` bytes. It reads
    /// the first `size` bytes of the source and no more; where the source
    /// has fewer, it reads them and then fails.
    pub fn new(kind: ObjectKind, source: Vec<u8>, size: u64, opt: Option<&'a ReadOptions>) -> (reader:
        GitObjectReader<'a>)
        ensures
            reader.wf(),
            reader@ == (ReaderState {
                kind,
                unread: at_most(source@, size as int),
                pending: Seq::empty(),
                name_only: wants_names_only(opt),
                missing: if size > source@.len() {
                    (size - source@.len()) as nat
                } else {
                    0
                },
            }),
    {
        let length = source.len() as u64;
        let limit = if size < length {
            size as usize
        } else {
            source.len()
        };
        let missing = if size > length {
            size - length
        } else {
            0
        };
        let reader = GitObjectReader {
            kind,
            source,
            position: 0,
            limit,
            pending: Vec::new(),
            handed: 0,
            missing,
            opt,
        };
        assert(reader@.unread =~= at_most(source@, size as int));
        assert(reader@.pending =~= Seq::<u8>::empty());
        reader
    }

    /// Reads everything that is left: for a blob or a commit the rest of the
    /// payload, for a tree the rest of its listing. Fails exactly where a
    /// tree's payload cannot be rendered or the source falls short of the
    /// declared size.
    pub fn read_to_end(&mut self) -> (res: Result<Vec<u8>, Error>)
        requires
            old(self).wf(),
        ensures
            final(self).wf(),
            match res {
                Ok(out) => remaining_output(old(self)@) == Some(out@) && final(self)@.unread.len()
                    == 0 && final(self)@.pending.len() == 0,
                Err(e) => e == Error::MalformedObject && remaining_output(old(self)@) is None,
            },
    {
        let ghost start = self@;
        let mut out: Vec<u8> = Vec::new();
        let mut done = false;
        proof {
            match remaining_output(start) {
                Some(rest) => {
                    assert(out@ + rest =~= rest);
                },
                None => {},
            }
        }
        while !done
            invariant
                self.wf(),
                start == old(self)@,
                remaining_output(start) == match remaining_output(self@) {
                    Some(rest) => Some(out@ + rest),
                    None => None,
                },
                done ==> self@.unread.len() == 0 && self@.pending.len() == 0 && self@.missing
                    == 0,
            decreases self@.unread.len(), self@.pending.len(), if done { 0int } else { 1int },
        {
            let ghost before = self@;
            proof {
                lemma_read_step(before, 4096);
            }
            let chunk = match self.read(4096) {
                Ok(chunk) => chunk,
                Err(e) => {
                    return Err(e);
                },
            };
            proof {
                match remaining_output(self@) {
                    Some(rest) => {
                        assert(out@ + (chunk@ + rest) =~= (out@ + chunk@) + rest);
                    },
                    None => {},
                }
            }
            if chunk.len() == 0 {
                done = true;
            }
            bytes::append(&mut out, chunk.as_slice());
        }
        proof {
            assert(rendered(self@.kind, self@.unread, self@.name_only) == Some(
                Seq::<u8>::empty(),
            )) by {
                assert(listing(Seq::<TreeEntryView>::empty(), self@.name_only) =~= Seq::<
                    u8,
                >::empty());
            }
            assert(out@ + (self@.pending + Seq::<u8>::empty()) =~= out@);
        }
        Ok(out)
    }

    /// Reads at most `max` bytes. Nothing comes back only at the end of the
    /// stream, or where `max` is 0. At the end of a source that has fewer
    /// bytes than were declared, it fails.
    pub fn read(&mut self, max: usize) -> (res: Result<Vec<u8>, Error>)
        requires
            old(self).wf(),
        ensures
            final(self).wf(),
            final(self)@ == read_step(old(self)@, max as int).1,
            match res {
                Ok(chunk) => read_step(old(self)@, max as int).0 == Ok::<Seq<u8>, Error>(chunk@),
                Err(e) => read_step(old(self)@, max as int).0 == Err::<Seq<u8>, Error>(e),
            },
    {
        let ghost st = self@;
        if max == 0 {
            return Ok(Vec::new());
        }
        if self.handed < self.pending.len() {
            let left = self.pending.len() - self.handed;
            let n = if max < left { max } else { left };
            let chunk = bytes::to_vec(
                bytes::slice_subrange(self.pending.as_slice(), self.handed, self.handed + n),
            );
            self.handed = self.handed + n;
            proof {
                assert(chunk@ =~= at_most(st.pending, max as int));
                assert(self@.pending =~= beyond(st.pending, max as int));
            }
            return Ok(chunk);
        }
        if self.position == self.limit {
            if self.missing > 0 {
                return Err(Error::MalformedObject);
            }
            return Ok(Vec::new());
        }
        match self.kind {
            ObjectKind::Tree => {
                let rest = bytes::slice_subrange(self.source.as_slice(), self.position, self.limit);
                let name_only = match self.opt {
                    Some(o) => o.tree_name_only,
                    None => false,
                };
                let (entry, used) = match decode_first_entry(rest) {
                    Ok(found) => found,
                    Err(e) => {
                        return Err(e);
                    },
                };
                let line = entry.to_line(name_only);
                let n = if max < line.len() { max } else { line.len() };
                let chunk = bytes::to_vec(bytes::slice_subrange(line.as_slice(), 0, n));
                self.position = self.position + used;
                self.pending = line;
                self.handed = n;
                proof {
                    assert(chunk@ =~= at_most(line@, max as int));
                    assert(self@.pending =~= beyond(line@, max as int));
                    assert(self@.unread =~= st.unread.skip(used as int));
                }
                Ok(chunk)
            },
            _ => {
                let left = self.limit - self.position;
                let n = if max < left { max } else { left };
                let chunk = bytes::to_vec(
                    bytes::slice_subrange(
                        self.source.as_slice(),
                        self.position,
                        self.position + n,
                    ),
                );
                self.position = self.position + n;
                proof {
                    assert(chunk@ =~= at_most(st.unread, max as int));
                    assert(self@.unread =~= beyond(st.unread, max as int));
                    assert(self@.pending =~= st.pending);
                }
                Ok(chunk)
            },
        }
    }
}

} // verus!
