//! `hash-object`: names the blob that a file's content makes.

use vstd::prelude::*;
use crate::hexstr::{hex_of, to_hex};
use crate::object::write::calc_hash_object;
use crate::object::ObjectKind;
use crate::sha::object_id;
use crate::store::{reads_back, record_of, with_record, ObjectStore};

verus! {

/// A digest as a command prints it: in hex, on a line of its own.
pub open spec fn digest_line(id: Seq<u8>) -> Seq<u8> {
    hex_of(id) + seq![10u8]
}

/// Writes a digest as a command prints it.
pub fn print_digest(id: &[u8; 20]) -> (out: Vec<u8>)
    ensures
        out@ == digest_line(id@),
{
    let mut out = to_hex(id.as_slice());
    out.push(10);
    out
}

/// Names the blob with the given content, and with `write` stores it too.
pub fn invoke(store: &mut ObjectStore, content: &[u8], write: bool) -> (out: Vec<u8>)
    requires
        old(store).wf(),
    ensures
        final(store).wf(),
        out@ == digest_line(object_id(ObjectKind::Blob, content@)),
        final(store)@ == if write {
            with_record(old(store)@, record_of(ObjectKind::Blob, content@))
        } else {
            old(store)@
        },
        write ==> reads_back(ObjectKind::Blob, content@),
{
    let id = calc_hash_object(store, content, write);
    print_digest(&id)
}

} // verus!
