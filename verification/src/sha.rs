//! The digest that names an object: SHA-1 of its serialized form.

use vstd::prelude::*;
use sha1::Digest;
use crate::object::{encode_object, framed, ObjectKind};

verus! {

/// The SHA-1 digest of a byte sequence, as the `sha1` crate computes it.
pub uninterp spec fn sha1_of(data: Seq<u8>) -> Seq<u8>;

/// The digest of the object of `kind` with `payload`: the SHA-1 of header
/// and payload together.
pub open spec fn object_id(kind: ObjectKind, payload: Seq<u8>) -> Seq<u8> {
    sha1_of(framed(kind, payload))
}

/// Calls `sha1::Sha1::digest` (the `Digest` trait's one-shot function) on
/// `data`. Trusted: the 20 bytes returned are taken to be a function of the
/// input bytes alone, which is all that the name `sha1_of` says.
#[verifier::external_body]
pub(crate) fn sha1_digest(data: &[u8]) -> (out: [u8; 20])
    ensures
        out@ == sha1_of(data@),
{
    sha1::Sha1::digest(data).into()
}

/// Computes the digest of a serialized object.
pub fn digest_of_framed(framed_bytes: &[u8]) -> (out: [u8; 20])
    ensures
        out@ == sha1_of(framed_bytes@),
{
    sha1_digest(framed_bytes)
}

/// Computes the digest of the object of `kind` with `payload`.
pub fn hash_object(kind: ObjectKind, payload: &[u8]) -> (out: [u8; 20])
    ensures
        out@ == object_id(kind, payload@),
{
    let bytes = encode_object(kind, payload);
    sha1_digest(bytes.as_slice())
}

} // verus!
