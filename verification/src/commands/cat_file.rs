//! `cat-file -p`: shows the payload of an object.

use vstd::prelude::*;
use vstd::string::StringSliceAdditionalSpecFns;
use crate::bytes;
use crate::error::{outcome, Error};
use crate::object::read::{
    parse_header, rendered, wants_names_only, GitObjectReader, ReadOptions,
};
use crate::object::{parsed_header, ObjectKind};
use crate::store::{name_matches, resolution_failure, ObjectRecord, ObjectStore};
use crate::zlib::{decompress, zlib_decompressed};

verus! {

/// What a stored object is shown as, given its compressed data: the stream
/// must decompress, its header must parse and declare the payload's length,
/// and the payload must render. `required` is the kind that the object must
/// be of, if any, and `other` the failure where it is of another.
pub open spec fn shown_object(
    data: Seq<u8>,
    required: Option<ObjectKind>,
    other: Error,
    name_only: bool,
) -> Result<Seq<u8>, Error> {
    match zlib_decompressed(data) {
        None => Err(Error::CorruptStream),
        Some(raw) => match parsed_header(raw) {
            None => Err(Error::MalformedObject),
            Some((kind, size, start)) => if required is Some && required != Some(kind) {
                Err(other)
            } else if raw.len() - start != size {
                Err(Error::MalformedObject)
            } else {
                match rendered(kind, raw.skip(start), name_only) {
                    Some(text) => Ok(text),
                    None => Err(Error::MalformedObject),
                }
            },
        },
    }
}

/// Shows a stored object from its compressed data.
pub fn show_object(
    data: &[u8],
    required: Option<ObjectKind>,
    other: Error,
    opt: Option<&ReadOptions>,
) -> (res: Result<Vec<u8>, Error>)
    ensures
        outcome(res) == shown_object(data@, required, other, wants_names_only(opt)),
{
    let raw = match decompress(data) {
        Ok(raw) => raw,
        Err(e) => {
            return Err(e);
        },
    };
    let (kind, size, start) = match parse_header(raw.as_slice()) {
        Ok(header) => header,
        Err(e) => {
            return Err(e);
        },
    };
    match required {
        Some(k) => {
            if k != kind {
                return Err(other);
            }
        },
        None => {},
    }
    if (raw.len() - start) as u64 != size {
        return Err(Error::MalformedObject);
    }
    let payload = bytes::to_vec(bytes::slice_subrange(raw.as_slice(), start, raw.len()));
    assert(payload@ =~= raw@.skip(start as int));
    let mut reader = GitObjectReader::new(kind, payload, size, opt);
    assert(reader@.unread =~= raw@.skip(start as int));
    let ghost st = reader@;
    assert(st.missing == 0);
    let res = reader.read_to_end();
    proof {
        match rendered(kind, st.unread, st.name_only) {
            Some(text) => {
                assert(st.pending + text =~= text);
            },
            None => {},
        }
    }
    res
}

/// Whether `result` is what showing the object named `key` gives: the
/// failure of resolving the name, or what the one object that it names is
/// shown as.
pub open spec fn shows_named(
    records: Seq<ObjectRecord>,
    key: Seq<u8>,
    required: Option<ObjectKind>,
    other: Error,
    name_only: bool,
    result: Result<Seq<u8>, Error>,
) -> bool {
    match resolution_failure(records, key) {
        Some(e) => result == Err::<Seq<u8>, Error>(e),
        None => exists|i: int|
            0 <= i < records.len() && name_matches(#[trigger] records[i], key) && result
                == shown_object(records[i].data, required, other, name_only),
    }
}

/// Whether `result` is what `cat-file` gives: without the flag a refusal,
/// else the named object, whatever its kind, a tree as its full listing.
pub open spec fn cat_file_gives(
    records: Seq<ObjectRecord>,
    pretty_print: bool,
    key: Seq<u8>,
    result: Result<Seq<u8>, Error>,
) -> bool {
    if pretty_print {
        shows_named(records, key, None, Error::MalformedObject, false, result)
    } else {
        result == Err::<Seq<u8>, Error>(Error::MissingFlag)
    }
}

/// Shows the object that `object_key` names: a blob or a commit as it is, a
/// tree as its full listing. Without `pretty_print` it refuses.
pub fn invoke(store: &ObjectStore, pretty_print: bool, object_key: &str) -> (res: Result<
    Vec<u8>,
    Error,
>)
    ensures
        cat_file_gives(store@, pretty_print, object_key.spec_bytes(), outcome(res)),
{
    if !pretty_print {
        return Err(Error::MissingFlag);
    }
    let data = match store.open(object_key) {
        Ok(data) => data,
        Err(e) => {
            return Err(e);
        },
    };
    show_object(data.as_slice(), None, Error::MalformedObject, None)
}

} // verus!
