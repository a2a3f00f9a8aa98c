//! The object store: compressed, serialized objects keyed by their digest,
//! found again by any unambiguous abbreviation of the digest's hex name.

use vstd::prelude::*;
use vstd::string::StringSliceAdditionalSpecFns;
use crate::bytes;
use crate::bytes::is_prefix_of;
use crate::error::Error;
use crate::hexstr::{
    all_hex_digits, bytes_of_hex, check_all_hex_digits, from_hex, hex_of, lemma_hex_of_injective,
    to_hex,
};
use crate::object::{
    decode_object, encode_object, framed, lemma_unframed_of_framed, unframed, ObjectKind,
};
use crate::sha::{digest_of_framed, object_id};
use crate::zlib::{compress, decompress, zlib_compressed, zlib_decompressed};

verus! {

/// One stored object: its digest and its compressed, serialized form.
#[derive(Debug, Clone, PartialEq, Eq)]
pub struct StoredObject {
    pub id: [u8; 20],
    pub data: Vec<u8>,
}

/// A stored object as a mathematical value.
pub struct ObjectRecord {
    pub id: Seq<u8>,
    pub data: Seq<u8>,
}

impl View for StoredObject {
    type V = ObjectRecord;

    open spec fn view(&self) -> ObjectRecord {
        ObjectRecord { id: self.id@, data: self.data@ }
    }
}

/// The objects written so far, in the order they were written. No two have
/// the same digest, and none is ever changed or removed.
pub struct ObjectStore {
    objects: Vec<StoredObject>,
}

/// Whether a record with digest `id` is among `records`.
pub open spec fn holds(records: Seq<ObjectRecord>, id: Seq<u8>) -> bool {
    exists|i: int| 0 <= i < records.len() && (#[trigger] records[i]).id == id
}

/// Whether no two of `records` have the same digest.
pub open spec fn distinct_ids(records: Seq<ObjectRecord>) -> bool {
    forall|i: int, j: int|
        0 <= i < records.len() && 0 <= j < records.len() && i != j ==> (#[trigger] records[i]).id
            != (#[trigger] records[j]).id
}

/// Whether every one of `records` has a digest of 20 bytes.
pub open spec fn full_digests(records: Seq<ObjectRecord>) -> bool {
    forall|i: int| 0 <= i < records.len() ==> (#[trigger] records[i]).id.len() == 20
}

/// The records after one more object is handed in: unchanged where the digest
/// is already held, else with the new record at the end.
pub open spec fn with_record(records: Seq<ObjectRecord>, record: ObjectRecord) -> Seq<
    ObjectRecord,
> {
    if holds(records, record.id) {
        records
    } else {
        records.push(record)
    }
}

/// What storing the object of `kind` with `payload` puts into the store.
pub open spec fn record_of(kind: ObjectKind, payload: Seq<u8>) -> ObjectRecord {
    ObjectRecord { id: object_id(kind, payload), data: zlib_compressed(framed(kind, payload)) }
}

/// What stored data reads back as: the kind and payload of the object that
/// it decompresses to. A stream that does not decompress is corrupt, and
/// one that decompresses to no well-framed object is malformed.
pub open spec fn read_back(data: Seq<u8>) -> Result<(ObjectKind, Seq<u8>), Error> {
    match zlib_decompressed(data) {
        None => Err(Error::CorruptStream),
        Some(raw) => match unframed(raw) {
            Some(object) => Ok(object),
            None => Err(Error::MalformedObject),
        },
    }
}

/// Whether what storing the object of `kind` with `payload` puts into the
/// store reads back as that kind and that payload.
pub open spec fn reads_back(kind: ObjectKind, payload: Seq<u8>) -> bool {
    read_back(record_of(kind, payload).data) == Ok::<(ObjectKind, Seq<u8>), Error>((kind, payload))
}

/// Whether `name` can name an object: 4 to 40 hexadecimal digits.
pub open spec fn is_object_name(name: Seq<u8>) -> bool {
    4 <= name.len() <= 40 && all_hex_digits(name)
}

/// Whether the hex name of `record`'s digest begins with `name`.
pub open spec fn name_matches(record: ObjectRecord, name: Seq<u8>) -> bool {
    is_prefix_of(name, hex_of(record.id))
}

/// How many of `records` have a hex name that begins with `name`.
pub open spec fn match_count(records: Seq<ObjectRecord>, name: Seq<u8>) -> nat
    decreases records.len(),
{
    if records.len() == 0 {
        0
    } else {
        match_count(records.drop_last(), name) + if name_matches(records.last(), name) {
            1nat
        } else {
            0nat
        }
    }
}

/// Why a name does not resolve, if it does not: it is no object name, or it
/// matches no stored object, or it matches more than one.
pub open spec fn resolution_failure(records: Seq<ObjectRecord>, name: Seq<u8>) -> Option<Error> {
    if !is_object_name(name) {
        Some(Error::InvalidObjectName)
    } else if match_count(records, name) == 0 {
        Some(Error::NotFound)
    } else if match_count(records, name) > 1 {
        Some(Error::Ambiguous)
    } else {
        None
    }
}

/// A sequence in which nothing matches has a match count of zero, and one
/// with a match has a count of at least one.
pub proof fn lemma_match_count(records: Seq<ObjectRecord>, name: Seq<u8>)
    ensures
        match_count(records, name) == 0 <==> forall|i: int|
            0 <= i < records.len() ==> !name_matches(#[trigger] records[i], name),
        match_count(records, name) <= records.len(),
    decreases records.len(),
{
    if records.len() > 0 {
        let front = records.drop_last();
        lemma_match_count(front, name);
        if match_count(records, name) == 0 {
            assert forall|i: int| 0 <= i < records.len() implies !name_matches(
                #[trigger] records[i],
                name,
            ) by {
                if i < front.len() {
                    assert(front[i] == records[i]);
                }
            }
        } else if match_count(front, name) > 0 {
            let i = choose|i: int| 0 <= i < front.len() && name_matches(#[trigger] front[i], name);
            assert(front[i] == records[i]);
        }
    }
}

/// Where exactly one record matches a name, any two that match it are the
/// same one: a name that resolves, resolves to one object only.
pub proof fn lemma_single_match(records: Seq<ObjectRecord>, name: Seq<u8>, i: int, j: int)
    requires
        match_count(records, name) == 1,
        0 <= i < records.len(),
        0 <= j < records.len(),
        name_matches(records[i], name),
        name_matches(records[j], name),
    ensures
        i == j,
    decreases records.len(),
{
    let front = records.drop_last();
    let last = records.len() - 1;
    lemma_match_count(front, name);
    if name_matches(records.last(), name) {
        if i < last {
            assert(front[i] == records[i]);
        }
        if j < last {
            assert(front[j] == records[j]);
        }
    } else {
        assert(front[i] == records[i]);
        assert(front[j] == records[j]);
        lemma_single_match(front, name, i, j);
    }
}

/// Where no two records match a name, its match count is at most one.
pub proof fn lemma_match_count_at_most_one(records: Seq<ObjectRecord>, name: Seq<u8>)
    requires
        forall|i: int, j: int|
            0 <= i < records.len() && 0 <= j < records.len() && name_matches(
                #[trigger] records[i],
                name,
            ) && name_matches(#[trigger] records[j], name) ==> i == j,
    ensures
        match_count(records, name) <= 1,
    decreases records.len(),
{
    if records.len() > 0 {
        let front = records.drop_last();
        let last = records.len() - 1;
        assert forall|i: int, j: int|
            0 <= i < front.len() && 0 <= j < front.len() && name_matches(
                #[trigger] front[i],
                name,
            ) && name_matches(#[trigger] front[j], name) implies i == j by {
            assert(front[i] == records[i] && front[j] == records[j]);
        }
        lemma_match_count_at_most_one(front, name);
        lemma_match_count(front, name);
        if name_matches(records.last(), name) {
            assert forall|i: int| 0 <= i < front.len() implies !name_matches(
                #[trigger] front[i],
                name,
            ) by {
                assert(front[i] == records[i]);
                assert(name_matches(records[last], name));
            }
        }
    }
}

/// A full name never is ambiguous: in a store whose digests have 20 bytes
/// and all differ, a name of 40 digits matches one object at most.
pub proof fn lemma_full_name_matches_one_at_most(records: Seq<ObjectRecord>, name: Seq<u8>)
    requires
        distinct_ids(records),
        full_digests(records),
        name.len() == 40,
    ensures
        match_count(records, name) <= 1,
        resolution_failure(records, name) != Some(Error::Ambiguous),
{
    assert forall|i: int, j: int|
        0 <= i < records.len() && 0 <= j < records.len() && name_matches(
            #[trigger] records[i],
            name,
        ) && name_matches(#[trigger] records[j], name) implies i == j by {
        let a = records[i].id;
        let b = records[j].id;
        assert(hex_of(a).len() == 40 && hex_of(b).len() == 40);
        assert(hex_of(a).take(40) =~= hex_of(a));
        assert(hex_of(b).take(40) =~= hex_of(b));
        lemma_hex_of_injective(a, b);
    }
    lemma_match_count_at_most_one(records, name);
}

/// The directory and the file name under which an object with digest `id` is
/// kept: the first two hex digits of its name, and the other 38.
pub open spec fn object_location(id: Seq<u8>) -> (Seq<u8>, Seq<u8>) {
    (hex_of(id).take(2), hex_of(id).skip(2))
}

/// Tells whether `name` can name an object.
pub fn check_object_name(name: &[u8]) -> (res: bool)
    ensures
        res == is_object_name(name@),
{
    name.len() >= 4 && name.len() <= 40 && check_all_hex_digits(name)
}

/// Gives the directory and file name under which an object is kept.
pub fn locate(id: &[u8; 20]) -> (place: (Vec<u8>, Vec<u8>))
    ensures
        (place.0@, place.1@) == object_location(id@),
{
    let name = to_hex(id.as_slice());
    let dir = bytes::to_vec(bytes::slice_subrange(name.as_slice(), 0, 2));
    let file = bytes::to_vec(bytes::slice_subrange(name.as_slice(), 2, name.len()));
    assert(dir@ =~= hex_of(id@).take(2));
    assert(file@ =~= hex_of(id@).skip(2));
    (dir, file)
}

/// Reads a digest from its full hex name: `Some` exactly for 40 hexadecimal
/// digits.
pub fn parse_digest(name: &[u8]) -> (res: Option<[u8; 20]>)
    ensures
        res is Some <==> name@.len() == 40 && all_hex_digits(name@),
        res matches Some(id) ==> id@ == bytes_of_hex(name@),
{
    if name.len() != 40 {
        return None;
    }
    match from_hex(name) {
        Some(raw) => {
            let mut id: [u8; 20] = [0u8; 20];
            let mut k: usize = 0;
            while k < 20
                invariant
                    k <= 20,
                    raw@.len() == 20,
                    forall|j: int| 0 <= j < k ==> id@[j] == raw@[j],
                decreases 20 - k,
            {
                id[k] = raw[k];
                k += 1;
            }
            assert(id@ =~= raw@);
            Some(id)
        },
        None => None,
    }
}

impl View for ObjectStore {
    type V = Seq<ObjectRecord>;

    closed spec fn view(&self) -> Seq<ObjectRecord> {
        self.objects@.map_values(|o: StoredObject| o@)
    }
}

impl ObjectStore {
    /// What holds of every store: every stored object has a digest of 20
    /// bytes, and no two have the same.
    pub open spec fn wf(&self) -> bool {
        distinct_ids(self@) && full_digests(self@)
    }

    /// A store that holds nothing.
    pub fn new() -> (store: ObjectStore)
        ensures
            store.wf(),
            store@ == Seq::<ObjectRecord>::empty(),
    {
        let store = ObjectStore { objects: Vec::new() };
        assert(store@ =~= Seq::<ObjectRecord>::empty());
        store
    }

    /// The number of stored objects.
    pub fn len(&self) -> (n: usize)
        ensures
            n == self@.len(),
    {
        self.objects.len()
    }

    /// The stored object at position `index`, in the order of writing.
    pub fn get(&self, index: usize) -> (res: Option<&StoredObject>)
        ensures
            match res {
                Some(object) => index < self@.len() && object@ == self@[index as int],
                None => index >= self@.len(),
            },
    {
        if index < self.objects.len() {
            Some(&self.objects[index])
        } else {
            None
        }
    }

    /// Tells whether an object with digest `id` is stored.
    pub fn contains(&self, id: &[u8; 20]) -> (res: bool)
        ensures
            res == holds(self@, id@),
    {
        let mut i: usize = 0;
        while i < self.objects.len()
            invariant
                i <= self.objects.len(),
                forall|j: int| 0 <= j < i ==> (#[trigger] self@[j]).id != id@,
            decreases self.objects.len() - i,
        {
            if bytes::equal(self.objects[i].id.as_slice(), id.as_slice()) {
                assert(self@[i as int].id == id@);
                return true;
            }
            i += 1;
        }
        false
    }

    /// Finds the one stored object whose hex name begins with `object_hash`,
    /// and gives its compressed data. The name must be 4 to 40 hexadecimal
    /// digits; it resolves exactly when one stored object matches it.
    pub fn open(&self, object_hash: &str) -> (res: Result<&Vec<u8>, Error>)
        ensures
            match res {
                Ok(data) => resolution_failure(self@, object_hash.spec_bytes()) is None
                    && exists|i: int|
                    0 <= i < self@.len() && name_matches(
                        #[trigger] self@[i],
                        object_hash.spec_bytes(),
                    ) && self@[i].data == data@,
                Err(e) => resolution_failure(self@, object_hash.spec_bytes()) == Some(e),
            },
    {
        let name = object_hash.as_bytes();
        if !check_object_name(name) {
            return Err(Error::InvalidObjectName);
        }
        let mut found: usize = 0;
        let mut count: usize = 0;
        let mut i: usize = 0;
        while i < self.objects.len()
            invariant
                i <= self.objects.len(),
                count == match_count(self@.take(i as int), name@),
                count <= i,
                count > 0 ==> found < i && name_matches(self@[found as int], name@),
            decreases self.objects.len() - i,
        {
            let hex_name = to_hex(self.objects[i].id.as_slice());
            proof {
                assert(self@.take(i + 1).drop_last() =~= self@.take(i as int));
                assert(self@.take(i + 1).last() == self@[i as int]);
            }
            if bytes::starts_with(hex_name.as_slice(), name) {
                if count == 0 {
                    found = i;
                }
                count += 1;
            }
            i += 1;
        }
        assert(self@.take(i as int) =~= self@);
        if count == 0 {
            Err(Error::NotFound)
        } else if count > 1 {
            Err(Error::Ambiguous)
        } else {
            Ok(&self.objects[found].data)
        }
    }

    /// Puts compressed data under a digest, as it is when read from storage.
    /// A digest that is already held keeps its data. Returns whether the
    /// object was added.
    pub fn insert(&mut self, id: [u8; 20], data: Vec<u8>) -> (added: bool)
        requires
            old(self).wf(),
        ensures
            final(self).wf(),
            added == !holds(old(self)@, id@),
            final(self)@ == with_record(old(self)@, (ObjectRecord { id: id@, data: data@ })),
    {
        if self.contains(&id) {
            return false;
        }
        let ghost before = self@;
        let object = StoredObject { id, data };
        self.objects.push(object);
        proof {
            assert(self@ =~= before.push(object@));
            assert forall|i: int, j: int|
                0 <= i < self@.len() && 0 <= j < self@.len() && i != j implies (
            #[trigger] self@[i]).id != (#[trigger] self@[j]).id by {
                if i < before.len() {
                    assert(self@[i] == before[i]);
                }
                if j < before.len() {
                    assert(self@[j] == before[j]);
                }
            }
        }
        true
    }

    /// Stores the object of `kind` with `payload` and returns its digest.
    /// Without `save` nothing is stored, and the digest is the same. What is
    /// stored reads back as the object it was made from.
    pub fn write(&mut self, kind: ObjectKind, payload: &[u8], save: bool) -> (id: [u8; 20])
        requires
            old(self).wf(),
        ensures
            final(self).wf(),
            id@ == object_id(kind, payload@),
            final(self)@ == if save {
                with_record(old(self)@, record_of(kind, payload@))
            } else {
                old(self)@
            },
            save ==> read_back(record_of(kind, payload@).data) == Ok::<
                (ObjectKind, Seq<u8>),
                Error,
            >((kind, payload@)),
            save ==> reads_back(kind, payload@),
    {
        let bytes = encode_object(kind, payload);
        let id = digest_of_framed(bytes.as_slice());
        if save {
            let data = compress(bytes.as_slice());
            let size = payload.len();
            proof {
                assert(size <= u64::MAX);
                lemma_unframed_of_framed(kind, payload@);
            }
            self.insert(id, data);
        }
        id
    }

    /// Reads the one stored object whose hex name begins with `object_hash`:
    /// its kind and its payload.
    pub fn read(&self, object_hash: &str) -> (res: Result<(ObjectKind, Vec<u8>), Error>)
        ensures
            match resolution_failure(self@, object_hash.spec_bytes()) {
                Some(e) => res == Err::<(ObjectKind, Vec<u8>), Error>(e),
                None => exists|i: int|
                    0 <= i < self@.len() && name_matches(
                        #[trigger] self@[i],
                        object_hash.spec_bytes(),
                    ) && read_back(self@[i].data) == match res {
                        Ok((kind, payload)) => Ok::<(ObjectKind, Seq<u8>), Error>(
                            (kind, payload@),
                        ),
                        Err(e) => Err::<(ObjectKind, Seq<u8>), Error>(e),
                    },
            },
    {
        let data = match self.open(object_hash) {
            Ok(data) => data,
            Err(e) => {
                return Err(e);
            },
        };
        let raw = match decompress(data.as_slice()) {
            Ok(raw) => raw,
            Err(e) => {
                return Err(e);
            },
        };
        decode_object(raw.as_slice())
    }
}

} // verus!
