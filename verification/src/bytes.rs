//! Small helpers on byte vectors and slices.

use vstd::prelude::*;

verus! {

/// Appends `src` to `dst`.
pub fn append(dst: &mut Vec<u8>, src: &[u8])
    ensures
        final(dst)@ == old(dst)@ + src@,
{
    let mut i: usize = 0;
    while i < src.len()
        invariant
            i <= src.len(),
            dst@ == old(dst)@ + src@.take(i as int),
        decreases src.len() - i,
    {
        dst.push(src[i]);
        i += 1;
        assert(dst@ =~= old(dst)@ + src@.take(i as int));
    }
    assert(src@.take(i as int) =~= src@);
}

/// Copies a slice into a new vector.
pub fn to_vec(src: &[u8]) -> (out: Vec<u8>)
    ensures
        out@ == src@,
{
    let mut out: Vec<u8> = Vec::new();
    append(&mut out, src);
    assert(out@ =~= src@);
    out
}

/// Whether two slices hold the same bytes.
pub fn equal(a: &[u8], b: &[u8]) -> (res: bool)
    ensures
        res == (a@ == b@),
{
    if a.len() != b.len() {
        return false;
    }
    let mut i: usize = 0;
    while i < a.len()
        invariant
            i <= a.len(),
            a.len() == b.len(),
            a@.take(i as int) == b@.take(i as int),
        decreases a.len() - i,
    {
        if a[i] != b[i] {
            return false;
        }
        i += 1;
        assert(a@.take(i as int) =~= a@.take(i - 1).push(a@[i - 1]));
        assert(b@.take(i as int) =~= b@.take(i - 1).push(b@[i - 1]));
    }
    assert(a@.take(i as int) =~= a@);
    assert(b@.take(i as int) =~= b@);
    true
}

/// Whether `prefix` is a prefix of `s`.
pub open spec fn is_prefix_of(prefix: Seq<u8>, s: Seq<u8>) -> bool {
    prefix.len() <= s.len() && s.take(prefix.len() as int) == prefix
}

/// Whether `s` begins with `prefix`.
pub fn starts_with(s: &[u8], prefix: &[u8]) -> (res: bool)
    ensures
        res == is_prefix_of(prefix@, s@),
{
    if prefix.len() > s.len() {
        return false;
    }
    let head = slice_subrange(s, 0, prefix.len());
    equal(head, prefix)
}

/// The position of the first byte equal to `needle`, if there is one.
#[verifier::opaque]
pub open spec fn first_index_of(s: Seq<u8>, needle: u8) -> Option<int> {
    if exists|i: int| 0 <= i < s.len() && s[i] == needle {
        Some(
            choose|i: int|
                0 <= i < s.len() && s[i] == needle && forall|j: int|
                    0 <= j < i ==> s[j] != needle,
        )
    } else {
        None
    }
}

/// `first_index_of` names a position that holds `needle` and has none before it.
pub proof fn lemma_first_index_of(s: Seq<u8>, needle: u8)
    ensures
        match first_index_of(s, needle) {
            Some(i) => 0 <= i < s.len() && s[i] == needle && forall|j: int|
                0 <= j < i ==> s[j] != needle,
            None => forall|j: int| 0 <= j < s.len() ==> s[j] != needle,
        },
{
    reveal(first_index_of);
    if exists|i: int| 0 <= i < s.len() && s[i] == needle {
        let w = choose|i: int| 0 <= i < s.len() && s[i] == needle;
        lemma_least_index(s, needle, w);
    }
}

proof fn lemma_least_index(s: Seq<u8>, needle: u8, w: int)
    requires
        0 <= w < s.len(),
        s[w] == needle,
    ensures
        exists|i: int|
            0 <= i < s.len() && s[i] == needle && forall|j: int| 0 <= j < i ==> s[j] != needle,
    decreases w,
{
    if exists|k: int| 0 <= k < w && s[k] == needle {
        let k = choose|k: int| 0 <= k < w && s[k] == needle;
        lemma_least_index(s, needle, k);
    } else {
        assert(0 <= w < s.len() && s[w] == needle && forall|j: int| 0 <= j < w ==> s[j] != needle);
    }
}

/// A position that holds `needle` with none before it is the first one.
pub proof fn lemma_first_index_is(s: Seq<u8>, needle: u8, i: int)
    requires
        0 <= i < s.len(),
        s[i] == needle,
        forall|j: int| 0 <= j < i ==> s[j] != needle,
    ensures
        first_index_of(s, needle) == Some(i),
{
    lemma_first_index_of(s, needle);
    match first_index_of(s, needle) {
        Some(k) => {
            if k < i {
                assert(s[k] != needle);
            } else if i < k {
                assert(s[i] != needle);
            }
        },
        None => {
            assert(s[i] != needle);
        },
    }
}

/// Finds the first byte equal to `needle`.
pub fn find(s: &[u8], needle: u8) -> (res: Option<usize>)
    ensures
        match res {
            Some(i) => i < s@.len() && i < usize::MAX && first_index_of(s@, needle) == Some(
                i as int,
            ),
            None => first_index_of(s@, needle) is None,
        },
{
    let mut i: usize = 0;
    while i < s.len()
        invariant
            i <= s.len(),
            forall|j: int| 0 <= j < i ==> s@[j] != needle,
        decreases s.len() - i,
    {
        if s[i] == needle {
            proof {
                lemma_first_index_is(s@, needle, i as int);
            }
            return Some(i);
        }
        i += 1;
    }
    proof {
        lemma_first_index_of(s@, needle);
        match first_index_of(s@, needle) {
            Some(k) => {
                assert(s@[k] != needle);
            },
            None => {},
        }
    }
    None
}

/// The part of `s` from `from` up to, not including, `to`.
pub fn slice_subrange(s: &[u8], from: usize, to: usize) -> (out: &[u8])
    requires
        from <= to <= s.len(),
    ensures
        out@ == s@.subrange(from as int, to as int),
{
    &s[from..to]
}

} // verus!
