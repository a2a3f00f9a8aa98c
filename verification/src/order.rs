//! The canonical order of tree entries.
//!
//! Entries are ordered by the bytes of their names, each name taken as though
//! it were followed by `/` where it names a directory and by NUL otherwise.
//! So a directory `foo` comes after the file `foo.txt` and before `foo2`.

use vstd::prelude::*;
use vstd::multiset::Multiset;
use vstd::seq_lib::{to_multiset_build, to_multiset_insert, to_multiset_len, to_multiset_contains};
use crate::tree::{entry_views, FileMode, TreeEntry, TreeEntryView};

verus! {

/// The byte that a name is taken to end with when names are compared.
pub open spec fn terminator(mode: FileMode) -> u8 {
    if mode == FileMode::Directory {
        47
    } else {
        0
    }
}

/// What an entry is ordered by: its name, then its terminator.
pub open spec fn sort_key(e: TreeEntryView) -> Seq<u8> {
    e.name.push(terminator(e.mode))
}

/// Whether `a` comes strictly before `b` when compared byte by byte, a proper
/// prefix coming before what it is a prefix of.
pub open spec fn bytes_before(a: Seq<u8>, b: Seq<u8>) -> bool
    decreases a.len(),
{
    if b.len() == 0 {
        false
    } else if a.len() == 0 {
        true
    } else if a[0] != b[0] {
        a[0] < b[0]
    } else {
        bytes_before(a.drop_first(), b.drop_first())
    }
}

/// Whether entry `a` comes strictly before entry `b` in a tree.
pub open spec fn precedes(a: TreeEntryView, b: TreeEntryView) -> bool {
    bytes_before(sort_key(a), sort_key(b))
}

/// Whether no entry of `s` comes before an earlier one.
pub open spec fn ordered(s: Seq<TreeEntryView>) -> bool {
    forall|i: int, j: int| 0 <= i < j < s.len() ==> !precedes(#[trigger] s[j], #[trigger] s[i])
}

/// Whether every entry of `s` comes strictly before every later one.
pub open spec fn ascending(s: Seq<TreeEntryView>) -> bool {
    forall|i: int, j: int| 0 <= i < j < s.len() ==> precedes(#[trigger] s[i], #[trigger] s[j])
}

/// The names of a sequence of entries.
pub open spec fn entry_names(s: Seq<TreeEntryView>) -> Seq<Seq<u8>> {
    s.map_values(|e: TreeEntryView| e.name)
}

/// Whether `sorted` holds the entries of `entries`, each as often, in
/// strictly ascending order.
pub open spec fn is_canonical_order_of(
    sorted: Seq<TreeEntryView>,
    entries: Seq<TreeEntryView>,
) -> bool {
    ascending(sorted) && sorted.to_multiset() == entries.to_multiset()
}

/// No byte sequence comes before itself.
pub proof fn lemma_bytes_before_irreflexive(a: Seq<u8>)
    ensures
        !bytes_before(a, a),
    decreases a.len(),
{
    if a.len() > 0 {
        lemma_bytes_before_irreflexive(a.drop_first());
    }
}

/// Of two byte sequences at most one comes before the other.
pub proof fn lemma_bytes_before_asymmetric(a: Seq<u8>, b: Seq<u8>)
    ensures
        !(bytes_before(a, b) && bytes_before(b, a)),
    decreases a.len(),
{
    if a.len() > 0 && b.len() > 0 && a[0] == b[0] {
        lemma_bytes_before_asymmetric(a.drop_first(), b.drop_first());
    }
}

/// Of two different byte sequences one comes before the other.
pub proof fn lemma_bytes_before_total(a: Seq<u8>, b: Seq<u8>)
    ensures
        a == b || bytes_before(a, b) || bytes_before(b, a),
    decreases a.len(),
{
    if a.len() > 0 && b.len() > 0 && a[0] == b[0] {
        lemma_bytes_before_total(a.drop_first(), b.drop_first());
        if a.drop_first() == b.drop_first() {
            assert(a =~= seq![a[0]] + a.drop_first());
            assert(b =~= seq![b[0]] + b.drop_first());
        }
    } else if a.len() == 0 && b.len() == 0 {
        assert(a =~= b);
    }
}

/// What comes before something that comes before a third comes before the third.
pub proof fn lemma_bytes_before_transitive(a: Seq<u8>, b: Seq<u8>, c: Seq<u8>)
    requires
        bytes_before(a, b),
        bytes_before(b, c),
    ensures
        bytes_before(a, c),
    decreases a.len(),
{
    if a.len() > 0 && a[0] == b[0] && b[0] == c[0] {
        lemma_bytes_before_transitive(a.drop_first(), b.drop_first(), c.drop_first());
    }
}

/// The byte of an entry that is compared at position `k`: the byte of its
/// name there, or its terminator where the name has ended.
pub open spec fn compared_byte(e: TreeEntryView, k: int) -> u8 {
    if k < e.name.len() {
        e.name[k]
    } else {
        terminator(e.mode)
    }
}

/// Sequences that begin alike compare as what follows the common start.
pub proof fn lemma_bytes_before_after_common_start(a: Seq<u8>, b: Seq<u8>, k: int)
    requires
        0 <= k <= a.len(),
        k <= b.len(),
        a.take(k) == b.take(k),
    ensures
        bytes_before(a, b) == bytes_before(a.skip(k), b.skip(k)),
    decreases k,
{
    if k == 0 {
        assert(a.skip(0) =~= a);
        assert(b.skip(0) =~= b);
    } else {
        assert(a[0] == a.take(k)[0] && b[0] == b.take(k)[0]);
        assert(a.drop_first().take(k - 1) =~= a.take(k).drop_first());
        assert(b.drop_first().take(k - 1) =~= b.take(k).drop_first());
        lemma_bytes_before_after_common_start(a.drop_first(), b.drop_first(), k - 1);
        assert(a.drop_first().skip(k - 1) =~= a.skip(k));
        assert(b.drop_first().skip(k - 1) =~= b.skip(k));
    }
}

/// The rule in terms of names: two entries with different names, neither
/// name holding a `/` or a NUL, compare by the bytes at the first position
/// where the names part, a name that has ended there counting as `/` for a
/// directory and as NUL for anything else.
pub proof fn lemma_order_by_names(a: TreeEntryView, b: TreeEntryView, k: int)
    requires
        forall|i: int| 0 <= i < a.name.len() ==> (#[trigger] a.name[i]) != 47 && a.name[i] != 0,
        forall|i: int| 0 <= i < b.name.len() ==> (#[trigger] b.name[i]) != 47 && b.name[i] != 0,
        0 <= k <= a.name.len(),
        k <= b.name.len(),
        a.name.take(k) == b.name.take(k),
        a.name != b.name,
        k == a.name.len() || k == b.name.len() || a.name[k] != b.name[k],
    ensures
        compared_byte(a, k) != compared_byte(b, k),
        precedes(a, b) == (compared_byte(a, k) < compared_byte(b, k)),
{
    let ka = sort_key(a);
    let kb = sort_key(b);
    assert(ka.take(k) =~= a.name.take(k));
    assert(kb.take(k) =~= b.name.take(k));
    lemma_bytes_before_after_common_start(ka, kb, k);
    let ra = ka.skip(k);
    let rb = kb.skip(k);
    assert(ra[0] == compared_byte(a, k));
    assert(rb[0] == compared_byte(b, k));
    if k == a.name.len() && k == b.name.len() {
        assert(a.name =~= a.name.take(k));
        assert(b.name =~= b.name.take(k));
    }
}

/// Entries with different names have different sort keys.
pub proof fn lemma_sort_key_of_name(a: TreeEntryView, b: TreeEntryView)
    ensures
        sort_key(a) == sort_key(b) ==> a.name == b.name,
{
    if sort_key(a) == sort_key(b) {
        assert(a.name =~= sort_key(a).drop_last());
        assert(b.name =~= sort_key(b).drop_last());
    }
}

/// Of two entries with different names, one comes before the other.
pub proof fn lemma_precedes_total(a: TreeEntryView, b: TreeEntryView)
    requires
        a.name != b.name,
    ensures
        precedes(a, b) != precedes(b, a),
{
    lemma_sort_key_of_name(a, b);
    lemma_bytes_before_total(sort_key(a), sort_key(b));
    lemma_bytes_before_asymmetric(sort_key(a), sort_key(b));
}

/// A sequence in order whose names are all different is strictly ascending.
pub proof fn lemma_ordered_distinct_is_ascending(s: Seq<TreeEntryView>)
    requires
        ordered(s),
        entry_names(s).no_duplicates(),
    ensures
        ascending(s),
{
    assert forall|i: int, j: int| 0 <= i < j < s.len() implies precedes(
        #[trigger] s[i],
        #[trigger] s[j],
    ) by {
        assert(entry_names(s)[i] != entry_names(s)[j]);
        lemma_precedes_total(s[i], s[j]);
    }
}

/// The canonical order is unique: two strictly ascending sequences that hold
/// the same entries are the same sequence, whatever order the entries were
/// listed in before.
pub proof fn lemma_canonical_order_unique(a: Seq<TreeEntryView>, b: Seq<TreeEntryView>)
    requires
        ascending(a),
        ascending(b),
        a.to_multiset() == b.to_multiset(),
    ensures
        a == b,
    decreases a.len(),
{
    to_multiset_len(a);
    to_multiset_len(b);
    if a.len() == 0 {
        assert(a =~= b);
    } else {
        let x = a.last();
        let y = b.last();
        to_multiset_contains(a, x);
        to_multiset_contains(b, x);
        to_multiset_contains(a, y);
        to_multiset_contains(b, y);
        assert(a.contains(x));
        assert(b.contains(y));
        let j = choose|j: int| 0 <= j < b.len() && b[j] == x;
        let i = choose|i: int| 0 <= i < a.len() && a[i] == y;
        if j < b.len() - 1 {
            // x comes before y in b, so y is not the last of a, and comes before x there
            assert(precedes(b[j], b[b.len() - 1]));
            if i < a.len() - 1 {
                assert(precedes(a[i], a[a.len() - 1]));
                lemma_bytes_before_asymmetric(sort_key(x), sort_key(y));
            } else {
                lemma_bytes_before_irreflexive(sort_key(x));
            }
        }
        assert(x == y);
        let a0 = a.drop_last();
        let b0 = b.drop_last();
        assert(a =~= a0.push(x));
        assert(b =~= b0.push(x));
        to_multiset_build(a0, x);
        to_multiset_build(b0, x);
        assert(a0.to_multiset() =~= a.to_multiset().remove(x));
        assert(b0.to_multiset() =~= b.to_multiset().remove(x));
        assert(ascending(a0)) by {
            assert forall|p: int, q: int| 0 <= p < q < a0.len() implies precedes(
                #[trigger] a0[p],
                #[trigger] a0[q],
            ) by {
                assert(a0[p] == a[p] && a0[q] == a[q]);
            }
        }
        assert(ascending(b0)) by {
            assert forall|p: int, q: int| 0 <= p < q < b0.len() implies precedes(
                #[trigger] b0[p],
                #[trigger] b0[q],
            ) by {
                assert(b0[p] == b[p] && b0[q] == b[q]);
            }
        }
        lemma_canonical_order_unique(a0, b0);
    }
}

/// Tells whether the name `a` with terminator `ta` comes before the name `b`
/// with terminator `tb`.
pub fn key_before(a: &[u8], ta: u8, b: &[u8], tb: u8) -> (res: bool)
    ensures
        res == bytes_before(a@.push(ta), b@.push(tb)),
{
    let ghost ka = a@.push(ta);
    let ghost kb = b@.push(tb);
    let mut i: usize = 0;
    assert(ka.skip(0) =~= ka);
    assert(kb.skip(0) =~= kb);
    while i < a.len() && i < b.len()
        invariant
            i <= a.len(),
            i <= b.len(),
            ka == a@.push(ta),
            kb == b@.push(tb),
            bytes_before(ka, kb) == bytes_before(ka.skip(i as int), kb.skip(i as int)),
        decreases a.len() - i,
    {
        proof {
            assert(ka.skip(i as int)[0] == a@[i as int]);
            assert(kb.skip(i as int)[0] == b@[i as int]);
            assert(ka.skip(i as int).drop_first() =~= ka.skip(i + 1));
            assert(kb.skip(i as int).drop_first() =~= kb.skip(i + 1));
        }
        if a[i] != b[i] {
            return a[i] < b[i];
        }
        i += 1;
    }
    let ghost ra = ka.skip(i as int);
    let ghost rb = kb.skip(i as int);
    proof {
        assert(ra.drop_first() =~= ka.skip(i + 1));
        assert(rb.drop_first() =~= kb.skip(i + 1));
    }
    if a.len() == b.len() {
        assert(ra[0] == ta && rb[0] == tb);
        assert(ra.drop_first().len() == 0);
        assert(rb.drop_first().len() == 0);
        assert(!bytes_before(ra.drop_first(), rb.drop_first()));
        ta < tb
    } else if i == a.len() {
        let next = b[i];
        assert(ra[0] == ta && rb[0] == next);
        assert(ra.drop_first().len() == 0);
        assert(rb.drop_first().len() > 0);
        assert(bytes_before(ra.drop_first(), rb.drop_first()));
        if ta != next {
            ta < next
        } else {
            true
        }
    } else {
        let next = a[i];
        assert(ra[0] == next && rb[0] == tb);
        assert(rb.drop_first().len() == 0);
        assert(!bytes_before(ra.drop_first(), rb.drop_first()));
        if next != tb {
            next < tb
        } else {
            false
        }
    }
}

impl FileMode {
    /// The byte that a name of this mode is taken to end with when compared.
    pub fn terminator(&self) -> (t: u8)
        ensures
            t == terminator(*self),
    {
        match self {
            FileMode::Directory => 47,
            _ => 0,
        }
    }
}

/// Tells whether entry `a` comes strictly before entry `b` in a tree.
pub fn entry_precedes(a: &TreeEntry, b: &TreeEntry) -> (res: bool)
    ensures
        res == precedes(a@, b@),
{
    key_before(a.name.as_slice(), a.mode.terminator(), b.name.as_slice(), b.mode.terminator())
}

/// An empty sequence holds nothing.
proof fn lemma_empty_holds_nothing<A>(s: Seq<A>)
    requires
        s.len() == 0,
    ensures
        s.to_multiset() == Multiset::<A>::empty(),
{
    to_multiset_len(s);
    vstd::multiset::lemma_multiset_empty_len(s.to_multiset());
}

/// Putting an entry where everything before it does not come after it, and
/// what follows comes after it, keeps a sequence in order.
proof fn lemma_insert_keeps_order(s: Seq<TreeEntryView>, pos: int, e: TreeEntryView)
    requires
        ordered(s),
        0 <= pos <= s.len(),
        forall|m: int| 0 <= m < pos ==> !precedes(e, #[trigger] s[m]),
        pos < s.len() ==> precedes(e, s[pos]),
    ensures
        ordered(s.insert(pos, e)),
{
    let t = s.insert(pos, e);
    assert forall|i: int, j: int| 0 <= i < j < t.len() implies !precedes(
        #[trigger] t[j],
        #[trigger] t[i],
    ) by {
        if j == pos {
            assert(t[i] == s[i]);
        } else if i == pos {
            assert(t[j] == s[j - 1]);
            if precedes(s[j - 1], e) {
                if j - 1 > pos {
                    lemma_bytes_before_transitive(sort_key(s[j - 1]), sort_key(e), sort_key(s[pos]));
                    assert(!precedes(s[j - 1], s[pos]));
                } else {
                    lemma_bytes_before_asymmetric(sort_key(e), sort_key(s[pos]));
                }
            }
        } else {
            let i0 = if i < pos { i } else { i - 1 };
            let j0 = if j < pos { j } else { j - 1 };
            assert(t[i] == s[i0] && t[j] == s[j0]);
            assert(!precedes(s[j0], s[i0]));
        }
    }
}

/// Where an entry goes in a sequence that is in order: after everything that
/// does not come after it.
proof fn lemma_insertion_point(s: Seq<TreeEntryView>, e: TreeEntryView, from: int) -> (pos: int)
    requires
        0 <= from <= s.len(),
        forall|m: int| 0 <= m < from ==> !precedes(e, #[trigger] s[m]),
    ensures
        0 <= pos <= s.len(),
        forall|m: int| 0 <= m < pos ==> !precedes(e, #[trigger] s[m]),
        pos < s.len() ==> precedes(e, s[pos]),
    decreases s.len() - from,
{
    if from < s.len() && !precedes(e, s[from]) {
        lemma_insertion_point(s, e, from + 1)
    } else {
        from
    }
}

/// Every sequence of entries can be put in order by moving entries only.
proof fn lemma_ordered_arrangement(entries: Seq<TreeEntryView>) -> (sorted: Seq<TreeEntryView>)
    ensures
        ordered(sorted),
        sorted.to_multiset() == entries.to_multiset(),
        entry_names(sorted).to_multiset() == entry_names(entries).to_multiset(),
    decreases entries.len(),
{
    if entries.len() == 0 {
        assert(entry_names(entries) =~= Seq::<Seq<u8>>::empty());
        lemma_empty_holds_nothing(entry_names(entries));
        lemma_empty_holds_nothing(entries);
        entries
    } else {
        let e = entries.last();
        let front = entries.drop_last();
        let s = lemma_ordered_arrangement(front);
        let pos = lemma_insertion_point(s, e, 0);
        lemma_insert_keeps_order(s, pos, e);
        assert(entries =~= front.push(e));
        assert(entry_names(entries) =~= entry_names(front).push(e.name));
        assert(entry_names(s.insert(pos, e)) =~= entry_names(s).insert(pos, e.name));
        to_multiset_build(front, e);
        to_multiset_insert(s, pos, e);
        to_multiset_build(entry_names(front), e.name);
        to_multiset_insert(entry_names(s), pos, e.name);
        s.insert(pos, e)
    }
}

/// Entries of which no two share a name have a canonical order.
pub proof fn lemma_canonical_order_exists(entries: Seq<TreeEntryView>)
    requires
        entry_names(entries).no_duplicates(),
    ensures
        exists|sorted: Seq<TreeEntryView>| is_canonical_order_of(sorted, entries),
{
    let sorted = lemma_ordered_arrangement(entries);
    entry_names(entries).lemma_multiset_has_no_duplicates();
    entry_names(sorted).lemma_multiset_has_no_duplicates_conv();
    lemma_ordered_distinct_is_ascending(sorted);
    assert(is_canonical_order_of(sorted, entries));
}

/// Puts entries into the canonical order of a tree. The result holds the
/// same entries and none comes before an earlier one; where no two entries
/// share a name it is strictly ascending, and so the one canonical order.
pub fn sort_entries(entries: Vec<TreeEntry>) -> (out: Vec<TreeEntry>)
    ensures
        entry_views(out@).to_multiset() == entry_views(entries@).to_multiset(),
        ordered(entry_views(out@)),
        entry_names(entry_views(entries@)).no_duplicates() ==> is_canonical_order_of(
            entry_views(out@),
            entry_views(entries@),
        ),
{
    let ghost all = entry_views(entries@);
    let mut rest = entries;
    let mut out: Vec<TreeEntry> = Vec::new();
    proof {
        lemma_empty_holds_nothing(entry_views(out@));
        lemma_empty_holds_nothing(entry_names(entry_views(out@)));
    }
    assert(all.to_multiset().add(Multiset::<TreeEntryView>::empty()) =~= all.to_multiset());
    assert(entry_names(all).to_multiset().add(Multiset::<Seq<u8>>::empty()) =~= entry_names(
        all,
    ).to_multiset());
    while rest.len() > 0
        invariant
            entry_views(rest@).to_multiset().add(entry_views(out@).to_multiset())
                == all.to_multiset(),
            entry_names(entry_views(rest@)).to_multiset().add(
                entry_names(entry_views(out@)).to_multiset(),
            ) == entry_names(all).to_multiset(),
            ordered(entry_views(out@)),
        decreases rest.len(),
    {
        let ghost rest_before = entry_views(rest@);
        let ghost out_before = entry_views(out@);
        let e = rest.pop().unwrap();
        let mut pos: usize = 0;
        while pos < out.len() && !entry_precedes(&e, &out[pos])
            invariant
                pos <= out.len(),
                out_before == entry_views(out@),
                forall|m: int| 0 <= m < pos ==> !precedes(e@, #[trigger] out_before[m]),
            decreases out.len() - pos,
        {
            pos += 1;
        }
        out.insert(pos, e);
        proof {
            let rest_after = entry_views(rest@);
            let out_after = entry_views(out@);
            assert(rest_before =~= rest_after.push(e@));
            assert(out_after =~= out_before.insert(pos as int, e@));
            assert(entry_names(rest_before) =~= entry_names(rest_after).push(e@.name));
            assert(entry_names(out_after) =~= entry_names(out_before).insert(
                pos as int,
                e@.name,
            ));
            to_multiset_build(rest_after, e@);
            to_multiset_insert(out_before, pos as int, e@);
            to_multiset_build(entry_names(rest_after), e@.name);
            to_multiset_insert(entry_names(out_before), pos as int, e@.name);
            assert(rest_after.to_multiset().add(out_after.to_multiset()) =~= rest_before.to_multiset().add(
                out_before.to_multiset(),
            ));
            assert(entry_names(rest_after).to_multiset().add(
                entry_names(out_after).to_multiset(),
            ) =~= entry_names(rest_before).to_multiset().add(
                entry_names(out_before).to_multiset(),
            ));
            lemma_insert_keeps_order(out_before, pos as int, e@);
        }
    }
    proof {
        let sorted = entry_views(out@);
        lemma_empty_holds_nothing(entry_views(rest@));
        lemma_empty_holds_nothing(entry_names(entry_views(rest@)));
        assert(Multiset::<TreeEntryView>::empty().add(sorted.to_multiset())
            =~= sorted.to_multiset());
        assert(Multiset::<Seq<u8>>::empty().add(entry_names(sorted).to_multiset()) =~= entry_names(
            sorted,
        ).to_multiset());
        if entry_names(all).no_duplicates() {
            entry_names(all).lemma_multiset_has_no_duplicates();
            entry_names(sorted).lemma_multiset_has_no_duplicates_conv();
            lemma_ordered_distinct_is_ascending(sorted);
        }
    }
    out
}

} // verus!
