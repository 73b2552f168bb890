//! The order of a listing: directories first, then by name, entries of
//! equal rank in the order in which they were enumerated.

use crate::entry::{Entry, FileInfo};
use crate::name::{
    comes_before, lemma_name_before_asymmetric, lemma_name_before_irreflexive,
    lemma_name_before_total, lemma_name_before_transitive, name_before,
};
use vstd::prelude::*;

verus! {

/// `a` must stand before `b`: a directory before a file, and of two
/// directories or two files the one whose name comes first.
pub open spec fn precedes(a: Entry, b: Entry) -> bool {
    if a.is_dir != b.is_dir {
        a.is_dir
    } else {
        name_before(a.name, b.name)
    }
}

/// Two entries have the same rank when neither must stand before the other.
pub open spec fn same_rank(a: Entry, b: Entry) -> bool {
    !precedes(a, b) && !precedes(b, a)
}

/// No entry stands after one that it must precede.
pub open spec fn is_ordered(entries: Seq<Entry>) -> bool {
    forall|i: int, j: int|
        #![trigger entries[i], entries[j]]
        0 <= i < j < entries.len() ==> !precedes(entries[j], entries[i])
}

/// No two of the entries have the same rank.
pub open spec fn has_distinct_ranks(entries: Seq<Entry>) -> bool {
    forall|i: int, j: int|
        #![trigger entries[i], entries[j]]
        0 <= i < j < entries.len() ==> !same_rank(entries[i], entries[j])
}

/// Every entry must precede those that stand after it.
pub open spec fn is_strictly_ordered(entries: Seq<Entry>) -> bool {
    forall|i: int, j: int|
        #![trigger entries[i], entries[j]]
        0 <= i < j < entries.len() ==> precedes(entries[i], entries[j])
}

/// The mathematical values of a sequence of entries.
pub open spec fn entries_of(files: Seq<FileInfo>) -> Seq<Entry> {
    files.map_values(|f: FileInfo| f@)
}

/// In the ordered arrangement of `entries`, the one at `i` stands before the
/// one at `j`: it must precede it, or they have the same rank and `i` is the
/// earlier position.
pub open spec fn stands_before(entries: Seq<Entry>, i: int, j: int) -> bool {
    precedes(entries[i], entries[j]) || (!precedes(entries[j], entries[i]) && i < j)
}

/// `ordered` arranges `entries` in order, and `origin` tells for each
/// position of `ordered` the position in `entries` that it was taken from.
pub open spec fn is_ordering_by(ordered: Seq<Entry>, entries: Seq<Entry>, origin: Seq<int>) -> bool {
    &&& ordered.len() == entries.len()
    &&& origin.len() == entries.len()
    &&& forall|k: int| 0 <= k < origin.len() ==> 0 <= #[trigger] origin[k] < entries.len()
    &&& forall|k: int| 0 <= k < ordered.len() ==> #[trigger] ordered[k] == entries[origin[k]]
    &&& forall|k: int, l: int|
        #![trigger origin[k], origin[l]]
        0 <= k < l < origin.len() ==> stands_before(entries, origin[k], origin[l])
}

/// `ordered` is the stable ordering of `entries`: it holds each entry of
/// `entries` once, every entry before those that it must precede, and
/// entries of the same rank in the order that they have in `entries`.
pub open spec fn is_ordering_of(ordered: Seq<Entry>, entries: Seq<Entry>) -> bool {
    exists|origin: Seq<int>| is_ordering_by(ordered, entries, origin)
}

/// No entry must stand before itself.
pub proof fn lemma_precedes_irreflexive(a: Entry)
    ensures
        !precedes(a, a),
{
    lemma_name_before_irreflexive(a.name);
}

/// Two entries never have to stand before each other.
pub proof fn lemma_precedes_asymmetric(a: Entry, b: Entry)
    requires
        precedes(a, b),
    ensures
        !precedes(b, a),
{
    if a.is_dir == b.is_dir {
        lemma_name_before_asymmetric(a.name, b.name);
    }
}

/// `precedes` is transitive.
pub proof fn lemma_precedes_transitive(a: Entry, b: Entry, c: Entry)
    requires
        precedes(a, b),
        precedes(b, c),
    ensures
        precedes(a, c),
{
    if a.is_dir == b.is_dir && b.is_dir == c.is_dir {
        lemma_name_before_transitive(a.name, b.name, c.name);
    }
}

/// Entries of the same rank are both directories or both files, and have
/// the same name.
pub proof fn lemma_same_rank(a: Entry, b: Entry)
    requires
        same_rank(a, b),
    ensures
        a.is_dir == b.is_dir,
        a.name == b.name,
{
    lemma_name_before_total(a.name, b.name);
}

/// Whatever stands between two entries in rank is told apart from one of
/// them: if `a` must precede `c`, then it must precede `b`, or `b` must
/// precede `c`.
pub proof fn lemma_precedes_splits(a: Entry, b: Entry, c: Entry)
    requires
        precedes(a, c),
    ensures
        precedes(a, b) || precedes(b, c),
{
    if !precedes(a, b) && !precedes(b, c) {
        if precedes(b, a) {
            lemma_precedes_transitive(b, a, c);
        } else {
            lemma_same_rank(a, b);
        }
    }
}

/// Of two different positions exactly one stands before the other.
pub proof fn lemma_stands_before_total(entries: Seq<Entry>, i: int, j: int)
    ensures
        !stands_before(entries, i, i),
        i != j ==> (stands_before(entries, i, j) <==> !stands_before(entries, j, i)),
{
    lemma_precedes_irreflexive(entries[i]);
    if precedes(entries[i], entries[j]) {
        lemma_precedes_asymmetric(entries[i], entries[j]);
    }
}

/// An ordering leaves no entry after one that it must precede.
pub proof fn lemma_ordering_is_ordered(ordered: Seq<Entry>, entries: Seq<Entry>)
    requires
        is_ordering_of(ordered, entries),
    ensures
        is_ordered(ordered),
{
    let origin = choose|origin: Seq<int>| is_ordering_by(ordered, entries, origin);
    assert forall|i: int, j: int|
        #![trigger ordered[i], ordered[j]]
        0 <= i < j < ordered.len() implies !precedes(ordered[j], ordered[i]) by {
        assert(stands_before(entries, origin[i], origin[j]));
        lemma_stands_before_total(entries, origin[i], origin[j]);
        if precedes(ordered[i], ordered[j]) {
            lemma_precedes_asymmetric(ordered[i], ordered[j]);
        }
    }
}

/// The origins of an ordering name every position of the entries.
proof fn lemma_origin_covers(ordered: Seq<Entry>, entries: Seq<Entry>, origin: Seq<int>)
    requires
        is_ordering_by(ordered, entries, origin),
    ensures
        forall|a: int| 0 <= a < entries.len() ==> origin.contains(a),
{
    let n = entries.len() as int;
    assert forall|k: int, l: int|
        0 <= k < origin.len() && 0 <= l < origin.len() && k != l implies origin[k] != origin[l] by {
        lemma_stands_before_total(entries, origin[k], origin[l]);
        if k < l {
            assert(stands_before(entries, origin[k], origin[l]));
        } else {
            assert(stands_before(entries, origin[l], origin[k]));
        }
    }
    origin.unique_seq_to_set();
    vstd::set_lib::lemma_int_range(0, n);
    let range = vstd::set_lib::set_int_range(0, n);
    assert(origin.to_set().subset_of(range)) by {
        assert forall|a: int| origin.to_set().contains(a) implies range.contains(a) by {
            let k = choose|k: int| 0 <= k < origin.len() && origin[k] == a;
            assert(0 <= origin[k] < n);
        }
    }
    vstd::seq_lib::seq_to_set_is_finite(origin);
    vstd::set_lib::lemma_subset_equality(origin.to_set(), range);
    assert forall|a: int| 0 <= a < entries.len() implies origin.contains(a) by {
        assert(range.contains(a));
        assert(origin.to_set().contains(a));
    }
}

/// An ordering holds the entries that it was made of, and no others.
pub proof fn lemma_ordering_keeps_entries(ordered: Seq<Entry>, entries: Seq<Entry>)
    requires
        is_ordering_of(ordered, entries),
    ensures
        ordered.len() == entries.len(),
        forall|e: Entry| ordered.contains(e) <==> entries.contains(e),
{
    let origin = choose|origin: Seq<int>| is_ordering_by(ordered, entries, origin);
    lemma_origin_covers(ordered, entries, origin);
    assert forall|e: Entry| ordered.contains(e) <==> entries.contains(e) by {
        if ordered.contains(e) {
            let k = choose|k: int| 0 <= k < ordered.len() && ordered[k] == e;
            assert(entries[origin[k]] == e);
        }
        if entries.contains(e) {
            let a = choose|a: int| 0 <= a < entries.len() && entries[a] == e;
            assert(origin.contains(a));
            let k = choose|k: int| 0 <= k < origin.len() && origin[k] == a;
            assert(ordered[k] == e);
        }
    }
}

/// A sequence that takes each of its positions from a different position
/// of another sequence of the same length holds every value as often as the
/// other does.
proof fn lemma_rearrangement(taken: Seq<Entry>, entries: Seq<Entry>, origin: Seq<int>)
    requires
        taken.len() == entries.len(),
        origin.len() == entries.len(),
        forall|k: int| 0 <= k < origin.len() ==> 0 <= #[trigger] origin[k] < entries.len(),
        forall|k: int, l: int|
            #![trigger origin[k], origin[l]]
            0 <= k < l < origin.len() ==> origin[k] != origin[l],
        forall|k: int| 0 <= k < taken.len() ==> #[trigger] taken[k] == entries[origin[k]],
    ensures
        taken.to_multiset() == entries.to_multiset(),
    decreases taken.len(),
{
    if taken.len() == 0 {
        assert(taken =~= entries);
    } else {
        let last = taken.len() - 1;
        let from = origin[last];
        let entry = taken[last];
        let taken_front = taken.drop_last();
        let entries_rest = entries.remove(from);
        let origin_rest = Seq::new(
            last as nat,
            |k: int| if origin[k] > from { origin[k] - 1 } else { origin[k] },
        );
        assert forall|k: int| 0 <= k < origin_rest.len() implies 0 <= #[trigger] origin_rest[k]
            < entries_rest.len() && taken_front[k] == entries_rest[origin_rest[k]] by {
            assert(origin[k] != origin[last]);
            assert(taken[k] == entries[origin[k]]);
        }
        assert forall|k: int, l: int|
            #![trigger origin_rest[k], origin_rest[l]]
            0 <= k < l < origin_rest.len() implies origin_rest[k] != origin_rest[l] by {
            assert(origin[k] != origin[l]);
        }
        lemma_rearrangement(taken_front, entries_rest, origin_rest);
        assert(taken_front.push(entry) =~= taken);
        assert(entries_rest.insert(from, entry) =~= entries);
        vstd::seq_lib::to_multiset_build(taken_front, entry);
        vstd::seq_lib::to_multiset_insert(entries_rest, from, entry);
    }
}

/// An ordering rearranges its entries: it holds each of them as often as
/// they hold it.
pub proof fn lemma_ordering_permutes(ordered: Seq<Entry>, entries: Seq<Entry>)
    requires
        is_ordering_of(ordered, entries),
    ensures
        ordered.to_multiset() == entries.to_multiset(),
{
    let origin = choose|origin: Seq<int>| is_ordering_by(ordered, entries, origin);
    assert forall|k: int, l: int|
        #![trigger origin[k], origin[l]]
        0 <= k < l < origin.len() implies origin[k] != origin[l] by {
        lemma_stands_before_total(entries, origin[k], origin[l]);
    }
    lemma_rearrangement(ordered, entries, origin);
}

/// Two orderings of the same entries take each position from the same
/// place.
proof fn lemma_origins_agree(
    entries: Seq<Entry>,
    first: Seq<Entry>,
    first_origin: Seq<int>,
    second: Seq<Entry>,
    second_origin: Seq<int>,
    k: int,
)
    requires
        is_ordering_by(first, entries, first_origin),
        is_ordering_by(second, entries, second_origin),
        0 <= k < entries.len(),
    ensures
        first_origin[k] == second_origin[k],
    decreases k,
{
    assert forall|m: int| 0 <= m < k implies first_origin[m] == second_origin[m] by {
        lemma_origins_agree(entries, first, first_origin, second, second_origin, m);
    }
    let a = first_origin[k];
    let b = second_origin[k];
    if a != b {
        lemma_stands_before_total(entries, a, b);
        lemma_origin_covers(first, entries, first_origin);
        lemma_origin_covers(second, entries, second_origin);
        if stands_before(entries, a, b) {
            assert(second_origin.contains(a));
            let m = choose|m: int| 0 <= m < second_origin.len() && second_origin[m] == a;
            if m < k {
                assert(stands_before(entries, first_origin[m], first_origin[k]));
                lemma_stands_before_total(entries, a, a);
            } else {
                assert(stands_before(entries, second_origin[k], second_origin[m]));
            }
        } else {
            assert(first_origin.contains(b));
            let m = choose|m: int| 0 <= m < first_origin.len() && first_origin[m] == b;
            if m < k {
                assert(stands_before(entries, second_origin[m], second_origin[k]));
                lemma_stands_before_total(entries, b, b);
            } else {
                assert(stands_before(entries, first_origin[k], first_origin[m]));
            }
        }
    }
}

/// The entries determine their ordering: any two orderings of the same
/// entries are equal.
pub proof fn lemma_ordering_unique(first: Seq<Entry>, second: Seq<Entry>, entries: Seq<Entry>)
    requires
        is_ordering_of(first, entries),
        is_ordering_of(second, entries),
    ensures
        first == second,
{
    let first_origin = choose|origin: Seq<int>| is_ordering_by(first, entries, origin);
    let second_origin = choose|origin: Seq<int>| is_ordering_by(second, entries, origin);
    assert forall|k: int| 0 <= k < first.len() implies first[k] == second[k] by {
        lemma_origins_agree(entries, first, first_origin, second, second_origin, k);
    }
}

/// A strictly ordered sequence is the only ordered one that holds its
/// entries.
proof fn lemma_strictly_ordered_unique(strict: Seq<Entry>, other: Seq<Entry>)
    requires
        is_strictly_ordered(strict),
        is_ordered(other),
        strict.to_multiset() == other.to_multiset(),
    ensures
        strict == other,
    decreases strict.len(),
{
    vstd::seq_lib::to_multiset_len(strict);
    vstd::seq_lib::to_multiset_len(other);
    if strict.len() > 0 {
        let head = strict[0];
        let other_head = other[0];
        vstd::seq_lib::to_multiset_contains(strict, head);
        vstd::seq_lib::to_multiset_contains(other, head);
        vstd::seq_lib::to_multiset_contains(strict, other_head);
        vstd::seq_lib::to_multiset_contains(other, other_head);
        assert(strict.contains(head));
        assert(other.contains(other_head));
        let at = choose|at: int| 0 <= at < other.len() && other[at] == head;
        let other_at = choose|at: int| 0 <= at < strict.len() && strict[at] == other_head;
        assert(head == other_head) by {
            if at > 0 && other_at > 0 {
                assert(precedes(strict[0], strict[other_at]));
                assert(!precedes(other[at], other[0]));
            }
        }
        vstd::seq_lib::to_multiset_remove(strict, 0);
        vstd::seq_lib::to_multiset_remove(other, 0);
        assert(strict.remove(0) =~= strict.drop_first());
        assert(other.remove(0) =~= other.drop_first());
        assert(is_strictly_ordered(strict.drop_first())) by {
            assert forall|i: int, j: int|
                #![trigger strict.drop_first()[i], strict.drop_first()[j]]
                0 <= i < j < strict.drop_first().len() implies precedes(
                strict.drop_first()[i],
                strict.drop_first()[j],
            ) by {
                assert(precedes(strict[i + 1], strict[j + 1]));
            }
        }
        assert(is_ordered(other.drop_first())) by {
            assert forall|i: int, j: int|
                #![trigger other.drop_first()[i], other.drop_first()[j]]
                0 <= i < j < other.drop_first().len() implies !precedes(
                other.drop_first()[j],
                other.drop_first()[i],
            ) by {
                assert(!precedes(other[j + 1], other[i + 1]));
            }
        }
        lemma_strictly_ordered_unique(strict.drop_first(), other.drop_first());
        assert(strict =~= seq![head] + strict.drop_first());
        assert(other =~= seq![other_head] + other.drop_first());
    } else {
        assert(strict =~= other);
    }
}

/// Where no two entries have the same rank, their ordering does not depend
/// on how they are arranged: two sequences that hold the same entries have
/// the same ordering.
pub proof fn lemma_ordering_ignores_arrangement(
    first: Seq<Entry>,
    second: Seq<Entry>,
    first_ordered: Seq<Entry>,
    second_ordered: Seq<Entry>,
)
    requires
        first.to_multiset() == second.to_multiset(),
        has_distinct_ranks(first),
        is_ordering_of(first_ordered, first),
        is_ordering_of(second_ordered, second),
    ensures
        first_ordered == second_ordered,
{
    lemma_ordering_permutes(first_ordered, first);
    lemma_ordering_permutes(second_ordered, second);
    lemma_ordering_is_ordered(second_ordered, second);
    let origin = choose|origin: Seq<int>| is_ordering_by(first_ordered, first, origin);
    assert forall|i: int, j: int|
        #![trigger first_ordered[i], first_ordered[j]]
        0 <= i < j < first_ordered.len() implies precedes(first_ordered[i], first_ordered[j]) by {
        assert(stands_before(first, origin[i], origin[j]));
        lemma_stands_before_total(first, origin[i], origin[j]);
        if origin[i] < origin[j] {
            assert(!same_rank(first[origin[i]], first[origin[j]]));
        } else {
            assert(!same_rank(first[origin[j]], first[origin[i]]));
        }
    }
    lemma_strictly_ordered_unique(first_ordered, second_ordered);
}

impl FileInfo {
    /// Tells whether this entry must stand before `other` in a listing.
    pub fn sorts_before(&self, other: &FileInfo) -> (before: bool)
        ensures
            before == precedes(self@, other@),
    {
        if self.is_dir != other.is_dir {
            self.is_dir
        } else {
            comes_before(self.name.as_str(), other.name.as_str())
        }
    }
}

/// Brings `files` into order: directories first, then by name, entries of
/// the same rank in the order in which they came.
pub fn sort_entries(files: &mut Vec<FileInfo>)
    ensures
        is_ordering_of(entries_of(final(files)@), entries_of(old(files)@)),
        is_ordered(entries_of(final(files)@)),
        entries_of(final(files)@).to_multiset() == entries_of(old(files)@).to_multiset(),
{
    let n: usize = files.len();
    let ghost given: Seq<Entry> = entries_of(files@);
    let ghost mut origin: Seq<int> = Seq::new(n as nat, |k: int| k);
    let mut i: usize = 0;
    while i < n
        invariant
            i <= n,
            files.len() == n,
            given.len() == n,
            origin.len() == n,
            forall|k: int| 0 <= k < n ==> 0 <= #[trigger] origin[k] < n,
            forall|k: int| 0 <= k < n ==> (#[trigger] files@[k])@ == given[origin[k]],
            forall|k: int| i <= k < n ==> #[trigger] origin[k] == k,
            forall|k: int| 0 <= k < i ==> #[trigger] origin[k] < i,
            forall|k: int, l: int|
                #![trigger origin[k], origin[l]]
                0 <= k < l < i ==> stands_before(given, origin[k], origin[l]),
        decreases n - i,
    {
        let mut j: usize = i;
        while j > 0 && files[i].sorts_before(&files[j - 1])
            invariant
                j <= i < n,
                files.len() == n,
                forall|k: int| j <= k < i ==> precedes(files@[i as int]@, (#[trigger] files@[k])@),
            decreases j,
        {
            j -= 1;
        }
        let ghost before = files@;
        let ghost origin_before = origin;
        if j < i {
            let moved = files.remove(i);
            files.insert(j, moved);
            proof {
                origin = origin.remove(i as int).insert(j as int, i as int);
            }
        }
        proof {
            let moved = before[i as int]@;
            assert forall|k: int| 0 <= k < j implies !precedes(moved, (#[trigger] before[k])@) by {
                if k < j - 1 {
                    assert(stands_before(given, origin_before[k], origin_before[j - 1]));
                    if precedes(before[j - 1]@, before[k]@) {
                        lemma_precedes_asymmetric(before[j - 1]@, before[k]@);
                    }
                    if precedes(moved, before[k]@) {
                        lemma_precedes_splits(moved, before[j - 1]@, before[k]@);
                    }
                }
            }
            assert forall|k: int, l: int|
                #![trigger origin[k], origin[l]]
                0 <= k < l < i + 1 implies stands_before(given, origin[k], origin[l]) by {
                if j < i {
                    let from_k = if k < j { k } else { k - 1 };
                    let from_l = if l < j { l } else { l - 1 };
                    if k == j {
                        assert(origin[k] == i);
                        assert(origin[l] == origin_before[from_l]);
                        assert(precedes(moved, before[from_l]@));
                    } else if l == j {
                        assert(origin[l] == i);
                        assert(origin[k] == origin_before[k]);
                        assert(!precedes(moved, before[k]@));
                    } else {
                        assert(origin[k] == origin_before[from_k]);
                        assert(origin[l] == origin_before[from_l]);
                    }
                } else if l == i {
                    assert(!precedes(moved, before[k]@));
                }
            }
        }
        i += 1;
    }
    proof {
        assert(is_ordering_by(entries_of(files@), given, origin));
        lemma_ordering_is_ordered(entries_of(files@), given);
        lemma_ordering_permutes(entries_of(files@), given);
    }
}

} // verus!
