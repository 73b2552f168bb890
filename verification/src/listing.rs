//! From the children of a root to the entries of its listing: the hidden
//! ones and the unreadable ones are left out, every other child gives its
//! entry, in the order of enumeration.

use crate::entry::{is_listed, listed_entry, Child, ChildView, Entry, FileInfo};
use crate::name::spec_is_hidden;
use crate::order::{entries_of, has_distinct_ranks, lemma_same_rank, same_rank};
use vstd::prelude::*;

verus! {

/// The mathematical values of a sequence of children.
pub open spec fn children_of(children: Seq<Child>) -> Seq<ChildView> {
    children.map_values(|c: Child| c@)
}

/// The entry that a child contributes to a listing, if any.
pub open spec fn entry_if_listed(child: ChildView, show_hidden: bool) -> Option<Entry> {
    if is_listed(child, show_hidden) {
        Some(listed_entry(child))
    } else {
        None
    }
}

/// The entries of the listed children, in the order of the children.
pub open spec fn listing(children: Seq<ChildView>, show_hidden: bool) -> Seq<Entry> {
    children.filter_map(|c: ChildView| entry_if_listed(c, show_hidden))
}

/// The child at position `i` is listed and gives the entry `entry`.
pub open spec fn gives_entry(
    children: Seq<ChildView>,
    show_hidden: bool,
    i: int,
    entry: Entry,
) -> bool {
    &&& 0 <= i < children.len()
    &&& is_listed(children[i], show_hidden)
    &&& listed_entry(children[i]) == entry
}

/// A listing holds the entries of the listed children and nothing else, so
/// it is never longer than the sequence of children.
pub proof fn lemma_listing_entries(children: Seq<ChildView>, show_hidden: bool)
    ensures
        listing(children, show_hidden).len() <= children.len(),
        forall|entry: Entry|
            listing(children, show_hidden).contains(entry) <==> exists|i: int|
                gives_entry(children, show_hidden, i, entry),
    decreases children.len(),
{
    if children.len() > 0 {
        let front = children.drop_last();
        let last = children.last();
        let listed = listing(children, show_hidden);
        let listed_front = listing(front, show_hidden);
        lemma_listing_entries(front, show_hidden);
        assert(listed == if is_listed(last, show_hidden) {
            listed_front + seq![listed_entry(last)]
        } else {
            listed_front
        });
        assert forall|entry: Entry| listed.contains(entry) <==> exists|i: int|
            gives_entry(children, show_hidden, i, entry) by {
            if listed.contains(entry) {
                let k = choose|k: int| 0 <= k < listed.len() && listed[k] == entry;
                if k < listed_front.len() {
                    assert(listed_front[k] == entry);
                    assert(listed_front.contains(entry));
                    let i = choose|i: int| gives_entry(front, show_hidden, i, entry);
                    assert(gives_entry(children, show_hidden, i, entry));
                } else {
                    assert(gives_entry(children, show_hidden, children.len() - 1, entry));
                }
            }
            if exists|i: int| gives_entry(children, show_hidden, i, entry) {
                let i = choose|i: int| gives_entry(children, show_hidden, i, entry);
                if i < front.len() {
                    assert(gives_entry(front, show_hidden, i, entry));
                    assert(listed_front.contains(entry));
                    let k = choose|k: int| 0 <= k < listed_front.len() && listed_front[k] == entry;
                    assert(listed[k] == entry);
                } else {
                    assert(listed[listed.len() - 1] == entry);
                }
            }
        }
    }
}

/// Every entry of a listing is well formed, and none is hidden unless
/// hidden entries were asked for.
pub proof fn lemma_listing_shown(children: Seq<ChildView>, show_hidden: bool)
    ensures
        forall|k: int|
            0 <= k < listing(children, show_hidden).len() ==> {
                let entry = #[trigger] listing(children, show_hidden)[k];
                entry.well_formed() && (show_hidden || !spec_is_hidden(entry.name))
            },
{
    let listed = listing(children, show_hidden);
    lemma_listing_entries(children, show_hidden);
    assert forall|k: int| 0 <= k < listed.len() implies {
        let entry = #[trigger] listed[k];
        entry.well_formed() && (show_hidden || !spec_is_hidden(entry.name))
    } by {
        assert(listed.contains(listed[k]));
        let i = choose|i: int| gives_entry(children, show_hidden, i, listed[k]);
    }
}

/// A listing is empty exactly when no child is listed.
pub proof fn lemma_listing_empty(children: Seq<ChildView>, show_hidden: bool)
    ensures
        listing(children, show_hidden).len() == 0 <==> forall|i: int|
            0 <= i < children.len() ==> !is_listed(#[trigger] children[i], show_hidden),
{
    let listed = listing(children, show_hidden);
    lemma_listing_entries(children, show_hidden);
    if listed.len() > 0 {
        assert(listed.contains(listed[0]));
        let i = choose|i: int| gives_entry(children, show_hidden, i, listed[0]);
        assert(is_listed(children[i], show_hidden));
    } else {
        assert forall|i: int| 0 <= i < children.len() implies !is_listed(
            #[trigger] children[i],
            show_hidden,
        ) by {
            if is_listed(children[i], show_hidden) {
                assert(gives_entry(children, show_hidden, i, listed_entry(children[i])));
                assert(listed.contains(listed_entry(children[i])));
            }
        }
    }
}

/// Showing hidden entries only adds to a listing: whatever is listed
/// without them is listed with them.
pub proof fn lemma_listing_superset(children: Seq<ChildView>)
    ensures
        forall|entry: Entry|
            listing(children, false).contains(entry) ==> listing(children, true).contains(entry),
{
    lemma_listing_entries(children, false);
    lemma_listing_entries(children, true);
    assert forall|entry: Entry| listing(children, false).contains(entry) implies listing(
        children,
        true,
    ).contains(entry) by {
        let i = choose|i: int| gives_entry(children, false, i, entry);
        assert(gives_entry(children, true, i, entry));
    }
}

/// No two of the children have the same name.
pub open spec fn has_distinct_names(children: Seq<ChildView>) -> bool {
    forall|i: int, j: int|
        #![trigger children[i], children[j]]
        0 <= i < j < children.len() ==> children[i].name != children[j].name
}

/// Children with different names give entries of different ranks.
pub proof fn lemma_listing_distinct_ranks(children: Seq<ChildView>, show_hidden: bool)
    requires
        has_distinct_names(children),
    ensures
        has_distinct_ranks(listing(children, show_hidden)),
    decreases children.len(),
{
    let listed = listing(children, show_hidden);
    if children.len() > 0 {
        let front = children.drop_last();
        let last = children.last();
        let listed_front = listing(front, show_hidden);
        assert(has_distinct_names(front)) by {
            assert forall|i: int, j: int|
                #![trigger front[i], front[j]]
                0 <= i < j < front.len() implies front[i].name != front[j].name by {
                assert(children[i].name != children[j].name);
            }
        }
        lemma_listing_distinct_ranks(front, show_hidden);
        lemma_listing_entries(front, show_hidden);
        assert(listed == if is_listed(last, show_hidden) {
            listed_front + seq![listed_entry(last)]
        } else {
            listed_front
        });
        assert forall|k: int, l: int|
            #![trigger listed[k], listed[l]]
            0 <= k < l < listed.len() implies !same_rank(listed[k], listed[l]) by {
            if l < listed_front.len() {
                assert(!same_rank(listed_front[k], listed_front[l]));
            } else {
                assert(listed_front.contains(listed_front[k]));
                let i = choose|i: int| gives_entry(front, show_hidden, i, listed_front[k]);
                assert(children[i].name != children[children.len() - 1].name);
                if same_rank(listed[k], listed[l]) {
                    lemma_same_rank(listed[k], listed[l]);
                }
            }
        }
    }
}

/// The listing of children that stand one after another is the listing of
/// the first ones followed by the listing of the others.
proof fn lemma_listing_concat(first: Seq<ChildView>, second: Seq<ChildView>, show_hidden: bool)
    ensures
        listing(first + second, show_hidden) == listing(first, show_hidden) + listing(
            second,
            show_hidden,
        ),
    decreases second.len(),
{
    if second.len() == 0 {
        assert(first + second =~= first);
        assert(listing(first, show_hidden) + listing(second, show_hidden) =~= listing(
            first,
            show_hidden,
        ));
    } else {
        lemma_listing_concat(first, second.drop_last(), show_hidden);
        assert((first + second).drop_last() =~= first + second.drop_last());
        assert((first + second).last() == second.last());
        assert(listing(first + second, show_hidden) =~= listing(first, show_hidden) + listing(
            second,
            show_hidden,
        ));
    }
}

/// Children that are enumerated in another order still give the same
/// entries, each as often as before.
pub proof fn lemma_listing_rearranged(
    first: Seq<ChildView>,
    second: Seq<ChildView>,
    show_hidden: bool,
)
    requires
        first.to_multiset() == second.to_multiset(),
    ensures
        listing(first, show_hidden).to_multiset() == listing(second, show_hidden).to_multiset(),
    decreases first.len(),
{
    vstd::seq_lib::to_multiset_len(first);
    vstd::seq_lib::to_multiset_len(second);
    if first.len() == 0 {
        assert(first =~= second);
    } else {
        let child = first.last();
        let first_rest = first.drop_last();
        vstd::seq_lib::to_multiset_contains(first, child);
        vstd::seq_lib::to_multiset_contains(second, child);
        assert(first.contains(child));
        let at = choose|at: int| 0 <= at < second.len() && second[at] == child;
        let before = second.subrange(0, at);
        let after = second.subrange(at + 1, second.len() as int);
        let second_rest = second.remove(at);
        vstd::seq_lib::to_multiset_remove(first, first.len() - 1);
        vstd::seq_lib::to_multiset_remove(second, at);
        assert(first.remove(first.len() - 1) =~= first_rest);
        lemma_listing_rearranged(first_rest, second_rest, show_hidden);

        let one = seq![child];
        let of_one = listing(one, show_hidden);
        let of_before = listing(before, show_hidden);
        let of_after = listing(after, show_hidden);
        assert(first =~= first_rest + one);
        assert(second =~= (before + one) + after);
        assert(second_rest =~= before + after);
        lemma_listing_concat(first_rest, one, show_hidden);
        lemma_listing_concat(before, one, show_hidden);
        lemma_listing_concat(before + one, after, show_hidden);
        lemma_listing_concat(before, after, show_hidden);
        vstd::seq_lib::lemma_multiset_commutative(listing(first_rest, show_hidden), of_one);
        vstd::seq_lib::lemma_multiset_commutative(of_before, of_one);
        vstd::seq_lib::lemma_multiset_commutative(of_before + of_one, of_after);
        vstd::seq_lib::lemma_multiset_commutative(of_before, of_after);
        assert(listing(first, show_hidden).to_multiset() =~= listing(
            second,
            show_hidden,
        ).to_multiset());
    }
}

/// Lists the children: drops the hidden ones unless `show_hidden` is set,
/// drops those without metadata, and builds the entries of the others in
/// the order in which they were enumerated.
pub fn list_children(children: Vec<Child>, show_hidden: bool) -> (files: Vec<FileInfo>)
    ensures
        entries_of(files@) == listing(children_of(children@), show_hidden),
{
    let ghost given = children_of(children@);
    let ghost pick = |c: ChildView| entry_if_listed(c, show_hidden);
    let mut files: Vec<FileInfo> = Vec::new();
    for child in rest: children
        invariant
            given == children_of(rest.seq()),
            pick == |c: ChildView| entry_if_listed(c, show_hidden),
            entries_of(files@) == given.take(rest.index() as int).filter_map(pick),
    {
        let ghost listed = entries_of(files@);
        proof {
            assert(given[rest.index() as int] == child@);
            given.lemma_filter_map_take_succ(pick, rest.index() as int);
        }
        match child.into_entry(show_hidden) {
            Some(info) => {
                files.push(info);
                assert(entries_of(files@) == listed + seq![info@]);
            },
            None => {
                assert(entries_of(files@) == listed + Seq::<Entry>::empty());
            },
        }
    }
    assert(given.take(given.len() as int) == given);
    files
}

} // verus!
