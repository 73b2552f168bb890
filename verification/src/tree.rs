//! Listing the children of a root in order: directories first, then by
//! name.

pub use crate::entry::FileInfo;

use crate::config::{home_directory, resolve_root, resolved_root, root_of, ConfigurationError};
use crate::entry::{is_listed, is_shown, shows, Child, ChildView, Entry};
use crate::listing::{
    children_of, has_distinct_names, lemma_listing_distinct_ranks, lemma_listing_empty,
    lemma_listing_entries, lemma_listing_rearranged, lemma_listing_shown, lemma_listing_superset,
    list_children, listing,
};
use crate::name::spec_is_hidden;
use crate::order::{
    entries_of, is_ordered, is_ordering_of, lemma_ordering_ignores_arrangement,
    lemma_ordering_keeps_entries, lemma_ordering_unique, sort_entries,
};
use crate::text::text_of;
use vstd::prelude::*;

verus! {

/// Lists directories in order, with a default root and a default for the
/// visibility of hidden entries that are fixed when it is made.
#[derive(Debug, Clone, PartialEq, Eq)]
pub struct Explorer {
    path: Option<String>,
    hidden: bool,
}

impl Explorer {
    /// The root that is listed where a call names none, if there is one.
    pub closed spec fn default_root(&self) -> Option<Seq<char>> {
        text_of(self.path)
    }

    /// Whether hidden entries are listed where a call does not say.
    pub closed spec fn default_hidden(&self) -> bool {
        self.hidden
    }

    /// Whether a call with the option `hidden` lists hidden entries.
    pub open spec fn shows_hidden(&self, hidden: Option<bool>) -> bool {
        match hidden {
            Some(h) => h,
            None => self.default_hidden(),
        }
    }

    /// The listing that a call with the option `hidden` makes of `children`
    /// before it is ordered.
    pub open spec fn listed(&self, hidden: Option<bool>, children: Seq<Child>) -> Seq<Entry> {
        listing(children_of(children), self.shows_hidden(hidden))
    }

    /// Makes an explorer whose default root is the home directory of the
    /// current user, as far as it can be determined, and which leaves hidden
    /// entries out by default.
    pub fn new() -> (explorer: Explorer)
        ensures
            !explorer.default_hidden(),
    {
        Explorer::with_home(home_directory())
    }

    /// Makes an explorer whose default root is `home` and which leaves
    /// hidden entries out by default.
    pub fn with_home(home: Option<String>) -> (explorer: Explorer)
        ensures
            explorer.default_root() == text_of(home),
            !explorer.default_hidden(),
    {
        Explorer::from_parts(home, false)
    }

    /// Makes an explorer from its default root and its default for the
    /// visibility of hidden entries.
    pub fn from_parts(path: Option<String>, hidden: bool) -> (explorer: Explorer)
        ensures
            explorer.default_root() == text_of(path),
            explorer.default_hidden() == hidden,
    {
        Explorer { path, hidden }
    }

    /// Gives back the default root and the default for the visibility of
    /// hidden entries.
    pub fn into_parts(self) -> (parts: (Option<String>, bool))
        ensures
            text_of(parts.0) == self.default_root(),
            parts.1 == self.default_hidden(),
    {
        (self.path, self.hidden)
    }

    /// Settles the root of a listing: `path` where it is given, else the
    /// default root. Fails where there is neither.
    pub fn root(&self, path: Option<String>) -> (root: Result<String, ConfigurationError>)
        ensures
            root_of(root) == resolved_root(text_of(path), self.default_root()),
    {
        match path {
            Some(p) => resolve_root(Some(p), None),
            None => resolve_root(None, self.path.clone()),
        }
    }

    /// Settles whether hidden entries are listed: as `hidden` says, else as
    /// the default says.
    pub fn show_hidden(&self, hidden: Option<bool>) -> (show: bool)
        ensures
            show == self.shows_hidden(hidden),
    {
        match hidden {
            Some(h) => h,
            None => self.hidden,
        }
    }

    /// Tells whether a child called `name` can appear in a listing made with
    /// the option `hidden`, so that the host need not read the metadata of
    /// one that cannot.
    pub fn admits(&self, hidden: Option<bool>, name: &str) -> (admitted: bool)
        ensures
            admitted == is_shown(name@, self.shows_hidden(hidden)),
    {
        shows(name, self.show_hidden(hidden))
    }

    /// Lists `children`, the direct children of a root as the host
    /// enumerated them. Hidden children are left out unless the option
    /// `hidden`, or in its absence the default, asks for them, and so are
    /// children whose metadata could not be read. The entries of the others
    /// come in order: directories before files, directories by name and
    /// files by name, and entries that agree in both as they were
    /// enumerated.
    pub fn explore(&self, hidden: Option<bool>, children: Vec<Child>) -> (files: Vec<FileInfo>)
        ensures
            is_ordering_of(entries_of(files@), self.listed(hidden, children@)),
            is_ordered(entries_of(files@)),
            entries_of(files@).to_multiset() == self.listed(hidden, children@).to_multiset(),
            files.len() <= children.len(),
            files.len() == 0 <==> forall|i: int|
                0 <= i < children.len() ==> !is_listed(
                    (#[trigger] children@[i])@,
                    self.shows_hidden(hidden),
                ),
            forall|k: int|
                0 <= k < files.len() ==> {
                    let entry = (#[trigger] files@[k])@;
                    entry.well_formed() && (self.shows_hidden(hidden) || !spec_is_hidden(
                        entry.name,
                    ))
                },
    {
        let show = self.show_hidden(hidden);
        let mut files = list_children(children, show);
        sort_entries(&mut files);
        proof {
            let given = children_of(children@);
            let listed = listing(given, show);
            let ordered = entries_of(files@);
            lemma_ordering_keeps_entries(ordered, listed);
            lemma_listing_shown(given, show);
            lemma_listing_empty(given, show);
            lemma_listing_entries(given, show);
            assert forall|k: int| 0 <= k < files.len() implies {
                let entry = (#[trigger] files@[k])@;
                entry.well_formed() && (show || !spec_is_hidden(entry.name))
            } by {
                let entry = files@[k]@;
                assert(ordered[k] == entry);
                assert(ordered.contains(entry));
                assert(listed.contains(entry));
                let l = choose|l: int| 0 <= l < listed.len() && listed[l] == entry;
                assert(listed[l].well_formed());
            }
            assert forall|i: int| 0 <= i < children.len() implies given[i] == (
            #[trigger] children@[i])@ by {}
        }
        files
    }
}

/// Asking for hidden entries only adds to the result: every entry that is
/// returned without them is also returned with them.
pub proof fn lemma_hidden_adds_entries(
    children: Seq<ChildView>,
    without_hidden: Seq<Entry>,
    with_hidden: Seq<Entry>,
)
    requires
        is_ordering_of(without_hidden, listing(children, false)),
        is_ordering_of(with_hidden, listing(children, true)),
    ensures
        forall|entry: Entry| without_hidden.contains(entry) ==> with_hidden.contains(entry),
{
    lemma_ordering_keeps_entries(without_hidden, listing(children, false));
    lemma_ordering_keeps_entries(with_hidden, listing(children, true));
    lemma_listing_superset(children);
}

/// The result does not depend on the order in which the host enumerates
/// the children, as long as no two of them have the same name: two
/// enumerations of the same children give the same result.
pub proof fn lemma_enumeration_order_is_immaterial(
    first_children: Seq<ChildView>,
    second_children: Seq<ChildView>,
    show_hidden: bool,
    first: Seq<Entry>,
    second: Seq<Entry>,
)
    requires
        first_children.to_multiset() == second_children.to_multiset(),
        has_distinct_names(first_children),
        is_ordering_of(first, listing(first_children, show_hidden)),
        is_ordering_of(second, listing(second_children, show_hidden)),
    ensures
        first == second,
{
    lemma_listing_rearranged(first_children, second_children, show_hidden);
    lemma_listing_distinct_ranks(first_children, show_hidden);
    lemma_ordering_ignores_arrangement(
        listing(first_children, show_hidden),
        listing(second_children, show_hidden),
        first,
        second,
    );
}

/// Listing is repeatable: the children and the visibility determine the
/// result, so two listings of the same children are equal, entry by entry
/// and in the same order.
pub proof fn lemma_listing_repeatable(
    children: Seq<ChildView>,
    show_hidden: bool,
    first: Seq<Entry>,
    second: Seq<Entry>,
)
    requires
        is_ordering_of(first, listing(children, show_hidden)),
        is_ordering_of(second, listing(children, show_hidden)),
    ensures
        first == second,
{
    lemma_ordering_unique(first, second, listing(children, show_hidden));
}

} // verus!
