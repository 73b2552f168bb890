//! The entries of a listing, and what the host reports of a directory's
//! children.

use crate::name::{extension, is_hidden, spec_extension, spec_is_hidden};
use crate::text::text_of;
use vstd::prelude::*;

verus! {

/// A point in time, as the duration elapsed since the Unix epoch.
#[derive(Debug, Clone, Copy, PartialEq, Eq, Structural)]
pub struct Timestamp {
    /// Whole seconds since the epoch.
    pub secs: u64,
    /// Nanoseconds beyond the last whole second.
    pub nanos: u32,
}

impl Timestamp {
    /// The Unix epoch, which stands in for a modification time that the
    /// host could not report.
    pub open spec fn spec_epoch() -> Timestamp {
        Timestamp { secs: 0, nanos: 0 }
    }

    /// Returns the Unix epoch.
    pub fn epoch() -> (t: Timestamp)
        ensures
            t == Self::spec_epoch(),
    {
        Timestamp { secs: 0, nanos: 0 }
    }
}

/// What the host reports of one child after following symbolic links: a
/// link to a directory counts as a directory, anything else that is not a
/// directory counts as a file.
#[derive(Debug, Clone, Copy, PartialEq, Eq, Structural)]
pub struct Metadata {
    /// Whether the child is a directory.
    pub is_dir: bool,
    /// Length in bytes, as the host reports it.
    pub size: u64,
    /// Time of the last modification, where the host can tell.
    pub modified: Option<Timestamp>,
}

/// A direct child of the root, as the host enumerated it.
#[derive(Debug, Clone, PartialEq, Eq)]
pub struct Child {
    /// Location of the child.
    pub path: String,
    /// Final component of `path`.
    pub name: String,
    /// The child's metadata, or `None` where the host could not read it.
    pub metadata: Option<Metadata>,
}

/// Mathematical value of a [`Child`].
pub struct ChildView {
    pub path: Seq<char>,
    pub name: Seq<char>,
    pub metadata: Option<Metadata>,
}

impl View for Child {
    type V = ChildView;

    open spec fn view(&self) -> ChildView {
        ChildView { path: self.path@, name: self.name@, metadata: self.metadata }
    }
}

/// One entry of a listing.
#[derive(Debug, Clone, PartialEq, Eq)]
pub struct FileInfo {
    /// Location of the entry.
    pub path: String,
    /// Final component of `path`.
    pub name: String,
    /// Length in bytes, as the host reports it.
    pub size: u64,
    /// What follows the last `.` of a file's name; `None` for directories
    /// and for names without an extension.
    pub file_ext: Option<String>,
    /// Whether the entry is a directory.
    pub is_dir: bool,
    /// Time of the last modification, or the Unix epoch where unknown.
    pub mod_time: Timestamp,
}

/// Mathematical value of a [`FileInfo`].
pub struct Entry {
    pub path: Seq<char>,
    pub name: Seq<char>,
    pub size: u64,
    pub file_ext: Option<Seq<char>>,
    pub is_dir: bool,
    pub mod_time: Timestamp,
}

impl Entry {
    /// The extension is the one that the name gives to a file, and a
    /// directory has none.
    pub open spec fn well_formed(self) -> bool {
        self.file_ext == spec_extension(self.name, self.is_dir)
    }
}

impl View for FileInfo {
    type V = Entry;

    open spec fn view(&self) -> Entry {
        Entry {
            path: self.path@,
            name: self.name@,
            size: self.size,
            file_ext: text_of(self.file_ext),
            is_dir: self.is_dir,
            mod_time: self.mod_time,
        }
    }
}

/// The modification time of an entry: the reported one, or the epoch.
pub open spec fn modified_or_epoch(modified: Option<Timestamp>) -> Timestamp {
    match modified {
        Some(t) => t,
        None => Timestamp::spec_epoch(),
    }
}

/// The entry that a child with readable metadata gives.
pub open spec fn entry_of(path: Seq<char>, name: Seq<char>, metadata: Metadata) -> Entry {
    Entry {
        path,
        name,
        size: metadata.size,
        file_ext: spec_extension(name, metadata.is_dir),
        is_dir: metadata.is_dir,
        mod_time: modified_or_epoch(metadata.modified),
    }
}

/// A child is shown when hidden entries are asked for or its name is not
/// hidden.
pub open spec fn is_shown(name: Seq<char>, show_hidden: bool) -> bool {
    show_hidden || !spec_is_hidden(name)
}

/// A child is listed when it is shown and its metadata could be read.
pub open spec fn is_listed(child: ChildView, show_hidden: bool) -> bool {
    is_shown(child.name, show_hidden) && child.metadata is Some
}

/// The entry of a listed child.
pub open spec fn listed_entry(child: ChildView) -> Entry {
    entry_of(child.path, child.name, child.metadata->0)
}

/// Tells whether a child called `name` is shown: hidden names only where
/// `show_hidden` is set.
pub fn shows(name: &str, show_hidden: bool) -> (shown: bool)
    ensures
        shown == is_shown(name@, show_hidden),
{
    show_hidden || !is_hidden(name)
}

impl FileInfo {
    /// Builds the entry of a child from its location, its name and the
    /// metadata that the host read.
    pub fn from_metadata(path: String, name: String, metadata: Metadata) -> (info: FileInfo)
        ensures
            info@ == entry_of(path@, name@, metadata),
            info@.well_formed(),
    {
        let file_ext = extension(name.as_str(), metadata.is_dir);
        let mod_time = match metadata.modified {
            Some(t) => t,
            None => Timestamp::epoch(),
        };
        FileInfo { path, name, size: metadata.size, file_ext, is_dir: metadata.is_dir, mod_time }
    }
}

impl Child {
    /// Decides whether the child belongs in a listing, and builds its entry
    /// if so.
    pub fn into_entry(self, show_hidden: bool) -> (entry: Option<FileInfo>)
        ensures
            entry is Some <==> is_listed(self@, show_hidden),
            entry matches Some(info) ==> info@ == listed_entry(self@),
    {
        if !shows(self.name.as_str(), show_hidden) {
            return None;
        }
        match self.metadata {
            Some(metadata) => Some(FileInfo::from_metadata(self.path, self.name, metadata)),
            None => None,
        }
    }
}

} // verus!
