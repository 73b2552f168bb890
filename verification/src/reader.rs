//! Listing the children of a root in the order in which the host
//! enumerated them.

pub use crate::entry::FileInfo;

use crate::config::{home_directory, resolve_root, resolved_root, root_of, ConfigurationError};
use crate::entry::{is_shown, shows, Child};
use crate::listing::{children_of, list_children, listing};
use crate::order::entries_of;
use crate::text::text_of;
use vstd::prelude::*;

verus! {

/// What a caller asks of [`Reader::view_files`].
#[derive(Debug, Clone, PartialEq, Eq)]
pub struct ViewFilesOptions {
    /// The root to list; the home directory where absent.
    pub path: Option<String>,
    /// Whether hidden entries are listed too.
    pub hidden: bool,
}

/// Lists directories without ordering their entries.
#[derive(Debug, Clone, Copy, PartialEq, Eq, Structural)]
pub struct Reader;

impl Reader {
    /// Settles the root that `args` asks for. The home directory is looked
    /// up only where `args` names no path, and the call fails only where
    /// that lookup fails.
    pub fn root(args: &ViewFilesOptions) -> (root: Result<String, ConfigurationError>)
        ensures
            exists|home: Option<Seq<char>>|
                root_of(root) == #[trigger] resolved_root(text_of(args.path), home),
    {
        match &args.path {
            Some(path) => resolve_root(Some(path.clone()), None),
            None => resolve_root(None, home_directory()),
        }
    }

    /// Tells whether a child called `name` can appear in the listing that
    /// `args` asks for, so that the host need not read the metadata of one
    /// that cannot.
    pub fn admits(args: &ViewFilesOptions, name: &str) -> (admitted: bool)
        ensures
            admitted == is_shown(name@, args.hidden),
    {
        shows(name, args.hidden)
    }

    /// Lists `children`, the direct children of the root that `args` asks
    /// for, as the host enumerated them. Hidden children are left out unless
    /// `args.hidden` is set, and so are children whose metadata could not be
    /// read; the others keep the order of enumeration.
    pub fn view_files(args: ViewFilesOptions, children: Vec<Child>) -> (files: Vec<FileInfo>)
        ensures
            entries_of(files@) == listing(children_of(children@), args.hidden),
    {
        list_children(children, args.hidden)
    }
}

} // verus!
