//! The root of a listing: the path that the caller names, or else the home
//! directory of the current user.

use crate::text::text_of;
use vstd::prelude::*;
use vstd::string::StringExecFns;

verus! {

/// Why no root could be settled.
#[derive(Debug, Clone, Copy, PartialEq, Eq, Structural)]
pub enum ConfigurationError {
    /// No path was given and the home directory could not be determined.
    HomeUnavailable,
}

impl ConfigurationError {
    /// A sentence for the user.
    pub fn message(&self) -> (text: String)
        ensures
            text@ == "Failed to get home directory"@,
    {
        String::from_str("Failed to get home directory")
    }
}

/// The root that a request resolves to: the path it names, else the home
/// directory, and a failure when there is neither.
pub open spec fn resolved_root(path: Option<Seq<char>>, home: Option<Seq<char>>) -> Result<
    Seq<char>,
    ConfigurationError,
> {
    match path {
        Some(p) => Ok(p),
        None => match home {
            Some(h) => Ok(h),
            None => Err(ConfigurationError::HomeUnavailable),
        },
    }
}

/// The text of a resolved root.
pub open spec fn root_of(root: Result<String, ConfigurationError>) -> Result<
    Seq<char>,
    ConfigurationError,
> {
    match root {
        Ok(r) => Ok(r@),
        Err(e) => Err(e),
    }
}

/// Settles the root of a listing from the path that the caller gave and
/// the home directory that the host reported. Whether the root exists is
/// not asked here.
pub fn resolve_root(path: Option<String>, home: Option<String>) -> (root: Result<
    String,
    ConfigurationError,
>)
    ensures
        root_of(root) == resolved_root(text_of(path), text_of(home)),
{
    match path {
        Some(p) => Ok(p),
        None => match home {
            Some(h) => Ok(h),
            None => Err(ConfigurationError::HomeUnavailable),
        },
    }
}

/// Asks `dirs::home_dir` for the home directory of the current user and
/// renders the path as text, replacing what is not valid Unicode.
///
/// Trusted: the body is not verified. The answer depends on the environment
/// of the process, so the contract claims nothing of it.
#[verifier::external_body]
pub(crate) fn home_directory() -> (home: Option<String>) {
    match dirs::home_dir() {
        Some(path) => Some(path.to_string_lossy().into_owned()),
        None => None,
    }
}

} // verus!
