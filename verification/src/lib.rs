//! Listing the direct children of a directory.
//!
//! A listing is made in three steps. The root is settled from the path that
//! the caller names and the home directory ([`config`], [`tree::Explorer::root`]).
//! The host enumerates the children of the root with the pattern that
//! [`pattern::children_pattern`] builds, and reads the metadata of those that
//! [`tree::Explorer::admits`] accepts. From these children
//! [`tree::Explorer::explore`] makes the listing: it leaves out hidden and
//! unreadable children, derives each entry ([`entry`], [`name`]) and puts the
//! entries in order ([`order`]). [`reader::Reader`] does the same without
//! ordering.
//!
//! The library never touches the file system itself, so every function is a
//! function of its arguments; the one exception is the lookup of the home
//! directory.

pub mod config;
pub mod entry;
pub mod listing;
pub mod name;
pub mod order;
pub mod pattern;
pub mod reader;
pub mod text;
pub mod tree;
