//! A named-document store: opaque text payloads ("flows") addressed by
//! string names, modelled as a directory of files in which each flow is
//! kept under `<name>.json`.
//!
//! The store itself ([`store::FlowStore`]) is a verified model of the
//! directory contents: writing, reading, deleting and listing flows are
//! specified against a `Map` view from filenames to file contents.  The
//! surrounding modules hold the pure logic that the operations share:
//! the name-to-filename convention ([`naming`]), the lexicographic order
//! in which listings are returned ([`order`]), and the filter-and-sort
//! step that turns raw directory entries into a sorted list of flow
//! names ([`listing`]).

pub mod laws;
pub mod listing;
pub mod naming;
pub mod store;
pub mod order;
