//! A retirement-projection library: an ordered collection of independent
//! entries, each holding five raw text inputs and, when all five parse as
//! decimal numbers, two derived outputs (the required savings "stash" and the
//! years needed to reach it).  The collection can be snapshotted to a JSON
//! blob and restored from it.

pub mod codec;
pub mod collection;
pub mod digits;
pub mod escape;
pub mod entry;
pub mod outside;
pub mod validation;
