//! A directory-to-single-file archiver core: the container format codec,
//! path-safety checking, stream checksumming, and ignore-aware entry
//! planning, all as pure verified functions. Filesystem traversal and the
//! command line live outside this crate and hand it plain values.

pub mod entry;
pub mod safety;
pub mod checksum;
pub mod codec;
pub mod glob;
pub mod walk;
pub mod pack;
pub mod restore;
