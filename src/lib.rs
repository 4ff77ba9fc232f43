//! A memory scanner core: snapshots of a process's memory that share equal
//! region contents, bitmap-backed sets of candidate addresses, and a typed
//! comparison driver that narrows those sets.

pub mod error;
pub mod scan;
pub mod number;
pub mod process;
pub mod dump;
pub mod group;
