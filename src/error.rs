//! Kinds of failure that the library reports.

use vstd::prelude::*;

verus! {

/// Why an operation on a target process failed.
#[derive(Clone, Copy, PartialEq, Eq, Structural, Debug)]
pub enum ErrorKind {
    /// Access was denied.
    Permission,
    /// No such process, or no such named item.
    NotFound,
    /// A transfer was short, or a system call or a parse of system data failed.
    Io,
    /// A command or a literal could not be understood.
    BadInput,
}

} // verus!
