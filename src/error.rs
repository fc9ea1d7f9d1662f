use vstd::prelude::*;

verus! {

/// Why a list operation could not be carried out.
#[derive(Clone, Copy, Debug, PartialEq, Eq, Structural)]
pub enum ListError {
    /// A removal was asked of a list that holds no node.
    EmptyList,
    /// A position at or past the length of the list was asked for.
    IndexOutOfRange,
    /// No node holds the value that was looked for.
    NotFound,
}

} // verus!
