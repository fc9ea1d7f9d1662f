//! Singly linked lists with a tail reference, in two ownership styles.
//!
//! `exclusive::SLList` owns its nodes as a chain of boxes and keeps a detached
//! copy of the last node; `shared::LinkedList` keeps its nodes in an arena and
//! links them by handle, with a flag that records whether the stored indices
//! are up to date.
pub mod error;
pub mod exclusive;
pub mod shared;
