//! Linked lists.

pub mod dll;
