//! Linked sequence containers of `i64` values.
//!
//! `doubly` holds the double-ended list: values in nodes that link to both
//! neighbours, with constant-time work at either end and a cursor pair that
//! meets in the middle. `singly` holds a chain of boxed nodes that each own
//! their successor, and a small handle over such a chain.
pub mod doubly;
pub mod singly;
