//! Small owned-data containers: an unbalanced binary search tree over
//! totally ordered keys, a first-in first-out queue over a buffer, and a
//! linked stack.
pub mod key_order;
pub mod queue;
pub mod search_tree;
pub mod stack;
