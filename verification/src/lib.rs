//! A family of linked-list containers, verified against sequence models.
//!
//! Each module holds one variant, from the simplest to the most demanding:
//!
//! - [`int_stack`]: a LIFO stack of machine integers over an explicit link enum;
//! - [`stack`]: a generic LIFO stack with peeking and iteration;
//! - [`persistent`]: an immutable list that shares its tail structurally;
//! - [`deque`]: a doubly-linked deque over a node arena, pushing and popping
//!   at both ends while every `prev`/`next` pair is kept in agreement;
//! - [`queue`]: a singly-linked FIFO queue over a node arena, appending in
//!   constant time through a tail index.
//!
//! Every operation carries a contract over the list's abstract sequence, and
//! the linked structures prove that their link invariants hold after every
//! public operation.

pub mod deque;
pub mod int_stack;
pub mod persistent;
pub mod queue;
pub mod stack;
