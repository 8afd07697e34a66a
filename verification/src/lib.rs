//! Dining philosophers with pluggable, analyzed acquisition algorithms,
//! together with the word tokenizer and frequency counter that share this
//! crate.
//!
//! The core is the fork-acquisition subsystem: [`locked_resource`] wraps one
//! value in a mutual-exclusion lock, [`kitchen`] builds the forks and the
//! waiter that decides each philosopher's acquisition order, [`philosopher`]
//! builds the roster, and [`wait_graph`] proves which algorithms admit a
//! circular wait and which cannot.

pub mod frequency;
pub mod fruit;
pub mod kitchen;
pub mod locked_resource;
pub mod philosopher;
pub mod tokenizer;
pub mod wait_graph;
