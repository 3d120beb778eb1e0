//! A double-ended queue built from fixed-capacity pages ("chunks"), each
//! allocated independently, so that an element's storage slot never moves
//! while the element remains in the container.
//!
//! The contracts model the container as the sequence of its elements: every
//! operation states exactly how it transforms that sequence. On top of that,
//! each live element is addressed by a ghost pair of page identity and slot
//! index, and the mutating operations promise that a push or pop at one end
//! never moves any other live element off its slot -- the pinning guarantee
//! that gives the deque its name.

mod chunk;
mod deque;
mod intf;
mod cmp;
mod iter;

pub use cmp::{elementwise_eq_spec, lemma_elementwise_eq_is_seq_eq, lex_cmp_spec, lex_partial_cmp_spec};
pub use deque::{pages_needed, PinnedDeque};
pub use intf::{lemma_round_trip, render_list, spec_joined, spec_render, views_of};
pub use iter::{IntoIter, Iter};
