//! Hierarchical access-exposure tracker.
//!
//! A tree of ownership relationships is tracked per resource location.  Each
//! node carries a small aggregate record that answers, without walking the
//! whole tree, whether a read or write through an address-only handle could
//! have originated inside or outside that node's subtree.  The aggregate is
//! maintained incrementally when a node's exposure level changes, and an
//! independent full recomputation defines what "consistent" means.
//!
//! What the proofs cover: every query operation matches its specification
//! exactly; the oracle decides precisely whether the invariant equations
//! hold; a freshly derived child record is born consistent; an update
//! terminates, is a no-op on an unchanged level, never touches the updated
//! node's own record, adjusts its direct parent's record by exactly the
//! crossing of the branch's contribution, changes child counters only
//! along the ancestor chain, leaves every counter equation exactly
//! satisfied, and re-derives the foreign levels the counting rule's two
//! decisive census outcomes dictate: under a parent that contributes
//! nothing of its own, every sibling receives the branch's new
//! contribution, and under a parent whose only contribution is one
//! counted reader, that dominant sibling is re-examined.  That the update
//! restores the `max_foreign_access` equation in full generality — the
//! mutual-domination census and the deeper descent included — is held
//! against the oracle in tests, not yet by proof.

pub mod access;
pub mod consistency;
pub mod tracking;
pub mod tree;
pub mod update;
