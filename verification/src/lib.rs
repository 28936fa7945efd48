//! Building blocks for concurrent programs: fair queue locks and lock-free
//! containers, as step machines with proved contracts.
//!
//! Every structure keeps its nodes in an arena and refers to them by index.
//! A function of a structure is one atomic step of its algorithm (one load,
//! one swap, one compare-and-swap, together with the bookkeeping that belongs
//! to it) or a run of such steps. A step takes what its caller observed
//! earlier as plain values and is defined for every state of the structure
//! it may meet, so the steps of several parties can be interleaved in any
//! order, by a scheduler, a test, or threads that take turns. What a step
//! does to the structure, and what it returns, is stated over a mathematical
//! view of the structure and proved.
//!
//! - [`ticketlock`], [`clhlock`], [`mcslock`], [`mcsparklock`]: locks that
//!   serve in the order of arrival. Their view is the line of those who wait;
//!   [`fair`] states what that means and proves mutual exclusion and
//!   first-come-first-served of it.
//! - [`treiberstack`], [`msqueue`], [`lockfreelist`]: a stack, a queue and a
//!   sorted set. Their views are a sequence and a map.
//! - [`epoch`]: deferred destruction of the nodes that the containers
//!   remove, with pinned parties and a grace period.
//! - [`link`], [`order`]: marked node references, and the order on keys.

use vstd::prelude::*;

pub mod link;
pub mod order;
pub mod fair;
pub mod epoch;
pub mod lockfreelist;
pub mod msqueue;
pub mod treiberstack;
pub mod ticketlock;
pub mod clhlock;
pub mod mcslock;
pub mod mcsparklock;
