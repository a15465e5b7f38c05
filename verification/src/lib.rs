//! Reference counting that also reclaims cycles.
//!
//! A [`heap::Heap`] keeps collectible values in allocation records and hands
//! out counted handles ([`handle::Gc`]) to them. A value is destroyed as soon
//! as the last handle to it is given back, together with whatever only it
//! kept alive. Values that keep each other alive in a cycle are found by a
//! collection pass, which looks at what can be reached from the allocations
//! that lost a handle since the last pass and destroys exactly what nothing
//! outside of that part of the heap holds on to.
//!
//! The modules, from the ground up:
//!
//! - [`graph`]: the reference graph as mathematics: counting handles and
//!   reachability.
//! - [`allocation`]: the record behind one value.
//! - [`handle`], [`option`]: handles, live or dead, and the optional handle
//!   built on the dead one.
//! - [`trace`]: the protocol by which a value shows the handles it owns.
//! - [`model`]: what a heap is and what its operations do, over sequences of
//!   records.
//! - [`heap`]: the heap of one execution context and its operations.
//! - [`laws`], [`rooted`]: what holds across operations: nothing alive is
//!   destroyed, nothing dead is forgotten.
//! - [`sync`]: the shared domain: handles that count themselves in an
//!   atomic count, and the heap behind a lock that they turn to when the
//!   last one goes.
//! - [`derive`]: the rules by which a trace implementation is derived.

pub mod allocation;
pub mod derive;
pub mod graph;
pub mod handle;
pub mod heap;
pub mod laws;
pub mod model;
pub mod option;
pub mod rooted;
pub mod sync;
pub mod trace;
