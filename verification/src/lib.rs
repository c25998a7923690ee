//! A verified model of a stop-on-first-failure multi-process supervisor.
//!
//! The library holds the decision logic of the supervisor: classifying the
//! children of a supervision plan, laying out the namespace topology and the
//! launch order, tracking running children, and driving the event loop that
//! reaps children exactly once and computes the final result code.  The
//! process, namespace and signal side effects themselves are performed by the
//! surrounding program, which feeds their outcomes back in as plain values.

pub mod guard;
pub mod launch;
pub mod plan;
pub mod supervisor;
