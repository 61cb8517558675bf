//! Hierarchical approval workflows.
//!
//! An action on an entity needs a sign-off, an [`Approval`], at an
//! authorization level, and a sign-off may wait for other sign-offs, its
//! prerequisites, to be granted first. An [`ApprovalGraph`] holds the
//! approvals of one owner in an arena; an approval is named by an
//! [`ApprovalRef`], so that several approvals can wait for the same one.
//!
//! The graph decides whether a request is legal:
//! - [`ApprovalGraph::add_prerequisites`] turns down prerequisites with which
//!   an approval would require itself, directly or through others;
//! - [`ApprovalGraph::approve`] turns down an approver whose level is below
//!   the approval's, then an approval with a prerequisite that is not granted,
//!   then an approval that was granted before.
//!
//! A request that is turned down changes nothing. An approval is granted
//! once, and the first approver stays on record.
//!
//! Every operation takes the graph by reference, exclusive where it changes
//! the graph: callers that share a graph put it behind a lock of their own.

pub mod error;
pub mod graph;
pub mod ident;
pub mod laws;
pub mod model;
pub mod node;
pub mod reach;
mod search;

pub use error::{ApprovalError, CycleError};
pub use graph::ApprovalGraph;
pub use ident::ApprovalId;
pub use node::{Approval, ApprovalRef};
