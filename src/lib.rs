//! Dependency resolution for a consensus node: deciding when a block's
//! ancestors and payload are available, which waits to register, which
//! requests to retransmit and which stale payload waits to cancel.

mod ancestry;
mod block;
mod channel;
mod synchronizer;
mod waiter;

pub use ancestry::{AncestorWalk, ParentSync, PreviousLookup, PreviousOutcome, WalkStep, on_parent_read, previous_lookup};
pub use block::{Block, Digest, QC};
pub use synchronizer::{PayloadWait, PendingPayload, Synchronizer};
pub use waiter::{PendingParents, WaitOutcome};
