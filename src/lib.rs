//! Rebuilds, from the call trace and state diff of a past transaction, a plan of
//! calls that replays a profitable balance change from another sender.

pub mod address;
pub mod diff;
pub mod eth;
pub mod profit;
pub mod rewrite;
pub mod simulate;
pub mod trace;
pub mod uint256;
