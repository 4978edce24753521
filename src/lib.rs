// Finding the reachable hosts of an IPv4 network: which block to scan
// (`resolver`), the addresses of a block (`range`), and the decisions of a
// scan over a bounded pool of probes (`scheduler`).
use vstd::prelude::*;

pub mod error;
pub mod range;
pub mod resolver;
pub mod scheduler;

verus! {

} // verus!
