//! What is kept of a crawl so that it can go on where it stopped: the addresses still to be
//! probed, and the nodes and edges found so far. Which peers were seen is not kept: it follows
//! from these.
use vstd::prelude::*;

use crate::node::{Edge, NodeInfo};

verus! {

/// A crawl that can be resumed.
pub struct CrawlState {
    /// Addresses still to be probed, with the depth of each.
    pub frontier: Vec<(String, u32)>,
    /// Nodes found so far, reachable or not.
    pub nodes: Vec<NodeInfo>,
    /// Edges found so far.
    pub edges: Vec<Edge>,
}

} // verus!
