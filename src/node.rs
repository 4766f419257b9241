//! A cluster member before its hardware has been probed.
use vstd::prelude::*;

verus! {

/// A cluster member and its hardware profile.
#[derive(Debug, Clone)]
pub struct Node {
    pub addr: String,
    pub region: String,
    pub gpu_score: usize,
    pub gpu_cores: usize,
    pub network_bandwidth: usize,
    pub layer_capacity: usize,
}

impl Node {
    /// A node reachable at `addr` whose region, GPU and network figures are
    /// not known yet: the region is empty and every figure is 0 until
    /// probing fills them in.
    pub fn new(addr: String) -> (n: Node)
        ensures
            n.addr@ == addr@,
            n.region@ == Seq::<char>::empty(),
            n.gpu_score == 0,
            n.gpu_cores == 0,
            n.network_bandwidth == 0,
            n.layer_capacity == 0,
    {
        Node {
            addr,
            region: String::new(),
            gpu_score: 0,
            gpu_cores: 0,
            network_bandwidth: 0,
            layer_capacity: 0,
        }
    }
}

} // verus!
