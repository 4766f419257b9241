//! Scheduling engine for serving a layered model on a cluster of
//! heterogeneous GPUs: pipeline formation, layer water-filling, plan
//! emission, the last-writer-wins cluster map that feeds them, and the
//! gossip envelope that carries profiles between nodes.
pub mod cluster;
pub mod codec;
pub mod node;
pub mod optimality;
pub mod plan;
pub mod scheduling;
pub mod sums;
pub mod water_fill;
