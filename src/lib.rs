//! Inter-satellite-link topologies for a satellite constellation.
//!
//! A connection strategy decides which satellites are linked. The links are
//! held in an undirected petgraph `GraphMap` over satellite indices; the
//! physical length of each link is attached by the caller, who owns the
//! positions.
use vstd::prelude::*;

pub mod topology;
pub mod connection_strategy;
pub mod grid_properties;

pub use connection_strategy::{ConnectionStrategy, ConstellationLayout, GridStrategy, TopologyError};
pub use topology::{add_edge, Topology};
