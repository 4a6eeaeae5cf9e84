use vstd::prelude::*;

pub mod bfs;
pub mod cut;
pub mod flow_network;
pub mod ford_fulkerson;
pub mod residual_network;

pub use flow_network::{FlowNetwork, Node};
pub use ford_fulkerson::Flow;
pub use residual_network::{Direction, ResidualNetwork};

verus! {

} // verus!
