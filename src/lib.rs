//! Client-side validation core for consignments: seals, the node graph,
//! concealment and revelation, and traversal from endpoints to genesis.

pub mod hash;
pub mod seal;
pub mod node;
pub mod bundle;
pub mod consignment;
pub mod iter;
pub mod encode;
pub mod decode;
pub mod cli;
