//! Discrete-time packet routing on a directed capacitated graph.
//!
//! Packets travel along fixed edge paths; every edge has an integer transit
//! time and an exact rational service capacity.  Each time step runs three
//! phases: packets whose transit time has elapsed leave their edges (bounded
//! by the capacity accumulator), the leaving packets are merged onto their
//! next edges by a fair zipper rule, and packets at the end of their path are
//! recorded as arrived.

pub mod fraction;
pub mod heap_element;
pub mod edge_map;
pub mod network;
