//! Network-strategy game rules: axial hex geometry, the network model
//! (nodes, links, owners), shortest-path routing tables, and the integer
//! decisions that drive the simulation.

pub mod hex;
pub mod network;
pub mod table;
pub mod routing;
pub mod setup;
pub mod eliminations;
pub mod traffic;
pub mod ai;
pub mod controls;
pub mod rating;
