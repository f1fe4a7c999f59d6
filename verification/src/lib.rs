//! A bounded-cardinality exact-cover minimum-cost selection solver.
//!
//! A catalog of packets is built from a price list (each entry's 1-based
//! position is its quantity; non-positive prices are dropped) and ranked by
//! unit cost. A problem asks for a multiset of packets, at most `max_packets`
//! in total, whose quantities sum exactly to a target, at minimum total price.

pub mod packet;
pub mod possibility;
pub mod problem;
pub mod selection;

pub use packet::Packet;
pub use possibility::Possibility;
pub use problem::Problem;
