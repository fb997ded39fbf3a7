//! Routing core of a distance-vector mesh routing daemon.
//!
//! The crate holds the routing table (one entry per (subnet, neighbour)
//! pair), the source table that records feasibility distances, and the
//! router that ingests advertisements, enforces the feasibility condition,
//! re-runs route selection and decides which peers receive outbound
//! updates. Transport, packet framing and timers live outside the crate;
//! the router hands back plain values describing what must be sent.

pub mod assoc;
pub mod metric;
pub mod packet;
pub mod peer;
pub mod router;
pub mod router_id;
pub mod routing_table;
pub mod sequence_number;
pub mod source_table;
pub mod subnet;
