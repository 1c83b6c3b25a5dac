//! Planning and bookkeeping for a peer-to-peer all-to-all exchange of expert tokens.

pub mod acceptance_laws;
pub mod arith;
pub mod call_laws;
pub mod cluster;
pub mod cluster_laws;
pub mod config;
pub mod context;
pub mod counter_laws;
pub mod counters;
pub mod creation_laws;
pub mod exchange;
pub mod exchange_laws;
pub mod handles;
pub mod laws;
pub mod limits;
pub mod padding;
pub mod peer_laws;
pub mod plan_laws;
pub mod pool_laws;
pub mod progress_laws;
pub mod ranges;
pub mod receive_plan;
pub mod report_laws;
pub mod round_laws;
pub mod round_limits;
pub mod route_layout;
pub mod routing;
pub mod slot_pool;
pub mod stage_laws;
pub mod step;
pub mod sums;
pub mod traffic;
pub mod traffic_laws;
pub mod transfer_laws;
pub mod transfer_plan;
pub mod worker;
pub mod workspace;
pub mod workspace_laws;

pub use crate::arith::align_up;
