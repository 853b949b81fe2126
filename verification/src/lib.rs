//! A verified core for a browser visualization of the Raft consensus algorithm.

pub mod action_laws;
pub mod actions;
pub mod annals;
pub mod checks;
pub mod cluster_laws;
pub mod conduct_laws;
pub mod consensus_laws;
pub mod consistency;
pub mod details;
pub mod exchange_laws;
pub mod figures;
pub mod handlers;
pub mod laws;
pub mod message_laws;
pub mod peer_map;
pub mod picture_laws;
pub mod play_laws;
pub mod protocol;
pub mod quorum;
pub mod raft;
pub mod readiness_laws;
pub mod rules;
pub mod run_laws;
pub mod safety;
pub mod scenario_laws;
pub mod session;
pub mod session_laws;
pub mod state;
pub mod text;
pub mod tick;
pub mod tick_laws;
pub mod timeline;
pub mod timeline_laws;
pub mod timer_laws;
pub mod util;
pub mod validity;
