//! Verified core of a small UDP cluster: the agent's framing of client
//! requests, its round-robin choice among the servers that are up, the
//! servers' request handling and their ring election.
#![allow(unused_imports)]

pub mod frame;
pub mod balancer;
pub mod bytes;
pub mod decimal;
pub mod queue;
pub mod random;
pub mod action;
pub mod message;
pub mod election;
pub mod util_election;
pub mod clock;
pub mod metrics;
