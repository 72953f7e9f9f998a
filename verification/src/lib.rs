//! Core logic of the "capture the IP" game server: run modes, IPv4 text,
//! claims and their batching, background workers and request decisions.

pub mod run_mode;
pub mod text;
pub mod ipv4;
pub mod ipv6;
pub mod capture;
pub mod claims;
pub mod shutdown;
pub mod refresh;
pub mod database;
pub mod api;
pub mod client_ips;
