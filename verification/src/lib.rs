//! Phase-aware load balancing for language-model inference: the decision logic.
//!
//! The crate holds what decides where a request goes, how much KV memory it may
//! claim, which prefix cache it may share and how control messages are read and
//! written. Sockets, clocks, threads and logarithms stay with the program that
//! links it; that program hands in plain values and performs what is decided.

pub mod admission;
pub mod auth;
pub mod backend;
pub mod banner;
pub mod binary64;
pub mod bytes;
pub mod capacity;
pub mod config;
pub mod demand;
pub mod elementary;
pub mod endian;
pub mod evidence;
pub mod factors;
pub mod fleet;
pub mod graduation;
pub mod handoff;
pub mod heads;
pub mod http;
pub mod ids;
pub mod kv;
pub mod layout;
pub mod ledger;
pub mod migration;
pub mod netlink;
pub mod pairing;
pub mod pairs;
pub mod params;
pub mod predictor;
pub mod pricing;
pub mod rcu;
pub mod rebalancer;
pub mod rounding;
pub mod replay;
pub mod router;
pub mod routes;
pub mod secret;
pub mod selection;
pub mod serve;
pub mod shadow;
pub mod stats;
pub mod stream;
pub mod terminal;
pub mod text;
pub mod topology;
pub mod transfers;
pub mod xdp;
