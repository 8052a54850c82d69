//! LAN peer discovery: wire codec for announcement packets, a peer registry
//! with liveness eviction, the discovery engine's decision logic, and the
//! resolved-configuration model.

pub mod codec;
pub mod config;
pub mod engine;
pub mod registry;
