//! The verified core of a transparent Kafka proxy.
//!
//! Clients that know nothing but plain text connect to the proxy, which authenticates to the
//! brokers, forwards frames, and rewrites the responses that carry broker addresses, so that
//! clients keep coming back through it. This crate holds the rules: the rewriting, the remapping of
//! correlation ids, the pool, the relays, the configuration, and what the web endpoint shows. Input
//! and output are left to the program around it.
pub mod api;
pub mod config;
pub mod layout;
pub mod metrics;
pub mod net;
pub mod pool;
pub mod proxy;
pub mod relay;
pub mod rewrite;
pub mod select;
pub mod sort;
pub mod text;
pub mod upstream;
pub mod wire;

pub use proxy::{BrokerTarget, MappedListener, ProxyError};
