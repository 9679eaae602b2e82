//! Scanning engine for domain-fronting reachability tests: edge-network
//! classification, fronting-probe verdicts and a bounded, cancellable scan
//! orchestrator driven by events from the caller's I/O layer.
pub mod cidr;
pub mod ipv4;
pub mod markers;
pub mod names;
pub mod probe;
pub mod report;
pub mod retry;
pub mod scan;
