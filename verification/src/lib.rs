//! The verified core of a liveness-gated TCP port scanner: the
//! port-specification parser, the decisions of the two-phase sweep (which
//! ICMP senders a target list needs, how a connect attempt is classified),
//! the aggregation of per-port outcomes into per-address statuses, and the
//! compact range-based status formatter.

pub mod ports;
pub mod scanner;
pub mod sorting;
