//! One participant endpoint ("node") of a simulated packet-switched overlay
//! network built from point-to-point links between neighboring nodes.
//!
//! The crate holds the protocol engine of such a node: topology discovery by
//! controlled flooding, source-routed path computation over the discovered
//! graph, fragmentation and reassembly of application messages into
//! bounded-size wire units, tracking of in-flight fragments, and a
//! failure-recovery state machine driven by negative acknowledgements.
//!
//! Channel wiring, logging and the chat-level glue around the engine live
//! outside the library; the engine itself is pure state: every handler maps a
//! received packet or command to a new node state and a list of [`Action`]s
//! for the surrounding event loop to perform.
//!
//! [`Action`]: client::Action

pub mod cache;
pub mod client;
pub mod fragment;
pub mod packet;
pub mod routing;
pub mod topology;
