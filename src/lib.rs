//! Connectivity core of a peer-to-peer VPN: the portal channel, the client's
//! intent bookkeeping and the sans-IO connection node.

pub mod intents;
pub mod phoenix;
pub mod channel_data;
pub mod net;
pub mod wg;
pub mod connection;
pub mod allocation;
pub mod node;
pub mod signalling;
