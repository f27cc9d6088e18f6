//! Radio-side core of the CYMRU stack: the on-air frame, KISS framing,
//! Reed-Solomon block FEC, the transmit queue, the CRCP robot-dispatch codec
//! and the brokers that sit on the bridge.

pub mod adapters;
pub mod broker;
pub mod bytes;
pub mod cbor;
pub mod crcp;
pub mod ed25519;
pub mod fec;
pub mod frame;
pub mod kiss;
pub mod queue;
pub mod robot;
