//! A read-only TFTP protocol engine: wire codec, option negotiation,
//! per-client transfer state machine, session registry and the
//! retransmission supervisor.

pub mod codec;
pub mod negotiation;
pub mod session;
pub mod registry;
