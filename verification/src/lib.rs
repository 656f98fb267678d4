//! A Multi-Paxos replicated state machine core.
//!
//! A cluster of acceptors, leaders and replicas agrees, slot by slot, on a
//! single ordered log of commands, which every replica applies to a
//! deterministic state machine in identical order. Each role here is a pure
//! message-in/messages-out state machine: transports, timers and process
//! wiring live outside the library and only deliver `Message` values.

pub mod value;
pub mod messages;
pub mod vecmap;
pub mod idset;
pub mod quorum;
pub mod statemachine;
pub mod lockmachine;
pub mod acceptor;
pub mod leader;
pub mod replica;

pub use value::Val;
