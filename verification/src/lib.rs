//! A deterministic, discrete-event simulator for distributed algorithms,
//! together with the property-checking harness that drives test scenarios
//! against candidate node implementations.
//!
//! The engine ([`system`]) owns a virtual clock, one seeded random stream
//! ([`rng`]), a network fault model and a time-ordered event queue
//! ([`event`]); node implementations are black boxes behind the
//! [`node::Node`] capability, exchanging envelopes of [`msg`]. For a fixed
//! seed, node set and input script, a whole run is reproducible.
//!
//! The harness layers evaluate protocol properties over the observed local
//! event logs: delivery guarantees ([`guarantees`]), broadcast properties
//! ([`broadcast`]), group membership stabilization ([`membership`]),
//! sharded storage ([`sharding`]) and quorum replication ([`replication`]).

pub mod rng;
pub mod strutil;
pub mod msg;
pub mod node;
pub mod event;
pub mod system;
pub mod textgen;
pub mod guarantees;
pub mod broadcast;
pub mod membership;
pub mod sharding;
pub mod replication;
