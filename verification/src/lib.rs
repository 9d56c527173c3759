//! Transport and control core of a client in a drone overlay network.
//!
//! The client discovers the network by flooding, computes source routes,
//! splits messages into fixed-size fragments, reassembles inbound fragments,
//! and keeps a per-session log of what it sent until every fragment has been
//! acknowledged. Everything here is a state machine over plain values: the
//! caller feeds packets and commands in, with the time and with fresh
//! identifiers, and takes packets and events out.
//!
//! - [`packet`]: packets and their parts.
//! - [`disassembler`], [`assembler`]: cutting payloads into fragments and
//!   joining them again.
//! - [`topology`], [`routing`]: the known network and the cheapest routes
//!   through it.
//! - [`model`]: what every operation of the transport does, as mathematics;
//!   [`laws`]: what follows for every input.
//! - [`client`]: the transport itself.
//! - [`chat_client`], [`browser_client`]: the two profiles on top of it, with
//!   [`message`] for what they exchange with servers and the controller,
//!   [`references`] and [`idsets`] for the media files that text files refer
//!   to.
//! - [`utils`]: log lines.

pub mod assembler;
pub mod browser_client;
pub mod chat_client;
pub mod client;
pub mod disassembler;
pub mod idsets;
pub mod laws;
pub mod message;
pub mod model;
pub mod packet;
pub mod references;
pub mod routing;
pub mod topology;
pub mod utils;
