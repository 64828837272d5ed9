//! File sharing over a peer-to-peer network: the command language typed by the user,
//! the wire format of the messages exchanged between peers, and the state machines that
//! decide what the node does with commands, connections and network events.

pub mod error;
pub mod text;
pub mod command;
pub mod wire;
pub mod message;
pub mod file_get;
pub mod handler;
pub mod network;
