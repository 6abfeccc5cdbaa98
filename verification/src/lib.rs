//! The core of a Kademlia-style distributed hash table node: identifier
//! arithmetic, the routing table, the packet codec, the request/response
//! engine and the decisions of peer discovery, free of any input or output.

pub mod arguments;
pub mod assoc;
pub mod closest;
pub mod codec;
pub mod config;
pub mod discovery;
pub mod errors;
pub mod hash;
pub mod messages;
pub mod peers;
pub mod structures;
pub mod terminal;
pub mod text;
pub mod transactions;
pub mod utilities;
pub mod values;
pub mod wire;
