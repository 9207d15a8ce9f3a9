//! Verified core of wRPC: the wire formats of its values, frames and
//! interfaces, the tries, tables and buffers its transports route and
//! carry data through, and what their parameter writers decide during the
//! handshake.

pub mod blobstore;
pub mod codec;
pub mod codecs;
pub mod conn;
pub mod fields;
pub mod frame;
pub mod handshake;
pub mod http;
pub mod introspect;
pub mod leb128;
pub mod message;
pub mod nats;
pub mod nats_next;
pub mod oneshot;
pub mod pack;
pub mod reader;
pub mod registry;
pub mod runtime;
pub mod server;
pub mod subject;
pub mod value;
pub mod value_laws;
pub mod wire;
pub mod zenoh;
