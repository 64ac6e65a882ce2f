//! Descriptor-driven gRPC client core: a runtime registry of protobuf
//! schemas, dynamic messages built and edited against those schemas, a
//! wire codec between messages and protobuf binary format, and the
//! preparation and completion of unary calls.

pub mod client;
pub mod message;
pub mod registry;
pub mod schema;
pub mod rpc;
pub mod strutil;
pub mod tabs;
pub mod text;
pub mod wire;
