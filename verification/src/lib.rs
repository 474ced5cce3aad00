//! Routing core of a Minecraft Java Edition reverse proxy.

pub mod config;
pub mod handshake;
pub mod routing;
pub mod text;
pub mod transfer;
pub mod varint;
pub mod wire;
