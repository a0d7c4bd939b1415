//! The verified core of a WebSocket server for Node.js on the ramjet runtime.

pub mod bridge;
pub mod budget;
pub mod codec;
pub mod conn;
pub mod dispatch;
pub mod flight;
pub mod lanes;
pub mod laws;
pub mod messages;
pub mod node;
pub mod order;
pub mod routing;
pub mod sending;
pub mod server;
pub mod steps;
pub mod turns;
pub mod upkeep;
pub mod wire;
