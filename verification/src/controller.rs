//! The host: what it reads from a node and what it does with it.

pub mod config;
pub mod esp_io;
pub mod forward;
pub mod ipc_publisher;
pub mod srv;
pub mod tlv;
pub mod tui;
