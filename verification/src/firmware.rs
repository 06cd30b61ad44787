//! The node: what it keeps of its peers and of the frames it hears, and what it
//! reports of them.

pub mod config;
pub mod console;
pub mod csi;
pub mod espnow;
pub mod ftm;
pub mod led;
pub mod peers;
pub mod scan;
pub mod ticks;
pub mod timectl;
pub mod wifi;
pub mod wipro;
