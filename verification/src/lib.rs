//! Wi-PRO: ranging and channel state over FTM between ESP32 nodes, and the
//! host that collects what they report.

pub mod b64;
pub mod bytes;
pub mod controller;
pub mod firmware;
pub mod frame;
pub mod number;
pub mod roundtrip;
pub mod text;
pub mod utf8;
