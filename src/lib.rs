//! A protocol bridge between a sensor-network gateway and a controller:
//! the line codec, the routing policy, firmware images and over-the-air
//! transfer sessions, and the per-endpoint connection state.

pub mod config;
pub mod connection;
pub mod firmware;
pub mod hexcodec;
pub mod interceptor;
pub mod intelhex;
pub mod message;
pub mod ota;
pub mod proxy;
