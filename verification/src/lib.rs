//! Transport-layer building blocks of a WebRTC SFU: extraction of the
//! transport-wide sequence number from RTP header extensions, the per-publisher
//! arrival recorder, the TWCC feedback builder, and server metrics.

pub mod config;
pub mod twcc;
pub mod metrics;
pub mod udp;
