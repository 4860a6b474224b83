//! NTRIP client core: endpoint configuration, sourcetable parsing,
//! nearest-mount search, handshake construction and the RTCM frame
//! stream decoder, with machine-checked contracts.

pub mod client;
pub mod config;
pub mod credentials;
pub mod decode;
pub mod error;
pub mod handshake;
pub mod snip;
pub mod text;

pub use client::NtripClient;
pub use config::{NtripConfig, NtripCredentials, RtcmProvider};
pub use credentials::NTRIPCredentials;
pub use decode::{DecodeStatus, Decoder, ReadResult};
pub use error::NtripClientError;
pub use snip::{Constellation, Location, MountInfo, Network, Protocol, ServerInfo};
