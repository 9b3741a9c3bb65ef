//! The local gateway: its configuration, the requests it takes and the
//! replies it gives.

pub mod api;
pub mod assemble;
pub mod config;
pub mod download;
pub mod mcp;
pub mod proxy;
pub mod reply;
pub mod request;
