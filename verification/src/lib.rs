//! A transparent reverse proxy core: an HTTP/1.x wire codec, a
//! template-driven bearer-token resolver with a time-bounded token cache,
//! and the pure decision logic of the forwarding pipeline.
//!
//! All I/O (sockets, outbound HTTP calls, configuration files) lives in the
//! surrounding application; this crate holds the verified logic it drives.

pub mod ascii;
pub mod auth;
pub mod cache;
pub mod config;
pub mod decimal;
pub mod forward;
pub mod headers;
pub mod req;
pub mod resp;
pub mod token;
