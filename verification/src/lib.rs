//! FreedomNet core: the verified logic behind a local DPI-bypass proxy.
//!
//! The network plumbing (sockets, timers, the HTTP client used for DNS over
//! HTTPS) lives outside this crate; everything that decides or transforms
//! bytes lives here.

pub mod bytes;
pub mod tls;
pub mod http;
pub mod anon;
pub mod text;
pub mod rules;
pub mod numfmt;
pub mod stats;
pub mod dashboard;
pub mod pac;
pub mod proxy;
pub mod doh;
