//! A verified core for a single-port gateway that fronts local AWS service
//! emulators: service naming, request routing, health reporting and a small
//! DNS responder for the gateway's base domain.

pub mod config;
pub mod dns;
pub mod health;
pub mod init;
pub mod proxy;
pub mod router;
pub mod text;

pub use config::ServiceKind;
