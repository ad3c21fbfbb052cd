//! A verified core for an AT command client: the decisions that a client
//! makes while it sends a command and digests the device's answer, the retry
//! policy, and the plans from which the command and URC derives generate code.

pub mod client;
pub mod cmd;
pub mod derive_cmd;
pub mod derive_urc;
pub mod error;
pub mod exchange;

pub use client::AtatClient;
pub use cmd::AtatCmd;
pub use error::{Error, InternalError};
pub use exchange::{DigestResult, Digester};
