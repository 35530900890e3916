//! The logic of an SSH session broker: framing, relaying, terminal filtering, routing,
//! access-control checks and provisioning decisions, each with a proved contract.

pub mod acl;
pub mod afunix;
pub mod agent;
pub mod conpty;
pub mod protocol;
pub mod provision;
pub mod relay;
pub mod route;
pub mod shim;
pub mod shim_pty;
pub mod sniffer;
pub mod spawn;
pub mod spike;
pub mod text;
pub mod vtinput;
pub mod winutil;
pub mod xtwinops;

pub use route::{Route, route};
