//! runlatch: the verified core of a Linux autostart manager.
//!
//! Linux autostart is spread across systemd units and XDG `.desktop` files. This
//! library holds what runlatch decides and computes, each function with a contract:
//!
//! - [`desktop_file`]: an order-preserving reader/writer for `.desktop` files, and
//!   [`desktop_laws`], what reading, editing and writing them promise.
//! - [`model`]: the provider-agnostic autostart entry and its scope.
//! - [`xdg`]: the XDG autostart provider's logic (directories, merging entries with
//!   first-directory precedence, enabling and disabling), and [`xdg_laws`].
//! - [`systemd`]: the systemd provider's logic (which units are listed, what an entry
//!   says).
//! - [`registry`]: aggregation across providers, where one failure never hides the
//!   other providers' entries.
//! - [`commands`] and [`table`]: the command-line tool's decisions: resolving an entry
//!   address, filtering, and laying out the listing.
//! - [`text`], [`paths`], [`search`]: helpers on characters, paths and sequences.
//!
//! Reading directories and files, talking to D-Bus, and printing are left to the
//! caller, which hands these functions plain values.
use vstd::prelude::*;

pub mod commands;
pub mod desktop_file;
pub mod desktop_laws;
pub mod model;
pub mod paths;
pub mod registry;
pub mod search;
pub mod systemd;
pub mod table;
pub mod text;
pub mod xdg;
pub mod xdg_laws;

verus! {

} // verus!
