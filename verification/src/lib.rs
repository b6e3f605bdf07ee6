//! Tracking of the devices on a local IPv4 subnet.
//!
//! A scan sends one ARP request to every address of a range and collects the
//! replies (`scanner`); the devices found are corrected by the manual table of
//! real addresses (`proxmox`, `vendor`) and merged into the registry, which
//! decides for every device whether it is online, offline or blocked
//! (`monitor`, with what holds of every merge in `laws`). Host names come from
//! lease files (`leases`) and from a chain of questions to the network
//! (`hostname`). What is read back from the device file is validated (`store`,
//! `models`), and `render` decides what the table of devices shows.
//!
//! The library neither opens sockets nor reads files: it takes what was read
//! and says what is to be sent, written or shown. Of its surroundings it reads
//! only the clock, in `Device::new`.

pub mod hostname;
pub mod ipv4;
pub mod laws;
pub mod leases;
pub mod models;
pub mod monitor;
pub mod proxmox;
pub mod render;
pub mod scanner;
pub mod store;
pub mod table;
pub mod text;
pub mod utils;
pub mod vendor;
