//! Noticing network traffic that nothing on this host is consuming.
//!
//! Tools that list connections cannot see a datagram sent to a port without a
//! socket. It still moves the interface counters, and a firewall that drops it
//! still logs it, so this library watches there:
//!
//! - [`iface`] compares what interfaces receive with what they send, and asks
//!   [`sockets`] and [`collector`] what of it is being read;
//! - [`drops`], [`flows`], [`selfblock`] and [`discovery`] read the records of a
//!   firewall that drops, and tell floods, this host's own traffic and answers to
//!   its own questions apart, with [`cooldown`] to remember who has spoken;
//! - [`proto`] counts what the kernel discards for want of a listener or of room;
//! - [`watch`] ties these to the clock, and runs them over history;
//! - [`report`], [`names`] and [`alert`] put findings into words;
//! - [`conns`] is the table of active connections.
//!
//! What is read from the host comes in as text, and what is to be done comes
//! back as a value: nothing here opens a file, runs a command or waits.

pub mod addr;
pub mod alert;
pub mod collector;
pub mod config;
pub mod conns;
pub mod cooldown;
pub mod discovery;
pub mod drops;
pub mod flows;
pub mod iface;
pub mod local;
pub mod names;
pub mod order;
pub mod proto;
pub mod rate;
pub mod report;
pub mod role;
pub mod selfblock;
pub mod sockets;
pub mod table;
pub mod text;
pub mod watch;
