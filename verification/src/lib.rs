//! The decisions of a small notification server: what a request asks to be
//! shown, and how the caller's address is added to the message.

pub mod address;
pub mod annotate;
pub mod digits;
pub mod identity;
pub mod request;
pub mod server;

pub use address::{IpAddress, PeerAddress};
pub use annotate::add_ip_addr_info;
pub use request::{index, NotificationInfo};
