//! What the server says and uses when it starts.

use vstd::prelude::*;
use crate::address::IpAddress;
use crate::digits::{decimal_text, push_decimal};
use crate::request::{NotificationInfo, NotificationText};

verus! {

/// The port that the server listens on unless it is given another.
pub const DEFAULT_PORT: u16 = 12413;

/// The address that the server listens on: every version four address of
/// the machine.
pub fn listen_address() -> (ip: IpAddress)
    ensures
        ip == IpAddress::V4([0, 0, 0, 0]),
{
    IpAddress::V4([0, 0, 0, 0])
}

/// The notification shown once before the server accepts connections: a fixed
/// summary and no body.
pub fn startup_notification() -> (shown: NotificationInfo)
    ensures
        shown@ == (NotificationText {
            summary: Some("Notify server has been activated."@),
            body: None,
        }),
{
    NotificationInfo {
        summary: Some(String::from_str("Notify server has been activated.")),
        body: None,
    }
}

/// What to say when `port` cannot be bound.
pub open spec fn bind_failure_text(port: u16) -> Seq<char> {
    "Failed to bind port "@ + decimal_text(port as nat) + "."@
}

/// The message for a failure to bind `port`, which names the port.
pub fn bind_failure_message(port: u16) -> (message: String)
    ensures
        message@ == bind_failure_text(port),
{
    let mut message = String::from_str("Failed to bind port ");
    push_decimal(&mut message, port as u64);
    message.append(".");
    message
}

} // verus!
