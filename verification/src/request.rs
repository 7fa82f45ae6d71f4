//! What one request asks for: the notification to show and to echo.

use vstd::prelude::*;
use crate::address::PeerAddress;
use crate::annotate::{add_ip_addr_info, annotated};

verus! {

/// The summary and the body of a notification. A request may leave out
/// either; the answer to a request holds both.
#[derive(Debug, PartialEq, Eq)]
pub struct NotificationInfo {
    pub summary: Option<String>,
    pub body: Option<String>,
}

/// A notification as its two texts, each of which may be left out.
pub struct NotificationText {
    pub summary: Option<Seq<char>>,
    pub body: Option<Seq<char>>,
}

impl View for NotificationInfo {
    type V = NotificationText;

    open spec fn view(&self) -> NotificationText {
        NotificationText {
            summary: match self.summary {
                Some(text) => Some(text@),
                None => None,
            },
            body: match self.body {
                Some(text) => Some(text@),
                None => None,
            },
        }
    }
}

/// The text of a field, where a field that is left out counts as empty.
pub open spec fn text_or_empty(field: Option<Seq<char>>) -> Seq<char> {
    match field {
        Some(text) => text,
        None => Seq::empty(),
    }
}

/// What is shown and sent back for the request `info` from `peer`: the summary
/// as given, the body with the peer's address added, and neither left out.
pub open spec fn shown_for(info: NotificationText, peer: Option<PeerAddress>) -> NotificationText {
    NotificationText {
        summary: Some(text_or_empty(info.summary)),
        body: Some(annotated(peer, text_or_empty(info.body))),
    }
}

/// The notification that the request `info` from `peer` asks for. It is both
/// what is to be shown and what is to be sent back, and holds a summary and a
/// body whatever the request left out.
pub fn index(info: &NotificationInfo, peer: Option<PeerAddress>) -> (shown: NotificationInfo)
    ensures
        shown@ == shown_for(info@, peer),
        shown.summary is Some,
        shown.body is Some,
{
    proof {
        reveal_strlit("");
        assert(""@ =~= Seq::<char>::empty());
    }
    let summary = match &info.summary {
        Some(text) => text.clone(),
        None => String::new(),
    };
    let body = match &info.body {
        Some(text) => add_ip_addr_info(peer, text.as_str()),
        None => add_ip_addr_info(peer, ""),
    };
    NotificationInfo { summary: Some(summary), body: Some(body) }
}

} // verus!
