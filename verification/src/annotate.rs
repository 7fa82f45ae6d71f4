//! Adding the caller's address to the body of a notification.

use vstd::prelude::*;
use crate::address::{ip_text, lemma_ip_text_is_address_text, IpAddress, PeerAddress};
use crate::identity::lemma_ip_text_is_injective;

verus! {

/// The line that says where a request came from: a fixed phrase and the text
/// of the IP address.
pub open spec fn provenance_line(ip: IpAddress) -> Seq<char> {
    "Received request from "@ + ip_text(ip)
}

/// The body with the peer's address added: the body itself where the peer is
/// unknown, the provenance line alone where the body is empty, else the body,
/// one blank line and the provenance line.
pub open spec fn annotated(peer: Option<PeerAddress>, body: Seq<char>) -> Seq<char> {
    match peer {
        None => body,
        Some(peer) => if body.len() == 0 {
            provenance_line(peer.ip)
        } else {
            body + "\n\n"@ + provenance_line(peer.ip)
        },
    }
}

/// Without a peer the body stays as it is.
pub proof fn lemma_unknown_peer_keeps_body(body: Seq<char>)
    ensures
        annotated(None, body) == body,
{
}

/// With a peer, an empty body becomes the provenance line.
pub proof fn lemma_empty_body_becomes_provenance_line(peer: PeerAddress)
    ensures
        annotated(Some(peer), Seq::empty()) == "Received request from "@ + ip_text(peer.ip),
{
}

/// With a peer, a body that is not empty is followed by one blank line and
/// the provenance line, whatever the body holds.
pub proof fn lemma_body_is_followed_by_provenance_line(peer: PeerAddress, body: Seq<char>)
    requires
        body.len() > 0,
    ensures
        annotated(Some(peer), body) == body + "\n\n"@ + "Received request from "@ + ip_text(
            peer.ip,
        ),
{
    assert(body + "\n\n"@ + ("Received request from "@ + ip_text(peer.ip)) =~= body + "\n\n"@
        + "Received request from "@ + ip_text(peer.ip));
}

/// The port plays no part: two peers at one IP address give the same text.
pub proof fn lemma_port_is_left_out(first: PeerAddress, second: PeerAddress, body: Seq<char>)
    requires
        first.ip == second.ip,
    ensures
        annotated(Some(first), body) == annotated(Some(second), body),
{
}

/// The text tells addresses apart: with one body, two peers give the same
/// text only where their IP addresses are the same.
pub proof fn lemma_annotation_identifies_the_address(
    first: PeerAddress,
    second: PeerAddress,
    body: Seq<char>,
)
    requires
        annotated(Some(first), body) == annotated(Some(second), body),
    ensures
        first.ip == second.ip,
{
    let phrase = "Received request from "@;
    let lead = if body.len() == 0 {
        phrase
    } else {
        body + "\n\n"@ + phrase
    };
    let a = annotated(Some(first), body);
    let b = annotated(Some(second), body);
    assert(a =~= lead + ip_text(first.ip));
    assert(b =~= lead + ip_text(second.ip));
    assert(ip_text(first.ip) =~= a.subrange(lead.len() as int, a.len() as int));
    assert(ip_text(second.ip) =~= b.subrange(lead.len() as int, b.len() as int));
    lemma_ip_text_is_injective(first.ip, second.ip);
}

/// The provenance line is one line: it holds no line break, and it is longer
/// than its fixed phrase.
pub proof fn lemma_provenance_line_is_one_line(ip: IpAddress)
    ensures
        forall|i: int|
            0 <= i < provenance_line(ip).len() ==> #[trigger] provenance_line(ip)[i] != '\n',
        provenance_line(ip).len() >= "Received request from "@.len() + 2,
{
    reveal_strlit("Received request from ");
    lemma_ip_text_is_address_text(ip);
}

/// Adds the IP address of `socket` to `body`. The text is `annotated` of the
/// two arguments, so two calls with the same arguments give the same text;
/// nothing else is read, and nothing is changed.
pub fn add_ip_addr_info(socket: Option<PeerAddress>, body: &str) -> (text: String)
    ensures
        text@ == annotated(socket, body@),
{
    match socket {
        Some(addr) => {
            let mut text = String::from_str(body);
            if !body.is_empty() {
                text.append("\n\n");
            }
            text.append("Received request from ");
            addr.ip().push_text(&mut text);
            assert(text@ =~= annotated(socket, body@));
            text
        },
        None => String::from_str(body),
    }
}

} // verus!
