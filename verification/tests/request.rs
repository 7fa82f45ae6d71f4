use notify_server::{index, IpAddress, NotificationInfo, PeerAddress};

#[test]
fn test_index_empty() {
    let shown = index(&NotificationInfo { summary: None, body: None }, None);

    assert!(shown.summary.is_some() && shown.body.is_some());

    assert_eq!(
        shown,
        NotificationInfo { summary: Some(String::new()), body: Some(String::new()) }
    );
}

#[test]
fn test_index_summary_and_body() {
    let info = NotificationInfo {
        summary: Some(String::from("summary-test")),
        body: Some(String::from("body-test")),
    };
    let shown = index(&info, None);

    assert!(shown.summary.is_some() && shown.body.is_some());

    assert_eq!(
        shown,
        NotificationInfo {
            summary: Some(String::from("summary-test")),
            body: Some(String::from("body-test")),
        }
    );
}

#[test]
fn index_adds_an_ipv4_peer_to_the_body() {
    let info = NotificationInfo { summary: None, body: Some(String::from("test")) };
    let peer = PeerAddress::new(IpAddress::V4([192, 168, 0, 1]), 12345);
    let shown = index(&info, Some(peer));

    assert_eq!(shown.summary.as_deref(), Some(""));
    assert_eq!(shown.body.as_deref(), Some("test\n\nReceived request from 192.168.0.1"));
}

#[test]
fn index_names_an_ipv6_peer_where_there_is_no_body() {
    let info = NotificationInfo { summary: None, body: None };
    let peer = PeerAddress::new(IpAddress::V6([0, 0, 0, 0, 0, 0, 0, 1]), 8080);
    let shown = index(&info, Some(peer));

    assert_eq!(shown.summary.as_deref(), Some(""));
    assert_eq!(shown.body.as_deref(), Some("Received request from ::1"));
}

#[test]
fn index_treats_an_empty_body_as_none() {
    let peer = PeerAddress::new(IpAddress::V4([10, 1, 2, 3]), 4);
    let with_empty = index(
        &NotificationInfo { summary: Some(String::from("s")), body: Some(String::new()) },
        Some(peer),
    );
    let without = index(
        &NotificationInfo { summary: Some(String::from("s")), body: None },
        Some(peer),
    );

    assert_eq!(with_empty, without);
    assert_eq!(with_empty.body.as_deref(), Some("Received request from 10.1.2.3"));
}

#[test]
fn index_leaves_the_summary_as_it_is() {
    let info = NotificationInfo {
        summary: Some(String::from("a \"quoted\"\nsummary")),
        body: Some(String::from("b")),
    };
    let peer = PeerAddress::new(IpAddress::V4([192, 168, 0, 1]), 12345);
    let shown = index(&info, Some(peer));

    assert_eq!(shown.summary, info.summary);
    assert_eq!(shown.body.as_deref(), Some("b\n\nReceived request from 192.168.0.1"));
}
