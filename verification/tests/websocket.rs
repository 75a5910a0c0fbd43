use ms_gateway::message::{find_text, Header};
use ms_gateway::websocket::{
    derive_accept_key, handshake_reply, is_websocket_upgrade, relay_next, RelayAction, RelayEvent,
};

fn headers(list: &[(&str, &str)]) -> Vec<Header> {
    list.iter()
        .map(|(n, v)| Header { name: n.to_string(), value: v.as_bytes().to_vec() })
        .collect()
}

#[test]
fn the_accept_key_of_the_protocol() {
    assert_eq!(derive_accept_key("dGhlIHNhbXBsZSBub25jZQ=="), "s3pPLMBiTxaQ9kYGzzhZRbK+xOo=");
}

#[test]
fn upgrades_are_recognised() {
    assert!(is_websocket_upgrade(&headers(&[("upgrade", "WebSocket")])));
    assert!(!is_websocket_upgrade(&headers(&[("upgrade", "h2c")])));
    assert!(!is_websocket_upgrade(&headers(&[("connection", "websocket")])));
    assert!(!is_websocket_upgrade(&headers(&[])));
}

#[test]
fn handshakes_are_answered() {
    let reply = handshake_reply(&headers(&[
        ("upgrade", "websocket"),
        ("sec-websocket-key", "dGhlIHNhbXBsZSBub25jZQ=="),
    ]));
    assert_eq!(reply.status, 101);
    assert_eq!(find_text(&reply.headers, "upgrade"), Some("websocket".to_string()));
    assert_eq!(find_text(&reply.headers, "connection"), Some("Upgrade".to_string()));
    assert_eq!(
        find_text(&reply.headers, "sec-websocket-accept"),
        Some("s3pPLMBiTxaQ9kYGzzhZRbK+xOo=".to_string())
    );
    assert_eq!(reply.headers.len(), 3);
    assert_eq!(reply.body, "");
}

#[test]
fn handshakes_without_a_key_or_an_upgrade() {
    let reply = handshake_reply(&headers(&[("upgrade", "websocket")]));
    assert_eq!(reply.status, 101);
    assert_eq!(find_text(&reply.headers, "sec-websocket-accept"), Some(String::new()));

    let refused = handshake_reply(&headers(&[]));
    assert_eq!(refused.status, 400);
    assert_eq!(refused.body, "Not a WebSocket upgrade request");
    assert_eq!(
        find_text(&refused.headers, "content-type"),
        Some("text/plain; charset=utf-8".to_string())
    );
}

#[test]
fn messages_are_passed_on_until_a_side_ends() {
    assert_eq!(relay_next::<u8>(RelayEvent::Opened), RelayAction::Receive);
    assert_eq!(relay_next(RelayEvent::Received("m")), RelayAction::Send("m"));
    assert_eq!(relay_next::<u8>(RelayEvent::Sent), RelayAction::Receive);
    assert_eq!(relay_next::<u8>(RelayEvent::Closed), RelayAction::Stop);
    assert_eq!(relay_next::<u8>(RelayEvent::Failed), RelayAction::Stop);
}

/// Relays the messages of a list and returns those that came out at the other side, which fails
/// after `room` of them.
fn relayed(sent: &[u32], room: usize) -> Vec<u32> {
    let mut source = sent.iter();
    let mut out = Vec::new();
    let mut event = RelayEvent::Opened;
    loop {
        event = match relay_next(event) {
            RelayAction::Receive => match source.next() {
                Some(message) => RelayEvent::Received(*message),
                None => RelayEvent::Closed,
            },
            RelayAction::Send(message) if out.len() < room => {
                out.push(message);
                RelayEvent::Sent
            }
            RelayAction::Send(_) => RelayEvent::Failed,
            RelayAction::Stop => return out,
        };
    }
}

#[test]
fn messages_arrive_in_order_and_unchanged() {
    assert_eq!(relayed(&[5, 1, 5, 2], 9), vec![5, 1, 5, 2]);
    assert_eq!(relayed(&[5, 1, 5, 2], 2), vec![5, 1]);
    assert_eq!(relayed(&[], 9), Vec::<u32>::new());
}
