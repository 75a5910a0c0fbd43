//! The handshake of a WebSocket connection.

use crate::message::{
    bytes_of, fields, find_text, header_text, is_plain_char, lemma_header_reads_back,
    lemma_values_push, push_header, same_name, values_of, with_field, without, Header, Reply,
};
use crate::text::{eq_ignore_ascii_case, same_ignoring_case};
use base64::Engine;
use sha1::Digest;
use vstd::prelude::*;
use vstd::string::*;
use vstd::utf8::encode_utf8;

verus! {

/// The fields ask for a WebSocket connection.
pub open spec fn asks_for_websocket(fields: Seq<(Seq<char>, Seq<u8>)>) -> bool {
    match header_text(fields, "upgrade"@) {
        Some(text) => eq_ignore_ascii_case(text, "websocket"@),
        None => false,
    }
}

/// Whether a request asks for a WebSocket connection.
pub fn is_websocket_upgrade(headers: &Vec<Header>) -> (b: bool)
    ensures
        b == asks_for_websocket(fields(headers@)),
{
    match find_text(headers, "upgrade") {
        Some(text) => same_ignoring_case(text.as_str(), "websocket"),
        None => false,
    }
}

// ----- the accept key -----

/// The SHA-1 digest.
pub uninterp spec fn sha1_of(data: Seq<u8>) -> Seq<u8>;

/// Trusted: `sha1::Digest::digest` of `sha1::Sha1` returns the digest of the data, 20 bytes.
#[verifier::external_body]
fn sha1_digest(data: &Vec<u8>) -> (digest: Vec<u8>)
    ensures
        digest@ == sha1_of(data@),
        digest@.len() == 20,
{
    sha1::Sha1::digest(data.as_slice()).to_vec()
}

/// The character for six bits in base 64.
pub open spec fn base64_char(n: int) -> char {
    if n < 26 {
        (n + 65) as char
    } else if n < 52 {
        (n + 71) as char
    } else if n < 62 {
        (n - 4) as char
    } else if n == 62 {
        '+'
    } else {
        '/'
    }
}

/// The four characters for three bytes.
pub open spec fn base64_group(a: int, b: int, c: int) -> Seq<char> {
    seq![
        base64_char(a / 4),
        base64_char(a % 4 * 16 + b / 16),
        base64_char(b % 16 * 4 + c / 64),
        base64_char(c % 64),
    ]
}

/// The data in base 64: four characters for three bytes. Where one or two bytes are left at the
/// end, the characters that stand for none of their bits are replaced by `=`.
pub open spec fn base64_of(data: Seq<u8>) -> Seq<char>
    decreases data.len(),
{
    if data.len() == 0 {
        Seq::empty()
    } else if data.len() == 1 {
        base64_group(data[0] as int, 0, 0).take(2) + seq!['=', '=']
    } else if data.len() == 2 {
        base64_group(data[0] as int, data[1] as int, 0).take(3) + seq!['=']
    } else {
        base64_group(data[0] as int, data[1] as int, data[2] as int) + base64_of(data.skip(3))
    }
}

/// Trusted: `base64::Engine::encode` of the engine `STANDARD` returns the data in base 64, with the
/// standard alphabet and padding.
#[verifier::external_body]
fn base64_text(data: &Vec<u8>) -> (text: String)
    ensures
        text@ == base64_of(data@),
{
    base64::engine::general_purpose::STANDARD.encode(data)
}

/// The key that proves to the client that its handshake was understood.
pub open spec fn accept_key(key: Seq<char>) -> Seq<char> {
    base64_of(sha1_of(encode_utf8(key) + encode_utf8("258EAFA5-E914-47DA-95CA-C5AB0DC85B11"@)))
}

/// The key that proves to the client that its handshake was understood.
pub fn derive_accept_key(key: &str) -> (accept: String)
    ensures
        accept@ == accept_key(key@),
{
    let mut data = bytes_of(key);
    let mut guid = bytes_of("258EAFA5-E914-47DA-95CA-C5AB0DC85B11");
    data.append(&mut guid);
    base64_text(&sha1_digest(&data))
}

// ----- the answer -----

/// The fields of the answer to a handshake.
pub open spec fn handshake_fields(accept: Seq<char>) -> Seq<(Seq<char>, Seq<u8>)> {
    seq![
        ("upgrade"@, encode_utf8("websocket"@)),
        ("connection"@, encode_utf8("Upgrade"@)),
        ("sec-websocket-accept"@, encode_utf8(accept)),
    ]
}

/// The accept key for the fields of a request: empty where they hold no key.
pub open spec fn accept_for(fields: Seq<(Seq<char>, Seq<u8>)>) -> Seq<char> {
    match header_text(fields, "sec-websocket-key"@) {
        Some(key) => accept_key(key),
        None => Seq::empty(),
    }
}

/// The reply answers a handshake with these fields: the protocols are switched, unless the request
/// does not ask for it.
pub open spec fn is_handshake(reply: Reply, inbound: Seq<(Seq<char>, Seq<u8>)>) -> bool {
    if asks_for_websocket(inbound) {
        &&& reply.status == 101
        &&& fields(reply.headers@) == handshake_fields(accept_for(inbound))
        &&& reply.body@.len() == 0
    } else {
        &&& reply.status == 400
        &&& fields(reply.headers@) == seq![
            ("content-type"@, encode_utf8("text/plain; charset=utf-8"@)),
        ]
        &&& reply.body@ == "Not a WebSocket upgrade request"@
    }
}

/// The answer to a handshake: the protocols are switched, unless the request does not ask for it.
pub fn handshake_reply(headers: &Vec<Header>) -> (reply: Reply)
    ensures
        is_handshake(reply, fields(headers@)),
{
    let mut list: Vec<Header> = Vec::new();
    assert(fields(list@) =~= Seq::empty());
    if !is_websocket_upgrade(headers) {
        push_header(&mut list, "content-type", bytes_of("text/plain; charset=utf-8"));
        assert(fields(list@) =~= seq![
            ("content-type"@, encode_utf8("text/plain; charset=utf-8"@)),
        ]);
        return Reply {
            status: 400,
            headers: list,
            body: "Not a WebSocket upgrade request".to_owned(),
        };
    }
    let accept = match find_text(headers, "sec-websocket-key") {
        Some(key) => derive_accept_key(key.as_str()),
        None => String::new(),
    };
    push_header(&mut list, "upgrade", bytes_of("websocket"));
    push_header(&mut list, "connection", bytes_of("Upgrade"));
    push_header(&mut list, "sec-websocket-accept", bytes_of(accept.as_str()));
    assert(fields(list@) =~= handshake_fields(accept@));
    Reply { status: 101, headers: list, body: String::new() }
}

// ----- passing messages on -----

/// What has happened last on one direction of a connection.
#[derive(Debug, PartialEq, Eq)]
pub enum RelayEvent<M> {
    /// The connection has been set up.
    Opened,
    /// A message has come in.
    Received(M),
    /// The message has been passed on.
    Sent,
    /// The sending side has closed.
    Closed,
    /// No message could be read, or the last one could not be passed on.
    Failed,
}

/// What is to be done next.
#[derive(Debug, PartialEq, Eq)]
pub enum RelayAction<M> {
    /// Wait for a message.
    Receive,
    /// Pass the message on.
    Send(M),
    /// End the connection.
    Stop,
}

/// What is to be done after an event: messages are passed on one by one, as they came in, until a
/// side closes or fails.
pub open spec fn relay_action<M>(event: RelayEvent<M>) -> RelayAction<M> {
    match event {
        RelayEvent::Opened => RelayAction::Receive,
        RelayEvent::Received(message) => RelayAction::Send(message),
        RelayEvent::Sent => RelayAction::Receive,
        RelayEvent::Closed => RelayAction::Stop,
        RelayEvent::Failed => RelayAction::Stop,
    }
}

/// What is to be done after an event.
pub fn relay_next<M>(event: RelayEvent<M>) -> (action: RelayAction<M>)
    ensures
        action == relay_action(event),
{
    match event {
        RelayEvent::Opened => RelayAction::Receive,
        RelayEvent::Received(message) => RelayAction::Send(message),
        RelayEvent::Sent => RelayAction::Receive,
        RelayEvent::Closed => RelayAction::Stop,
        RelayEvent::Failed => RelayAction::Stop,
    }
}

// ----- laws -----

/// The event can come of the action. Nothing comes of stopping.
pub open spec fn comes_of<M>(event: RelayEvent<M>, action: RelayAction<M>) -> bool {
    match action {
        RelayAction::Receive => event is Received || event is Closed || event is Failed,
        RelayAction::Send(_) => event is Sent || event is Failed,
        RelayAction::Stop => false,
    }
}

/// The events of one direction of a connection, from its beginning on: each comes of what was to be
/// done after the one before it.
pub open spec fn is_relay<M>(events: Seq<RelayEvent<M>>) -> bool {
    &&& events.len() > 0 ==> events[0] is Opened
    &&& forall|i: int|
        1 <= i < events.len() ==> comes_of(#[trigger] events[i], relay_action(events[i - 1]))
}

/// The messages that have come in.
pub open spec fn received<M>(events: Seq<RelayEvent<M>>) -> Seq<M>
    decreases events.len(),
{
    if events.len() == 0 {
        Seq::empty()
    } else {
        match events.last() {
            RelayEvent::Received(message) => received(events.drop_last()).push(message),
            _ => received(events.drop_last()),
        }
    }
}

/// The messages that were to be passed on.
pub open spec fn handed_on<M>(events: Seq<RelayEvent<M>>) -> Seq<M>
    decreases events.len(),
{
    if events.len() == 0 {
        Seq::empty()
    } else {
        match relay_action(events.last()) {
            RelayAction::Send(message) => handed_on(events.drop_last()).push(message),
            _ => handed_on(events.drop_last()),
        }
    }
}

/// The messages that have been passed on: those whose passing on has gone well.
pub open spec fn delivered<M>(events: Seq<RelayEvent<M>>) -> Seq<M>
    decreases events.len(),
{
    if events.len() == 0 {
        Seq::empty()
    } else {
        let before = delivered(events.drop_last());
        if events.last() is Sent && events.len() > 1 {
            match relay_action(events[events.len() - 2]) {
                RelayAction::Send(message) => before.push(message),
                _ => before,
            }
        } else {
            before
        }
    }
}

proof fn lemma_relay_progress<M>(events: Seq<RelayEvent<M>>)
    requires
        is_relay(events),
    ensures
        handed_on(events) == received(events),
        events.len() == 0 || events.last() is Opened || events.last() is Sent
            || events.last() is Closed ==> received(events) == delivered(events),
        events.len() > 0 && events.last() is Received ==> received(events) == delivered(
            events,
        ).push(events.last()->Received_0),
        events.len() > 0 && events.last() is Failed ==> received(events) == delivered(events) || (
        received(events).len() > 0 && received(events).drop_last() == delivered(events)),
    decreases events.len(),
{
    if events.len() > 0 {
        let front = events.drop_last();
        assert(is_relay(front)) by {
            assert forall|i: int| 1 <= i < front.len() implies comes_of(
                #[trigger] front[i],
                relay_action(front[i - 1]),
            ) by {
                assert(comes_of(events[i], relay_action(events[i - 1])));
            }
        }
        lemma_relay_progress(front);
        let n = events.len() - 1;
        if n > 0 {
            assert(front.last() == events[n - 1]);
            assert(comes_of(events[n], relay_action(events[n - 1])));
            if front.last() is Received {
                assert(delivered(front).push(front.last()->Received_0).drop_last()
                    =~= delivered(front));
            }
        } else {
            assert(front =~= Seq::empty());
        }
    }
}

/// Messages are passed on as they came in: those to be passed on are those received, in order and
/// unchanged, and what the other side gets is a prefix of what this side sent, all but the last of
/// what was received at least. Nothing happens any more once a side has closed or failed.
pub proof fn lemma_messages_are_relayed<M>(events: Seq<RelayEvent<M>>, sent: Seq<M>)
    requires
        is_relay(events),
        received(events).is_prefix_of(sent),
    ensures
        handed_on(events) == received(events),
        delivered(events).is_prefix_of(sent),
        received(events).len() <= delivered(events).len() + 1,
        forall|i: int|
            0 <= i < events.len() && ((#[trigger] events[i]) is Closed || events[i] is Failed)
                ==> i == events.len() - 1,
{
    lemma_relay_progress(events);
    assert forall|i: int|
        0 <= i < events.len() && ((#[trigger] events[i]) is Closed || events[i] is Failed) implies i
        == events.len() - 1 by {
        if i + 1 < events.len() {
            assert(comes_of(events[i + 1], relay_action(events[i])));
        }
    }
    let got = received(events);
    let passed = delivered(events);
    assert(passed.len() <= got.len());
    assert forall|k: int| 0 <= k < passed.len() implies passed[k] == sent[k] by {
        assert(passed[k] == got[k]);
        assert(got[k] == sent.subrange(0, got.len() as int)[k]);
    }
    assert(passed =~= sent.subrange(0, passed.len() as int));
}

/// A request asks for a WebSocket connection exactly where its field `upgrade` says `websocket`, in
/// upper or lower case.
pub proof fn lemma_upgrade_asks(fields: Seq<(Seq<char>, Seq<u8>)>, text: Seq<char>)
    requires
        forall|i: int| 0 <= i < text.len() ==> is_plain_char(#[trigger] text[i]),
    ensures
        asks_for_websocket(with_field(fields, "upgrade"@, encode_utf8(text)))
            <==> eq_ignore_ascii_case(text, "websocket"@),
        !asks_for_websocket(without(fields, "upgrade"@)),
{
    lemma_header_reads_back(fields, "upgrade"@, text, ""@);
}

proof fn lemma_encode_concat(a: Seq<char>, b: Seq<char>)
    ensures
        encode_utf8(a + b) == encode_utf8(a) + encode_utf8(b),
    decreases a.len(),
{
    if a.len() == 0 {
        assert(a + b =~= b);
        assert(encode_utf8(a) =~= Seq::<u8>::empty());
        assert(encode_utf8(a) + encode_utf8(b) =~= encode_utf8(b));
    } else {
        assert((a + b).drop_first() =~= a.drop_first() + b);
        lemma_encode_concat(a.drop_first(), b);
        assert(encode_utf8(a + b) =~= encode_utf8(a) + encode_utf8(b));
    }
}

/// The accept key is the digest, in base 64, of the text that the key of the request and the fixed
/// identifier make in a row.
pub proof fn lemma_accept_key_of_text(key: Seq<char>)
    ensures
        accept_key(key) == base64_of(
            sha1_of(encode_utf8(key + "258EAFA5-E914-47DA-95CA-C5AB0DC85B11"@)),
        ),
{
    lemma_encode_concat(key, "258EAFA5-E914-47DA-95CA-C5AB0DC85B11"@);
}

/// The answer to a handshake names the protocol and carries the accept key for the key of the
/// request; without a key it carries an empty one.
pub proof fn lemma_handshake_carries_key(
    fields: Seq<(Seq<char>, Seq<u8>)>,
    key: Seq<char>,
    accept: Seq<char>,
)
    requires
        forall|i: int| 0 <= i < key.len() ==> is_plain_char(#[trigger] key[i]),
    ensures
        accept_for(with_field(fields, "sec-websocket-key"@, encode_utf8(key))) == accept_key(key),
        accept_for(without(fields, "sec-websocket-key"@)).len() == 0,
        values_of(handshake_fields(accept), "upgrade"@) == seq![encode_utf8("websocket"@)],
        values_of(handshake_fields(accept), "connection"@) == seq![encode_utf8("Upgrade"@)],
        values_of(handshake_fields(accept), "sec-websocket-accept"@) == seq![encode_utf8(accept)],
{
    lemma_header_reads_back(fields, "sec-websocket-key"@, key, ""@);
    reveal_strlit("upgrade");
    reveal_strlit("connection");
    reveal_strlit("sec-websocket-accept");
    let none = Seq::<(Seq<char>, Seq<u8>)>::empty();
    let one = ("upgrade"@, encode_utf8("websocket"@));
    let two = ("connection"@, encode_utf8("Upgrade"@));
    let three = ("sec-websocket-accept"@, encode_utf8(accept));
    let all = none.push(one).push(two).push(three);
    assert(handshake_fields(accept) =~= all);
    assert forall|name: Seq<char>| true implies #[trigger] values_of(all, name) == {
        let first = if same_name(one.0, name) {
            Seq::<Seq<u8>>::empty().push(one.1)
        } else {
            Seq::<Seq<u8>>::empty()
        };
        let second = if same_name(two.0, name) {
            first.push(two.1)
        } else {
            first
        };
        if same_name(three.0, name) {
            second.push(three.1)
        } else {
            second
        }
    } by {
        lemma_values_push(none, one, name);
        lemma_values_push(none.push(one), two, name);
        lemma_values_push(none.push(one).push(two), three, name);
    }
    assert(values_of(all, "upgrade"@) =~= seq![one.1]);
    assert(values_of(all, "connection"@) =~= seq![two.1]);
    assert(values_of(all, "sec-websocket-accept"@) =~= seq![three.1]);
}

/// The relay goes on as long as it can: it waits for a message at the beginning and after each one
/// that was passed on, passes on what it has received, and stops on an end or a failure and on
/// nothing else.
pub proof fn lemma_relay_goes_on<M>(event: RelayEvent<M>, message: M)
    ensures
        relay_action(event) is Receive <==> event is Opened || event is Sent,
        relay_action(event) is Send <==> event is Received,
        relay_action(RelayEvent::Received(message)) == RelayAction::Send(message),
        relay_action(event) is Stop <==> event is Closed || event is Failed,
{
}

/// The protocols are switched exactly where the request asks for it, and the answer then carries
/// the accept key for the key of the request; otherwise it is the request's fault.
pub proof fn lemma_handshake_status(reply: Reply, inbound: Seq<(Seq<char>, Seq<u8>)>)
    requires
        is_handshake(reply, inbound),
    ensures
        reply.status == 101 <==> asks_for_websocket(inbound),
        reply.status == 101 || reply.status == 400,
        reply.status == 101 ==> values_of(fields(reply.headers@), "sec-websocket-accept"@) == seq![
            encode_utf8(accept_for(inbound)),
        ],
        reply.status == 400 ==> reply.body@.len() > 0,
{
    reveal_strlit("Not a WebSocket upgrade request");
    lemma_handshake_carries_key(inbound, Seq::<char>::empty(), accept_for(inbound));
}

} // verus!
