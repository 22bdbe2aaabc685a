use narad::echo::{EchoAction, EchoSession};
use narad::node_messages::{classify_node_greeting, is_ack, is_tmp_connect_request};
use narad::node_session::{NodeAction, NodeOutcome, NodeSession};
use narad::session::{Action, Event, Route, Session};
use narad::wire::IpAddress;

fn buf(prefix: &[u8], len: usize) -> Vec<u8> {
    let mut b = vec![0u8; len];
    b[..prefix.len()].copy_from_slice(prefix);
    b
}

fn rfc1929(user: &str, pass: &str) -> Vec<u8> {
    let mut m = vec![1u8, user.len() as u8];
    m.extend_from_slice(user.as_bytes());
    m.push(pass.len() as u8);
    m.extend_from_slice(pass.as_bytes());
    m.resize(512, 0);
    m
}

#[test]
fn direct_session_without_auth() {
    let (mut s, a) = Session::new(false, String::new(), String::new(), Route::Direct);
    assert_eq!(a, Action::ReadClient(256));
    assert_eq!(s.step(Event::Received(buf(&[5, 1, 0], 256))), Action::WriteClient(vec![5, 0]));
    assert_eq!(s.step(Event::Done), Action::ReadClient(256));
    let req = buf(&[5, 1, 0, 1, 93, 184, 216, 34, 0, 80], 256);
    assert_eq!(s.step(Event::Received(req)), Action::Connect(IpAddress::V4([93, 184, 216, 34]), 80));
    assert_eq!(
        s.step(Event::Done),
        Action::WriteClient(vec![5, 0, 0, 1, 0, 0, 0, 0, 0, 80])
    );
    assert_eq!(s.step(Event::Done), Action::Relay);
    assert!(!s.is_closed());
    assert_eq!(s.step(Event::Done), Action::Close);
    assert!(s.is_closed());
}

#[test]
fn direct_session_with_auth_and_domain() {
    let (mut s, _) = Session::new(true, "alice".to_string(), "secret".to_string(), Route::Direct);
    assert_eq!(s.step(Event::Received(buf(&[5, 1, 2], 256))), Action::WriteClient(vec![5, 2]));
    assert_eq!(s.step(Event::Done), Action::ReadClient(512));
    assert_eq!(s.step(Event::Received(rfc1929("alice", "secret"))), Action::WriteClient(vec![1, 0]));
    assert_eq!(s.step(Event::Done), Action::ReadClient(256));
    let mut p = vec![5u8, 1, 0, 3, 7];
    p.extend_from_slice(b"example");
    p.extend_from_slice(&[0x01, 0xbb]);
    assert_eq!(s.step(Event::Received(buf(&p, 256))), Action::Resolve(b"example".to_vec()));
    let addrs = vec![IpAddress::V4([1, 2, 3, 4]), IpAddress::V4([5, 6, 7, 8])];
    assert_eq!(s.step(Event::Resolved(addrs)), Action::Connect(IpAddress::V4([1, 2, 3, 4]), 443));
}

#[test]
fn rejected_credentials_close_the_session() {
    let (mut s, _) = Session::new(true, "alice".to_string(), "secret".to_string(), Route::Direct);
    s.step(Event::Received(buf(&[5, 1, 2], 256)));
    s.step(Event::Done);
    assert_eq!(s.step(Event::Received(rfc1929("alice", "guess"))), Action::WriteClient(vec![1, 1]));
    assert_eq!(s.step(Event::Done), Action::Close);
    assert!(s.is_closed());
    assert_eq!(s.step(Event::Received(buf(&[5, 1, 0, 1, 1, 1, 1, 1, 0, 80], 256))), Action::Close);
}

#[test]
fn refused_request_closes_after_the_reply() {
    let (mut s, _) = Session::new(false, String::new(), String::new(), Route::Direct);
    s.step(Event::Received(buf(&[5, 1, 0], 256)));
    s.step(Event::Done);
    assert_eq!(s.step(Event::Received(buf(&[5, 2, 0, 1], 256))), Action::WriteClient(vec![5, 7]));
    assert_eq!(s.step(Event::Done), Action::Close);
}

#[test]
fn unsupported_address_type_is_answered() {
    let (mut s, _) = Session::new(false, String::new(), String::new(), Route::Direct);
    s.step(Event::Received(buf(&[5, 1, 0], 256)));
    s.step(Event::Done);
    assert_eq!(s.step(Event::Received(buf(&[5, 1, 0, 4], 256))), Action::WriteClient(vec![5, 8]));
    assert_eq!(s.step(Event::Failed), Action::Close);
}

#[test]
fn failures_close_the_session() {
    let (mut s, _) = Session::new(false, String::new(), String::new(), Route::Direct);
    assert_eq!(s.step(Event::Failed), Action::Close);
    let (mut s, _) = Session::new(false, String::new(), String::new(), Route::Direct);
    s.step(Event::Received(buf(&[5, 1, 0], 256)));
    s.step(Event::Done);
    s.step(Event::Received(buf(&[5, 1, 0, 1, 1, 2, 3, 4, 0, 80], 256)));
    assert_eq!(s.step(Event::Failed), Action::Close);
}

#[test]
fn controller_session_goes_through_the_node() {
    let (mut s, _) = Session::new(false, String::new(), String::new(), Route::ViaNode);
    assert_eq!(s.step(Event::Received(buf(&[5, 1, 0], 256))), Action::WriteClient(vec![5, 0]));
    assert_eq!(s.step(Event::Done), Action::ReadClient(256));
    let req = buf(&[5, 1, 0, 1, 10, 0, 0, 7, 0x1f, 0x90], 256);
    assert_eq!(s.step(Event::Received(req)), Action::NotifyNode(b"node_tmp_connect".to_vec()));
    assert_eq!(s.step(Event::Done), Action::AcceptNode);
    assert_eq!(s.step(Event::Done), Action::WriteNode(b"10.0.0.7".to_vec()));
    assert_eq!(s.step(Event::Done), Action::ReadNode(2));
    assert_eq!(s.step(Event::Received(b"ok".to_vec())), Action::WriteNode(b"8080".to_vec()));
    assert_eq!(s.step(Event::Done), Action::ReadNode(2));
    assert_eq!(
        s.step(Event::Received(b"ok".to_vec())),
        Action::WriteClient(vec![5, 0, 0, 1, 0, 0, 0, 0, 0, 80])
    );
    assert_eq!(s.step(Event::Done), Action::Relay);
}

#[test]
fn controller_session_stops_without_node_ack() {
    let (mut s, _) = Session::new(false, String::new(), String::new(), Route::ViaNode);
    s.step(Event::Received(buf(&[5, 1, 0], 256)));
    s.step(Event::Done);
    s.step(Event::Received(buf(&[5, 1, 0, 1, 10, 0, 0, 7, 0, 80], 256)));
    s.step(Event::Done);
    s.step(Event::Done);
    s.step(Event::Done);
    assert_eq!(s.step(Event::Received(vec![0, 0])), Action::Close);
}

#[test]
fn node_session_connects_to_what_it_is_sent() {
    let (mut n, a) = NodeSession::new();
    assert_eq!(a, NodeAction::Read(1024));
    assert_eq!(n.step(Event::Received(b"2001:db8::1".to_vec())), NodeAction::Write(b"ok".to_vec()));
    assert_eq!(n.step(Event::Done), NodeAction::Read(1024));
    assert_eq!(
        n.step(Event::Received(b"443\n".to_vec())),
        NodeAction::Connect(IpAddress::V6([0x2001, 0xdb8, 0, 0, 0, 0, 0, 1]), 443)
    );
    assert_eq!(n.step(Event::Done), NodeAction::Write(b"ok".to_vec()));
    assert_eq!(n.step(Event::Done), NodeAction::Relay);
    assert_eq!(n.step(Event::Done), NodeAction::Finish(NodeOutcome::Relayed));
}

#[test]
fn node_session_refuses_bad_text() {
    let (mut n, _) = NodeSession::new();
    assert_eq!(n.step(Event::Received(b"localhost".to_vec())), NodeAction::Finish(NodeOutcome::BadTargetIp));
    let (mut n, _) = NodeSession::new();
    n.step(Event::Received(b"1.2.3.4".to_vec()));
    n.step(Event::Done);
    assert_eq!(n.step(Event::Received(b"http".to_vec())), NodeAction::Finish(NodeOutcome::BadTargetPort));
    let (mut n, _) = NodeSession::new();
    assert_eq!(n.step(Event::Failed), NodeAction::Finish(NodeOutcome::Failed));
    assert_eq!(n.step(Event::Done), NodeAction::Finish(NodeOutcome::Failed));
}

#[test]
fn node_messages_are_recognised() {
    assert!(is_ack(b"ok"));
    assert!(!is_ack(b"o\0"));
    assert!(!is_ack(b"OK"));
    assert!(is_tmp_connect_request(b"node_tmp_connect"));
    assert!(!is_tmp_connect_request(b"node_tmp_connectnode_tmp_connect"));
    assert_eq!(classify_node_greeting(b""), None);
    assert_eq!(classify_node_greeting(b"node_greeting"), Some(true));
    assert_eq!(classify_node_greeting(b"node_greetingnode_greeting"), Some(false));
    assert_eq!(classify_node_greeting(b"hello"), Some(false));
}

#[test]
fn echo_session_counts_answered_messages() {
    let (mut e, a) = EchoSession::new();
    assert_eq!(a, EchoAction::Read(1024));
    assert_eq!(e.step(Event::Received(b"hi".to_vec())), EchoAction::Write(b"Recieved".to_vec()));
    assert_eq!(e.step(Event::Done), EchoAction::Flush);
    assert_eq!(e.step(Event::Done), EchoAction::Read(1024));
    assert_eq!(e.messages(), 1);
    e.step(Event::Received(b"again".to_vec()));
    assert_eq!(e.step(Event::Failed), EchoAction::Read(1024));
    assert_eq!(e.messages(), 1);
    assert_eq!(e.step(Event::Failed), EchoAction::Read(1024));
    assert_eq!(e.step(Event::Received(Vec::new())), EchoAction::Close(1));
}

#[test]
fn controller_and_node_agree() {
    for (request, target, port) in [
        (vec![5u8, 1, 0, 1, 172, 16, 0, 9, 0x01, 0xbb], IpAddress::V4([172, 16, 0, 9]), 443u16),
        (vec![5u8, 1, 0, 1, 0, 0, 0, 0, 0, 0], IpAddress::V4([0, 0, 0, 0]), 0u16),
    ] {
        let (mut c, _) = Session::new(false, String::new(), String::new(), Route::ViaNode);
        c.step(Event::Received(buf(&[5, 1, 0], 256)));
        c.step(Event::Done);
        c.step(Event::Received(buf(&request, 256)));
        c.step(Event::Done);
        let ip_text = match c.step(Event::Done) {
            Action::WriteNode(t) => t,
            other => panic!("unexpected {:?}", other),
        };
        let (mut n, _) = NodeSession::new();
        let ack = match n.step(Event::Received(ip_text)) {
            NodeAction::Write(a) => a,
            other => panic!("unexpected {:?}", other),
        };
        n.step(Event::Done);
        c.step(Event::Done);
        let port_text = match c.step(Event::Received(ack)) {
            Action::WriteNode(t) => t,
            other => panic!("unexpected {:?}", other),
        };
        assert_eq!(n.step(Event::Received(port_text)), NodeAction::Connect(target, port));
    }
    let v6 = IpAddress::V6([0x2001, 0xdb8, 0, 0, 0, 0xff00, 0x42, 0x8329]);
    let (mut c, _) = Session::new(false, String::new(), String::new(), Route::ViaNode);
    c.step(Event::Received(buf(&[5, 1, 0], 256)));
    c.step(Event::Done);
    let mut p = vec![5u8, 1, 0, 3, 4];
    p.extend_from_slice(b"host");
    p.extend_from_slice(&[0, 80]);
    assert_eq!(c.step(Event::Received(buf(&p, 256))), Action::Resolve(b"host".to_vec()));
    c.step(Event::Resolved(vec![v6]));
    c.step(Event::Done);
    let ip_text = match c.step(Event::Done) {
        Action::WriteNode(t) => t,
        other => panic!("unexpected {:?}", other),
    };
    assert_eq!(ip_text, b"2001:db8::ff00:42:8329".to_vec());
    let (mut n, _) = NodeSession::new();
    n.step(Event::Received(ip_text));
    n.step(Event::Done);
    assert_eq!(n.step(Event::Received(b"80".to_vec())), NodeAction::Connect(v6, 80));
}

#[test]
fn echo_session_answers_two_messages_then_ends() {
    let (mut e, _) = EchoSession::new();
    let mut replies = 0;
    for msg in [b"hello".to_vec(), b"hi".to_vec()] {
        assert_eq!(e.step(Event::Received(msg)), EchoAction::Write(b"Recieved".to_vec()));
        replies += 1;
        assert_eq!(e.step(Event::Done), EchoAction::Flush);
        assert_eq!(e.step(Event::Done), EchoAction::Read(1024));
    }
    assert_eq!(replies, 2);
    assert_eq!(e.step(Event::Received(Vec::new())), EchoAction::Close(2));
    assert_eq!(e.step(Event::Done), EchoAction::Close(2));
}
