use narad::wire::{
    auth_status_reply, method_selection_reply, parse_request, refusal_reply, success_reply,
    IpAddress, Request, Target,
};

fn buffer(prefix: &[u8]) -> Vec<u8> {
    let mut b = vec![0u8; 256];
    b[..prefix.len()].copy_from_slice(prefix);
    b
}

#[test]
fn ipv4_connect_request_is_read() {
    let b = buffer(&[5, 1, 0, 1, 127, 0, 0, 1, 0x1f, 0x90]);
    assert_eq!(
        parse_request(&b),
        Request::Connect { target: Target::Ip(IpAddress::V4([127, 0, 0, 1])), port: 8080 }
    );
}

#[test]
fn domain_connect_request_is_read() {
    let mut p = vec![5u8, 1, 0, 3, 11];
    p.extend_from_slice(b"example.com");
    p.extend_from_slice(&[0, 80]);
    let b = buffer(&p);
    assert_eq!(
        parse_request(&b),
        Request::Connect { target: Target::Domain(b"example.com".to_vec()), port: 80 }
    );
}

#[test]
fn empty_domain_name_is_read() {
    let b = buffer(&[5, 1, 0, 3, 0, 0x01, 0xbb]);
    assert_eq!(
        parse_request(&b),
        Request::Connect { target: Target::Domain(Vec::new()), port: 443 }
    );
}

#[test]
fn version_and_reserved_bytes_are_ignored() {
    let b = buffer(&[4, 1, 9, 1, 10, 0, 0, 2, 0, 22]);
    assert_eq!(
        parse_request(&b),
        Request::Connect { target: Target::Ip(IpAddress::V4([10, 0, 0, 2])), port: 22 }
    );
}

#[test]
fn bind_command_is_not_supported() {
    let b = buffer(&[5, 2, 0, 1, 127, 0, 0, 1, 0, 80]);
    assert_eq!(parse_request(&b), Request::CommandNotSupported);
    assert_eq!(refusal_reply(&parse_request(&b)), Some(vec![5, 7]));
}

#[test]
fn command_is_checked_before_address_type() {
    let b = buffer(&[5, 3, 0, 4]);
    assert_eq!(parse_request(&b), Request::CommandNotSupported);
}

#[test]
fn ipv6_address_type_is_not_supported() {
    let b = buffer(&[5, 1, 0, 4]);
    assert_eq!(parse_request(&b), Request::AddressTypeNotSupported);
    assert_eq!(refusal_reply(&parse_request(&b)), Some(vec![5, 8]));
}

#[test]
fn connect_request_gets_no_refusal() {
    let b = buffer(&[5, 1, 0, 1, 1, 2, 3, 4, 0, 80]);
    assert_eq!(refusal_reply(&parse_request(&b)), None);
}

#[test]
fn method_selection_replies() {
    assert_eq!(method_selection_reply(true), vec![5, 2]);
    assert_eq!(method_selection_reply(false), vec![5, 0]);
}

#[test]
fn auth_status_replies() {
    assert_eq!(auth_status_reply(true), vec![1, 0]);
    assert_eq!(auth_status_reply(false), vec![1, 1]);
}

#[test]
fn success_reply_names_port_eighty() {
    assert_eq!(success_reply(), vec![5, 0, 0, 1, 0, 0, 0, 0, 0, 80]);
}
