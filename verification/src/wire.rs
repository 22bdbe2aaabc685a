//! SOCKS5 wire messages: the replies the server sends and the connection
//! request it reads (RFC 1928, with the liberties this server takes).
use vstd::prelude::*;

verus! {

/// Size of the zero-filled buffer that a client greeting is read into.
pub const GREETING_BUFFER_LEN: usize = 256;

/// Size of the zero-filled buffer that the username/password message is read into.
pub const CREDENTIALS_BUFFER_LEN: usize = 512;

/// Size of the zero-filled buffer that a connection request is read into.
pub const REQUEST_BUFFER_LEN: usize = 256;

/// An IP address, as the server connects to it.
#[derive(Clone, Copy, Debug, PartialEq, Eq)]
pub enum IpAddress {
    V4([u8; 4]),
    V6([u16; 8]),
}

/// Where a CONNECT request asks the server to go.
#[derive(Clone, Debug, PartialEq, Eq)]
pub enum Target {
    /// A literal address (address type 1).
    Ip(IpAddress),
    /// A host name still to be resolved (address type 3), as raw bytes.
    Domain(Vec<u8>),
}

/// The mathematical counterpart of [`Target`].
pub enum TargetView {
    Ip(IpAddress),
    Domain(Seq<u8>),
}

impl View for Target {
    type V = TargetView;

    open spec fn view(&self) -> TargetView {
        match self {
            Target::Ip(a) => TargetView::Ip(*a),
            Target::Domain(d) => TargetView::Domain(d@),
        }
    }
}

/// What the server makes of a connection request.
#[derive(Clone, Debug, PartialEq, Eq)]
pub enum Request {
    /// The command byte is not CONNECT (1).
    CommandNotSupported,
    /// The command is CONNECT but the address type is neither 1 nor 3.
    AddressTypeNotSupported,
    /// A CONNECT request to `target` on `port`.
    Connect { target: Target, port: u16 },
}

/// The mathematical counterpart of [`Request`].
pub enum RequestView {
    CommandNotSupported,
    AddressTypeNotSupported,
    Connect { target: TargetView, port: u16 },
}

impl View for Request {
    type V = RequestView;

    open spec fn view(&self) -> RequestView {
        match self {
            Request::CommandNotSupported => RequestView::CommandNotSupported,
            Request::AddressTypeNotSupported => RequestView::AddressTypeNotSupported,
            Request::Connect { target, port } => RequestView::Connect { target: target@, port: *port },
        }
    }
}

/// A big-endian 16-bit number made of two bytes.
pub open spec fn be_u16(hi: u8, lo: u8) -> u16 {
    (hi * 256 + lo) as u16
}

/// The bytes a request must have for the server to read every field it looks at:
/// the command (index 1) and address type (index 3) always; for an IPv4 CONNECT
/// the address and port up to index 9; for a domain CONNECT the length byte at
/// index 4, the name after it and the two port bytes.
pub open spec fn request_in_bounds(b: Seq<u8>) -> bool {
    &&& b.len() >= 4
    &&& (b[1] == 1 && b[3] == 1 ==> b.len() >= 10)
    &&& (b[1] == 1 && b[3] == 3 ==> b.len() >= 5 && b.len() >= 7 + b[4])
}

/// How the server reads a connection request. The version byte (index 0) and the
/// reserved byte (index 2) are not looked at; bytes after the port are ignored.
pub open spec fn parse_request_spec(b: Seq<u8>) -> RequestView {
    if b[1] != 1 {
        RequestView::CommandNotSupported
    } else if b[3] == 1 {
        RequestView::Connect {
            target: TargetView::Ip(IpAddress::V4([b[4], b[5], b[6], b[7]])),
            port: be_u16(b[8], b[9]),
        }
    } else if b[3] == 3 {
        let n = b[4] as int;
        RequestView::Connect {
            target: TargetView::Domain(b.subrange(5, 5 + n)),
            port: be_u16(b[5 + n], b[6 + n]),
        }
    } else {
        RequestView::AddressTypeNotSupported
    }
}

/// Whether the server can read every field of the request it looks at; a
/// request that fails this is one the server cannot take apart.
pub fn request_fits(b: &[u8]) -> (r: bool)
    ensures
        r == request_in_bounds(b@),
{
    if b.len() < 4 {
        return false;
    }
    if b[1] == 1 && b[3] == 1 && b.len() < 10 {
        return false;
    }
    if b[1] == 1 && b[3] == 3 && (b.len() < 5 || b.len() < 7 + b[4] as usize) {
        return false;
    }
    true
}

fn be_u16_exec(hi: u8, lo: u8) -> (r: u16)
    ensures
        r == be_u16(hi, lo),
{
    (hi as u16) * 256 + (lo as u16)
}

/// Reads a connection request out of the buffer it was received in.
pub fn parse_request(b: &[u8]) -> (r: Request)
    requires
        request_in_bounds(b@),
    ensures
        r@ == parse_request_spec(b@),
{
    if b[1] != 1 {
        Request::CommandNotSupported
    } else if b[3] == 1 {
        let port = be_u16_exec(b[8], b[9]);
        let a = [b[4], b[5], b[6], b[7]];
        proof {
            assert(a == [b@[4], b@[5], b@[6], b@[7]]);
        }
        Request::Connect { target: Target::Ip(IpAddress::V4(a)), port }
    } else if b[3] == 3 {
        let n = b[4] as usize;
        let mut name: Vec<u8> = Vec::new();
        let mut i: usize = 5;
        while i < 5 + n
            invariant
                5 <= i <= 5 + n,
                5 + n + 2 <= b@.len(),
                n == b@[4],
                name@ == b@.subrange(5, i as int),
            decreases 5 + n - i,
        {
            name.push(b[i]);
            i = i + 1;
            proof {
                assert(name@ =~= b@.subrange(5, i as int));
            }
        }
        let port = be_u16_exec(b[5 + n], b[6 + n]);
        Request::Connect { target: Target::Domain(name), port }
    } else {
        Request::AddressTypeNotSupported
    }
}

/// The bytes of the method-selection reply: version 5, then method 2
/// (username/password) when authentication is required, else method 0.
pub open spec fn method_selection_spec(auth_required: bool) -> Seq<u8> {
    seq![5u8, if auth_required { 2u8 } else { 0u8 }]
}

/// The bytes of the username/password status reply: 1 0 on success, 1 1 on failure.
pub open spec fn auth_status_spec(accepted: bool) -> Seq<u8> {
    seq![1u8, if accepted { 0u8 } else { 1u8 }]
}

/// The bytes of the reply to a request that is refused.
pub open spec fn refusal_spec(r: RequestView) -> Seq<u8> {
    match r {
        RequestView::CommandNotSupported => seq![5u8, 7u8],
        _ => seq![5u8, 8u8],
    }
}

/// The bytes of the success reply: version 5, status 0, reserved 0, address type 1,
/// bound address 0.0.0.0 and bound port 80, whatever the target was.
pub open spec fn success_reply_spec() -> Seq<u8> {
    seq![5u8, 0u8, 0u8, 1u8, 0u8, 0u8, 0u8, 0u8, 0u8, 80u8]
}

pub fn method_selection_reply(auth_required: bool) -> (r: Vec<u8>)
    ensures
        r@ == method_selection_spec(auth_required),
{
    let mut v: Vec<u8> = Vec::new();
    v.push(5u8);
    v.push(if auth_required { 2u8 } else { 0u8 });
    proof {
        assert(v@ =~= method_selection_spec(auth_required));
    }
    v
}

pub fn auth_status_reply(accepted: bool) -> (r: Vec<u8>)
    ensures
        r@ == auth_status_spec(accepted),
{
    let mut v: Vec<u8> = Vec::new();
    v.push(1u8);
    v.push(if accepted { 0u8 } else { 1u8 });
    proof {
        assert(v@ =~= auth_status_spec(accepted));
    }
    v
}

/// The reply to a refused request; a CONNECT request gets none.
pub fn refusal_reply(r: &Request) -> (out: Option<Vec<u8>>)
    ensures
        match r@ {
            RequestView::Connect { .. } => out is None,
            _ => out matches Some(v) && v@ == refusal_spec(r@),
        },
{
    match r {
        Request::Connect { .. } => None,
        Request::CommandNotSupported => {
            let mut v: Vec<u8> = Vec::new();
            v.push(5u8);
            v.push(7u8);
            proof {
                assert(v@ =~= refusal_spec(r@));
            }
            Some(v)
        },
        Request::AddressTypeNotSupported => {
            let mut v: Vec<u8> = Vec::new();
            v.push(5u8);
            v.push(8u8);
            proof {
                assert(v@ =~= refusal_spec(r@));
            }
            Some(v)
        },
    }
}

pub fn success_reply() -> (r: Vec<u8>)
    ensures
        r@ == success_reply_spec(),
{
    let mut v: Vec<u8> = Vec::new();
    v.push(5u8);
    v.push(0u8);
    v.push(0u8);
    v.push(1u8);
    v.push(0u8);
    v.push(0u8);
    v.push(0u8);
    v.push(0u8);
    v.push(0u8);
    v.push(80u8);
    proof {
        assert(v@ =~= success_reply_spec());
    }
    v
}

// ---------------------------------------------------------------------------
// Laws
// ---------------------------------------------------------------------------

/// A CONNECT request with address type 3 names the host made of exactly the
/// `b[4]` bytes that follow the length byte, whatever that length, and the port
/// in the two big-endian bytes right after the name.
pub proof fn law_domain_request_names_its_bytes(b: Seq<u8>)
    requires
        request_in_bounds(b),
        b[1] == 1,
        b[3] == 3,
    ensures
        parse_request_spec(b) matches RequestView::Connect { target: TargetView::Domain(d), port } && {
            &&& d.len() == b[4] as int
            &&& forall|i: int| 0 <= i < b[4] ==> #[trigger] d[i] == b[5 + i]
            &&& port as int == b[5 + b[4]] as int * 256 + b[6 + b[4]] as int
        },
{
}

/// A CONNECT request with address type 1 names the IPv4 address in bytes 4 to 7
/// and the port in the big-endian bytes 8 and 9.
pub proof fn law_ipv4_request_names_its_bytes(b: Seq<u8>)
    requires
        request_in_bounds(b),
        b[1] == 1,
        b[3] == 1,
    ensures
        parse_request_spec(b) matches RequestView::Connect { target: TargetView::Ip(IpAddress::V4(a)), port } && {
            &&& a@ == seq![b[4], b[5], b[6], b[7]]
            &&& port as int == b[8] as int * 256 + b[9] as int
        },
{
    let a = [b[4], b[5], b[6], b[7]];
    assert(a@ =~= seq![b[4], b[5], b[6], b[7]]);
}

/// Whether a request can be taken apart depends only on its length, its command
/// and address type bytes and, for a domain name, its length byte: never on the
/// address, name or port bytes.
pub proof fn law_request_fits_depends_on_lengths_only(b1: Seq<u8>, b2: Seq<u8>)
    requires
        b1.len() == b2.len(),
        b1.len() >= 4 ==> b1[1] == b2[1] && b1[3] == b2[3],
        b1.len() >= 5 ==> b1[4] == b2[4],
    ensures
        request_in_bounds(b1) == request_in_bounds(b2),
{
}

/// Fewer than four bytes never fit; from ten bytes on, every request fits except
/// a domain CONNECT whose name and port run past the end; a buffer of 262 bytes
/// or more always fits.
pub proof fn law_request_fits_by_length(b: Seq<u8>)
    ensures
        b.len() < 4 ==> !request_in_bounds(b),
        b.len() >= 10 ==> (request_in_bounds(b) <==> (!(b[1] == 1 && b[3] == 3) || b.len() >= 7
            + b[4] as int)),
        b.len() >= 262 ==> request_in_bounds(b),
{
}

} // verus!
