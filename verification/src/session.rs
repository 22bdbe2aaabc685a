//! One client connection to the SOCKS server or to the controller, as a state
//! machine: given the phase it is in and what just happened, it says what to do
//! next. The caller performs the action (a read, a write, a name lookup, a
//! connection) and reports the outcome as the next event.
//!
//! The SOCKS server connects to the target itself (`Route::Direct`); the
//! controller never asks for credentials and reaches the target through its node
//! (`Route::ViaNode`): it asks the node, on the node's main connection, for a new
//! connection, accepts it, sends the target address and then the port as text,
//! each time waiting for `ok`.
use vstd::prelude::*;
use crate::credentials::{check_credentials, credentials_accepted};
use crate::ip_text::{format_ip_text, ip_text};
use crate::node_messages::{ack, is_ack, text_is, tmp_connect_bytes, tmp_connect_message};
use crate::port_text::{format_port_text, port_text};
use crate::wire::{
    auth_status_reply, auth_status_spec, method_selection_reply, method_selection_spec,
    parse_request, parse_request_spec, refusal_reply, refusal_spec, request_in_bounds,
    success_reply, success_reply_spec, IpAddress, Request, RequestView, Target, TargetView,
    CREDENTIALS_BUFFER_LEN, GREETING_BUFFER_LEN, REQUEST_BUFFER_LEN,
};

verus! {

/// Size of the zero-filled buffer that each of the node's replies is read into.
pub const NODE_REPLY_BUFFER_LEN: usize = 2;

/// How a session reaches the target.
#[derive(Clone, Copy, Debug, PartialEq, Eq)]
pub enum Route {
    /// The server connects to the target itself.
    Direct,
    /// The controller has its node connect to the target.
    ViaNode,
}

/// Where a session stands.
#[derive(Clone, Copy, Debug, PartialEq, Eq)]
pub enum Phase {
    /// Reading the client's greeting.
    AwaitGreeting,
    /// Writing the method-selection reply.
    SendingMethod,
    /// Reading the username/password message.
    AwaitCredentials,
    /// Writing the username/password status.
    SendingAuthStatus { accepted: bool },
    /// Reading the connection request.
    AwaitRequest,
    /// Writing the reply to a refused request.
    SendingRefusal,
    /// Looking up the requested host name.
    Resolving { port: u16 },
    /// Connecting to the target.
    Connecting { target: IpAddress, port: u16 },
    /// Asking the node, on its main connection, for a new connection.
    NotifyingNode { target: IpAddress, port: u16 },
    /// Accepting the node's new connection.
    AcceptingNode { target: IpAddress, port: u16 },
    /// Sending the target address to the node.
    SendingTargetIp { port: u16 },
    /// Reading the node's acknowledgement of the address.
    AwaitIpAck { port: u16 },
    /// Sending the target port to the node.
    SendingTargetPort,
    /// Reading the node's acknowledgement of the port.
    AwaitPortAck,
    /// Writing the success reply to the client.
    SendingSuccess,
    /// Relaying data between the client and the target.
    Relaying,
    /// Done; the connections are dropped.
    Closed,
}

/// What happened to the last action.
#[derive(Clone, Debug, PartialEq, Eq)]
pub enum Event {
    /// The write, connection, acceptance or relay completed.
    Done,
    /// The action failed.
    Failed,
    /// A read completed. A client session is handed the whole zero-filled buffer
    /// it read into; the node's and the first server's sessions, the bytes read.
    Received(Vec<u8>),
    /// The host name resolved to these addresses.
    Resolved(Vec<IpAddress>),
}

/// The mathematical counterpart of [`Event`].
pub enum EventView {
    Done,
    Failed,
    Received(Seq<u8>),
    Resolved(Seq<IpAddress>),
}

impl View for Event {
    type V = EventView;

    open spec fn view(&self) -> EventView {
        match self {
            Event::Done => EventView::Done,
            Event::Failed => EventView::Failed,
            Event::Received(b) => EventView::Received(b@),
            Event::Resolved(a) => EventView::Resolved(a@),
        }
    }
}

/// What to do next.
#[derive(Debug, PartialEq, Eq)]
pub enum Action {
    /// Read from the client into a zero-filled buffer of this size.
    ReadClient(usize),
    /// Write these bytes to the client.
    WriteClient(Vec<u8>),
    /// Look up this host name (lossily decoded).
    Resolve(Vec<u8>),
    /// Connect to the target.
    Connect(IpAddress, u16),
    /// Write these bytes on the node's main connection.
    NotifyNode(Vec<u8>),
    /// Accept the node's next connection on the node listener.
    AcceptNode,
    /// Write these bytes on the node's new connection.
    WriteNode(Vec<u8>),
    /// Read from the node's new connection into a zero-filled buffer of this size.
    ReadNode(usize),
    /// Relay data both ways between the client and the upstream connection.
    Relay,
    /// Drop the connections.
    Close,
}

/// The mathematical counterpart of [`Action`].
pub enum ActionView {
    ReadClient(usize),
    WriteClient(Seq<u8>),
    Resolve(Seq<u8>),
    Connect(IpAddress, u16),
    NotifyNode(Seq<u8>),
    AcceptNode,
    WriteNode(Seq<u8>),
    ReadNode(usize),
    Relay,
    Close,
}

impl View for Action {
    type V = ActionView;

    open spec fn view(&self) -> ActionView {
        match self {
            Action::ReadClient(n) => ActionView::ReadClient(*n),
            Action::WriteClient(b) => ActionView::WriteClient(b@),
            Action::Resolve(h) => ActionView::Resolve(h@),
            Action::Connect(a, p) => ActionView::Connect(*a, *p),
            Action::NotifyNode(b) => ActionView::NotifyNode(b@),
            Action::AcceptNode => ActionView::AcceptNode,
            Action::WriteNode(b) => ActionView::WriteNode(b@),
            Action::ReadNode(n) => ActionView::ReadNode(*n),
            Action::Relay => ActionView::Relay,
            Action::Close => ActionView::Close,
        }
    }
}

/// What a session is set up with.
pub struct Config {
    pub auth_required: bool,
    pub username: Seq<char>,
    pub password: Seq<char>,
    pub route: Route,
}

/// The phase and action that end a session.
pub open spec fn close_spec() -> (Phase, ActionView) {
    (Phase::Closed, ActionView::Close)
}

/// Going upstream once the target address is known.
pub open spec fn upstream_spec(c: Config, target: IpAddress, port: u16) -> (Phase, ActionView) {
    match c.route {
        Route::Direct => (Phase::Connecting { target, port }, ActionView::Connect(target, port)),
        Route::ViaNode => (
            Phase::NotifyingNode { target, port },
            ActionView::NotifyNode(tmp_connect_message()),
        ),
    }
}

/// The next phase and action after event `e` in phase `p`. Any failure, and any
/// event that does not answer the pending action, ends the session.
pub open spec fn step_spec(c: Config, p: Phase, e: EventView) -> (Phase, ActionView) {
    match p {
        Phase::AwaitGreeting => match e {
            EventView::Received(_) => (
                Phase::SendingMethod,
                ActionView::WriteClient(method_selection_spec(c.auth_required)),
            ),
            _ => close_spec(),
        },
        Phase::SendingMethod => match e {
            EventView::Done => if c.auth_required {
                (Phase::AwaitCredentials, ActionView::ReadClient(CREDENTIALS_BUFFER_LEN))
            } else {
                (Phase::AwaitRequest, ActionView::ReadClient(REQUEST_BUFFER_LEN))
            },
            _ => close_spec(),
        },
        Phase::AwaitCredentials => match e {
            EventView::Received(d) => {
                let ok = credentials_accepted(d, c.username, c.password);
                (Phase::SendingAuthStatus { accepted: ok }, ActionView::WriteClient(auth_status_spec(ok)))
            },
            _ => close_spec(),
        },
        Phase::SendingAuthStatus { accepted } => match e {
            EventView::Done => if accepted {
                (Phase::AwaitRequest, ActionView::ReadClient(REQUEST_BUFFER_LEN))
            } else {
                close_spec()
            },
            _ => close_spec(),
        },
        Phase::AwaitRequest => match e {
            EventView::Received(r) => match parse_request_spec(r) {
                RequestView::Connect { target: TargetView::Ip(a), port } => upstream_spec(c, a, port),
                RequestView::Connect { target: TargetView::Domain(h), port } => (
                    Phase::Resolving { port },
                    ActionView::Resolve(h),
                ),
                refused => (Phase::SendingRefusal, ActionView::WriteClient(refusal_spec(refused))),
            },
            _ => close_spec(),
        },
        Phase::Resolving { port } => match e {
            EventView::Resolved(addrs) => upstream_spec(c, addrs[0], port),
            _ => close_spec(),
        },
        Phase::Connecting { .. } => match e {
            EventView::Done => (Phase::SendingSuccess, ActionView::WriteClient(success_reply_spec())),
            _ => close_spec(),
        },
        Phase::NotifyingNode { target, port } => match e {
            EventView::Done => (Phase::AcceptingNode { target, port }, ActionView::AcceptNode),
            _ => close_spec(),
        },
        Phase::AcceptingNode { target, port } => match e {
            EventView::Done => (Phase::SendingTargetIp { port }, ActionView::WriteNode(ip_text(target))),
            _ => close_spec(),
        },
        Phase::SendingTargetIp { port } => match e {
            EventView::Done => (Phase::AwaitIpAck { port }, ActionView::ReadNode(NODE_REPLY_BUFFER_LEN)),
            _ => close_spec(),
        },
        Phase::AwaitIpAck { port } => match e {
            EventView::Received(r) => if text_is(r, ack()) {
                (Phase::SendingTargetPort, ActionView::WriteNode(port_text(port)))
            } else {
                close_spec()
            },
            _ => close_spec(),
        },
        Phase::SendingTargetPort => match e {
            EventView::Done => (Phase::AwaitPortAck, ActionView::ReadNode(NODE_REPLY_BUFFER_LEN)),
            _ => close_spec(),
        },
        Phase::AwaitPortAck => match e {
            EventView::Received(r) => if text_is(r, ack()) {
                (Phase::SendingSuccess, ActionView::WriteClient(success_reply_spec()))
            } else {
                close_spec()
            },
            _ => close_spec(),
        },
        Phase::SendingSuccess => match e {
            EventView::Done => (Phase::Relaying, ActionView::Relay),
            _ => close_spec(),
        },
        Phase::SendingRefusal => close_spec(),
        Phase::Relaying => close_spec(),
        Phase::Closed => close_spec(),
    }
}

/// What an event must satisfy for the session to handle it without reading past
/// a buffer: a request must hold every field that is read, and a lookup must
/// have found an address, since the first one is taken.
pub open spec fn event_allowed(p: Phase, e: EventView) -> bool {
    match (p, e) {
        (Phase::AwaitRequest, EventView::Received(r)) => request_in_bounds(r),
        (Phase::Resolving { .. }, EventView::Resolved(a)) => a.len() > 0,
        _ => true,
    }
}

/// One client connection.
pub struct Session {
    auth_required: bool,
    username: String,
    password: String,
    route: Route,
    phase: Phase,
}

impl Session {
    /// What the session was set up with.
    pub closed spec fn config(&self) -> Config {
        Config {
            auth_required: self.auth_required,
            username: self.username@,
            password: self.password@,
            route: self.route,
        }
    }

    /// Where the session stands.
    pub closed spec fn phase(&self) -> Phase {
        self.phase
    }

    /// A new session, and its first action: reading the greeting.
    pub fn new(auth_required: bool, username: String, password: String, route: Route) -> (r: (
        Session,
        Action,
    ))
        ensures
            r.0.config() == (Config {
                auth_required,
                username: username@,
                password: password@,
                route,
            }),
            r.0.phase() == Phase::AwaitGreeting,
            r.1@ == ActionView::ReadClient(GREETING_BUFFER_LEN),
    {
        (
            Session { auth_required, username, password, route, phase: Phase::AwaitGreeting },
            Action::ReadClient(GREETING_BUFFER_LEN),
        )
    }

    /// Where the session stands.
    pub fn current_phase(&self) -> (r: Phase)
        ensures
            r == self.phase(),
    {
        self.phase
    }

    /// Whether the session has ended.
    pub fn is_closed(&self) -> (r: bool)
        ensures
            r == (self.phase() == Phase::Closed),
    {
        match self.phase {
            Phase::Closed => true,
            _ => false,
        }
    }

    fn close(&mut self) -> (a: Action)
        ensures
            final(self).config() == old(self).config(),
            (final(self).phase(), a@) == close_spec(),
    {
        self.phase = Phase::Closed;
        Action::Close
    }

    fn go_upstream(&mut self, target: IpAddress, port: u16) -> (a: Action)
        ensures
            final(self).config() == old(self).config(),
            (final(self).phase(), a@) == upstream_spec(old(self).config(), target, port),
    {
        match self.route {
            Route::Direct => {
                self.phase = Phase::Connecting { target, port };
                Action::Connect(target, port)
            },
            Route::ViaNode => {
                self.phase = Phase::NotifyingNode { target, port };
                Action::NotifyNode(tmp_connect_bytes())
            },
        }
    }

    /// Handles the outcome of the last action and says what to do next.
    pub fn step(&mut self, e: Event) -> (a: Action)
        requires
            event_allowed(old(self).phase(), e@),
        ensures
            final(self).config() == old(self).config(),
            (final(self).phase(), a@) == step_spec(old(self).config(), old(self).phase(), e@),
    {
        match self.phase {
            Phase::AwaitGreeting => match e {
                Event::Received(_) => {
                    self.phase = Phase::SendingMethod;
                    Action::WriteClient(method_selection_reply(self.auth_required))
                },
                _ => self.close(),
            },
            Phase::SendingMethod => match e {
                Event::Done => if self.auth_required {
                    self.phase = Phase::AwaitCredentials;
                    Action::ReadClient(CREDENTIALS_BUFFER_LEN)
                } else {
                    self.phase = Phase::AwaitRequest;
                    Action::ReadClient(REQUEST_BUFFER_LEN)
                },
                _ => self.close(),
            },
            Phase::AwaitCredentials => match e {
                Event::Received(d) => {
                    let ok = check_credentials(d.as_slice(), self.username.as_str(), self.password.as_str());
                    self.phase = Phase::SendingAuthStatus { accepted: ok };
                    Action::WriteClient(auth_status_reply(ok))
                },
                _ => self.close(),
            },
            Phase::SendingAuthStatus { accepted } => match e {
                Event::Done => if accepted {
                    self.phase = Phase::AwaitRequest;
                    Action::ReadClient(REQUEST_BUFFER_LEN)
                } else {
                    self.close()
                },
                _ => self.close(),
            },
            Phase::AwaitRequest => match e {
                Event::Received(r) => {
                    let req = parse_request(r.as_slice());
                    match req {
                        Request::Connect { target: Target::Ip(a), port } => self.go_upstream(a, port),
                        Request::Connect { target: Target::Domain(h), port } => {
                            self.phase = Phase::Resolving { port };
                            Action::Resolve(h)
                        },
                        _ => {
                            let reply = refusal_reply(&req);
                            match reply {
                                Some(v) => {
                                    self.phase = Phase::SendingRefusal;
                                    Action::WriteClient(v)
                                },
                                None => {
                                    proof {
                                        assert(false);
                                    }
                                    self.close()
                                },
                            }
                        },
                    }
                },
                _ => self.close(),
            },
            Phase::Resolving { port } => match e {
                Event::Resolved(addrs) => {
                    let first = addrs[0];
                    self.go_upstream(first, port)
                },
                _ => self.close(),
            },
            Phase::Connecting { .. } => match e {
                Event::Done => {
                    self.phase = Phase::SendingSuccess;
                    Action::WriteClient(success_reply())
                },
                _ => self.close(),
            },
            Phase::NotifyingNode { target, port } => match e {
                Event::Done => {
                    self.phase = Phase::AcceptingNode { target, port };
                    Action::AcceptNode
                },
                _ => self.close(),
            },
            Phase::AcceptingNode { target, port } => match e {
                Event::Done => {
                    self.phase = Phase::SendingTargetIp { port };
                    Action::WriteNode(format_ip_text(&target))
                },
                _ => self.close(),
            },
            Phase::SendingTargetIp { port } => match e {
                Event::Done => {
                    self.phase = Phase::AwaitIpAck { port };
                    Action::ReadNode(NODE_REPLY_BUFFER_LEN)
                },
                _ => self.close(),
            },
            Phase::AwaitIpAck { port } => match e {
                Event::Received(r) => if is_ack(r.as_slice()) {
                    self.phase = Phase::SendingTargetPort;
                    Action::WriteNode(format_port_text(port))
                } else {
                    self.close()
                },
                _ => self.close(),
            },
            Phase::SendingTargetPort => match e {
                Event::Done => {
                    self.phase = Phase::AwaitPortAck;
                    Action::ReadNode(NODE_REPLY_BUFFER_LEN)
                },
                _ => self.close(),
            },
            Phase::AwaitPortAck => match e {
                Event::Received(r) => if is_ack(r.as_slice()) {
                    self.phase = Phase::SendingSuccess;
                    Action::WriteClient(success_reply())
                } else {
                    self.close()
                },
                _ => self.close(),
            },
            Phase::SendingSuccess => match e {
                Event::Done => {
                    self.phase = Phase::Relaying;
                    Action::Relay
                },
                _ => self.close(),
            },
            Phase::SendingRefusal => self.close(),
            Phase::Relaying => self.close(),
            Phase::Closed => self.close(),
        }
    }
}

// ---------------------------------------------------------------------------
// Laws
// ---------------------------------------------------------------------------

/// The phase and the actions of a session after a sequence of events, from the
/// start (the greeting read that `Session::new` asks for is not counted).
pub open spec fn run(c: Config, evs: Seq<EventView>) -> (Phase, Seq<ActionView>)
    decreases evs.len(),
{
    if evs.len() == 0 {
        (Phase::AwaitGreeting, seq![])
    } else {
        let prev = run(c, evs.drop_last());
        let next = step_spec(c, prev.0, evs.last());
        (next.0, prev.1.push(next.1))
    }
}

/// Whether an action reaches beyond the client: a name lookup, a connection to a
/// target, or a request to the node.
pub open spec fn is_upstream(a: ActionView) -> bool {
    a is Resolve || a is Connect || a is NotifyNode
}

/// Whether no credentials message read while credentials were awaited was accepted.
pub open spec fn credentials_never_accepted(c: Config, evs: Seq<EventView>) -> bool {
    forall|j: int|
        0 <= j < evs.len() && #[trigger] run(c, evs.take(j)).0 == Phase::AwaitCredentials
            ==> !(evs[j] matches EventView::Received(d) && credentials_accepted(
            d,
            c.username,
            c.password,
        ))
}

/// The phases a session can be in before it has been authenticated.
pub open spec fn before_authentication(p: Phase) -> bool {
    ||| p == Phase::AwaitGreeting
    ||| p == Phase::SendingMethod
    ||| p == Phase::AwaitCredentials
    ||| p == (Phase::SendingAuthStatus { accepted: false })
    ||| p == Phase::Closed
}

proof fn lemma_gate(c: Config, evs: Seq<EventView>)
    requires
        c.auth_required,
        credentials_never_accepted(c, evs),
    ensures
        before_authentication(run(c, evs).0),
        forall|i: int| 0 <= i < run(c, evs).1.len() ==> !is_upstream(#[trigger] run(c, evs).1[i]),
        run(c, evs).1.len() == evs.len(),
    decreases evs.len(),
{
    if evs.len() > 0 {
        let prev = evs.drop_last();
        assert forall|j: int|
            0 <= j < prev.len() && #[trigger] run(c, prev.take(j)).0
                == Phase::AwaitCredentials implies !(prev[j] matches EventView::Received(d)
            && credentials_accepted(d, c.username, c.password)) by {
            assert(prev.take(j) =~= evs.take(j));
            assert(run(c, evs.take(j)).0 == Phase::AwaitCredentials);
        }
        lemma_gate(c, prev);
        let j = prev.len() as int;
        assert(evs.take(j) =~= prev);
        if run(c, prev).0 == Phase::AwaitCredentials {
            assert(run(c, evs.take(j)).0 == Phase::AwaitCredentials);
        }
        let r = run(c, evs);
        assert forall|i: int| 0 <= i < r.1.len() implies !is_upstream(#[trigger] r.1[i]) by {
            if i < prev.len() {
                assert(r.1[i] == run(c, prev).1[i]);
            }
        }
    }
}

/// With authentication required, a session in which no credentials message was
/// accepted never looks up a name, connects to a target or calls on the node:
/// nothing reaches beyond the client until the username and password match.
pub proof fn law_credentials_gate(c: Config, evs: Seq<EventView>)
    requires
        c.auth_required,
        credentials_never_accepted(c, evs),
    ensures
        forall|i: int| 0 <= i < run(c, evs).1.len() ==> !is_upstream(#[trigger] run(c, evs).1[i]),
{
    lemma_gate(c, evs);
}

/// A session that has ended stays ended, whatever happens.
pub proof fn law_closed_is_final(c: Config, e: EventView)
    ensures
        step_spec(c, Phase::Closed, e) == close_spec(),
{
}

/// Any failure ends the session at once.
pub proof fn law_failure_closes(c: Config, p: Phase)
    ensures
        step_spec(c, p, EventView::Failed) == close_spec(),
{
}

/// A request that is not CONNECT is answered `05 07`; a CONNECT request with an
/// address type other than IPv4 or domain name is answered `05 08`; in both cases
/// nothing goes upstream and the session ends once the answer is written, or fails.
pub proof fn law_refused_request(c: Config, r: Seq<u8>, e: EventView)
    requires
        request_in_bounds(r),
        !(r[1] == 1 && (r[3] == 1 || r[3] == 3)),
    ensures
        step_spec(c, Phase::AwaitRequest, EventView::Received(r)) == (
            Phase::SendingRefusal,
            ActionView::WriteClient(if r[1] != 1 {
                seq![5u8, 7u8]
            } else {
                seq![5u8, 8u8]
            }),
        ),
        step_spec(c, Phase::SendingRefusal, e) == close_spec(),
{
}

/// With authentication required, credentials that do not match are answered
/// `01 01` and the session then ends.
pub proof fn law_rejected_credentials(c: Config, d: Seq<u8>, e: EventView)
    requires
        c.auth_required,
        !credentials_accepted(d, c.username, c.password),
    ensures
        step_spec(c, Phase::AwaitCredentials, EventView::Received(d)) == (
            Phase::SendingAuthStatus { accepted: false },
            ActionView::WriteClient(seq![1u8, 1u8]),
        ),
        step_spec(c, Phase::SendingAuthStatus { accepted: false }, e) == close_spec(),
{
    assert(auth_status_spec(false) =~= seq![1u8, 1u8]);
}

/// The success reply is written only once the target is reached: right after
/// the connection to it succeeded, or after the node acknowledged the port.
pub proof fn law_success_only_when_connected(c: Config, p: Phase, e: EventView)
    requires
        step_spec(c, p, e).1 == ActionView::WriteClient(success_reply_spec()),
    ensures
        (p is Connecting && e == EventView::Done) || (p == Phase::AwaitPortAck && (e matches EventView::Received(r) && text_is(r, ack()))),
{
    match p {
        Phase::AwaitGreeting => {
            assert(method_selection_spec(c.auth_required).len() == 2);
        },
        Phase::AwaitCredentials => {
            if let EventView::Received(d) = e {
                let ok = credentials_accepted(d, c.username, c.password);
                assert(auth_status_spec(ok).len() == 2);
            }
        },
        Phase::AwaitRequest => {
            if let EventView::Received(r) = e {
                let req = parse_request_spec(r);
                assert(refusal_spec(req).len() == 2);
            }
        },
        _ => {},
    }
}

/// The phases a session passes through only on its own route.
pub open spec fn phase_on_route(r: Route, p: Phase) -> bool {
    match r {
        Route::Direct => !(p is NotifyingNode || p is AcceptingNode || p is SendingTargetIp
            || p is AwaitIpAck || p is SendingTargetPort || p is AwaitPortAck),
        Route::ViaNode => !(p is Connecting),
    }
}

/// The actions a session takes only on its own route.
pub open spec fn action_on_route(r: Route, a: ActionView) -> bool {
    match r {
        Route::Direct => !(a is NotifyNode || a is AcceptNode || a is WriteNode || a is ReadNode),
        Route::ViaNode => !(a is Connect),
    }
}

proof fn lemma_route(c: Config, evs: Seq<EventView>)
    ensures
        phase_on_route(c.route, run(c, evs).0),
        !c.auth_required ==> !(run(c, evs).0 is AwaitCredentials || run(c, evs).0 is SendingAuthStatus),
        forall|i: int|
            0 <= i < run(c, evs).1.len() ==> action_on_route(c.route, #[trigger] run(c, evs).1[i]),
        forall|i: int|
            0 <= i < run(c, evs).1.len() && !c.auth_required ==> #[trigger] run(c, evs).1[i]
                != ActionView::ReadClient(CREDENTIALS_BUFFER_LEN),
        run(c, evs).1.len() == evs.len(),
    decreases evs.len(),
{
    if evs.len() > 0 {
        let prev = evs.drop_last();
        lemma_route(c, prev);
        let r = run(c, evs);
        assert forall|i: int| 0 <= i < r.1.len() implies action_on_route(c.route, #[trigger] r.1[i])
            && (!c.auth_required ==> r.1[i] != ActionView::ReadClient(CREDENTIALS_BUFFER_LEN)) by {
            if i < prev.len() {
                assert(r.1[i] == run(c, prev).1[i]);
            }
        }
    }
}

/// A SOCKS server session never calls on a node, and a controller session never
/// connects to a target itself: it always goes through its node. A session that
/// does not require authentication never reads a credentials message.
pub proof fn law_route_respected(c: Config, evs: Seq<EventView>)
    ensures
        forall|i: int|
            0 <= i < run(c, evs).1.len() ==> action_on_route(c.route, #[trigger] run(c, evs).1[i]),
        forall|i: int|
            0 <= i < run(c, evs).1.len() && !c.auth_required ==> #[trigger] run(c, evs).1[i]
                != ActionView::ReadClient(CREDENTIALS_BUFFER_LEN),
{
    lemma_route(c, evs);
}

/// Whether the event at position `j` is a request the session read while it
/// was awaiting one.
pub open spec fn request_read_at(c: Config, evs: Seq<EventView>, j: int) -> bool {
    &&& 0 <= j < evs.len()
    &&& run(c, evs.take(j)).0 == Phase::AwaitRequest
    &&& evs[j] is Received
}

/// The request at position `j` names the address `a` and the port `p`.
pub open spec fn requested_address(c: Config, evs: Seq<EventView>, j: int, a: IpAddress, p: u16) -> bool {
    &&& request_read_at(c, evs, j)
    &&& parse_request_spec(evs[j]->Received_0) == (RequestView::Connect {
        target: TargetView::Ip(a),
        port: p,
    })
}

/// The request at position `j` names a host and the port `p`.
pub open spec fn requested_name(c: Config, evs: Seq<EventView>, j: int, p: u16) -> bool {
    &&& request_read_at(c, evs, j)
    &&& parse_request_spec(evs[j]->Received_0) matches RequestView::Connect {
        target: TargetView::Domain(_),
        port,
    } && port == p
}

/// The lookup answered at position `k` gave `a` as its first address.
pub open spec fn resolved_to(c: Config, evs: Seq<EventView>, k: int, a: IpAddress) -> bool {
    &&& 0 <= k < evs.len()
    &&& run(c, evs.take(k)).0 is Resolving
    &&& evs[k] matches EventView::Resolved(addrs) && addrs.len() > 0 && addrs[0] == a
}

/// Whether the client asked for address `a` and port `p`: its request named
/// them, or named a host and port `p` and the lookup of the host gave `a` first.
pub open spec fn asked_for(c: Config, evs: Seq<EventView>, a: IpAddress, p: u16) -> bool {
    ||| exists|j: int| #[trigger] requested_address(c, evs, j, a, p)
    ||| exists|j: int, k: int|
        j < k && #[trigger] requested_name(c, evs, j, p) && #[trigger] resolved_to(c, evs, k, a)
}

proof fn lemma_take_take(evs: Seq<EventView>, m: int, j: int)
    requires
        0 <= j <= m <= evs.len(),
    ensures
        evs.take(m).take(j) == evs.take(j),
{
    assert(evs.take(m).take(j) =~= evs.take(j));
}

/// What the client asked for in a prefix of the events it still asked for later.
proof fn lemma_asked_for_prefix(c: Config, evs: Seq<EventView>, m: int, a: IpAddress, p: u16)
    requires
        0 <= m <= evs.len(),
        asked_for(c, evs.take(m), a, p),
    ensures
        asked_for(c, evs, a, p),
{
    let pre = evs.take(m);
    if exists|j: int| #[trigger] requested_address(c, pre, j, a, p) {
        let j = choose|j: int| #[trigger] requested_address(c, pre, j, a, p);
        lemma_take_take(evs, m, j);
        assert(requested_address(c, evs, j, a, p));
    } else {
        let (j, k) = choose|j: int, k: int|
            j < k && #[trigger] requested_name(c, pre, j, p) && #[trigger] resolved_to(c, pre, k, a);
        lemma_take_take(evs, m, j);
        lemma_take_take(evs, m, k);
        assert(requested_name(c, evs, j, p));
        assert(resolved_to(c, evs, k, a));
    }
}

proof fn lemma_requested_name_prefix(c: Config, evs: Seq<EventView>, m: int, j: int, p: u16)
    requires
        0 <= m <= evs.len(),
        requested_name(c, evs.take(m), j, p),
    ensures
        requested_name(c, evs, j, p),
{
    lemma_take_take(evs, m, j);
}

/// Whether some request named a host and the port `p`.
pub open spec fn name_requested(c: Config, evs: Seq<EventView>, p: u16) -> bool {
    exists|j: int| #[trigger] requested_name(c, evs, j, p)
}

/// Whether the client asked for some address with the port `p`.
pub open spec fn port_asked_for(c: Config, evs: Seq<EventView>, p: u16) -> bool {
    exists|t: IpAddress| #[trigger] asked_for(c, evs, t, p)
}

/// What each phase owes to the client's request.
pub open spec fn phase_follows_request(c: Config, evs: Seq<EventView>, ph: Phase) -> bool {
    match ph {
        Phase::Resolving { port } => name_requested(c, evs, port),
        Phase::Connecting { target, port } => asked_for(c, evs, target, port),
        Phase::NotifyingNode { target, port } => asked_for(c, evs, target, port),
        Phase::AcceptingNode { target, port } => asked_for(c, evs, target, port),
        Phase::SendingTargetIp { port } => port_asked_for(c, evs, port),
        Phase::AwaitIpAck { port } => port_asked_for(c, evs, port),
        _ => true,
    }
}

/// What each action owes to the client's request: a connection goes to an
/// address and port the client asked for, and the text sent to the node is the
/// address or the port the client asked for.
pub open spec fn action_follows_request(c: Config, evs: Seq<EventView>, act: ActionView) -> bool {
    match act {
        ActionView::Connect(a, p) => asked_for(c, evs, a, p),
        ActionView::WriteNode(x) => exists|a: IpAddress, p: u16|
            #[trigger] asked_for(c, evs, a, p) && (x == ip_text(a) || x == port_text(p)),
        _ => true,
    }
}

proof fn lemma_phase_follows_prefix(c: Config, evs: Seq<EventView>, ph: Phase)
    requires
        evs.len() > 0,
        phase_follows_request(c, evs.drop_last(), ph),
    ensures
        phase_follows_request(c, evs, ph),
{
    let m = evs.len() - 1;
    assert(evs.take(m) =~= evs.drop_last());
    match ph {
        Phase::Resolving { port } => {
            let j = choose|j: int| #[trigger] requested_name(c, evs.drop_last(), j, port);
            lemma_requested_name_prefix(c, evs, m, j, port);
        },
        Phase::Connecting { target, port } => lemma_asked_for_prefix(c, evs, m, target, port),
        Phase::NotifyingNode { target, port } => lemma_asked_for_prefix(c, evs, m, target, port),
        Phase::AcceptingNode { target, port } => lemma_asked_for_prefix(c, evs, m, target, port),
        Phase::SendingTargetIp { port } => {
            let t = choose|t: IpAddress| #[trigger] asked_for(c, evs.drop_last(), t, port);
            lemma_asked_for_prefix(c, evs, m, t, port);
        },
        Phase::AwaitIpAck { port } => {
            let t = choose|t: IpAddress| #[trigger] asked_for(c, evs.drop_last(), t, port);
            lemma_asked_for_prefix(c, evs, m, t, port);
        },
        _ => {},
    }
}

proof fn lemma_action_follows_prefix(c: Config, evs: Seq<EventView>, act: ActionView)
    requires
        evs.len() > 0,
        action_follows_request(c, evs.drop_last(), act),
    ensures
        action_follows_request(c, evs, act),
{
    let m = evs.len() - 1;
    assert(evs.take(m) =~= evs.drop_last());
    match act {
        ActionView::Connect(a, p) => lemma_asked_for_prefix(c, evs, m, a, p),
        ActionView::WriteNode(x) => {
            let (a, p) = choose|a: IpAddress, p: u16|
                #[trigger] asked_for(c, evs.drop_last(), a, p) && (x == ip_text(a) || x == port_text(p));
            lemma_asked_for_prefix(c, evs, m, a, p);
        },
        _ => {},
    }
}

/// Whether every event was one the session could handle in its phase.
pub open spec fn events_allowed(c: Config, evs: Seq<EventView>) -> bool {
    forall|j: int| 0 <= j < evs.len() ==> event_allowed(#[trigger] run(c, evs.take(j)).0, evs[j])
}

proof fn lemma_follows(c: Config, evs: Seq<EventView>)
    requires
        events_allowed(c, evs),
    ensures
        phase_follows_request(c, evs, run(c, evs).0),
        forall|i: int|
            0 <= i < run(c, evs).1.len() ==> action_follows_request(c, evs, #[trigger] run(c, evs).1[i]),
        run(c, evs).1.len() == evs.len(),
    decreases evs.len(),
{
    if evs.len() > 0 {
        let prev = evs.drop_last();
        let m = prev.len() as int;
        assert forall|j: int| 0 <= j < prev.len() implies event_allowed(
            #[trigger] run(c, prev.take(j)).0,
            prev[j],
        ) by {
            lemma_take_take(evs, m, j);
            assert(prev.take(j) == evs.take(j));
            assert(event_allowed(run(c, evs.take(j)).0, evs[j]));
        }
        lemma_follows(c, prev);
        assert(evs.take(m) =~= prev);
        let ph = run(c, prev).0;
        let e = evs.last();
        assert(e == evs[m]);
        lemma_phase_follows_prefix(c, evs, ph);
        // The new phase and the new action.
        match ph {
            Phase::AwaitRequest => {
                if let EventView::Received(r) = e {
                    assert(request_read_at(c, evs, m));
                    match parse_request_spec(r) {
                        RequestView::Connect { target: TargetView::Ip(a), port } => {
                            assert(requested_address(c, evs, m, a, port));
                            assert(asked_for(c, evs, a, port));
                        },
                        RequestView::Connect { target: TargetView::Domain(h), port } => {
                            assert(requested_name(c, evs, m, port));
                            assert(name_requested(c, evs, port));
                        },
                        _ => {},
                    }
                }
            },
            Phase::Resolving { port } => {
                if let EventView::Resolved(addrs) = e {
                    if addrs.len() > 0 {
                        let j = choose|j: int| #[trigger] requested_name(c, evs, j, port);
                        assert(resolved_to(c, evs, m, addrs[0]));
                        assert(j < m);
                        assert(asked_for(c, evs, addrs[0], port));
                    } else {
                        assert(event_allowed(run(c, evs.take(m)).0, evs[m]));
                    }
                }
            },
            Phase::AcceptingNode { target, port } => {
                assert(asked_for(c, evs, target, port));
                assert(port_asked_for(c, evs, port));
            },
            Phase::AwaitIpAck { port } => {
                let t = choose|t: IpAddress| #[trigger] asked_for(c, evs, t, port);
                assert(asked_for(c, evs, t, port));
            },
            _ => {},
        }
        let r = run(c, evs);
        assert forall|i: int| 0 <= i < r.1.len() implies action_follows_request(c, evs, #[trigger] r.1[i]) by {
            if i < m {
                assert(r.1[i] == run(c, prev).1[i]);
                lemma_action_follows_prefix(c, evs, r.1[i]);
            }
        }
    }
}

/// A session goes where its client asked and nowhere else: every connection it
/// makes is to an address and port the client's request named (or, for a host
/// name, to the first address the lookup gave and the port named), and the text
/// the controller sends its node is that address or that port.
pub proof fn law_goes_where_asked(c: Config, evs: Seq<EventView>)
    requires
        events_allowed(c, evs),
    ensures
        forall|i: int|
            0 <= i < run(c, evs).1.len() ==> action_follows_request(c, evs, #[trigger] run(c, evs).1[i]),
{
    lemma_follows(c, evs);
}

/// Every greeting is answered with a method selection, whatever its bytes:
/// `05 02` (username/password) when authentication is required, `05 00` (no
/// authentication) otherwise; a greeting never ends the session.
pub proof fn law_greeting_always_answered(c: Config, g: Seq<u8>)
    ensures
        step_spec(c, Phase::AwaitGreeting, EventView::Received(g)) == (
            Phase::SendingMethod,
            ActionView::WriteClient(if c.auth_required {
                seq![5u8, 2u8]
            } else {
                seq![5u8, 0u8]
            }),
        ),
{
    assert(method_selection_spec(c.auth_required) =~= (if c.auth_required {
        seq![5u8, 2u8]
    } else {
        seq![5u8, 0u8]
    }));
}

/// A CONNECT to a host name makes the session look up exactly the name bytes the
/// request carries (the `r[4]` bytes after the length byte) and keep the port
/// the request names for the connection that follows.
pub proof fn law_lookup_is_the_requested_name(c: Config, r: Seq<u8>)
    requires
        request_in_bounds(r),
        r[1] == 1,
        r[3] == 3,
    ensures
        step_spec(c, Phase::AwaitRequest, EventView::Received(r)) matches (
            Phase::Resolving { port },
            ActionView::Resolve(h),
        ) && {
            &&& h.len() == r[4] as int
            &&& forall|i: int| 0 <= i < r[4] ==> #[trigger] h[i] == r[5 + i]
            &&& port as int == r[5 + r[4]] as int * 256 + r[6 + r[4]] as int
        },
{
    crate::wire::law_domain_request_names_its_bytes(r);
}

} // verus!
