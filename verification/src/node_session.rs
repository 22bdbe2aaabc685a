//! The node's side of one client connection, as a state machine. The node has
//! opened a new connection to the controller; it reads the target address as
//! text and acknowledges it, reads the port as text, connects to the target,
//! acknowledges again and relays.
use vstd::prelude::*;
use crate::ip_text::{ip_text, law_ip_text_roundtrip, parse_ip_spec, parse_ip_text};
use crate::lossy::lemma_lossy_eq_ascii;
use crate::node_messages::{ack, ack_bytes};
use crate::port_text::{law_port_text_roundtrip, parse_port_text, port_from_text, port_text};
use crate::session::{step_spec, ActionView, Config, Event, EventView, Phase, Route};
use crate::wire::{success_reply_spec, IpAddress};

verus! {

/// Size of the buffer each message from the controller is read into; the bytes
/// read are what the node looks at.
pub const NODE_READ_BUFFER_LEN: usize = 1024;

/// How the node's handling of a connection ended.
#[derive(Clone, Copy, Debug, PartialEq, Eq)]
pub enum NodeOutcome {
    /// The target was reached and the relay ran to its end.
    Relayed,
    /// The address text did not parse.
    BadTargetIp,
    /// The port text did not parse.
    BadTargetPort,
    /// A read, write or connection failed.
    Failed,
}

/// Where the node's handling of a connection stands.
#[derive(Clone, Copy, Debug, PartialEq, Eq)]
pub enum NodePhase {
    AwaitTarget,
    AckingTarget { target: IpAddress },
    AwaitPort { target: IpAddress },
    Connecting,
    AckingConnection,
    Relaying,
    Finished { outcome: NodeOutcome },
}

/// What the node does next on the connection.
#[derive(Debug, PartialEq, Eq)]
pub enum NodeAction {
    /// Read from the controller (into a buffer of this size).
    Read(usize),
    /// Write these bytes to the controller.
    Write(Vec<u8>),
    /// Connect to the target.
    Connect(IpAddress, u16),
    /// Relay data both ways between the controller and the target.
    Relay,
    /// Stop, with this outcome.
    Finish(NodeOutcome),
}

/// The mathematical counterpart of [`NodeAction`].
pub enum NodeActionView {
    Read(usize),
    Write(Seq<u8>),
    Connect(IpAddress, u16),
    Relay,
    Finish(NodeOutcome),
}

impl View for NodeAction {
    type V = NodeActionView;

    open spec fn view(&self) -> NodeActionView {
        match self {
            NodeAction::Read(n) => NodeActionView::Read(*n),
            NodeAction::Write(b) => NodeActionView::Write(b@),
            NodeAction::Connect(a, p) => NodeActionView::Connect(*a, *p),
            NodeAction::Relay => NodeActionView::Relay,
            NodeAction::Finish(o) => NodeActionView::Finish(*o),
        }
    }
}

pub open spec fn finish_spec(o: NodeOutcome) -> (NodePhase, NodeActionView) {
    (NodePhase::Finished { outcome: o }, NodeActionView::Finish(o))
}

/// The next phase and action after event `e` in phase `p`.
pub open spec fn node_step_spec(p: NodePhase, e: EventView) -> (NodePhase, NodeActionView) {
    match p {
        NodePhase::AwaitTarget => match e {
            EventView::Received(b) => match parse_ip_spec(b) {
                Some(a) => (NodePhase::AckingTarget { target: a }, NodeActionView::Write(ack())),
                None => finish_spec(NodeOutcome::BadTargetIp),
            },
            _ => finish_spec(NodeOutcome::Failed),
        },
        NodePhase::AckingTarget { target } => match e {
            EventView::Done => (NodePhase::AwaitPort { target }, NodeActionView::Read(NODE_READ_BUFFER_LEN)),
            _ => finish_spec(NodeOutcome::Failed),
        },
        NodePhase::AwaitPort { target } => match e {
            EventView::Received(b) => match port_from_text(b) {
                Some(port) => (NodePhase::Connecting, NodeActionView::Connect(target, port)),
                None => finish_spec(NodeOutcome::BadTargetPort),
            },
            _ => finish_spec(NodeOutcome::Failed),
        },
        NodePhase::Connecting => match e {
            EventView::Done => (NodePhase::AckingConnection, NodeActionView::Write(ack())),
            _ => finish_spec(NodeOutcome::Failed),
        },
        NodePhase::AckingConnection => match e {
            EventView::Done => (NodePhase::Relaying, NodeActionView::Relay),
            _ => finish_spec(NodeOutcome::Failed),
        },
        NodePhase::Relaying => finish_spec(NodeOutcome::Relayed),
        NodePhase::Finished { outcome } => finish_spec(outcome),
    }
}

/// The node's handling of one connection from the controller.
pub struct NodeSession {
    phase: NodePhase,
}

impl NodeSession {
    pub closed spec fn phase(&self) -> NodePhase {
        self.phase
    }

    /// A new handling, and its first action: reading the target address.
    pub fn new() -> (r: (NodeSession, NodeAction))
        ensures
            r.0.phase() == NodePhase::AwaitTarget,
            r.1@ == NodeActionView::Read(NODE_READ_BUFFER_LEN),
    {
        (NodeSession { phase: NodePhase::AwaitTarget }, NodeAction::Read(NODE_READ_BUFFER_LEN))
    }

    fn finish(&mut self, o: NodeOutcome) -> (a: NodeAction)
        ensures
            (final(self).phase(), a@) == finish_spec(o),
    {
        self.phase = NodePhase::Finished { outcome: o };
        NodeAction::Finish(o)
    }

    /// Handles the outcome of the last action and says what to do next.
    pub fn step(&mut self, e: Event) -> (a: NodeAction)
        ensures
            (final(self).phase(), a@) == node_step_spec(old(self).phase(), e@),
    {
        match self.phase {
            NodePhase::AwaitTarget => match e {
                Event::Received(b) => match parse_ip_text(b.as_slice()) {
                    Some(a) => {
                        self.phase = NodePhase::AckingTarget { target: a };
                        NodeAction::Write(ack_bytes())
                    },
                    None => self.finish(NodeOutcome::BadTargetIp),
                },
                _ => self.finish(NodeOutcome::Failed),
            },
            NodePhase::AckingTarget { target } => match e {
                Event::Done => {
                    self.phase = NodePhase::AwaitPort { target };
                    NodeAction::Read(NODE_READ_BUFFER_LEN)
                },
                _ => self.finish(NodeOutcome::Failed),
            },
            NodePhase::AwaitPort { target } => match e {
                Event::Received(b) => match parse_port_text(b.as_slice()) {
                    Some(port) => {
                        self.phase = NodePhase::Connecting;
                        NodeAction::Connect(target, port)
                    },
                    None => self.finish(NodeOutcome::BadTargetPort),
                },
                _ => self.finish(NodeOutcome::Failed),
            },
            NodePhase::Connecting => match e {
                Event::Done => {
                    self.phase = NodePhase::AckingConnection;
                    NodeAction::Write(ack_bytes())
                },
                _ => self.finish(NodeOutcome::Failed),
            },
            NodePhase::AckingConnection => match e {
                Event::Done => {
                    self.phase = NodePhase::Relaying;
                    NodeAction::Relay
                },
                _ => self.finish(NodeOutcome::Failed),
            },
            NodePhase::Relaying => self.finish(NodeOutcome::Relayed),
            NodePhase::Finished { outcome } => self.finish(outcome),
        }
    }
}

/// What the controller sends, the node connects to. Once the controller has the
/// node's new connection it sends the target address as text; the node, reading
/// those bytes, acknowledges them; the acknowledgement makes the controller send
/// the port as text; the node, reading those bytes, connects to that address and
/// port and acknowledges again, and that makes the controller send the success
/// reply to its client.
pub proof fn law_controller_and_node_agree(c: Config, target: IpAddress, port: u16)
    requires
        c.route == Route::ViaNode,
    ensures
        step_spec(c, Phase::AcceptingNode { target, port }, EventView::Done) == (
            Phase::SendingTargetIp { port },
            ActionView::WriteNode(ip_text(target)),
        ),
        node_step_spec(NodePhase::AwaitTarget, EventView::Received(ip_text(target))) == (
            NodePhase::AckingTarget { target },
            NodeActionView::Write(ack()),
        ),
        step_spec(c, Phase::AwaitIpAck { port }, EventView::Received(ack())) == (
            Phase::SendingTargetPort,
            ActionView::WriteNode(port_text(port)),
        ),
        node_step_spec(NodePhase::AwaitPort { target }, EventView::Received(port_text(port))) == (
            NodePhase::Connecting,
            NodeActionView::Connect(target, port),
        ),
        node_step_spec(NodePhase::Connecting, EventView::Done) == (
            NodePhase::AckingConnection,
            NodeActionView::Write(ack()),
        ),
        step_spec(c, Phase::AwaitPortAck, EventView::Received(ack())) == (
            Phase::SendingSuccess,
            ActionView::WriteClient(success_reply_spec()),
        ),
{
    law_ip_text_roundtrip(target);
    law_port_text_roundtrip(port);
    lemma_lossy_eq_ascii(ack(), ack());
}

} // verus!
