//! The data of the node: endpoints, peers, packets and the persisted state,
//! each with the mathematical view that the contracts speak of.

use crate::utilities::is_node_id;
use vstd::prelude::*;

verus! {

/// An IP address as an unsigned integer: the octets of the address, the
/// first one most significant.
#[derive(Clone, Copy, Debug, PartialEq, Eq, Structural)]
pub enum IpAddress {
    V4(u32),
    V6(u128),
}

/// Where a peer is reached: an IP address and a UDP port.
#[derive(Clone, Copy, Debug, PartialEq, Eq, Structural)]
pub struct Endpoint {
    pub ip: IpAddress,
    pub port: u16,
}

/// A remote node known to the routing table.
#[derive(Debug, PartialEq)]
pub struct Peer {
    /// Whether a round-trip with the peer was seen in this session.
    pub active: bool,
    /// Where the peer is reached.
    pub address: Endpoint,
    /// When the peer was first heard of, in seconds since the Unix epoch.
    pub first_seen: u64,
    /// When a packet last came from the peer, if one ever did.
    pub last_seen: Option<u64>,
    /// The peer's identifier.
    pub node_id: String,
}

/// [`Peer`] with its identifier as characters.
pub struct PeerView {
    pub active: bool,
    pub address: Endpoint,
    pub first_seen: u64,
    pub last_seen: Option<u64>,
    pub node_id: Seq<char>,
}

impl View for Peer {
    type V = PeerView;

    open spec fn view(&self) -> PeerView {
        PeerView {
            active: self.active,
            address: self.address,
            first_seen: self.first_seen,
            last_seen: self.last_seen,
            node_id: self.node_id@,
        }
    }
}

impl Clone for Peer {
    fn clone(&self) -> (r: Self)
        ensures
            r@ == self@,
    {
        Peer {
            active: self.active,
            address: self.address,
            first_seen: self.first_seen,
            last_seen: self.last_seen,
            node_id: self.node_id.clone(),
        }
    }
}

/// The views of a sequence of peers.
pub open spec fn peer_views(peers: Seq<Peer>) -> Seq<PeerView> {
    Seq::new(peers.len(), |i: int| peers[i]@)
}

/// A node named in the answer to a lookup.
#[derive(Debug, PartialEq)]
pub struct FoundNode {
    /// Where the node is reached.
    pub address: Endpoint,
    /// The node's identifier.
    pub node_id: String,
}

/// [`FoundNode`] with its identifier as characters.
pub struct FoundNodeView {
    pub address: Endpoint,
    pub node_id: Seq<char>,
}

impl View for FoundNode {
    type V = FoundNodeView;

    open spec fn view(&self) -> FoundNodeView {
        FoundNodeView { address: self.address, node_id: self.node_id@ }
    }
}

impl Clone for FoundNode {
    fn clone(&self) -> (r: Self)
        ensures
            r@ == self@,
    {
        FoundNode { address: self.address, node_id: self.node_id.clone() }
    }
}

/// The views of a sequence of found nodes.
pub open spec fn found_node_views(nodes: Seq<FoundNode>) -> Seq<FoundNodeView> {
    Seq::new(nodes.len(), |i: int| nodes[i]@)
}

/// A copy of a list of found nodes.
pub fn clone_found_nodes(nodes: &Vec<FoundNode>) -> (r: Vec<FoundNode>)
    ensures
        found_node_views(r@) == found_node_views(nodes@),
{
    let mut r: Vec<FoundNode> = Vec::new();
    let mut i: usize = 0;
    while i < nodes.len()
        invariant
            i <= nodes.len(),
            r@.len() == i,
            forall|j: int| 0 <= j < i ==> r@[j]@ == nodes@[j]@,
        decreases nodes.len() - i,
    {
        r.push(nodes[i].clone());
        i = i + 1;
    }
    assert(found_node_views(r@) =~= found_node_views(nodes@));
    r
}

/// What the lookup of a value gives: the value, or nodes nearer to its key.
#[derive(Debug, PartialEq)]
pub enum FoundValue {
    Value(Vec<u8>),
    Nodes(Vec<FoundNode>),
}

/// [`FoundValue`] over views.
pub enum FoundValueView {
    Value(Seq<u8>),
    Nodes(Seq<FoundNodeView>),
}

impl View for FoundValue {
    type V = FoundValueView;

    open spec fn view(&self) -> FoundValueView {
        match self {
            FoundValue::Value(bytes) => FoundValueView::Value(bytes@),
            FoundValue::Nodes(nodes) => FoundValueView::Nodes(found_node_views(nodes@)),
        }
    }
}

impl Clone for FoundValue {
    fn clone(&self) -> (r: Self)
        ensures
            r@ == self@,
    {
        match self {
            FoundValue::Value(bytes) => FoundValue::Value(bytes.clone()),
            FoundValue::Nodes(nodes) => FoundValue::Nodes(clone_found_nodes(nodes)),
        }
    }
}

/// What a node asks of another.
#[derive(Debug, PartialEq)]
pub enum Request {
    /// Are you there?
    Ping,
    /// Keep this value under this key.
    Store(String, Vec<u8>),
    /// Which nodes do you know near this identifier?
    FindNode(String),
    /// What is kept under this key?
    FindValue(String),
}

/// [`Request`] over views.
pub enum RequestView {
    Ping,
    Store(Seq<char>, Seq<u8>),
    FindNode(Seq<char>),
    FindValue(Seq<char>),
}

impl View for Request {
    type V = RequestView;

    open spec fn view(&self) -> RequestView {
        match self {
            Request::Ping => RequestView::Ping,
            Request::Store(key, value) => RequestView::Store(key@, value@),
            Request::FindNode(target) => RequestView::FindNode(target@),
            Request::FindValue(key) => RequestView::FindValue(key@),
        }
    }
}

impl Clone for Request {
    fn clone(&self) -> (r: Self)
        ensures
            r@ == self@,
    {
        match self {
            Request::Ping => Request::Ping,
            Request::Store(key, value) => Request::Store(key.clone(), value.clone()),
            Request::FindNode(target) => Request::FindNode(target.clone()),
            Request::FindValue(key) => Request::FindValue(key.clone()),
        }
    }
}

/// What a node answers.
#[derive(Debug, PartialEq)]
pub enum Response {
    /// The answer to `Ping`.
    Pong,
    /// The answer to `Store`.
    Store,
    /// The answer to `FindNode`, and to `FindValue` where the key is unknown.
    FindNode(Vec<FoundNode>),
    /// The answer to `FindValue`.
    FindValue(FoundValue),
}

/// [`Response`] over views.
pub enum ResponseView {
    Pong,
    Store,
    FindNode(Seq<FoundNodeView>),
    FindValue(FoundValueView),
}

impl View for Response {
    type V = ResponseView;

    open spec fn view(&self) -> ResponseView {
        match self {
            Response::Pong => ResponseView::Pong,
            Response::Store => ResponseView::Store,
            Response::FindNode(nodes) => ResponseView::FindNode(found_node_views(nodes@)),
            Response::FindValue(found) => ResponseView::FindValue(found@),
        }
    }
}

impl Clone for Response {
    fn clone(&self) -> (r: Self)
        ensures
            r@ == self@,
    {
        match self {
            Response::Pong => Response::Pong,
            Response::Store => Response::Store,
            Response::FindNode(nodes) => Response::FindNode(clone_found_nodes(nodes)),
            Response::FindValue(found) => Response::FindValue(found.clone()),
        }
    }
}

/// What a packet carries.
#[derive(Debug, PartialEq)]
pub enum Message {
    Request(Request),
    Response(Response),
}

/// [`Message`] over views.
pub enum MessageView {
    Request(RequestView),
    Response(ResponseView),
}

impl View for Message {
    type V = MessageView;

    open spec fn view(&self) -> MessageView {
        match self {
            Message::Request(request) => MessageView::Request(request@),
            Message::Response(response) => MessageView::Response(response@),
        }
    }
}

impl Clone for Message {
    fn clone(&self) -> (r: Self)
        ensures
            r@ == self@,
    {
        match self {
            Message::Request(request) => Message::Request(request.clone()),
            Message::Response(response) => Message::Response(response.clone()),
        }
    }
}

/// One datagram's worth of protocol: who sends it, which exchange it
/// belongs to, and what it says.
#[derive(Debug, PartialEq)]
pub struct Packet {
    /// What the packet says.
    pub message: Message,
    /// The identifier of the sender.
    pub node_id: String,
    /// The identifier of the exchange: a response carries that of its request.
    pub transaction_id: String,
}

/// [`Packet`] over views.
pub struct PacketView {
    pub message: MessageView,
    pub node_id: Seq<char>,
    pub transaction_id: Seq<char>,
}

impl View for Packet {
    type V = PacketView;

    open spec fn view(&self) -> PacketView {
        PacketView {
            message: self.message@,
            node_id: self.node_id@,
            transaction_id: self.transaction_id@,
        }
    }
}

impl Clone for Packet {
    fn clone(&self) -> (r: Self)
        ensures
            r@ == self@,
    {
        Packet {
            message: self.message.clone(),
            node_id: self.node_id.clone(),
            transaction_id: self.transaction_id.clone(),
        }
    }
}

/// What a node keeps across restarts: its identifier, its buckets and its values.
#[derive(Debug, PartialEq)]
pub struct NodeState {
    /// The peers of each bucket, least recently seen first.
    pub buckets: Vec<Vec<Peer>>,
    /// The node's identifier.
    pub node_id: String,
    /// The stored values, each under its key.
    pub values: Vec<(String, Vec<u8>)>,
}

/// Whether every identifier that a list of found nodes names is one.
pub open spec fn found_nodes_valid(nodes: Seq<FoundNodeView>) -> bool {
    forall|i: int| 0 <= i < nodes.len() ==> is_node_id(#[trigger] nodes[i].node_id)
}

impl MessageView {
    /// Whether every identifier that the message names is one.
    pub open spec fn ids_valid(self) -> bool {
        match self {
            MessageView::Request(RequestView::Ping) => true,
            MessageView::Request(RequestView::Store(key, _)) => is_node_id(key),
            MessageView::Request(RequestView::FindNode(target)) => is_node_id(target),
            MessageView::Request(RequestView::FindValue(key)) => is_node_id(key),
            MessageView::Response(ResponseView::Pong) => true,
            MessageView::Response(ResponseView::Store) => true,
            MessageView::Response(ResponseView::FindNode(nodes)) => found_nodes_valid(nodes),
            MessageView::Response(ResponseView::FindValue(FoundValueView::Value(_))) => true,
            MessageView::Response(ResponseView::FindValue(FoundValueView::Nodes(nodes))) =>
                found_nodes_valid(nodes),
        }
    }
}

impl PacketView {
    /// Whether every identifier that the packet names is one.
    pub open spec fn ids_valid(self) -> bool {
        &&& is_node_id(self.node_id)
        &&& is_node_id(self.transaction_id)
        &&& self.message.ids_valid()
    }
}

} // verus!
