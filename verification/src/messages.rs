//! What a node does with the packets that come in and how it words the
//! packets that go out: the request handlers, the dispatch of a datagram,
//! and the sending of requests whose responses are waited for.

use crate::codec::{decode, encode};
use crate::errors::Error;
use crate::hash::random_sha1_to_string;
use crate::peers::{insert_outcome, is_closest, PeerManager, RoutingView, FIND_PEER_COUNT};
use crate::structures::{
    found_node_views, peer_views, Endpoint, FoundNode, FoundNodeView, FoundValue, FoundValueView,
    Message, MessageView, Packet, PacketView, Peer, PeerView, Request, RequestView, Response,
    ResponseView,
};
use crate::text::same_text;
use crate::transactions::{
    deadline_after, deliver_outcome, wait_outcome, TransactionTable,
    TransactionView, WaitStatus,
};
use crate::utilities::is_node_id;
use crate::values::ValueStore;
use crate::wire::{encodable, packet_wire, parse_packet};
use vstd::prelude::*;

verus! {

/// The peers of `peers` but the one with the identifier `id`.
pub open spec fn without_peer(peers: Seq<PeerView>, id: Seq<char>) -> Seq<PeerView>
    decreases peers.len(),
{
    if peers.len() == 0 {
        Seq::empty()
    } else if peers.last().node_id == id {
        without_peer(peers.drop_last(), id)
    } else {
        without_peer(peers.drop_last(), id).push(peers.last())
    }
}

/// The peers as a lookup names them: by identifier and endpoint.
pub open spec fn as_found_nodes(peers: Seq<PeerView>) -> Seq<FoundNodeView> {
    Seq::new(
        peers.len(),
        |i: int| FoundNodeView { address: peers[i].address, node_id: peers[i].node_id },
    )
}

/// Whether `nodes` are what a node with the routing table `table` names to
/// `requester` as nearest to `target`: the up to 20 peers that a lookup of
/// the target gives, nearest first, without the requester.
pub open spec fn names_closest(
    table: RoutingView,
    target: Seq<char>,
    requester: Seq<char>,
    nodes: Seq<FoundNodeView>,
) -> bool {
    exists|closest: Seq<PeerView>|
        #[trigger] is_closest(table, target, FIND_PEER_COUNT as int, closest) && nodes
            == as_found_nodes(without_peer(closest, requester))
}

/// Whether `response` answers `request` at a node with the routing table
/// `table` and the values `store`, for the requester `requester`.
pub open spec fn is_answer(
    table: RoutingView,
    store: Map<Seq<char>, Seq<u8>>,
    requester: Seq<char>,
    request: RequestView,
    response: ResponseView,
) -> bool {
    match request {
        RequestView::Ping => response == ResponseView::Pong,
        RequestView::Store(_, _) => response == ResponseView::Store,
        RequestView::FindNode(target) => response matches ResponseView::FindNode(nodes)
            && names_closest(table, target, requester, nodes),
        RequestView::FindValue(key) => if store.contains_key(key) {
            response == ResponseView::FindValue(FoundValueView::Value(store[key]))
        } else {
            response matches ResponseView::FindNode(nodes) && names_closest(
                table,
                key,
                requester,
                nodes,
            )
        },
    }
}

/// The values of a node after it has handled `request`.
pub open spec fn store_after(store: Map<Seq<char>, Seq<u8>>, request: RequestView) -> Map<
    Seq<char>,
    Seq<u8>,
> {
    match request {
        RequestView::Store(key, value) => store.insert(key, value),
        _ => store,
    }
}

/// Whether `message` is a request whose identifiers are identifiers.
pub open spec fn is_sound_request(message: MessageView) -> bool {
    message is Request && message.ids_valid()
}

/// Whether `reply` is the packet with which the node `local` answers the
/// request packet `packet` of `requester`.
pub open spec fn is_reply(
    local: Seq<char>,
    table: RoutingView,
    store: Map<Seq<char>, Seq<u8>>,
    requester: Seq<char>,
    packet: PacketView,
    reply: PacketView,
) -> bool {
    &&& packet.message matches MessageView::Request(request)
    &&& reply.node_id == local
    &&& reply.transaction_id == packet.transaction_id
    &&& reply.message matches MessageView::Response(response)
    &&& is_answer(table, store, requester, request, response)
}

/// The peers but the one with the identifier `excluded`, as a lookup names them.
fn found_nodes_without(peers: &Vec<Peer>, excluded: &str) -> (nodes: Vec<FoundNode>)
    ensures
        found_node_views(nodes@) == as_found_nodes(without_peer(peer_views(peers@), excluded@)),
{
    let ghost views = peer_views(peers@);
    let mut nodes: Vec<FoundNode> = Vec::new();
    let mut k: usize = 0;
    assert(views.subrange(0, 0) =~= Seq::empty());
    assert(found_node_views(nodes@) =~= as_found_nodes(Seq::empty()));
    while k < peers.len()
        invariant
            k <= peers@.len(),
            views == peer_views(peers@),
            found_node_views(nodes@) == as_found_nodes(
                without_peer(views.subrange(0, k as int), excluded@),
            ),
        decreases peers@.len() - k,
    {
        let peer = &peers[k];
        proof {
            let next = views.subrange(0, k + 1);
            assert(next.drop_last() =~= views.subrange(0, k as int));
            assert(next.last() == peer@);
        }
        if !same_text(peer.node_id.as_str(), excluded) {
            let ghost before = found_node_views(nodes@);
            nodes.push(FoundNode { address: peer.address, node_id: peer.node_id.clone() });
            assert(found_node_views(nodes@) =~= before.push(
                FoundNodeView { address: peer@.address, node_id: peer@.node_id },
            ));
            assert(found_node_views(nodes@) =~= as_found_nodes(
                without_peer(views.subrange(0, k + 1), excluded@),
            ));
        }
        k = k + 1;
    }
    assert(views.subrange(0, peers@.len() as int) =~= views);
    nodes
}

/// The nodes that are named to `requester` as nearest to `target`, or none
/// where the target is no identifier.
fn closest_nodes(peer_manager: &PeerManager, target: &str, requester: &str) -> (r: Option<
    Vec<FoundNode>,
>)
    ensures
        match r {
            Some(nodes) => is_node_id(target@) && names_closest(
                peer_manager@,
                target@,
                requester@,
                found_node_views(nodes@),
            ),
            None => !is_node_id(target@),
        },
{
    match peer_manager.find_closest(target, FIND_PEER_COUNT) {
        Ok(closest) => {
            let nodes = found_nodes_without(&closest, requester);
            assert(is_closest(
                peer_manager@,
                target@,
                FIND_PEER_COUNT as int,
                peer_views(closest@),
            ));
            Some(nodes)
        },
        Err(_) => None,
    }
}

/// Answers a request.
///
/// A `Ping` is answered with `Pong`; a `FindNode` with the up to 20 peers
/// nearest to the target, without the requester and without this node
/// itself; a `Store` by keeping the value and answering `Store`; a
/// `FindValue` with the value where one is kept under the key, and else as
/// a `FindNode` for the key. The answer carries the identifier of this node
/// and the transaction identifier of the request. Nothing is answered, and
/// nothing kept, where the packet is no request or names a key or target
/// that is no identifier.
pub fn handle_request(
    local_node_id: &str,
    packet: &Packet,
    peer: &Peer,
    peer_manager: &PeerManager,
    value_store: &mut ValueStore,
) -> (r: Option<Packet>)
    ensures
        match r {
            Some(reply) => is_sound_request(packet@.message) && is_reply(
                local_node_id@,
                peer_manager@,
                old(value_store)@,
                peer@.node_id,
                packet@,
                reply@,
            ) && final(value_store)@ == store_after(
                old(value_store)@,
                packet@.message->Request_0,
            ),
            None => !is_sound_request(packet@.message) && final(value_store)@ == old(value_store)@,
        },
{
    let request = match &packet.message {
        Message::Request(request) => request,
        Message::Response(_) => {
            return None;
        },
    };
    let response = match request {
        Request::Ping => Response::Pong,
        Request::Store(key, value) => {
            if !crate::codec::is_valid_id(key.as_str()) {
                return None;
            }
            value_store.store(key.as_str(), value.as_slice());
            Response::Store
        },
        Request::FindNode(target) => {
            match closest_nodes(peer_manager, target.as_str(), peer.node_id.as_str()) {
                Some(nodes) => Response::FindNode(nodes),
                None => {
                    return None;
                },
            }
        },
        Request::FindValue(key) => {
            if !crate::codec::is_valid_id(key.as_str()) {
                return None;
            }
            match value_store.retrieve(key.as_str()) {
                Some(value) => Response::FindValue(FoundValue::Value(value.clone())),
                None => match closest_nodes(peer_manager, key.as_str(), peer.node_id.as_str()) {
                    Some(nodes) => Response::FindNode(nodes),
                    None => {
                        return None;
                    },
                },
            }
        },
    };
    Some(
        Packet {
            message: Message::Response(response),
            node_id: local_node_id.to_owned(),
            transaction_id: packet.transaction_id.clone(),
        },
    )
}

/// What became of a datagram that came in.
pub enum Dispatch {
    /// It was discarded, for this reason.
    Dropped(Error),
    /// It was a response and was handed to the request that waited for it.
    Delivered,
    /// It was a request: these bytes go to this endpoint in answer.
    Reply(Endpoint, Vec<u8>),
}

/// [`Dispatch`] over views.
pub enum DispatchView {
    Dropped(Error),
    Delivered,
    Reply(Endpoint, Seq<u8>),
}

impl View for Dispatch {
    type V = DispatchView;

    open spec fn view(&self) -> DispatchView {
        match self {
            Dispatch::Dropped(e) => DispatchView::Dropped(*e),
            Dispatch::Delivered => DispatchView::Delivered,
            Dispatch::Reply(to, data) => DispatchView::Reply(*to, data@),
        }
    }
}

/// Whether `outcome` is what becomes of the request packet `packet` at the
/// node `local`, once its sender stands in the routing table `table` as
/// `requester`: the answer goes to the requester's endpoint, unless it
/// names something that is no identifier, as it does where `local` is none,
/// or does not fit a datagram.
pub open spec fn is_request_outcome(
    local: Seq<char>,
    table: RoutingView,
    store: Map<Seq<char>, Seq<u8>>,
    requester: PeerView,
    packet: PacketView,
    outcome: DispatchView,
) -> bool {
    exists|reply: PacketView|
        #[trigger] is_reply(local, table, store, requester.node_id, packet, reply) && outcome == (
        if encodable(reply) {
            DispatchView::Reply(requester.address, packet_wire(reply))
        } else if !reply.ids_valid() {
            DispatchView::Dropped(Error::InvalidId)
        } else {
            DispatchView::Dropped(Error::DatagramTooLarge)
        })
}

/// Handles one datagram, `data`, that came in from `source` at the time
/// `now`, in milliseconds.
///
/// Bytes that are no packet are dropped. Else the sender is noted in the
/// routing table as alive; where that fails the packet is dropped for the
/// same reason. A response is then handed to the request that waits for
/// it, and a request is answered as [`handle_request`] says.
pub fn process_incoming_requests(
    local_node_id: &str,
    peer_manager: &mut PeerManager,
    value_store: &mut ValueStore,
    transactions: &mut TransactionTable,
    source: Endpoint,
    data: &[u8],
    now: u64,
) -> (r: Dispatch)
    ensures
        match parse_packet(data@) {
            None => {
                &&& r@ == DispatchView::Dropped(Error::DecodeError)
                &&& final(peer_manager)@ == old(peer_manager)@
                &&& final(value_store)@ == old(value_store)@
                &&& final(transactions)@ == old(transactions)@
            },
            Some(packet) => match insert_outcome(
                old(peer_manager)@,
                source,
                packet.node_id,
                true,
                now / 1000,
            ) {
                Err(e) => {
                    &&& r@ == DispatchView::Dropped(e)
                    &&& final(peer_manager)@ == old(peer_manager)@
                    &&& final(value_store)@ == old(value_store)@
                    &&& final(transactions)@ == old(transactions)@
                },
                Ok((table, requester)) => {
                    &&& final(peer_manager)@ == table
                    &&& match packet.message {
                        MessageView::Response(_) => {
                            &&& final(value_store)@ == old(value_store)@
                            &&& match deliver_outcome(old(transactions)@, packet, source) {
                                Ok(waiting) => r@ == DispatchView::Delivered && final(transactions)@ == waiting,
                                Err(e) => r@ == DispatchView::Dropped(e) && final(transactions)@
                                    == old(transactions)@,
                            }
                        },
                        MessageView::Request(request) => {
                            &&& final(transactions)@ == old(transactions)@
                            &&& final(value_store)@ == store_after(old(value_store)@, request)
                            &&& is_request_outcome(
                                local_node_id@,
                                table,
                                old(value_store)@,
                                requester,
                                packet,
                                r@,
                            )
                        },
                    }
                },
            },
        },
{
    let packet = match decode(data) {
        Ok(packet) => packet,
        Err(e) => {
            return Dispatch::Dropped(e);
        },
    };
    let peer = match peer_manager.add_peer_at(source, packet.node_id.as_str(), true, now / 1000) {
        Ok(peer) => peer,
        Err(e) => {
            return Dispatch::Dropped(e);
        },
    };
    let is_response = match &packet.message {
        Message::Response(_) => true,
        Message::Request(_) => false,
    };
    if is_response {
        return match transactions.deliver(packet, source) {
            Ok(()) => Dispatch::Delivered,
            Err(e) => Dispatch::Dropped(e),
        };
    }
    let ghost store = value_store@;
    match handle_request(local_node_id, &packet, &peer, peer_manager, value_store) {
        Some(reply) => {
            let outcome = match encode(&reply) {
                Ok(bytes) => Dispatch::Reply(peer.address, bytes),
                Err(e) => Dispatch::Dropped(e),
            };
            assert(is_reply(
                local_node_id@,
                peer_manager@,
                store,
                peer@.node_id,
                packet@,
                reply@,
            ));
            outcome
        },
        None => Dispatch::Dropped(Error::InvalidId),
    }
}

/// Words a packet for the endpoint `socket_addr`: the datagram to send and
/// where to send it.
///
/// Fails with `InvalidId` where an identifier that the packet names is not
/// one, and with `DatagramTooLarge` where the packet takes more than 1024
/// bytes.
pub fn send_packet(packet: &Packet, socket_addr: &Endpoint) -> (r: Result<(Endpoint, Vec<u8>), Error>)
    ensures
        match r {
            Ok((to, data)) => to == *socket_addr && encodable(packet@) && data@ == packet_wire(
                packet@,
            ),
            Err(e) => if !packet@.ids_valid() {
                e == Error::InvalidId
            } else {
                e == Error::DatagramTooLarge && packet_wire(packet@).len() > 1024
            },
        },
{
    match encode(packet) {
        Ok(data) => Ok((*socket_addr, data)),
        Err(e) => Err(e),
    }
}

/// The packet with which the node `local` sends `request` in the exchange
/// `transaction_id`.
pub open spec fn request_packet(local: Seq<char>, request: RequestView, transaction_id: Seq<char>) -> PacketView {
    PacketView { message: MessageView::Request(request), node_id: local, transaction_id }
}

/// Sends `request` to `endpoint` in the exchange `transaction_id` at the
/// time `now`, in milliseconds: the datagram to send, with the response
/// waited for until 5000 milliseconds later.
///
/// Fails as [`send_packet`] does; nothing is then waited for.
pub fn send_request_as(
    local_node_id: &str,
    transactions: &mut TransactionTable,
    endpoint: Endpoint,
    request: Request,
    transaction_id: &str,
    now: u64,
) -> (r: Result<Vec<u8>, Error>)
    ensures
        match r {
            Ok(data) => {
                &&& encodable(request_packet(local_node_id@, request@, transaction_id@))
                &&& data@ == packet_wire(
                    request_packet(local_node_id@, request@, transaction_id@),
                )
                &&& final(transactions)@ == old(transactions)@.insert(
                    transaction_id@,
                    TransactionView {
                        expected: endpoint,
                        deadline: deadline_after(now),
                        response: None,
                    },
                )
            },
            Err(e) => {
                &&& final(transactions)@ == old(transactions)@
                &&& if !request_packet(local_node_id@, request@, transaction_id@).ids_valid() {
                    e == Error::InvalidId
                } else {
                    e == Error::DatagramTooLarge && packet_wire(
                        request_packet(local_node_id@, request@, transaction_id@),
                    ).len() > 1024
                }
            },
        },
{
    let packet = Packet {
        message: Message::Request(request),
        node_id: local_node_id.to_owned(),
        transaction_id: transaction_id.to_owned(),
    };
    match encode(&packet) {
        Ok(data) => {
            transactions.register(transaction_id, endpoint, now);
            Ok(data)
        },
        Err(e) => {
            Err(e)
        },
    }
}

/// Sends `request` to `endpoint` at the time `now`, in milliseconds, in an
/// exchange with a fresh identifier: that identifier and the datagram to
/// send. What is done, and whether it fails, is what [`send_request_as`]
/// does for some identifier.
pub fn send_request(
    local_node_id: &str,
    transactions: &mut TransactionTable,
    endpoint: Endpoint,
    request: Request,
    now: u64,
) -> (r: Result<(String, Vec<u8>), Error>)
    ensures
        match r {
            Ok((transaction_id, data)) => {
                &&& is_node_id(transaction_id@)
                &&& encodable(request_packet(local_node_id@, request@, transaction_id@))
                &&& data@ == packet_wire(
                    request_packet(local_node_id@, request@, transaction_id@),
                )
                &&& final(transactions)@ == old(transactions)@.insert(
                    transaction_id@,
                    TransactionView {
                        expected: endpoint,
                        deadline: deadline_after(now),
                        response: None,
                    },
                )
            },
            Err(e) => {
                &&& final(transactions)@ == old(transactions)@
                &&& exists|id: Seq<char>|
                    is_node_id(id) && if !(#[trigger] request_packet(
                        local_node_id@,
                        request@,
                        id,
                    )).ids_valid() {
                        e == Error::InvalidId
                    } else {
                        e == Error::DatagramTooLarge && packet_wire(
                            request_packet(local_node_id@, request@, id),
                        ).len() > 1024
                    }
            },
        },
{
    let transaction_id = random_sha1_to_string();
    match send_request_as(
        local_node_id,
        transactions,
        endpoint,
        request,
        transaction_id.as_str(),
        now,
    ) {
        Ok(data) => Ok((transaction_id, data)),
        Err(e) => Err(e),
    }
}

/// One look of a caller who waits for the response to the request
/// `transaction_id`, at the time `now`, in milliseconds; `is_running` is
/// false once the node is shutting down.
///
/// Shutdown ends the wait as canceled; else a response that has come ends
/// it; else the deadline, once it has passed. Whatever ends the wait takes
/// the request out of the table.
pub fn wait_for_response(
    transactions: &mut TransactionTable,
    transaction_id: &str,
    is_running: bool,
    now: u64,
) -> (r: WaitStatus)
    ensures
        (r@, final(transactions)@) == wait_outcome(
            old(transactions)@,
            transaction_id@,
            is_running,
            now,
        ),
        r matches WaitStatus::Response(packet, source) ==> packet@.transaction_id
            == transaction_id@ && packet@.message is Response && source == old(transactions)@[transaction_id@].expected,
{
    transactions.wait_for_response(transaction_id, is_running, now)
}

/// Keeps `value` under `key` at this node and names the peers that are to
/// keep it too: the up to 20 peers that a lookup of the key gives, nearest
/// first. A `Store` request is then to go to each of them.
///
/// Fails with `InvalidId` where the key is no identifier; nothing is then kept.
pub fn store_value(
    peer_manager: &PeerManager,
    value_store: &mut ValueStore,
    key: &str,
    value: &[u8],
) -> (r: Result<Vec<Peer>, Error>)
    ensures
        match r {
            Ok(peers) => {
                &&& is_node_id(key@)
                &&& final(value_store)@ == old(value_store)@.insert(key@, value@)
                &&& is_closest(peer_manager@, key@, FIND_PEER_COUNT as int, peer_views(peers@))
            },
            Err(e) => e == Error::InvalidId && !is_node_id(key@) && final(value_store)@ == old(value_store)@,
        },
{
    match peer_manager.nearby_peers(key) {
        Ok(peers) => {
            value_store.store(key, value);
            Ok(peers)
        },
        Err(e) => Err(e),
    }
}

} // verus!
