//! The decisions of peer discovery: whom to ask for nodes near the local
//! identifier, which of the nodes that are named to probe, and when to stop.
//!
//! Discovery goes in waves. A wave asks the up to 20 peers nearest to the
//! local identifier, one after the other, for the nodes they know near it;
//! each node that is named, is no peer yet and finds room in the routing
//! table is noted there as not yet seen and is sent a ping. A wave that has
//! noted no node is the last one. The caller sends what a step decides on
//! and comes back with what happened.

use crate::hash::random_sha1_to_string;
use crate::messages::request_packet;
use crate::peers::{insert_outcome, is_closest, PeerManager, RoutingView, FIND_PEER_COUNT};
use crate::structures::{
    clone_found_nodes, found_node_views, peer_views, Endpoint, FoundNode, FoundNodeView, Message,
    MessageView, Packet, PacketView, Peer, PeerView, Request, RequestView, Response, ResponseView,
};
use crate::transactions::{deadline_after, TransactionTable, TransactionView};
use crate::utilities::is_node_id;
use vstd::prelude::*;

verus! {

/// What kind of response discovery waits for.
#[derive(Clone, Copy, Debug, PartialEq, Eq, Structural)]
pub enum Awaiting {
    /// None.
    Nothing,
    /// The nodes that a peer names.
    Nodes,
    /// The answer to a ping.
    Pong,
}

/// What happened since the last step of discovery.
pub enum DiscoveryEvent {
    /// Nothing: discovery starts.
    Start,
    /// The response to the last request came.
    Response(Packet),
    /// No response to the last request came in time.
    TimedOut,
    /// The node is shutting down.
    Canceled,
}

/// [`DiscoveryEvent`] over views.
pub enum DiscoveryEventView {
    Start,
    Response(PacketView),
    TimedOut,
    Canceled,
}

impl View for DiscoveryEvent {
    type V = DiscoveryEventView;

    open spec fn view(&self) -> DiscoveryEventView {
        match self {
            DiscoveryEvent::Start => DiscoveryEventView::Start,
            DiscoveryEvent::Response(packet) => DiscoveryEventView::Response(packet@),
            DiscoveryEvent::TimedOut => DiscoveryEventView::TimedOut,
            DiscoveryEvent::Canceled => DiscoveryEventView::Canceled,
        }
    }
}

/// What a step of discovery decides on.
pub enum DiscoveryAction {
    /// Send this request to this endpoint, wait for its response, and come
    /// back with it or without.
    Send(Endpoint, Packet),
    /// Discovery is over.
    Finished,
}

/// [`DiscoveryAction`] over views.
pub enum DiscoveryActionView {
    Send(Endpoint, PacketView),
    Finished,
}

impl View for DiscoveryAction {
    type V = DiscoveryActionView;

    open spec fn view(&self) -> DiscoveryActionView {
        match self {
            DiscoveryAction::Send(to, packet) => DiscoveryActionView::Send(*to, packet@),
            DiscoveryAction::Finished => DiscoveryActionView::Finished,
        }
    }
}

/// Where discovery stands.
pub struct Discovery {
    targets: Vec<Peer>,
    found: Vec<FoundNode>,
    awaiting: Awaiting,
    new_peers: bool,
    finished: bool,
}

/// Where discovery stands, as mathematics.
pub struct DiscoveryView {
    /// The peers of this wave that are still to be asked, the next one first.
    pub targets: Seq<PeerView>,
    /// The nodes of the last answer that are still to be looked at, the next one first.
    pub found: Seq<FoundNodeView>,
    /// What kind of response is waited for.
    pub awaiting: Awaiting,
    /// Whether another wave is due: at the start, and once this wave has noted a node.
    pub new_peers: bool,
    /// Whether discovery is over.
    pub finished: bool,
}

impl View for Discovery {
    type V = DiscoveryView;

    closed spec fn view(&self) -> DiscoveryView {
        DiscoveryView {
            targets: peer_views(self.targets@),
            found: found_node_views(self.found@),
            awaiting: self.awaiting,
            new_peers: self.new_peers,
            finished: self.finished,
        }
    }
}

/// Discovery before its first step.
pub open spec fn initial_discovery() -> DiscoveryView {
    DiscoveryView {
        targets: Seq::empty(),
        found: Seq::empty(),
        awaiting: Awaiting::Nothing,
        new_peers: true,
        finished: false,
    }
}

/// The state once the event is taken in: the nodes of an answer that was
/// waited for replace those still to be looked at.
pub open spec fn absorb(state: DiscoveryView, event: DiscoveryEventView) -> DiscoveryView {
    if state.awaiting == Awaiting::Nodes {
        match event {
            DiscoveryEventView::Response(packet) => match packet.message {
                MessageView::Response(ResponseView::FindNode(nodes)) => DiscoveryView {
                    found: nodes,
                    awaiting: Awaiting::Nothing,
                    ..state
                },
                _ => DiscoveryView { awaiting: Awaiting::Nothing, ..state },
            },
            _ => DiscoveryView { awaiting: Awaiting::Nothing, ..state },
        }
    } else {
        DiscoveryView { awaiting: Awaiting::Nothing, ..state }
    }
}

/// Whether `node` is to be probed: no peer has its identifier, and the
/// routing table takes it in at the time `now`, in seconds.
pub open spec fn is_new_node(table: RoutingView, node: FoundNodeView, now: u64) -> bool {
    !table.knows(node.node_id) && insert_outcome(table, node.address, node.node_id, false, now) is Ok
}

/// How many nodes stand in `found` before the first one that is to be probed.
pub open spec fn first_new(table: RoutingView, found: Seq<FoundNodeView>, now: u64) -> int
    decreases found.len(),
{
    if found.len() == 0 || is_new_node(table, found.first(), now) {
        0
    } else {
        1 + first_new(table, found.drop_first(), now)
    }
}

/// The transaction of a request sent to `endpoint` at `now`.
pub open spec fn waiting_for(endpoint: Endpoint, now: u64) -> TransactionView {
    TransactionView { expected: endpoint, deadline: deadline_after(now), response: None }
}

/// Whether a step is the start of asking the peers `peers`: the first one
/// is asked in the exchange `id`, the others are still to be asked; with no
/// peer at all discovery is over.
pub open spec fn asks_first(
    peers: Seq<PeerView>,
    state: DiscoveryView,
    local: Seq<char>,
    waiting: Map<Seq<char>, TransactionView>,
    id: Seq<char>,
    now: u64,
    after: DiscoveryView,
    waiting_after: Map<Seq<char>, TransactionView>,
    action: DiscoveryActionView,
) -> bool {
    if peers.len() > 0 {
        &&& after == DiscoveryView {
            targets: peers.drop_first(),
            found: Seq::empty(),
            awaiting: Awaiting::Nodes,
            new_peers: false,
            finished: false,
        }
        &&& action == DiscoveryActionView::Send(
            peers.first().address,
            request_packet(local, RequestView::FindNode(local), id),
        )
        &&& waiting_after == waiting.insert(id, waiting_for(peers.first().address, now))
    } else {
        &&& after == DiscoveryView {
            targets: Seq::empty(),
            found: Seq::empty(),
            awaiting: Awaiting::Nothing,
            new_peers: false,
            finished: true,
        }
        &&& action == DiscoveryActionView::Finished
        &&& waiting_after == waiting
    }
}

/// Whether `after`, `table_after`, `waiting_after` and `action` are what a
/// step of discovery makes of `state`, `table` and `waiting` on `event`, with
/// `id` for the exchange of a request that it sends, at the time `now` in
/// milliseconds.
pub open spec fn is_discovery_step(
    state: DiscoveryView,
    event: DiscoveryEventView,
    table: RoutingView,
    waiting: Map<Seq<char>, TransactionView>,
    id: Seq<char>,
    now: u64,
    after: DiscoveryView,
    table_after: RoutingView,
    waiting_after: Map<Seq<char>, TransactionView>,
    action: DiscoveryActionView,
) -> bool {
    let local = table.local_node_id;
    let seconds = (now / 1000) as u64;
    if state.finished || event is Canceled {
        &&& after == DiscoveryView { finished: true, ..state }
        &&& table_after == table
        &&& waiting_after == waiting
        &&& action == DiscoveryActionView::Finished
    } else {
        let taken = absorb(state, event);
        let k = first_new(table, taken.found, seconds);
        if k < taken.found.len() {
            let node = taken.found[k];
            &&& insert_outcome(table, node.address, node.node_id, false, seconds) matches Ok(
                (noted, _),
            ) && table_after == noted
            &&& after == DiscoveryView {
                found: taken.found.skip(k + 1),
                awaiting: Awaiting::Pong,
                new_peers: true,
                ..taken
            }
            &&& action == DiscoveryActionView::Send(
                node.address,
                request_packet(local, RequestView::Ping, id),
            )
            &&& waiting_after == waiting.insert(id, waiting_for(node.address, now))
        } else {
            &&& table_after == table
            &&& if taken.targets.len() > 0 {
                &&& after == DiscoveryView {
                    targets: taken.targets.drop_first(),
                    found: Seq::empty(),
                    awaiting: Awaiting::Nodes,
                    ..taken
                }
                &&& action == DiscoveryActionView::Send(
                    taken.targets.first().address,
                    request_packet(local, RequestView::FindNode(local), id),
                )
                &&& waiting_after == waiting.insert(
                    id,
                    waiting_for(taken.targets.first().address, now),
                )
            } else if taken.new_peers {
                exists|closest: Seq<PeerView>|
                    #[trigger] is_closest(table, local, FIND_PEER_COUNT as int, closest)
                        && asks_first(
                        closest,
                        taken,
                        local,
                        waiting,
                        id,
                        now,
                        after,
                        waiting_after,
                        action,
                    )
            } else {
                asks_first(
                    Seq::empty(),
                    taken,
                    local,
                    waiting,
                    id,
                    now,
                    after,
                    waiting_after,
                    action,
                )
            }
        }
    }
}

proof fn lemma_first_new_skip(table: RoutingView, found: Seq<FoundNodeView>, now: u64, k: int)
    requires
        0 <= k <= found.len(),
        forall|i: int| 0 <= i < k ==> !is_new_node(table, #[trigger] found[i], now),
    ensures
        first_new(table, found, now) == k + first_new(table, found.skip(k), now),
    decreases k,
{
    if k == 0 {
        assert(found.skip(0) =~= found);
    } else {
        let rest = found.drop_first();
        assert(!is_new_node(table, found[0], now));
        assert forall|i: int| 0 <= i < k - 1 implies !is_new_node(
            table,
            #[trigger] rest[i],
            now,
        ) by {
            assert(rest[i] == found[i + 1]);
        }
        lemma_first_new_skip(table, rest, now, k - 1);
        assert(rest.skip(k - 1) =~= found.skip(k));
    }
}

impl Discovery {
    /// Discovery before its first step.
    pub fn new() -> (discovery: Self)
        ensures
            discovery@ == initial_discovery(),
    {
        let discovery = Discovery {
            targets: Vec::new(),
            found: Vec::new(),
            awaiting: Awaiting::Nothing,
            new_peers: true,
            finished: false,
        };
        assert(peer_views(discovery.targets@) =~= Seq::empty());
        assert(found_node_views(discovery.found@) =~= Seq::empty());
        discovery
    }

    /// Whether discovery is over.
    pub fn is_finished(&self) -> (r: bool)
        ensures
            r == self@.finished,
    {
        self.finished
    }

    /// Sends `request` to `endpoint` in the exchange `transaction_id`.
    fn ask(
        local: &String,
        transactions: &mut TransactionTable,
        endpoint: Endpoint,
        request: Request,
        transaction_id: &str,
        now: u64,
    ) -> (action: DiscoveryAction)
        ensures
            action@ == DiscoveryActionView::Send(
                endpoint,
                request_packet(local@, request@, transaction_id@),
            ),
            final(transactions)@ == old(transactions)@.insert(
                transaction_id@,
                waiting_for(endpoint, now),
            ),
    {
        transactions.register(transaction_id, endpoint, now);
        DiscoveryAction::Send(
            endpoint,
            Packet {
                message: Message::Request(request),
                node_id: local.clone(),
                transaction_id: transaction_id.to_owned(),
            },
        )
    }

    /// Starts to ask `peers`, or ends discovery where there are none.
    fn ask_first(
        &mut self,
        peers: Vec<Peer>,
        local: &String,
        transactions: &mut TransactionTable,
        transaction_id: &str,
        now: u64,
    ) -> (action: DiscoveryAction)
        ensures
            asks_first(
                peer_views(peers@),
                old(self)@,
                local@,
                old(transactions)@,
                transaction_id@,
                now,
                final(self)@,
                final(transactions)@,
                action@,
            ),
    {
        let mut peers = peers;
        let ghost all = peer_views(peers@);
        self.found = Vec::new();
        self.new_peers = false;
        assert(found_node_views(self.found@) =~= Seq::empty());
        if peers.len() > 0 {
            let first = peers.remove(0);
            assert(peer_views(peers@) =~= all.drop_first());
            assert(first@ == all.first());
            self.targets = peers;
            self.awaiting = Awaiting::Nodes;
            self.finished = false;
            Discovery::ask(
                local,
                transactions,
                first.address,
                Request::FindNode(local.clone()),
                transaction_id,
                now,
            )
        } else {
            self.targets = peers;
            assert(peer_views(self.targets@) =~= Seq::empty());
            self.awaiting = Awaiting::Nothing;
            self.finished = true;
            DiscoveryAction::Finished
        }
    }
}

/// One step of discovery at the time `now`, in milliseconds: takes in what
/// happened since the last step and decides on what to do next, with
/// `transaction_id` for the exchange of the request that is sent.
///
/// The nodes of an answer are looked at in turn; one that is no peer yet
/// and finds room in the routing table is noted there as not yet seen, and
/// a ping goes to it. With no such node left, the next peer of the wave is
/// asked for the nodes it knows near the local identifier. With no peer
/// left either, the up to 20 peers nearest to the local identifier make the
/// next wave if this one has noted a node, or if none has run yet; else
/// discovery is over, as it is once the node shuts down.
#[verifier::loop_isolation(false)]
pub fn find_nearby_peers_as(
    discovery: &mut Discovery,
    event: DiscoveryEvent,
    peer_manager: &mut PeerManager,
    transactions: &mut TransactionTable,
    transaction_id: &str,
    now: u64,
) -> (action: DiscoveryAction)
    ensures
        is_discovery_step(
            old(discovery)@,
            event@,
            old(peer_manager)@,
            old(transactions)@,
            transaction_id@,
            now,
            final(discovery)@,
            final(peer_manager)@,
            final(transactions)@,
            action@,
        ),
{
    let local = peer_manager.local_node_id().clone();
    let ghost table = peer_manager@;
    let ghost state = discovery@;
    let ghost waiting = transactions@;
    let seconds = now / 1000;
    let canceled = match &event {
        DiscoveryEvent::Canceled => true,
        _ => false,
    };
    if discovery.finished || canceled {
        discovery.finished = true;
        return DiscoveryAction::Finished;
    }
    if discovery.awaiting == Awaiting::Nodes {
        match event {
            DiscoveryEvent::Response(packet) => match packet.message {
                Message::Response(Response::FindNode(nodes)) => {
                    discovery.found = nodes;
                },
                _ => {},
            },
            _ => {},
        }
    }
    discovery.awaiting = Awaiting::Nothing;
    let ghost taken = discovery@;
    assert(taken == absorb(state, event@));
    let ghost mut skipped: int = 0;
    assert(taken.found.skip(0) =~= taken.found);
    while discovery.found.len() > 0
        invariant
            peer_manager@ == table,
            transactions@ == waiting,
            table.wf(),
            seconds == now / 1000,
            0 <= skipped <= taken.found.len(),
            found_node_views(discovery.found@) == taken.found.skip(skipped),
            discovery@ == (DiscoveryView { found: taken.found.skip(skipped), ..taken }),
            forall|i: int|
                0 <= i < skipped ==> !is_new_node(table, #[trigger] taken.found[i], seconds),
            local@ == table.local_node_id,
        decreases discovery.found@.len(),
    {
        let ghost before = found_node_views(discovery.found@);
        let node = discovery.found.remove(0);
        assert(found_node_views(discovery.found@) =~= before.drop_first());
        assert(before[0] == node@);
        assert(taken.found.skip(skipped)[0] == taken.found[skipped]);
        assert(node@ == taken.found[skipped]);
        assert(before.drop_first() =~= taken.found.skip(skipped + 1));
        let known = peer_manager.get_peer(node.node_id.as_str());
        let is_known = known.is_some();
        proof {
            if known is Some {
                let peer = known->0;
                let (b, k) = choose|b: int, k: int|
                    0 <= b < table.buckets.len() && 0 <= k < table.buckets[b].len()
                        && #[trigger] table.buckets[b][k] == peer@;
                assert(crate::peers::holds_id(table.buckets[b], node@.node_id));
            }
        }
        if !is_known {
            match peer_manager.add_peer_at(node.address, node.node_id.as_str(), false, seconds) {
                Ok(_) => {
                    proof {
                        lemma_first_new_skip(table, taken.found, seconds, skipped);
                    }
                    discovery.awaiting = Awaiting::Pong;
                    discovery.new_peers = true;
                    return Discovery::ask(
                        &local,
                        transactions,
                        node.address,
                        Request::Ping,
                        transaction_id,
                        now,
                    );
                },
                Err(_) => {},
            }
        }
        proof {
            skipped = skipped + 1;
        }
    }
    proof {
        assert(taken.found.skip(skipped) =~= Seq::empty());
        lemma_first_new_skip(table, taken.found, seconds, skipped);
    }
    if discovery.targets.len() > 0 {
        let ghost all = peer_views(discovery.targets@);
        let target = discovery.targets.remove(0);
        assert(peer_views(discovery.targets@) =~= all.drop_first());
        assert(target@ == all.first());
        discovery.awaiting = Awaiting::Nodes;
        assert(found_node_views(discovery.found@) =~= Seq::empty());
        return Discovery::ask(
            &local,
            transactions,
            target.address,
            Request::FindNode(local.clone()),
            transaction_id,
            now,
        );
    }
    let closest = if discovery.new_peers {
        match peer_manager.find_closest(local.as_str(), FIND_PEER_COUNT) {
            Ok(closest) => closest,
            Err(_) => Vec::new(),
        }
    } else {
        let none: Vec<Peer> = Vec::new();
        assert(peer_views(none@) =~= Seq::empty());
        none
    };
    discovery.ask_first(closest, &local, transactions, transaction_id, now)
}

/// One step of discovery with a fresh identifier for the exchange of the
/// request that is sent: what [`find_nearby_peers_as`] does for some identifier.
pub fn find_nearby_peers(
    discovery: &mut Discovery,
    event: DiscoveryEvent,
    peer_manager: &mut PeerManager,
    transactions: &mut TransactionTable,
    now: u64,
) -> (action: DiscoveryAction)
    ensures
        exists|id: Seq<char>|
            is_node_id(id) && #[trigger] is_discovery_step(
                old(discovery)@,
                event@,
                old(peer_manager)@,
                old(transactions)@,
                id,
                now,
                final(discovery)@,
                final(peer_manager)@,
                final(transactions)@,
                action@,
            ),
{
    let transaction_id = random_sha1_to_string();
    find_nearby_peers_as(
        discovery,
        event,
        peer_manager,
        transactions,
        transaction_id.as_str(),
        now,
    )
}

} // verus!
