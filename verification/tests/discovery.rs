use kademlia::discovery::{
    find_nearby_peers, find_nearby_peers_as, Discovery, DiscoveryAction, DiscoveryEvent,
};
use kademlia::peers::PeerManager;
use kademlia::structures::{
    Endpoint, FoundNode, IpAddress, Message, Packet, Request, Response,
};
use kademlia::transactions::TransactionTable;

fn id_of(first: &str) -> String {
    let mut id = String::from(first);
    while id.len() < 40 {
        id.push('0');
    }
    id
}

fn endpoint(n: u32) -> Endpoint {
    Endpoint { ip: IpAddress::V4(0x0a00_0000 + n), port: 16600 }
}

fn local() -> String {
    "0".repeat(40)
}

fn nodes(from: &str, transaction: &str, nodes: Vec<FoundNode>) -> DiscoveryEvent {
    DiscoveryEvent::Response(Packet {
        message: Message::Response(Response::FindNode(nodes)),
        node_id: String::from(from),
        transaction_id: String::from(transaction),
    })
}

fn sent(action: DiscoveryAction) -> (Endpoint, Packet) {
    match action {
        DiscoveryAction::Send(to, packet) => (to, packet),
        DiscoveryAction::Finished => panic!("discovery is over"),
    }
}

#[test]
fn discovery_without_peers_is_over_at_once() {
    let mut peers = PeerManager::new(Vec::new(), &local()).unwrap();
    let mut waiting = TransactionTable::new();
    let mut discovery = Discovery::new();

    assert!(!discovery.is_finished());
    let action = find_nearby_peers_as(
        &mut discovery,
        DiscoveryEvent::Start,
        &mut peers,
        &mut waiting,
        &"1".repeat(40),
        0,
    );

    assert!(matches!(action, DiscoveryAction::Finished));
    assert!(discovery.is_finished());
    assert_eq!(waiting.len(), 0);
}

#[test]
fn a_wave_asks_the_nearest_peers_and_probes_the_nodes_they_name() {
    let mut peers = PeerManager::new(Vec::new(), &local()).unwrap();
    peers.add_peer_at(endpoint(1), &id_of("8"), true, 1).unwrap();
    peers.add_peer_at(endpoint(2), &id_of("001"), true, 1).unwrap();
    let mut waiting = TransactionTable::new();
    let mut discovery = Discovery::new();

    // the wave starts with the nearest peer
    let (to, packet) = sent(find_nearby_peers_as(
        &mut discovery,
        DiscoveryEvent::Start,
        &mut peers,
        &mut waiting,
        &"1".repeat(40),
        1_000,
    ));
    assert_eq!(to, endpoint(2));
    assert_eq!(
        packet,
        Packet {
            message: Message::Request(Request::FindNode(local())),
            node_id: local(),
            transaction_id: "1".repeat(40)
        }
    );
    assert!(waiting.contains(&"1".repeat(40)));

    // it names a known peer, the node itself, and two new nodes
    let named = vec![
        FoundNode { address: endpoint(1), node_id: id_of("8") },
        FoundNode { address: endpoint(9), node_id: local() },
        FoundNode { address: endpoint(3), node_id: id_of("4") },
        FoundNode { address: endpoint(4), node_id: id_of("2") },
    ];
    let (to, packet) = sent(find_nearby_peers_as(
        &mut discovery,
        nodes(&id_of("001"), &"1".repeat(40), named),
        &mut peers,
        &mut waiting,
        &"2".repeat(40),
        2_000,
    ));
    assert_eq!(to, endpoint(3));
    assert_eq!(packet.message, Message::Request(Request::Ping));
    assert_eq!(packet.transaction_id, "2".repeat(40));
    let noted = peers.get_peer(&id_of("4")).unwrap();
    assert!(!noted.active);
    assert_eq!(noted.last_seen, None);
    assert_eq!(noted.first_seen, 2);

    // the ping times out: the next node is probed
    let (to, packet) = sent(find_nearby_peers_as(
        &mut discovery,
        DiscoveryEvent::TimedOut,
        &mut peers,
        &mut waiting,
        &"3".repeat(40),
        7_000,
    ));
    assert_eq!(to, endpoint(4));
    assert_eq!(packet.message, Message::Request(Request::Ping));
    assert!(peers.get_peer(&id_of("2")).is_some());

    // then the second peer of the wave is asked
    let pong = DiscoveryEvent::Response(Packet {
        message: Message::Response(Response::Pong),
        node_id: id_of("2"),
        transaction_id: "3".repeat(40),
    });
    let (to, packet) = sent(find_nearby_peers_as(
        &mut discovery,
        pong,
        &mut peers,
        &mut waiting,
        &"4".repeat(40),
        8_000,
    ));
    assert_eq!(to, endpoint(1));
    assert_eq!(packet.message, Message::Request(Request::FindNode(local())));

    // it does not answer; the wave noted nodes, so another one starts
    let (to, packet) = sent(find_nearby_peers_as(
        &mut discovery,
        DiscoveryEvent::TimedOut,
        &mut peers,
        &mut waiting,
        &"5".repeat(40),
        13_000,
    ));
    assert_eq!(to, endpoint(2));
    assert_eq!(packet.message, Message::Request(Request::FindNode(local())));
    assert_eq!(peers.len(), 4);
}

#[test]
fn a_wave_that_notes_no_node_is_the_last() {
    let mut peers = PeerManager::new(Vec::new(), &local()).unwrap();
    peers.add_peer_at(endpoint(1), &id_of("8"), true, 1).unwrap();
    let mut waiting = TransactionTable::new();
    let mut discovery = Discovery::new();

    let (to, _) = sent(find_nearby_peers_as(
        &mut discovery,
        DiscoveryEvent::Start,
        &mut peers,
        &mut waiting,
        &"1".repeat(40),
        0,
    ));
    assert_eq!(to, endpoint(1));

    let named = vec![FoundNode { address: endpoint(1), node_id: id_of("8") }];
    let action = find_nearby_peers_as(
        &mut discovery,
        nodes(&id_of("8"), &"1".repeat(40), named),
        &mut peers,
        &mut waiting,
        &"2".repeat(40),
        0,
    );

    assert!(matches!(action, DiscoveryAction::Finished));
    assert!(discovery.is_finished());
    assert_eq!(peers.len(), 1);
}

#[test]
fn nodes_without_room_or_identifier_are_passed_over() {
    let mut peers = PeerManager::new(Vec::new(), &local()).unwrap();
    for n in 0..20 {
        peers.add_peer_at(endpoint(n), &id_of(&format!("8{:02x}", n)), true, 1).unwrap();
    }
    let mut waiting = TransactionTable::new();
    let mut discovery = Discovery::new();
    sent(find_nearby_peers_as(
        &mut discovery,
        DiscoveryEvent::Start,
        &mut peers,
        &mut waiting,
        &"1".repeat(40),
        0,
    ));

    let named = vec![
        FoundNode { address: endpoint(50), node_id: id_of("8ff") },
        FoundNode { address: endpoint(51), node_id: String::from("nope") },
        FoundNode { address: endpoint(52), node_id: id_of("4") },
    ];
    let (to, packet) = sent(find_nearby_peers_as(
        &mut discovery,
        nodes(&id_of("800"), &"1".repeat(40), named),
        &mut peers,
        &mut waiting,
        &"2".repeat(40),
        0,
    ));

    assert_eq!(to, endpoint(52));
    assert_eq!(packet.message, Message::Request(Request::Ping));
    assert_eq!(peers.get_peer(&id_of("8ff")), None);
    assert_eq!(peers.len(), 21);
}

#[test]
fn shutdown_ends_discovery() {
    let mut peers = PeerManager::new(Vec::new(), &local()).unwrap();
    peers.add_peer_at(endpoint(1), &id_of("8"), true, 1).unwrap();
    let mut waiting = TransactionTable::new();
    let mut discovery = Discovery::new();
    sent(find_nearby_peers_as(
        &mut discovery,
        DiscoveryEvent::Start,
        &mut peers,
        &mut waiting,
        &"1".repeat(40),
        0,
    ));

    let action = find_nearby_peers_as(
        &mut discovery,
        DiscoveryEvent::Canceled,
        &mut peers,
        &mut waiting,
        &"2".repeat(40),
        0,
    );

    assert!(matches!(action, DiscoveryAction::Finished));
    assert!(discovery.is_finished());
    let again = find_nearby_peers_as(
        &mut discovery,
        DiscoveryEvent::Start,
        &mut peers,
        &mut waiting,
        &"3".repeat(40),
        0,
    );
    assert!(matches!(again, DiscoveryAction::Finished));
}

#[test]
fn a_step_draws_a_fresh_transaction_identifier() {
    let mut peers = PeerManager::new(Vec::new(), &local()).unwrap();
    peers.add_peer_at(endpoint(1), &id_of("8"), true, 1).unwrap();
    let mut waiting = TransactionTable::new();
    let mut discovery = Discovery::new();

    let (to, packet) = sent(find_nearby_peers(
        &mut discovery,
        DiscoveryEvent::Start,
        &mut peers,
        &mut waiting,
        0,
    ));

    assert_eq!(to, endpoint(1));
    assert_eq!(packet.transaction_id.len(), 40);
    assert!(waiting.contains(&packet.transaction_id));
}
