use kademlia::codec::{decode, encode};
use kademlia::errors::Error;
use kademlia::messages::{
    handle_request, process_incoming_requests, send_packet, send_request, send_request_as,
    store_value, wait_for_response, Dispatch,
};
use kademlia::peers::PeerManager;
use kademlia::structures::{
    Endpoint, FoundNode, FoundValue, IpAddress, Message, Packet, Peer, Request, Response,
};
use kademlia::transactions::{TransactionTable, WaitStatus};
use kademlia::values::ValueStore;

struct TestNode {
    id: String,
    address: Endpoint,
    peers: PeerManager,
    values: ValueStore,
    waiting: TransactionTable,
}

fn id_of(first: &str) -> String {
    let mut id = String::from(first);
    while id.len() < 40 {
        id.push('0');
    }
    id
}

fn endpoint(port: u16) -> Endpoint {
    Endpoint { ip: IpAddress::V4(0x7f00_0001), port }
}

fn node(id: &str, port: u16) -> TestNode {
    TestNode {
        id: String::from(id),
        address: endpoint(port),
        peers: PeerManager::new(Vec::new(), id).unwrap(),
        values: ValueStore::new(Vec::new()).unwrap(),
        waiting: TransactionTable::new(),
    }
}

fn receive(to: &mut TestNode, from: Endpoint, data: &[u8], now: u64) -> Dispatch {
    process_incoming_requests(
        &to.id,
        &mut to.peers,
        &mut to.values,
        &mut to.waiting,
        from,
        data,
        now,
    )
}

fn request(from: &str, transaction: &str, request: Request) -> Packet {
    Packet {
        message: Message::Request(request),
        node_id: String::from(from),
        transaction_id: String::from(transaction),
    }
}

fn reply_of(dispatch: Dispatch) -> (Endpoint, Packet) {
    match dispatch {
        Dispatch::Reply(to, data) => (to, decode(&data).unwrap()),
        Dispatch::Dropped(e) => panic!("dropped: {:?}", e),
        Dispatch::Delivered => panic!("delivered"),
    }
}

#[test]
fn ping_pong() {
    let mut a = node(&"a".repeat(40), 16600);
    let mut b = node(&"b".repeat(40), 16700);
    let transaction = "1".repeat(40);

    let datagram =
        send_request_as(&a.id, &mut a.waiting, b.address, Request::Ping, &transaction, 1_000)
            .unwrap();
    let (to, pong) = reply_of(receive(&mut b, a.address, &datagram, 2_000));

    assert_eq!(to, a.address);
    assert_eq!(
        pong,
        Packet {
            message: Message::Response(Response::Pong),
            node_id: b.id.clone(),
            transaction_id: transaction.clone()
        }
    );
    let a_at_b = b.peers.get_peer(&a.id).unwrap();
    assert!(a_at_b.active);
    assert_eq!(a_at_b.address, a.address);
    assert_eq!(a_at_b.last_seen, Some(2));

    let answer = encode(&pong).unwrap();
    assert!(matches!(receive(&mut a, b.address, &answer, 3_000), Dispatch::Delivered));
    match wait_for_response(&mut a.waiting, &transaction, true, 3_050) {
        WaitStatus::Response(packet, source) => {
            assert_eq!(packet.message, Message::Response(Response::Pong));
            assert_eq!(packet.transaction_id, transaction);
            assert_eq!(source, b.address);
        }
        _ => panic!("no response"),
    }
    assert!(b.peers.get_peer(&a.id).unwrap().active);
    assert!(a.peers.get_peer(&b.id).unwrap().active);
    assert!(!a.waiting.contains(&transaction));
}

#[test]
fn find_node_with_an_empty_table() {
    let mut a = node(&"a".repeat(40), 16600);
    let asker = "e".repeat(40);
    let datagram =
        encode(&request(&asker, &"1".repeat(40), Request::FindNode("c".repeat(40)))).unwrap();

    let (to, reply) = reply_of(receive(&mut a, endpoint(5), &datagram, 0));

    assert_eq!(to, endpoint(5));
    assert_eq!(reply.message, Message::Response(Response::FindNode(Vec::new())));
    assert_eq!(reply.node_id, a.id);
    assert_eq!(reply.transaction_id, "1".repeat(40));
}

#[test]
fn find_node_names_the_closest_peers_without_the_requester() {
    let mut a = node(&"0".repeat(40), 16600);
    a.peers.add_peer_at(endpoint(1), &id_of("8"), true, 1).unwrap();
    a.peers.add_peer_at(endpoint(2), &id_of("4"), false, 1).unwrap();
    a.peers.add_peer_at(endpoint(3), &id_of("c"), true, 1).unwrap();
    let datagram =
        encode(&request(&id_of("c"), &"1".repeat(40), Request::FindNode(id_of("9")))).unwrap();

    let (to, reply) = reply_of(receive(&mut a, endpoint(3), &datagram, 0));

    assert_eq!(to, endpoint(3));
    assert_eq!(
        reply.message,
        Message::Response(Response::FindNode(vec![
            FoundNode { address: endpoint(1), node_id: id_of("8") },
            FoundNode { address: endpoint(2), node_id: id_of("4") },
        ]))
    );
}

#[test]
fn store_keeps_the_value_and_find_value_gives_it_back() {
    let mut a = node(&"a".repeat(40), 16600);
    let key = "d".repeat(40);
    let store = encode(&request(
        &"b".repeat(40),
        &"1".repeat(40),
        Request::Store(key.clone(), b"hello".to_vec()),
    ))
    .unwrap();

    let (_, reply) = reply_of(receive(&mut a, endpoint(7), &store, 0));

    assert_eq!(reply.message, Message::Response(Response::Store));
    assert_eq!(a.values.retrieve(&key), Some(&b"hello".to_vec()));

    let find =
        encode(&request(&"b".repeat(40), &"2".repeat(40), Request::FindValue(key.clone())))
            .unwrap();
    let (_, reply) = reply_of(receive(&mut a, endpoint(7), &find, 0));

    assert_eq!(
        reply.message,
        Message::Response(Response::FindValue(FoundValue::Value(b"hello".to_vec())))
    );
    assert_eq!(reply.transaction_id, "2".repeat(40));
}

#[test]
fn find_value_of_an_unknown_key_names_nodes() {
    let mut a = node(&"0".repeat(40), 16600);
    a.peers.add_peer_at(endpoint(1), &id_of("8"), true, 1).unwrap();
    let find =
        encode(&request(&id_of("4"), &"2".repeat(40), Request::FindValue(id_of("9")))).unwrap();

    let (_, reply) = reply_of(receive(&mut a, endpoint(7), &find, 0));

    assert_eq!(
        reply.message,
        Message::Response(Response::FindNode(vec![FoundNode {
            address: endpoint(1),
            node_id: id_of("8")
        }]))
    );
}

#[test]
fn malformed_datagrams_are_dropped() {
    let mut a = node(&"a".repeat(40), 16600);

    assert!(matches!(
        receive(&mut a, endpoint(1), b"not a packet", 0),
        Dispatch::Dropped(Error::DecodeError)
    ));
    assert_eq!(a.peers.len(), 0);
}

#[test]
fn a_packet_of_the_node_itself_is_dropped() {
    let mut a = node(&"a".repeat(40), 16600);
    let datagram = encode(&request(&a.id, &"1".repeat(40), Request::Ping)).unwrap();

    assert!(matches!(
        receive(&mut a, endpoint(1), &datagram, 0),
        Dispatch::Dropped(Error::SameId)
    ));
}

#[test]
fn a_packet_of_a_peer_without_room_is_dropped() {
    let mut a = node(&"0".repeat(40), 16600);
    for n in 0..20 {
        a.peers.add_peer_at(endpoint(n), &id_of(&format!("8{:02x}", n)), true, 1).unwrap();
    }
    let datagram = encode(&request(&id_of("8ff"), &"1".repeat(40), Request::Ping)).unwrap();

    assert!(matches!(
        receive(&mut a, endpoint(99), &datagram, 0),
        Dispatch::Dropped(Error::BucketFull)
    ));
}

#[test]
fn unexpected_responses_are_dropped() {
    let mut a = node(&"a".repeat(40), 16600);
    let pong = encode(&Packet {
        message: Message::Response(Response::Pong),
        node_id: "b".repeat(40),
        transaction_id: "1".repeat(40),
    })
    .unwrap();

    assert!(matches!(
        receive(&mut a, endpoint(1), &pong, 0),
        Dispatch::Dropped(Error::UnknownTransaction)
    ));

    a.waiting.register(&"1".repeat(40), endpoint(2), 0);

    assert!(matches!(
        receive(&mut a, endpoint(1), &pong, 0),
        Dispatch::Dropped(Error::UnexpectedSource)
    ));
    assert!(a.peers.get_peer(&"b".repeat(40)).unwrap().active);
}

#[test]
fn an_answer_that_does_not_fit_is_dropped() {
    let mut a = node(&"0".repeat(40), 16600);
    for n in 0..20u32 {
        let address = Endpoint { ip: IpAddress::V6(n as u128 + 1), port: 1 };
        a.peers.add_peer_at(address, &id_of(&format!("8{:02x}", n)), true, 1).unwrap();
    }
    let datagram =
        encode(&request(&id_of("4"), &"1".repeat(40), Request::FindNode(id_of("8")))).unwrap();

    assert!(matches!(
        receive(&mut a, endpoint(1), &datagram, 0),
        Dispatch::Dropped(Error::DatagramTooLarge)
    ));
}

#[test]
fn a_request_handler_answers_only_sound_requests() {
    let peers = PeerManager::new(Vec::new(), &"a".repeat(40)).unwrap();
    let mut values = ValueStore::new(Vec::new()).unwrap();
    let asker = Peer {
        active: true,
        address: endpoint(1),
        first_seen: 0,
        last_seen: Some(0),
        node_id: "b".repeat(40),
    };
    let local = "a".repeat(40);

    let bad_key = request(&asker.node_id, "t", Request::Store(String::from("k"), vec![1]));
    assert_eq!(handle_request(&local, &bad_key, &asker, &peers, &mut values), None);
    assert_eq!(values.len(), 0);

    let bad_target = request(&asker.node_id, "t", Request::FindNode(String::from("k")));
    assert_eq!(handle_request(&local, &bad_target, &asker, &peers, &mut values), None);

    let bad_find = request(&asker.node_id, "t", Request::FindValue(String::from("k")));
    assert_eq!(handle_request(&local, &bad_find, &asker, &peers, &mut values), None);

    let response = Packet {
        message: Message::Response(Response::Pong),
        node_id: asker.node_id.clone(),
        transaction_id: String::from("t"),
    };
    assert_eq!(handle_request(&local, &response, &asker, &peers, &mut values), None);

    let ping = request(&asker.node_id, "t", Request::Ping);
    assert_eq!(
        handle_request(&local, &ping, &asker, &peers, &mut values),
        Some(Packet {
            message: Message::Response(Response::Pong),
            node_id: local.clone(),
            transaction_id: String::from("t")
        })
    );
}

#[test]
fn send_packet_words_the_datagram() {
    let packet = request(&"a".repeat(40), &"1".repeat(40), Request::Ping);

    let (to, data) = send_packet(&packet, &endpoint(9)).unwrap();

    assert_eq!(to, endpoint(9));
    assert_eq!(decode(&data), Ok(packet));
    assert_eq!(
        send_packet(&request("a", &"1".repeat(40), Request::Ping), &endpoint(9)),
        Err(Error::InvalidId)
    );
}

#[test]
fn a_request_that_is_sent_is_waited_for() {
    let mut waiting = TransactionTable::new();
    let local = "a".repeat(40);

    let (transaction, data) =
        send_request(&local, &mut waiting, endpoint(9), Request::Ping, 100).unwrap();

    assert_eq!(transaction.len(), 40);
    assert!(waiting.contains(&transaction));
    assert_eq!(decode(&data), Ok(request(&local, &transaction, Request::Ping)));
    assert!(matches!(
        wait_for_response(&mut waiting, &transaction, true, 5100),
        WaitStatus::Pending
    ));
    assert!(matches!(
        wait_for_response(&mut waiting, &transaction, true, 5101),
        WaitStatus::Timeout
    ));
}

#[test]
fn a_request_that_cannot_be_worded_is_not_waited_for() {
    let mut waiting = TransactionTable::new();

    assert_eq!(
        send_request_as("a", &mut waiting, endpoint(9), Request::Ping, &"1".repeat(40), 100),
        Err(Error::InvalidId)
    );
    assert_eq!(
        send_request_as(
            &"a".repeat(40),
            &mut waiting,
            endpoint(9),
            Request::Store("d".repeat(40), vec![0; 2000]),
            &"1".repeat(40),
            100
        ),
        Err(Error::DatagramTooLarge)
    );
    assert_eq!(waiting.len(), 0);
}

#[test]
fn store_fan_out() {
    let mut a = node(&"a".repeat(40), 16600);
    let key = "d".repeat(40);
    let mut others: Vec<TestNode> = (0..25u16)
        .map(|n| node(&id_of(&format!("d{:02x}", n)), 17000 + n))
        .collect();
    for other in &others {
        let _ = a.peers.add_peer_at(other.address, &other.id, true, 1);
    }
    let known = a.peers.len();

    let receivers = store_value(&a.peers, &mut a.values, &key, b"hello").unwrap();

    assert_eq!(a.values.retrieve(&key), Some(&b"hello".to_vec()));
    assert_eq!(receivers.len(), known.min(20));
    assert!(!receivers.is_empty());
    for receiver in receivers {
        let (transaction, datagram) = send_request(
            &a.id,
            &mut a.waiting,
            receiver.address,
            Request::Store(key.clone(), b"hello".to_vec()),
            1_000,
        )
        .unwrap();
        let other = others.iter_mut().find(|other| other.id == receiver.node_id).unwrap();
        let (to, reply) = reply_of(receive(other, a.address, &datagram, 1_000));

        assert_eq!(to, a.address);
        assert_eq!(reply.message, Message::Response(Response::Store));
        assert_eq!(other.values.retrieve(&key), Some(&b"hello".to_vec()));

        let answer = encode(&reply).unwrap();
        assert!(matches!(receive(&mut a, other.address, &answer, 1_100), Dispatch::Delivered));
        assert!(matches!(
            wait_for_response(&mut a.waiting, &transaction, true, 1_100),
            WaitStatus::Response(_, _)
        ));
    }
}

#[test]
fn storing_under_an_invalid_key_fails() {
    let mut a = node(&"a".repeat(40), 16600);

    assert_eq!(store_value(&a.peers, &mut a.values, "key", b"hello"), Err(Error::InvalidId));
    assert_eq!(a.values.len(), 0);
}

#[test]
fn a_node_without_identifier_sends_no_request() {
    let mut waiting = TransactionTable::new();

    assert_eq!(
        send_request("not an identifier", &mut waiting, endpoint(9), Request::Ping, 100),
        Err(Error::InvalidId)
    );
    assert_eq!(
        send_request(
            &"a".repeat(40),
            &mut waiting,
            endpoint(9),
            Request::Store("d".repeat(40), vec![0; 2000]),
            100
        ),
        Err(Error::DatagramTooLarge)
    );
    assert_eq!(
        send_request(
            &"a".repeat(40),
            &mut waiting,
            endpoint(9),
            Request::FindNode(String::from("nope")),
            100
        ),
        Err(Error::InvalidId)
    );
    assert_eq!(waiting.len(), 0);
}

#[test]
fn an_answer_of_a_node_without_identifier_is_dropped_as_invalid() {
    let mut a = node(&"a".repeat(40), 16600);
    a.id = String::from("not an identifier");
    let datagram =
        encode(&request(&"b".repeat(40), &"1".repeat(40), Request::Ping)).unwrap();

    assert!(matches!(
        receive(&mut a, endpoint(1), &datagram, 0),
        Dispatch::Dropped(Error::InvalidId)
    ));
    assert!(a.peers.get_peer(&"b".repeat(40)).unwrap().active);
}
