use kademlia::codec::{decode, encode};
use kademlia::errors::Error;
use kademlia::structures::{
    Endpoint, FoundNode, FoundValue, IpAddress, Message, Packet, Request, Response,
};

fn id_of(first: &str) -> String {
    let mut id = String::from(first);
    while id.len() < 40 {
        id.push('0');
    }
    id
}

fn packet(message: Message) -> Packet {
    Packet { message, node_id: "a".repeat(40), transaction_id: "b".repeat(40) }
}

fn v4_node(n: u8) -> FoundNode {
    FoundNode {
        address: Endpoint { ip: IpAddress::V4(0x0a00_0000 + n as u32), port: 1000 + n as u16 },
        node_id: id_of(&format!("{:02x}", n)),
    }
}

fn v6_node(n: u8) -> FoundNode {
    FoundNode {
        address: Endpoint {
            ip: IpAddress::V6(0x2001_0db8_0000_0000_0000_0000_0000_0000 + n as u128),
            port: 2000 + n as u16,
        },
        node_id: id_of(&format!("f{:02x}", n)),
    }
}

fn round_trips(p: &Packet) {
    let bytes = encode(p).unwrap();
    assert!(bytes.len() <= 1024);
    assert_eq!(decode(&bytes).as_ref(), Ok(p));
}

#[test]
fn ping_is_written_as_two_identifiers_and_a_tag() {
    let bytes = encode(&packet(Message::Request(Request::Ping))).unwrap();
    let mut expected = Vec::new();
    expected.extend_from_slice("a".repeat(40).as_bytes());
    expected.extend_from_slice("b".repeat(40).as_bytes());
    expected.push(0x01);

    assert_eq!(bytes, expected);
}

#[test]
fn store_is_written_with_its_key_and_a_length() {
    let bytes =
        encode(&packet(Message::Request(Request::Store("d".repeat(40), b"hello".to_vec()))))
            .unwrap();

    assert_eq!(bytes.len(), 80 + 1 + 40 + 4 + 5);
    assert_eq!(bytes[80], 0x02);
    assert_eq!(&bytes[81..121], "d".repeat(40).as_bytes());
    assert_eq!(&bytes[121..125], &[5, 0, 0, 0]);
    assert_eq!(&bytes[125..], b"hello");
}

#[test]
fn found_nodes_are_written_with_family_octets_and_port() {
    let node = FoundNode {
        address: Endpoint { ip: IpAddress::V4(0x7f00_0001), port: 16700 },
        node_id: "c".repeat(40),
    };
    let bytes = encode(&packet(Message::Response(Response::FindNode(vec![node])))).unwrap();

    assert_eq!(bytes[80], 0x83);
    assert_eq!(&bytes[81..83], &[1, 0]);
    assert_eq!(&bytes[83..123], "c".repeat(40).as_bytes());
    assert_eq!(&bytes[123..], &[4, 127, 0, 0, 1, 0x3c, 0x41]);
}

#[test]
fn an_ipv6_endpoint_takes_sixteen_octets() {
    let node = FoundNode {
        address: Endpoint { ip: IpAddress::V6(1), port: 0x0102 },
        node_id: "c".repeat(40),
    };
    let bytes = encode(&packet(Message::Response(Response::FindNode(vec![node])))).unwrap();

    assert_eq!(bytes.len(), 83 + 59);
    assert_eq!(bytes[123], 6);
    assert_eq!(&bytes[124..139], &[0u8; 15]);
    assert_eq!(bytes[139], 1);
    assert_eq!(&bytes[140..], &[0x02, 0x01]);
}

#[test]
fn every_kind_of_packet_round_trips() {
    round_trips(&packet(Message::Request(Request::Ping)));
    round_trips(&packet(Message::Request(Request::Store(id_of("12"), vec![]))));
    round_trips(&packet(Message::Request(Request::Store(id_of("12"), vec![0, 1, 2, 255]))));
    round_trips(&packet(Message::Request(Request::FindNode(id_of("34")))));
    round_trips(&packet(Message::Request(Request::FindValue(id_of("56")))));
    round_trips(&packet(Message::Response(Response::Pong)));
    round_trips(&packet(Message::Response(Response::Store)));
    round_trips(&packet(Message::Response(Response::FindNode(vec![]))));
    round_trips(&packet(Message::Response(Response::FindNode(vec![
        v4_node(1),
        v6_node(2),
        v4_node(3),
    ]))));
    round_trips(&packet(Message::Response(Response::FindValue(FoundValue::Value(vec![9; 100])))));
    round_trips(&packet(Message::Response(Response::FindValue(FoundValue::Nodes(vec![
        v6_node(7),
    ])))));
    round_trips(&packet(Message::Response(Response::FindValue(FoundValue::Nodes(vec![])))));
}

#[test]
fn twenty_ipv4_nodes_fit_a_packet_and_twenty_one_do_not() {
    let nodes: Vec<FoundNode> = (0..20).map(v4_node).collect();
    let p = packet(Message::Response(Response::FindNode(nodes)));
    let bytes = encode(&p).unwrap();

    assert_eq!(bytes.len(), 83 + 20 * 47);
    assert_eq!(decode(&bytes), Ok(p));

    let nodes: Vec<FoundNode> = (0..21).map(v4_node).collect();

    assert_eq!(
        encode(&packet(Message::Response(Response::FindNode(nodes)))),
        Err(Error::DatagramTooLarge)
    );
}

#[test]
fn a_value_that_fills_the_packet_is_the_largest() {
    let fits = packet(Message::Request(Request::Store(id_of("1"), vec![7; 1024 - 125])));
    let bytes = encode(&fits).unwrap();

    assert_eq!(bytes.len(), 1024);
    assert_eq!(decode(&bytes), Ok(fits));
    assert_eq!(
        encode(&packet(Message::Request(Request::Store(id_of("1"), vec![7; 1024 - 124])))),
        Err(Error::DatagramTooLarge)
    );
    assert_eq!(
        encode(&packet(Message::Response(Response::FindValue(FoundValue::Value(vec![
            0;
            5000
        ]))))),
        Err(Error::DatagramTooLarge)
    );
}

#[test]
fn a_packet_with_an_invalid_identifier_is_not_written() {
    let mut p = packet(Message::Request(Request::Ping));
    p.node_id = String::from("short");
    assert_eq!(encode(&p), Err(Error::InvalidId));

    let mut p = packet(Message::Request(Request::Ping));
    p.transaction_id = "G".repeat(40);
    assert_eq!(encode(&p), Err(Error::InvalidId));

    assert_eq!(
        encode(&packet(Message::Request(Request::FindNode(String::from("nope"))))),
        Err(Error::InvalidId)
    );
    let mut node = v4_node(1);
    node.node_id = String::new();
    assert_eq!(
        encode(&packet(Message::Response(Response::FindNode(vec![node])))),
        Err(Error::InvalidId)
    );
}

#[test]
fn malformed_bytes_are_refused() {
    let good = encode(&packet(Message::Request(Request::FindNode(id_of("34"))))).unwrap();

    assert_eq!(decode(&[]), Err(Error::DecodeError));
    assert_eq!(decode(&good[..80]), Err(Error::DecodeError));
    assert_eq!(decode(&good[..good.len() - 1]), Err(Error::DecodeError));

    let mut trailing = good.clone();
    trailing.push(0);
    assert_eq!(decode(&trailing), Err(Error::DecodeError));

    let mut bad_tag = good.clone();
    bad_tag[80] = 0x7f;
    assert_eq!(decode(&bad_tag), Err(Error::DecodeError));

    let mut bad_id = good.clone();
    bad_id[3] = b'A';
    assert_eq!(decode(&bad_id), Err(Error::DecodeError));

    let mut bad_target = good.clone();
    bad_target[100] = b' ';
    assert_eq!(decode(&bad_target), Err(Error::DecodeError));

    assert_eq!(decode(&vec![b'a'; 2000]), Err(Error::DecodeError));
}

#[test]
fn a_wrong_count_or_length_or_family_is_refused() {
    let nodes = encode(&packet(Message::Response(Response::FindNode(vec![v4_node(1)])))).unwrap();

    let mut more = nodes.clone();
    more[81] = 2;
    assert_eq!(decode(&more), Err(Error::DecodeError));

    let mut fewer = nodes.clone();
    fewer[81] = 0;
    assert_eq!(decode(&fewer), Err(Error::DecodeError));

    let mut family = nodes.clone();
    family[123] = 5;
    assert_eq!(decode(&family), Err(Error::DecodeError));

    let value =
        encode(&packet(Message::Response(Response::FindValue(FoundValue::Value(vec![1, 2, 3])))))
            .unwrap();
    let mut longer = value.clone();
    longer[81] = 4;
    assert_eq!(decode(&longer), Err(Error::DecodeError));
    let mut huge = value.clone();
    huge[84] = 0xff;
    assert_eq!(decode(&huge), Err(Error::DecodeError));
}
