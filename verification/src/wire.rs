//! The wire format of packets, as mathematics: what bytes a packet is
//! written as, what packet a byte string reads as, and that reading undoes
//! writing.
//!
//! ```text
//! Packet    := sender_id(40 hex) transaction_id(40 hex) Message
//! Message   := tag:u8 body, to the end of the datagram
//!   0x01 PING             (empty)
//!   0x02 STORE            key(40 hex) len:u32 bytes[len]
//!   0x03 FIND_NODE        target(40 hex)
//!   0x04 FIND_VALUE       key(40 hex)
//!   0x81 PONG             (empty)
//!   0x82 STORE_OK         (empty)
//!   0x83 FIND_NODE_RESP   n:u16 FoundNode[n]
//!   0x84 FIND_VALUE_V     len:u32 bytes[len]
//!   0x85 FIND_VALUE_NODES n:u16 FoundNode[n]
//! FoundNode := node_id(40 hex) family:u8 (4 or 6) ip(4 or 16 bytes) port:u16
//! ```
//!
//! Lengths, counts and ports are little-endian; the octets of an address
//! stand in the order in which they are written. A packet is at most 1024
//! bytes long.

use crate::structures::{
    found_nodes_valid, Endpoint, FoundNodeView, FoundValueView, IpAddress, MessageView, PacketView,
    RequestView, ResponseView,
};
use crate::utilities::{distance_value, is_hex_digit, is_node_id};
use vstd::prelude::*;

verus! {

/// The largest packet, in bytes.
pub const MAX_PACKET_SIZE: usize = 1024;

/// Whether `b` is the ASCII code of a lowercase hex digit.
pub open spec fn is_hex_byte(b: u8) -> bool {
    (48 <= b <= 57) || (97 <= b <= 102)
}

/// The characters whose codes are the bytes `bytes`.
pub open spec fn text_of(bytes: Seq<u8>) -> Seq<char> {
    Seq::new(bytes.len(), |i: int| bytes[i] as char)
}

/// Whether `bytes` are 40 lowercase hex digits.
pub open spec fn is_id_wire(bytes: Seq<u8>) -> bool {
    bytes.len() == 40 && forall|i: int| 0 <= i < 40 ==> is_hex_byte(#[trigger] bytes[i])
}

/// An identifier on the wire: its 40 characters.
pub open spec fn id_wire(id: Seq<char>) -> Seq<u8> {
    Seq::new(40, |i: int| id[i] as u8)
}

/// A 16-bit number on the wire, least significant byte first.
pub open spec fn u16_wire(x: u16) -> Seq<u8> {
    seq![(x % 256) as u8, (x / 256) as u8]
}

/// A 32-bit number on the wire, least significant byte first.
pub open spec fn u32_wire(x: u32) -> Seq<u8> {
    seq![
        (x % 256) as u8,
        (x / 256 % 256) as u8,
        (x / 65536 % 256) as u8,
        (x / 16777216) as u8,
    ]
}

/// The last `n` bytes of the number `x`, most significant first.
pub open spec fn be_bytes(x: nat, n: nat) -> Seq<u8>
    decreases n,
{
    if n == 0 {
        Seq::empty()
    } else {
        be_bytes(x / 256, (n - 1) as nat).push((x % 256) as u8)
    }
}

/// 256 to the power `n`.
pub open spec fn pow256(n: nat) -> nat
    decreases n,
{
    if n == 0 {
        1
    } else {
        256 * pow256((n - 1) as nat)
    }
}

/// An address on the wire: its family, 4 or 6, and its octets.
pub open spec fn ip_wire(ip: IpAddress) -> Seq<u8> {
    match ip {
        IpAddress::V4(x) => seq![4u8] + be_bytes(x as nat, 4),
        IpAddress::V6(x) => seq![6u8] + be_bytes(x as nat, 16),
    }
}

/// An endpoint on the wire: its address and its port.
pub open spec fn endpoint_wire(endpoint: Endpoint) -> Seq<u8> {
    ip_wire(endpoint.ip) + u16_wire(endpoint.port)
}

/// A found node on the wire: its identifier and its endpoint.
pub open spec fn found_node_wire(node: FoundNodeView) -> Seq<u8> {
    id_wire(node.node_id) + endpoint_wire(node.address)
}

/// Found nodes on the wire, one after the other.
pub open spec fn found_nodes_wire(nodes: Seq<FoundNodeView>) -> Seq<u8>
    decreases nodes.len(),
{
    if nodes.len() == 0 {
        Seq::empty()
    } else {
        found_nodes_wire(nodes.drop_last()) + found_node_wire(nodes.last())
    }
}

/// A list of found nodes on the wire: how many there are, then the nodes.
pub open spec fn counted_nodes_wire(nodes: Seq<FoundNodeView>) -> Seq<u8> {
    u16_wire(nodes.len() as u16) + found_nodes_wire(nodes)
}

/// A byte string on the wire: its length, then its bytes.
pub open spec fn blob_wire(bytes: Seq<u8>) -> Seq<u8> {
    u32_wire(bytes.len() as u32) + bytes
}

/// A message on the wire: its tag and its body.
pub open spec fn message_wire(message: MessageView) -> Seq<u8> {
    match message {
        MessageView::Request(RequestView::Ping) => seq![0x01u8],
        MessageView::Request(RequestView::Store(key, value)) => seq![0x02u8] + id_wire(key)
            + blob_wire(value),
        MessageView::Request(RequestView::FindNode(target)) => seq![0x03u8] + id_wire(target),
        MessageView::Request(RequestView::FindValue(key)) => seq![0x04u8] + id_wire(key),
        MessageView::Response(ResponseView::Pong) => seq![0x81u8],
        MessageView::Response(ResponseView::Store) => seq![0x82u8],
        MessageView::Response(ResponseView::FindNode(nodes)) => seq![0x83u8] + counted_nodes_wire(
            nodes,
        ),
        MessageView::Response(ResponseView::FindValue(FoundValueView::Value(value))) => seq![0x84u8]
            + blob_wire(value),
        MessageView::Response(ResponseView::FindValue(FoundValueView::Nodes(nodes))) => seq![0x85u8]
            + counted_nodes_wire(nodes),
    }
}

/// A packet on the wire: the sender, the transaction and the message.
pub open spec fn packet_wire(packet: PacketView) -> Seq<u8> {
    id_wire(packet.node_id) + id_wire(packet.transaction_id) + message_wire(packet.message)
}

/// Whether a packet can be written: its identifiers are identifiers and it
/// is at most 1024 bytes long on the wire.
pub open spec fn encodable(packet: PacketView) -> bool {
    packet.ids_valid() && packet_wire(packet).len() <= 1024
}

/// The identifier that stands at `at` in `data`.
pub open spec fn id_at(data: Seq<u8>, at: int) -> Option<Seq<char>> {
    if 0 <= at && at + 40 <= data.len() && is_id_wire(data.subrange(at, at + 40)) {
        Some(text_of(data.subrange(at, at + 40)))
    } else {
        None
    }
}

/// The 16-bit number that stands at `at` in `data`.
pub open spec fn u16_at(data: Seq<u8>, at: int) -> Option<u16> {
    if 0 <= at && at + 2 <= data.len() {
        Some((data[at] + 256 * data[at + 1]) as u16)
    } else {
        None
    }
}

/// The 32-bit number that stands at `at` in `data`.
pub open spec fn u32_at(data: Seq<u8>, at: int) -> Option<u32> {
    if 0 <= at && at + 4 <= data.len() {
        Some(
            (data[at] + 256 * data[at + 1] + 65536 * data[at + 2] + 16777216 * data[at + 3]) as u32,
        )
    } else {
        None
    }
}

/// The endpoint that stands at `at` in `data`, and where it ends.
pub open spec fn endpoint_at(data: Seq<u8>, at: int) -> Option<(Endpoint, int)> {
    if !(0 <= at < data.len()) {
        None
    } else if data[at] == 4 && at + 7 <= data.len() {
        Some(
            (
                Endpoint {
                    ip: IpAddress::V4(distance_value(data.subrange(at + 1, at + 5)) as u32),
                    port: u16_at(data, at + 5)->0,
                },
                at + 7,
            ),
        )
    } else if data[at] == 6 && at + 19 <= data.len() {
        Some(
            (
                Endpoint {
                    ip: IpAddress::V6(distance_value(data.subrange(at + 1, at + 17)) as u128),
                    port: u16_at(data, at + 17)->0,
                },
                at + 19,
            ),
        )
    } else {
        None
    }
}

/// The found node that stands at `at` in `data`, and where it ends.
pub open spec fn found_node_at(data: Seq<u8>, at: int) -> Option<(FoundNodeView, int)> {
    match id_at(data, at) {
        Some(id) => match endpoint_at(data, at + 40) {
            Some((address, next)) => Some((FoundNodeView { address, node_id: id }, next)),
            None => None,
        },
        None => None,
    }
}

/// The `n` found nodes that stand at `at` in `data`, and where they end.
pub open spec fn found_nodes_at(data: Seq<u8>, at: int, n: nat) -> Option<
    (Seq<FoundNodeView>, int),
>
    decreases n,
{
    if n == 0 {
        Some((Seq::empty(), at))
    } else {
        match found_nodes_at(data, at, (n - 1) as nat) {
            Some((front, middle)) => match found_node_at(data, middle) {
                Some((node, next)) => Some((front.push(node), next)),
                None => None,
            },
            None => None,
        }
    }
}

/// The list of found nodes that stands at `at` in `data` and ends with it.
pub open spec fn counted_nodes_at(data: Seq<u8>, at: int) -> Option<Seq<FoundNodeView>> {
    match u16_at(data, at) {
        Some(n) => match found_nodes_at(data, at + 2, n as nat) {
            Some((nodes, next)) => if next == data.len() {
                Some(nodes)
            } else {
                None
            },
            None => None,
        },
        None => None,
    }
}

/// The byte string that stands at `at` in `data` and ends with it.
pub open spec fn blob_at(data: Seq<u8>, at: int) -> Option<Seq<u8>> {
    match u32_at(data, at) {
        Some(n) => if at + 4 + n == data.len() {
            Some(data.subrange(at + 4, data.len() as int))
        } else {
            None
        },
        None => None,
    }
}

/// The identifier that stands at `at` in `data` and ends with it.
pub open spec fn last_id_at(data: Seq<u8>, at: int) -> Option<Seq<char>> {
    if at + 40 == data.len() {
        id_at(data, at)
    } else {
        None
    }
}

/// The message that stands at `at` in `data` and ends with it.
pub open spec fn message_at(data: Seq<u8>, at: int) -> Option<MessageView> {
    if !(0 <= at < data.len()) {
        None
    } else {
        let tag = data[at];
        let body = at + 1;
        if tag == 0x01 {
            if body == data.len() {
                Some(MessageView::Request(RequestView::Ping))
            } else {
                None
            }
        } else if tag == 0x02 {
            match (id_at(data, body), blob_at(data, body + 40)) {
                (Some(key), Some(value)) => Some(
                    MessageView::Request(RequestView::Store(key, value)),
                ),
                _ => None,
            }
        } else if tag == 0x03 {
            match last_id_at(data, body) {
                Some(target) => Some(MessageView::Request(RequestView::FindNode(target))),
                None => None,
            }
        } else if tag == 0x04 {
            match last_id_at(data, body) {
                Some(key) => Some(MessageView::Request(RequestView::FindValue(key))),
                None => None,
            }
        } else if tag == 0x81 {
            if body == data.len() {
                Some(MessageView::Response(ResponseView::Pong))
            } else {
                None
            }
        } else if tag == 0x82 {
            if body == data.len() {
                Some(MessageView::Response(ResponseView::Store))
            } else {
                None
            }
        } else if tag == 0x83 {
            match counted_nodes_at(data, body) {
                Some(nodes) => Some(MessageView::Response(ResponseView::FindNode(nodes))),
                None => None,
            }
        } else if tag == 0x84 {
            match blob_at(data, body) {
                Some(value) => Some(
                    MessageView::Response(ResponseView::FindValue(FoundValueView::Value(value))),
                ),
                None => None,
            }
        } else if tag == 0x85 {
            match counted_nodes_at(data, body) {
                Some(nodes) => Some(
                    MessageView::Response(ResponseView::FindValue(FoundValueView::Nodes(nodes))),
                ),
                None => None,
            }
        } else {
            None
        }
    }
}

/// The packet that the bytes `data` read as, if they are one.
pub open spec fn parse_packet(data: Seq<u8>) -> Option<PacketView> {
    if data.len() > 1024 {
        None
    } else {
        match (id_at(data, 0), id_at(data, 40), message_at(data, 80)) {
            (Some(node_id), Some(transaction_id), Some(message)) => Some(
                PacketView { message, node_id, transaction_id },
            ),
            _ => None,
        }
    }
}

/// Whether the bytes `w` stand at `at` in `data`.
pub open spec fn occurs(data: Seq<u8>, at: int, w: Seq<u8>) -> bool {
    0 <= at && at + w.len() <= data.len() && data.subrange(at, at + w.len()) == w
}

proof fn lemma_occurs_split(data: Seq<u8>, at: int, a: Seq<u8>, b: Seq<u8>)
    requires
        occurs(data, at, a + b),
    ensures
        occurs(data, at, a),
        occurs(data, at + a.len(), b),
{
    let w = a + b;
    let s = data.subrange(at, at + w.len());
    assert forall|i: int| 0 <= i < a.len() implies data[at + i] == a[i] by {
        assert(s[i] == w[i]);
    }
    assert forall|i: int| 0 <= i < b.len() implies data[at + a.len() + i] == b[i] by {
        assert(s[a.len() + i] == w[a.len() + i]);
    }
    assert(data.subrange(at, at + a.len()) =~= a);
    assert(data.subrange(at + a.len(), at + a.len() + b.len()) =~= b);
}

proof fn lemma_occurs_index(data: Seq<u8>, at: int, w: Seq<u8>, i: int)
    requires
        occurs(data, at, w),
        0 <= i < w.len(),
    ensures
        data[at + i] == w[i],
{
    assert(data.subrange(at, at + w.len())[i] == w[i]);
}

/// The length of the last bytes of a number is their count.
pub proof fn lemma_be_bytes_len(x: nat, n: nat)
    ensures
        be_bytes(x, n).len() == n,
    decreases n,
{
    if n > 0 {
        lemma_be_bytes_len(x / 256, (n - 1) as nat);
    }
}

/// A number below 256 to the `n` is the value of its last `n` bytes.
pub proof fn lemma_be_bytes_value(x: nat, n: nat)
    requires
        x < pow256(n),
    ensures
        distance_value(be_bytes(x, n)) == x,
    decreases n,
{
    if n > 0 {
        let front = be_bytes(x / 256, (n - 1) as nat);
        lemma_be_bytes_value(x / 256, (n - 1) as nat);
        let s = front.push((x % 256) as u8);
        assert(s.drop_last() =~= front);
        assert(s.last() == (x % 256) as u8);
    }
}

/// The value of `n` bytes is below 256 to the `n`.
pub proof fn lemma_value_bound(s: Seq<u8>)
    ensures
        distance_value(s) < pow256(s.len()),
    decreases s.len(),
{
    if s.len() > 0 {
        lemma_value_bound(s.drop_last());
    }
}

/// 256 to the fourth and to the sixteenth are what 32 and 128 bits count to.
pub proof fn lemma_pow256()
    ensures
        pow256(1) == 256,
        pow256(2) == 65536,
        pow256(4) == 0x1_0000_0000,
        pow256(16) == 0x1_0000_0000_0000_0000_0000_0000_0000_0000,
{
    reveal_with_fuel(pow256, 5);
    assert(pow256(4) == 0x1_0000_0000);
    assert(pow256(8) == 0x1_0000_0000 * pow256(4)) by {
        reveal_with_fuel(pow256, 5);
    }
    assert(pow256(12) == 0x1_0000_0000 * pow256(8)) by {
        reveal_with_fuel(pow256, 5);
    }
    assert(pow256(16) == 0x1_0000_0000 * pow256(12)) by {
        reveal_with_fuel(pow256, 5);
    }
}

proof fn lemma_id_at(data: Seq<u8>, at: int, id: Seq<char>)
    requires
        is_node_id(id),
        occurs(data, at, id_wire(id)),
    ensures
        id_at(data, at) == Some(id),
{
    let s = data.subrange(at, at + 40);
    assert(s == id_wire(id));
    assert forall|i: int| 0 <= i < 40 implies is_hex_byte(#[trigger] s[i]) && s[i] as char
        == id[i] by {
        assert(is_hex_digit(id[i]));
    }
    assert(text_of(s) =~= id);
}

proof fn lemma_u16_at(data: Seq<u8>, at: int, x: u16)
    requires
        occurs(data, at, u16_wire(x)),
    ensures
        u16_at(data, at) == Some(x),
{
    lemma_occurs_index(data, at, u16_wire(x), 0);
    lemma_occurs_index(data, at, u16_wire(x), 1);
}

proof fn lemma_u32_at(data: Seq<u8>, at: int, x: u32)
    requires
        occurs(data, at, u32_wire(x)),
    ensures
        u32_at(data, at) == Some(x),
{
    lemma_occurs_index(data, at, u32_wire(x), 0);
    lemma_occurs_index(data, at, u32_wire(x), 1);
    lemma_occurs_index(data, at, u32_wire(x), 2);
    lemma_occurs_index(data, at, u32_wire(x), 3);
}

/// An endpoint takes 7 bytes on the wire with an IPv4 address and 19 with
/// an IPv6 address.
pub proof fn lemma_endpoint_wire_len(endpoint: Endpoint)
    ensures
        endpoint_wire(endpoint).len() == match endpoint.ip {
            IpAddress::V4(_) => 7int,
            IpAddress::V6(_) => 19int,
        },
{
    match endpoint.ip {
        IpAddress::V4(x) => lemma_be_bytes_len(x as nat, 4),
        IpAddress::V6(x) => lemma_be_bytes_len(x as nat, 16),
    }
}

proof fn lemma_endpoint_at(data: Seq<u8>, at: int, endpoint: Endpoint)
    requires
        occurs(data, at, endpoint_wire(endpoint)),
    ensures
        endpoint_at(data, at) == Some((endpoint, at + endpoint_wire(endpoint).len())),
{
    lemma_endpoint_wire_len(endpoint);
    lemma_pow256();
    lemma_occurs_split(data, at, ip_wire(endpoint.ip), u16_wire(endpoint.port));
    match endpoint.ip {
        IpAddress::V4(x) => {
            lemma_be_bytes_len(x as nat, 4);
            lemma_occurs_split(data, at, seq![4u8], be_bytes(x as nat, 4));
            lemma_occurs_index(data, at, seq![4u8], 0);
            lemma_be_bytes_value(x as nat, 4);
            lemma_u16_at(data, at + 5, endpoint.port);
        },
        IpAddress::V6(x) => {
            lemma_be_bytes_len(x as nat, 16);
            lemma_occurs_split(data, at, seq![6u8], be_bytes(x as nat, 16));
            lemma_occurs_index(data, at, seq![6u8], 0);
            lemma_be_bytes_value(x as nat, 16);
            lemma_u16_at(data, at + 17, endpoint.port);
        },
    }
}

/// A found node takes 47 or 59 bytes on the wire.
pub proof fn lemma_found_node_wire_len(node: FoundNodeView)
    ensures
        found_node_wire(node).len() == match node.address.ip {
            IpAddress::V4(_) => 47int,
            IpAddress::V6(_) => 59int,
        },
{
    lemma_endpoint_wire_len(node.address);
}

/// Found nodes take at least 47 bytes each on the wire, and no fewer bytes
/// than the first of them take.
pub proof fn lemma_found_nodes_wire_len(nodes: Seq<FoundNodeView>, k: int)
    requires
        0 <= k <= nodes.len(),
    ensures
        found_nodes_wire(nodes).len() >= 47 * nodes.len(),
        found_nodes_wire(nodes.subrange(0, k)).len() + 47 * (nodes.len() - k) <= found_nodes_wire(
            nodes,
        ).len(),
    decreases nodes.len(),
{
    if nodes.len() > 0 {
        lemma_found_node_wire_len(nodes.last());
        if k == nodes.len() {
            assert(nodes.subrange(0, k) =~= nodes);
            lemma_found_nodes_wire_len(nodes.drop_last(), k - 1);
        } else {
            lemma_found_nodes_wire_len(nodes.drop_last(), k);
            assert(nodes.drop_last().subrange(0, k) =~= nodes.subrange(0, k));
        }
    } else {
        assert(nodes.subrange(0, k) =~= nodes);
    }
}

proof fn lemma_found_node_at(data: Seq<u8>, at: int, node: FoundNodeView)
    requires
        is_node_id(node.node_id),
        occurs(data, at, found_node_wire(node)),
    ensures
        found_node_at(data, at) == Some((node, at + found_node_wire(node).len())),
{
    lemma_occurs_split(data, at, id_wire(node.node_id), endpoint_wire(node.address));
    lemma_id_at(data, at, node.node_id);
    lemma_endpoint_at(data, at + 40, node.address);
}

proof fn lemma_found_nodes_at(data: Seq<u8>, at: int, nodes: Seq<FoundNodeView>)
    requires
        found_nodes_valid(nodes),
        occurs(data, at, found_nodes_wire(nodes)),
    ensures
        found_nodes_at(data, at, nodes.len()) == Some((nodes, at + found_nodes_wire(nodes).len())),
    decreases nodes.len(),
{
    if nodes.len() > 0 {
        let front = nodes.drop_last();
        lemma_occurs_split(data, at, found_nodes_wire(front), found_node_wire(nodes.last()));
        assert forall|i: int| 0 <= i < front.len() implies is_node_id(
            (#[trigger] front[i]).node_id,
        ) by {
            assert(front[i] == nodes[i]);
        }
        lemma_found_nodes_at(data, at, front);
        lemma_found_node_at(data, at + found_nodes_wire(front).len(), nodes.last());
        assert(front.push(nodes.last()) =~= nodes);
    }
}

proof fn lemma_counted_nodes_at(data: Seq<u8>, at: int, nodes: Seq<FoundNodeView>)
    requires
        found_nodes_valid(nodes),
        nodes.len() <= 0xffff,
        occurs(data, at, counted_nodes_wire(nodes)),
        at + counted_nodes_wire(nodes).len() == data.len(),
    ensures
        counted_nodes_at(data, at) == Some(nodes),
{
    lemma_occurs_split(data, at, u16_wire(nodes.len() as u16), found_nodes_wire(nodes));
    lemma_u16_at(data, at, nodes.len() as u16);
    lemma_found_nodes_at(data, at + 2, nodes);
}

proof fn lemma_blob_at(data: Seq<u8>, at: int, bytes: Seq<u8>)
    requires
        bytes.len() <= 0xffff_ffff,
        occurs(data, at, blob_wire(bytes)),
        at + blob_wire(bytes).len() == data.len(),
    ensures
        blob_at(data, at) == Some(bytes),
{
    lemma_occurs_split(data, at, u32_wire(bytes.len() as u32), bytes);
    lemma_u32_at(data, at, bytes.len() as u32);
}

proof fn lemma_last_id_at(data: Seq<u8>, at: int, id: Seq<char>)
    requires
        is_node_id(id),
        occurs(data, at, id_wire(id)),
        at + 40 == data.len(),
    ensures
        last_id_at(data, at) == Some(id),
{
    lemma_id_at(data, at, id);
}

proof fn lemma_message_at(data: Seq<u8>, at: int, message: MessageView)
    requires
        message.ids_valid(),
        occurs(data, at, message_wire(message)),
        at + message_wire(message).len() == data.len(),
        data.len() <= 1024,
    ensures
        message_at(data, at) == Some(message),
{
    let w = message_wire(message);
    lemma_occurs_index(data, at, w, 0);
    match message {
        MessageView::Request(RequestView::Ping) => {},
        MessageView::Request(RequestView::Store(key, value)) => {
            lemma_occurs_split(data, at, seq![0x02u8] + id_wire(key), blob_wire(value));
            lemma_occurs_split(data, at, seq![0x02u8], id_wire(key));
            lemma_id_at(data, at + 1, key);
            lemma_blob_at(data, at + 41, value);
        },
        MessageView::Request(RequestView::FindNode(target)) => {
            lemma_occurs_split(data, at, seq![0x03u8], id_wire(target));
            lemma_last_id_at(data, at + 1, target);
        },
        MessageView::Request(RequestView::FindValue(key)) => {
            lemma_occurs_split(data, at, seq![0x04u8], id_wire(key));
            lemma_last_id_at(data, at + 1, key);
        },
        MessageView::Response(ResponseView::Pong) => {},
        MessageView::Response(ResponseView::Store) => {},
        MessageView::Response(ResponseView::FindNode(nodes)) => {
            lemma_occurs_split(data, at, seq![0x83u8], counted_nodes_wire(nodes));
            lemma_found_nodes_wire_len(nodes, 0);
            lemma_counted_nodes_at(data, at + 1, nodes);
        },
        MessageView::Response(ResponseView::FindValue(FoundValueView::Value(value))) => {
            lemma_occurs_split(data, at, seq![0x84u8], blob_wire(value));
            lemma_blob_at(data, at + 1, value);
        },
        MessageView::Response(ResponseView::FindValue(FoundValueView::Nodes(nodes))) => {
            lemma_occurs_split(data, at, seq![0x85u8], counted_nodes_wire(nodes));
            lemma_found_nodes_wire_len(nodes, 0);
            lemma_counted_nodes_at(data, at + 1, nodes);
        },
    }
}

/// Reading undoes writing: the bytes that a packet is written as read as
/// that packet.
pub proof fn lemma_round_trip(packet: PacketView)
    requires
        encodable(packet),
    ensures
        parse_packet(packet_wire(packet)) == Some(packet),
{
    let data = packet_wire(packet);
    assert(data.subrange(0, data.len() as int) =~= data);
    lemma_occurs_split(
        data,
        0,
        id_wire(packet.node_id) + id_wire(packet.transaction_id),
        message_wire(packet.message),
    );
    lemma_occurs_split(data, 0, id_wire(packet.node_id), id_wire(packet.transaction_id));
    lemma_id_at(data, 0, packet.node_id);
    lemma_id_at(data, 40, packet.transaction_id);
    lemma_message_at(data, 80, packet.message);
}

proof fn lemma_occurs_join(data: Seq<u8>, at: int, a: Seq<u8>, b: Seq<u8>)
    requires
        occurs(data, at, a),
        occurs(data, at + a.len(), b),
    ensures
        occurs(data, at, a + b),
{
    let w = a + b;
    assert forall|i: int| 0 <= i < w.len() implies data[at + i] == w[i] by {
        if i < a.len() {
            lemma_occurs_index(data, at, a, i);
        } else {
            lemma_occurs_index(data, at + a.len(), b, i - a.len());
        }
    }
    assert(data.subrange(at, at + w.len()) =~= w);
}

/// The last bytes of the value of a byte string are that byte string.
pub proof fn lemma_be_bytes_of_value(s: Seq<u8>)
    ensures
        be_bytes(distance_value(s), s.len()) == s,
    decreases s.len(),
{
    if s.len() > 0 {
        let front = s.drop_last();
        lemma_be_bytes_of_value(front);
        let x = distance_value(s);
        assert(x == 256 * distance_value(front) + s.last() as nat);
        assert(x / 256 == distance_value(front));
        assert(x % 256 == s.last() as nat);
        assert(be_bytes(x, s.len()) =~= s);
    } else {
        assert(be_bytes(distance_value(s), s.len()) =~= s);
    }
}

proof fn lemma_id_written(data: Seq<u8>, at: int)
    requires
        id_at(data, at) is Some,
    ensures
        is_node_id(id_at(data, at)->0),
        occurs(data, at, id_wire(id_at(data, at)->0)),
{
    let s = data.subrange(at, at + 40);
    let id = text_of(s);
    assert forall|i: int| 0 <= i < 40 implies is_hex_digit(#[trigger] id[i]) && id[i] as u8
        == s[i] by {
        assert(is_hex_byte(s[i]));
    }
    assert(id_wire(id) =~= s);
}

proof fn lemma_u16_written(data: Seq<u8>, at: int)
    requires
        u16_at(data, at) is Some,
    ensures
        occurs(data, at, u16_wire(u16_at(data, at)->0)),
{
    let x = u16_at(data, at)->0;
    assert(x == data[at] + 256 * data[at + 1]);
    assert(data.subrange(at, at + 2) =~= u16_wire(x));
}

proof fn lemma_u32_written(data: Seq<u8>, at: int)
    requires
        u32_at(data, at) is Some,
    ensures
        occurs(data, at, u32_wire(u32_at(data, at)->0)),
{
    let x = u32_at(data, at)->0 as int;
    let b0 = data[at] as int;
    let b1 = data[at + 1] as int;
    let b2 = data[at + 2] as int;
    let b3 = data[at + 3] as int;
    let y1 = b1 + 256 * b2 + 65536 * b3;
    let y2 = b2 + 256 * b3;
    assert(x == b0 + 256 * b1 + 65536 * b2 + 16777216 * b3);
    assert(x == 256 * y1 + b0);
    assert(x % 256 == b0 && x / 256 == y1);
    assert(y1 == 256 * y2 + b1);
    assert(y1 % 256 == b1);
    assert(x == 65536 * y2 + (b0 + 256 * b1));
    assert(x / 65536 == y2);
    assert(y2 == 256 * b3 + b2);
    assert(y2 % 256 == b2);
    assert(x == 16777216 * b3 + (b0 + 256 * b1 + 65536 * b2));
    assert(x / 16777216 == b3);
    let w = u32_wire(x as u32);
    assert(w[0] == data[at] && w[1] == data[at + 1] && w[2] == data[at + 2] && w[3] == data[at
        + 3]);
    assert(data.subrange(at, at + 4) =~= w);
}

proof fn lemma_endpoint_written(data: Seq<u8>, at: int, endpoint: Endpoint, next: int)
    requires
        endpoint_at(data, at) == Some((endpoint, next)),
    ensures
        occurs(data, at, endpoint_wire(endpoint)),
        next == at + endpoint_wire(endpoint).len(),
{
    lemma_pow256();
    lemma_endpoint_wire_len(endpoint);
    if data[at] == 4 && at + 7 <= data.len() {
        let octets = data.subrange(at + 1, at + 5);
        lemma_value_bound(octets);
        lemma_be_bytes_of_value(octets);
        lemma_u16_written(data, at + 5);
        assert(data.subrange(at, at + 1) =~= seq![4u8]);
        lemma_occurs_join(data, at, seq![4u8], octets);
        lemma_occurs_join(data, at, ip_wire(endpoint.ip), u16_wire(endpoint.port));
    } else {
        let octets = data.subrange(at + 1, at + 17);
        lemma_value_bound(octets);
        lemma_be_bytes_of_value(octets);
        lemma_u16_written(data, at + 17);
        assert(data.subrange(at, at + 1) =~= seq![6u8]);
        lemma_occurs_join(data, at, seq![6u8], octets);
        lemma_occurs_join(data, at, ip_wire(endpoint.ip), u16_wire(endpoint.port));
    }
}

proof fn lemma_found_node_written(data: Seq<u8>, at: int, node: FoundNodeView, next: int)
    requires
        found_node_at(data, at) == Some((node, next)),
    ensures
        is_node_id(node.node_id),
        occurs(data, at, found_node_wire(node)),
        next == at + found_node_wire(node).len(),
{
    lemma_id_written(data, at);
    lemma_endpoint_written(data, at + 40, node.address, next);
    lemma_occurs_join(data, at, id_wire(node.node_id), endpoint_wire(node.address));
}

proof fn lemma_found_nodes_written(
    data: Seq<u8>,
    at: int,
    n: nat,
    nodes: Seq<FoundNodeView>,
    next: int,
)
    requires
        0 <= at <= data.len(),
        found_nodes_at(data, at, n) == Some((nodes, next)),
    ensures
        nodes.len() == n,
        found_nodes_valid(nodes),
        occurs(data, at, found_nodes_wire(nodes)),
        next == at + found_nodes_wire(nodes).len(),
    decreases n,
{
    if n == 0 {
        assert(data.subrange(at, at) =~= Seq::empty());
    } else {
        let earlier = found_nodes_at(data, at, (n - 1) as nat)->0;
        let (front, middle) = earlier;
        lemma_found_nodes_written(data, at, (n - 1) as nat, front, middle);
        let last = found_node_at(data, middle)->0;
        let (node, end) = last;
        lemma_found_node_written(data, middle, node, end);
        assert(nodes == front.push(node));
        assert(nodes.drop_last() =~= front);
        assert(nodes.last() == node);
        lemma_occurs_join(data, at, found_nodes_wire(front), found_node_wire(node));
        assert forall|i: int| 0 <= i < nodes.len() implies is_node_id(
            (#[trigger] nodes[i]).node_id,
        ) by {
            if i < front.len() {
                assert(nodes[i] == front[i]);
            }
        }
    }
}

proof fn lemma_counted_nodes_written(data: Seq<u8>, at: int)
    requires
        counted_nodes_at(data, at) is Some,
    ensures
        found_nodes_valid(counted_nodes_at(data, at)->0),
        occurs(data, at, counted_nodes_wire(counted_nodes_at(data, at)->0)),
        at + counted_nodes_wire(counted_nodes_at(data, at)->0).len() == data.len(),
{
    let n = u16_at(data, at)->0;
    lemma_u16_written(data, at);
    let found = found_nodes_at(data, at + 2, n as nat)->0;
    let (nodes, next) = found;
    lemma_found_nodes_written(data, at + 2, n as nat, nodes, next);
    lemma_occurs_join(data, at, u16_wire(n), found_nodes_wire(nodes));
}

proof fn lemma_blob_written(data: Seq<u8>, at: int)
    requires
        blob_at(data, at) is Some,
    ensures
        occurs(data, at, blob_wire(blob_at(data, at)->0)),
        at + blob_wire(blob_at(data, at)->0).len() == data.len(),
{
    let n = u32_at(data, at)->0;
    lemma_u32_written(data, at);
    let bytes = blob_at(data, at)->0;
    assert(data.subrange(at + 4, at + 4 + bytes.len()) =~= bytes);
    lemma_occurs_join(data, at, u32_wire(n), bytes);
}

proof fn lemma_message_written(data: Seq<u8>, at: int)
    requires
        message_at(data, at) is Some,
    ensures
        message_at(data, at)->0.ids_valid(),
        occurs(data, at, message_wire(message_at(data, at)->0)),
        at + message_wire(message_at(data, at)->0).len() == data.len(),
{
    let message = message_at(data, at)->0;
    let tag = data[at];
    let body = at + 1;
    assert(data.subrange(at, at + 1) =~= seq![tag]);
    match message {
        MessageView::Request(RequestView::Ping) => {},
        MessageView::Request(RequestView::Store(key, value)) => {
            lemma_id_written(data, body);
            lemma_blob_written(data, body + 40);
            lemma_occurs_join(data, at, seq![0x02u8], id_wire(key));
            lemma_occurs_join(data, at, seq![0x02u8] + id_wire(key), blob_wire(value));
        },
        MessageView::Request(RequestView::FindNode(target)) => {
            lemma_id_written(data, body);
            lemma_occurs_join(data, at, seq![0x03u8], id_wire(target));
        },
        MessageView::Request(RequestView::FindValue(key)) => {
            lemma_id_written(data, body);
            lemma_occurs_join(data, at, seq![0x04u8], id_wire(key));
        },
        MessageView::Response(ResponseView::Pong) => {},
        MessageView::Response(ResponseView::Store) => {},
        MessageView::Response(ResponseView::FindNode(nodes)) => {
            lemma_counted_nodes_written(data, body);
            lemma_occurs_join(data, at, seq![0x83u8], counted_nodes_wire(nodes));
        },
        MessageView::Response(ResponseView::FindValue(FoundValueView::Value(value))) => {
            lemma_blob_written(data, body);
            lemma_occurs_join(data, at, seq![0x84u8], blob_wire(value));
        },
        MessageView::Response(ResponseView::FindValue(FoundValueView::Nodes(nodes))) => {
            lemma_counted_nodes_written(data, body);
            lemma_occurs_join(data, at, seq![0x85u8], counted_nodes_wire(nodes));
        },
    }
}

/// Only what a packet is written as reads as a packet: bytes that read as
/// a packet are the bytes that this packet is written as.
pub proof fn lemma_read_is_written(data: Seq<u8>)
    requires
        parse_packet(data) is Some,
    ensures
        encodable(parse_packet(data)->0),
        packet_wire(parse_packet(data)->0) == data,
{
    let packet = parse_packet(data)->0;
    lemma_id_written(data, 0);
    lemma_id_written(data, 40);
    lemma_message_written(data, 80);
    lemma_occurs_join(data, 0, id_wire(packet.node_id), id_wire(packet.transaction_id));
    lemma_occurs_join(
        data,
        0,
        id_wire(packet.node_id) + id_wire(packet.transaction_id),
        message_wire(packet.message),
    );
    assert(data.subrange(0, data.len() as int) =~= data);
}

} // verus!
