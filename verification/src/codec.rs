//! Writing packets as bytes and reading bytes as packets.

use crate::errors::Error;
use crate::structures::{
    found_node_views, found_nodes_valid, Endpoint, FoundNode, FoundNodeView, FoundValue,
    FoundValueView, IpAddress, Message, MessageView, Packet, Request, RequestView, Response,
    ResponseView,
};
use crate::text::push_char;
use crate::utilities::{distance_value, is_hex_digit, is_node_id, sha1_to_bytes};
use crate::wire::{
    be_bytes, blob_at, blob_wire, counted_nodes_at, counted_nodes_wire, encodable, endpoint_at,
    endpoint_wire, found_node_at, found_node_wire, found_nodes_at, found_nodes_wire, id_at,
    id_wire, ip_wire, is_hex_byte, is_id_wire, last_id_at, lemma_be_bytes_len,
    lemma_endpoint_wire_len, lemma_found_node_wire_len, lemma_found_nodes_wire_len, lemma_pow256,
    lemma_read_is_written, lemma_value_bound, message_at, message_wire, packet_wire, parse_packet, pow256, text_of,
    u16_at, u16_wire, u32_at, u32_wire, MAX_PACKET_SIZE,
};
use vstd::prelude::*;
use vstd::string::*;

verus! {

/// Whether `id` is an identifier: 40 lowercase hex characters.
pub fn is_valid_id(id: &str) -> (r: bool)
    ensures
        r == is_node_id(id@),
{
    match sha1_to_bytes(id) {
        Ok(_) => true,
        Err(_) => false,
    }
}

/// Whether every identifier that the found nodes name is one.
fn nodes_valid(nodes: &Vec<FoundNode>) -> (r: bool)
    ensures
        r == found_nodes_valid(found_node_views(nodes@)),
{
    let ghost views = found_node_views(nodes@);
    let mut k: usize = 0;
    while k < nodes.len()
        invariant
            k <= nodes@.len(),
            views == found_node_views(nodes@),
            forall|i: int| 0 <= i < k ==> is_node_id((#[trigger] views[i]).node_id),
        decreases nodes@.len() - k,
    {
        if !is_valid_id(nodes[k].node_id.as_str()) {
            assert(!is_node_id(views[k as int].node_id));
            return false;
        }
        k = k + 1;
    }
    true
}

/// Whether every identifier that the packet names is one.
pub fn ids_valid(packet: &Packet) -> (r: bool)
    ensures
        r == packet@.ids_valid(),
{
    if !is_valid_id(packet.node_id.as_str()) || !is_valid_id(packet.transaction_id.as_str()) {
        return false;
    }
    match &packet.message {
        Message::Request(Request::Ping) => true,
        Message::Request(Request::Store(key, _)) => is_valid_id(key.as_str()),
        Message::Request(Request::FindNode(target)) => is_valid_id(target.as_str()),
        Message::Request(Request::FindValue(key)) => is_valid_id(key.as_str()),
        Message::Response(Response::Pong) => true,
        Message::Response(Response::Store) => true,
        Message::Response(Response::FindNode(nodes)) => nodes_valid(nodes),
        Message::Response(Response::FindValue(FoundValue::Value(_))) => true,
        Message::Response(Response::FindValue(FoundValue::Nodes(nodes))) => nodes_valid(nodes),
    }
}

/// Whether the variable parts of a message are small enough for it to have
/// a chance to fit a packet.
spec fn payload_small(message: MessageView) -> bool {
    match message {
        MessageView::Request(RequestView::Store(_, value)) => value.len() <= 1024,
        MessageView::Response(ResponseView::FindNode(nodes)) => nodes.len() <= 21,
        MessageView::Response(ResponseView::FindValue(FoundValueView::Value(value))) => value.len()
            <= 1024,
        MessageView::Response(ResponseView::FindValue(FoundValueView::Nodes(nodes))) => nodes.len()
            <= 21,
        _ => true,
    }
}

/// Whether the variable parts of a message are small; a message of which
/// they are not does not fit a packet.
fn is_payload_small(message: &Message) -> (r: bool)
    ensures
        r == payload_small(message@),
        !r ==> message_wire(message@).len() > 1024,
{
    match message {
        Message::Request(Request::Store(_, value)) => value.len() <= 1024,
        Message::Response(Response::FindNode(nodes)) => {
            proof {
                lemma_found_nodes_wire_len(found_node_views(nodes@), 0);
            }
            nodes.len() <= 21
        },
        Message::Response(Response::FindValue(FoundValue::Value(value))) => value.len() <= 1024,
        Message::Response(Response::FindValue(FoundValue::Nodes(nodes))) => {
            proof {
                lemma_found_nodes_wire_len(found_node_views(nodes@), 0);
            }
            nodes.len() <= 21
        },
        _ => true,
    }
}

fn append(out: &mut Vec<u8>, bytes: &[u8])
    ensures
        final(out)@ == old(out)@ + bytes@,
{
    let ghost start = out@;
    let mut i: usize = 0;
    assert(start + bytes@.subrange(0, 0) =~= start);
    while i < bytes.len()
        invariant
            i <= bytes@.len(),
            out@ == start + bytes@.subrange(0, i as int),
        decreases bytes@.len() - i,
    {
        out.push(bytes[i]);
        assert(out@ =~= start + bytes@.subrange(0, i + 1));
        i = i + 1;
    }
    assert(bytes@.subrange(0, bytes@.len() as int) =~= bytes@);
}

fn write_id(out: &mut Vec<u8>, id: &str)
    requires
        is_node_id(id@),
    ensures
        final(out)@ == old(out)@ + id_wire(id@),
{
    proof {
        assert forall|i: int| 0 <= i < id@.len() implies '\0' <= #[trigger] id@[i] <= '\u{7f}' by {
            assert(is_hex_digit(id@[i]));
        }
        is_ascii_spec_bytes(id);
    }
    let bytes = id.as_bytes();
    assert(bytes@ =~= id_wire(id@));
    append(out, bytes);
}

fn write_u16(out: &mut Vec<u8>, x: u16)
    ensures
        final(out)@ == old(out)@ + u16_wire(x),
{
    let ghost start = out@;
    out.push((x % 256) as u8);
    out.push((x / 256) as u8);
    assert(out@ =~= start + u16_wire(x));
}

fn write_u32(out: &mut Vec<u8>, x: u32)
    ensures
        final(out)@ == old(out)@ + u32_wire(x),
{
    let ghost start = out@;
    out.push((x % 256) as u8);
    out.push((x / 256 % 256) as u8);
    out.push((x / 65536 % 256) as u8);
    out.push((x / 16777216) as u8);
    assert(out@ =~= start + u32_wire(x));
}

fn write_be(out: &mut Vec<u8>, x: u128, n: usize)
    ensures
        final(out)@ == old(out)@ + be_bytes(x as nat, n as nat),
    decreases n,
{
    let ghost start = out@;
    if n > 0 {
        write_be(out, x / 256, n - 1);
        out.push((x % 256) as u8);
        assert(out@ =~= start + be_bytes(x as nat, n as nat));
    } else {
        assert(out@ =~= start + be_bytes(x as nat, n as nat));
    }
}

fn write_endpoint(out: &mut Vec<u8>, endpoint: &Endpoint)
    ensures
        final(out)@ == old(out)@ + endpoint_wire(*endpoint),
{
    let ghost start = out@;
    match endpoint.ip {
        IpAddress::V4(x) => {
            out.push(4);
            write_be(out, x as u128, 4);
        },
        IpAddress::V6(x) => {
            out.push(6);
            write_be(out, x, 16);
        },
    }
    assert(out@ =~= start + ip_wire(endpoint.ip));
    write_u16(out, endpoint.port);
    assert(out@ =~= start + endpoint_wire(*endpoint));
}

fn write_counted_nodes(out: &mut Vec<u8>, nodes: &Vec<FoundNode>)
    requires
        found_nodes_valid(found_node_views(nodes@)),
        nodes@.len() <= 0xffff,
    ensures
        final(out)@ == old(out)@ + counted_nodes_wire(found_node_views(nodes@)),
{
    let ghost start = out@;
    let ghost views = found_node_views(nodes@);
    write_u16(out, nodes.len() as u16);
    let ghost counted = out@;
    let mut k: usize = 0;
    assert(views.subrange(0, 0) =~= Seq::empty());
    assert(counted + found_nodes_wire(views.subrange(0, 0)) =~= counted);
    while k < nodes.len()
        invariant
            k <= nodes@.len(),
            views == found_node_views(nodes@),
            found_nodes_valid(views),
            out@ == counted + found_nodes_wire(views.subrange(0, k as int)),
        decreases nodes@.len() - k,
    {
        let node = &nodes[k];
        let ghost before = out@;
        assert(views[k as int] == node@);
        assert(is_node_id(views[k as int].node_id));
        write_id(out, node.node_id.as_str());
        write_endpoint(out, &node.address);
        proof {
            let next = views.subrange(0, k + 1);
            assert(next.drop_last() =~= views.subrange(0, k as int));
            assert(next.last() == node@);
            assert(out@ =~= before + found_node_wire(node@));
            assert(out@ =~= counted + found_nodes_wire(next));
        }
        k = k + 1;
    }
    assert(views.subrange(0, nodes@.len() as int) =~= views);
    assert(out@ =~= start + counted_nodes_wire(views));
}

fn write_blob(out: &mut Vec<u8>, bytes: &Vec<u8>)
    requires
        bytes@.len() <= 0xffff_ffff,
    ensures
        final(out)@ == old(out)@ + blob_wire(bytes@),
{
    let ghost start = out@;
    write_u32(out, bytes.len() as u32);
    append(out, bytes.as_slice());
    assert(out@ =~= start + blob_wire(bytes@));
}

fn write_message(out: &mut Vec<u8>, message: &Message)
    requires
        message@.ids_valid(),
        payload_small(message@),
    ensures
        final(out)@ == old(out)@ + message_wire(message@),
{
    let ghost start = out@;
    match message {
        Message::Request(Request::Ping) => {
            out.push(0x01);
        },
        Message::Request(Request::Store(key, value)) => {
            out.push(0x02);
            write_id(out, key.as_str());
            write_blob(out, value);
        },
        Message::Request(Request::FindNode(target)) => {
            out.push(0x03);
            write_id(out, target.as_str());
        },
        Message::Request(Request::FindValue(key)) => {
            out.push(0x04);
            write_id(out, key.as_str());
        },
        Message::Response(Response::Pong) => {
            out.push(0x81);
        },
        Message::Response(Response::Store) => {
            out.push(0x82);
        },
        Message::Response(Response::FindNode(nodes)) => {
            out.push(0x83);
            write_counted_nodes(out, nodes);
        },
        Message::Response(Response::FindValue(FoundValue::Value(value))) => {
            out.push(0x84);
            write_blob(out, value);
        },
        Message::Response(Response::FindValue(FoundValue::Nodes(nodes))) => {
            out.push(0x85);
            write_counted_nodes(out, nodes);
        },
    }
    assert(out@ =~= start + message_wire(message@));
}

/// Writes a packet as bytes.
///
/// Fails with `InvalidId` where an identifier that the packet names is not
/// one, and with `DatagramTooLarge` where the packet takes more than 1024
/// bytes.
pub fn encode(packet: &Packet) -> (r: Result<Vec<u8>, Error>)
    ensures
        match r {
            Ok(data) => encodable(packet@) && data@ == packet_wire(packet@),
            Err(e) => if !packet@.ids_valid() {
                e == Error::InvalidId
            } else {
                e == Error::DatagramTooLarge && packet_wire(packet@).len() > 1024
            },
        },
{
    if !ids_valid(packet) {
        return Err(Error::InvalidId);
    }
    if !is_payload_small(&packet.message) {
        return Err(Error::DatagramTooLarge);
    }
    let mut out: Vec<u8> = Vec::new();
    write_id(&mut out, packet.node_id.as_str());
    write_id(&mut out, packet.transaction_id.as_str());
    write_message(&mut out, &packet.message);
    assert(out@ =~= packet_wire(packet@));
    if out.len() > MAX_PACKET_SIZE {
        return Err(Error::DatagramTooLarge);
    }
    Ok(out)
}

fn read_id(data: &[u8], at: usize) -> (r: Option<String>)
    requires
        data@.len() <= 1024,
        at <= 2048,
    ensures
        match r {
            Some(id) => id_at(data@, at as int) == Some(id@) && is_node_id(id@),
            None => id_at(data@, at as int) is None,
        },
{
    if at + 40 > data.len() {
        return None;
    }
    let ghost s = data@.subrange(at as int, at + 40);
    let mut id = String::new();
    let mut i: usize = 0;
    while i < 40
        invariant
            i <= 40,
            at + 40 <= data@.len() <= 1024,
            s == data@.subrange(at as int, at + 40),
            id@.len() == i,
            forall|j: int| 0 <= j < i ==> is_hex_byte(#[trigger] s[j]) && id@[j] == s[j] as char,
        decreases 40 - i,
    {
        let b = data[at + i];
        assert(b == s[i as int]);
        if !((b >= 48 && b <= 57) || (b >= 97 && b <= 102)) {
            return None;
        }
        push_char(&mut id, b as char);
        i = i + 1;
    }
    proof {
        assert(id@ =~= text_of(s));
        assert forall|j: int| 0 <= j < 40 implies is_hex_digit(#[trigger] id@[j]) by {
            assert(is_hex_byte(s[j]));
        }
    }
    Some(id)
}

fn read_u16(data: &[u8], at: usize) -> (r: Option<u16>)
    requires
        data@.len() <= 1024,
        at <= 2048,
    ensures
        r == u16_at(data@, at as int),
{
    if at + 2 > data.len() {
        return None;
    }
    Some(data[at] as u16 + 256 * (data[at + 1] as u16))
}

fn read_u32(data: &[u8], at: usize) -> (r: Option<u32>)
    requires
        data@.len() <= 1024,
        at <= 2048,
    ensures
        r == u32_at(data@, at as int),
{
    if at + 4 > data.len() {
        return None;
    }
    Some(
        data[at] as u32 + 256 * (data[at + 1] as u32) + 65536 * (data[at + 2] as u32) + 16777216
            * (data[at + 3] as u32),
    )
}

proof fn lemma_pow256_grows(a: nat, b: nat)
    requires
        a <= b,
    ensures
        pow256(a) <= pow256(b),
        pow256(a) >= 1,
    decreases b,
{
    if a < b {
        lemma_pow256_grows(a, (b - 1) as nat);
    } else if a > 0 {
        lemma_pow256_grows((a - 1) as nat, (a - 1) as nat);
    }
}

fn read_be(data: &[u8], at: usize, n: usize) -> (r: u128)
    requires
        n <= 16,
        at + n <= data@.len() <= 1024,
    ensures
        r == distance_value(data@.subrange(at as int, at + n)),
{
    let mut value: u128 = 0;
    let mut i: usize = 0;
    assert(data@.subrange(at as int, at + 0) =~= Seq::empty());
    while i < n
        invariant
            i <= n <= 16,
            at + n <= data@.len() <= 1024,
            value == distance_value(data@.subrange(at as int, at + i)),
        decreases n - i,
    {
        proof {
            let front = data@.subrange(at as int, at + i);
            let next = data@.subrange(at as int, at + i + 1);
            assert(next.drop_last() =~= front);
            assert(next.last() == data@[at + i]);
            lemma_value_bound(front);
            lemma_pow256_grows((i + 1) as nat, 16);
            lemma_pow256();
        }
        value = value * 256 + data[at + i] as u128;
        i = i + 1;
    }
    value
}

fn read_endpoint(data: &[u8], at: usize) -> (r: Option<(Endpoint, usize)>)
    requires
        data@.len() <= 1024,
        at <= 2048,
    ensures
        match r {
            Some((endpoint, next)) => endpoint_at(data@, at as int) == Some((endpoint, next as int))
                && next <= data@.len(),
            None => endpoint_at(data@, at as int) is None,
        },
{
    if at >= data.len() {
        return None;
    }
    let family = data[at];
    if family == 4 && at + 7 <= data.len() {
        proof {
            lemma_value_bound(data@.subrange(at + 1, at + 5));
            lemma_pow256();
        }
        let ip = read_be(data, at + 1, 4);
        let port = read_u16(data, at + 5);
        match port {
            Some(port) => Some((Endpoint { ip: IpAddress::V4(ip as u32), port }, at + 7)),
            None => None,
        }
    } else if family == 6 && at + 19 <= data.len() {
        let ip = read_be(data, at + 1, 16);
        let port = read_u16(data, at + 17);
        match port {
            Some(port) => Some((Endpoint { ip: IpAddress::V6(ip), port }, at + 19)),
            None => None,
        }
    } else {
        None
    }
}

fn read_found_node(data: &[u8], at: usize) -> (r: Option<(FoundNode, usize)>)
    requires
        data@.len() <= 1024,
        at <= 2048,
    ensures
        match r {
            Some((node, next)) => found_node_at(data@, at as int) == Some((node@, next as int))
                && next <= data@.len() && is_node_id(node@.node_id) && next > at,
            None => found_node_at(data@, at as int) is None,
        },
{
    let node_id = match read_id(data, at) {
        Some(id) => id,
        None => {
            return None;
        },
    };
    match read_endpoint(data, at + 40) {
        Some((address, next)) => Some((FoundNode { address, node_id }, next)),
        None => None,
    }
}

proof fn lemma_found_nodes_stop(data: Seq<u8>, at: int, k: nat, n: nat)
    requires
        found_nodes_at(data, at, k) is None,
        k <= n,
    ensures
        found_nodes_at(data, at, n) is None,
    decreases n,
{
    if k < n {
        lemma_found_nodes_stop(data, at, k, (n - 1) as nat);
    }
}

fn read_counted_nodes(data: &[u8], at: usize) -> (r: Option<Vec<FoundNode>>)
    requires
        data@.len() <= 1024,
        at <= 2048,
    ensures
        match r {
            Some(nodes) => counted_nodes_at(data@, at as int) == Some(found_node_views(nodes@))
                && found_nodes_valid(found_node_views(nodes@)),
            None => counted_nodes_at(data@, at as int) is None,
        },
{
    let count = match read_u16(data, at) {
        Some(count) => count,
        None => {
            return None;
        },
    };
    let mut nodes: Vec<FoundNode> = Vec::new();
    let mut position: usize = at + 2;
    let mut k: u16 = 0;
    assert(found_node_views(nodes@) =~= Seq::empty());
    while k < count
        invariant
            k <= count,
            data@.len() <= 1024,
            position <= data@.len(),
            u16_at(data@, at as int) == Some(count),
            found_nodes_at(data@, at + 2, k as nat) == Some(
                (found_node_views(nodes@), position as int),
            ),
            found_nodes_valid(found_node_views(nodes@)),
        decreases count - k,
    {
        let ghost before = found_node_views(nodes@);
        match read_found_node(data, position) {
            Some((node, next)) => {
                nodes.push(node);
                position = next;
                proof {
                    let after = found_node_views(nodes@);
                    assert(after =~= before.push(nodes@.last()@));
                    assert forall|i: int| 0 <= i < after.len() implies is_node_id(
                        (#[trigger] after[i]).node_id,
                    ) by {
                        if i < before.len() {
                            assert(after[i] == before[i]);
                        }
                    }
                }
            },
            None => {
                proof {
                    assert(found_nodes_at(data@, at + 2, (k + 1) as nat) is None);
                    lemma_found_nodes_stop(data@, at + 2, (k + 1) as nat, count as nat);
                }
                return None;
            },
        }
        k = k + 1;
    }
    if position != data.len() {
        return None;
    }
    Some(nodes)
}

fn read_blob(data: &[u8], at: usize) -> (r: Option<Vec<u8>>)
    requires
        data@.len() <= 1024,
        at <= 2048,
    ensures
        match r {
            Some(bytes) => blob_at(data@, at as int) == Some(bytes@),
            None => blob_at(data@, at as int) is None,
        },
{
    let length = match read_u32(data, at) {
        Some(length) => length,
        None => {
            return None;
        },
    };
    if length > 1024 || at + 4 + length as usize != data.len() {
        return None;
    }
    let mut bytes: Vec<u8> = Vec::new();
    let mut i: usize = at + 4;
    assert(data@.subrange(at + 4, at + 4) =~= Seq::empty());
    while i < data.len()
        invariant
            at + 4 <= i <= data@.len(),
            bytes@ == data@.subrange(at + 4, i as int),
        decreases data@.len() - i,
    {
        bytes.push(data[i]);
        assert(bytes@ =~= data@.subrange(at + 4, i + 1));
        i = i + 1;
    }
    Some(bytes)
}

fn read_last_id(data: &[u8], at: usize) -> (r: Option<String>)
    requires
        data@.len() <= 1024,
        at <= 2048,
    ensures
        match r {
            Some(id) => last_id_at(data@, at as int) == Some(id@) && is_node_id(id@),
            None => last_id_at(data@, at as int) is None,
        },
{
    if at + 40 != data.len() {
        return None;
    }
    read_id(data, at)
}

fn read_message(data: &[u8], at: usize) -> (r: Option<Message>)
    requires
        data@.len() <= 1024,
        at <= 2048,
    ensures
        match r {
            Some(message) => message_at(data@, at as int) == Some(message@)
                && message@.ids_valid(),
            None => message_at(data@, at as int) is None,
        },
{
    if at >= data.len() {
        return None;
    }
    let tag = data[at];
    let body = at + 1;
    if tag == 0x01 {
        if body == data.len() {
            Some(Message::Request(Request::Ping))
        } else {
            None
        }
    } else if tag == 0x02 {
        let key = read_id(data, body);
        let value = read_blob(data, body + 40);
        match (key, value) {
            (Some(key), Some(value)) => Some(Message::Request(Request::Store(key, value))),
            _ => None,
        }
    } else if tag == 0x03 {
        match read_last_id(data, body) {
            Some(target) => Some(Message::Request(Request::FindNode(target))),
            None => None,
        }
    } else if tag == 0x04 {
        match read_last_id(data, body) {
            Some(key) => Some(Message::Request(Request::FindValue(key))),
            None => None,
        }
    } else if tag == 0x81 {
        if body == data.len() {
            Some(Message::Response(Response::Pong))
        } else {
            None
        }
    } else if tag == 0x82 {
        if body == data.len() {
            Some(Message::Response(Response::Store))
        } else {
            None
        }
    } else if tag == 0x83 {
        match read_counted_nodes(data, body) {
            Some(nodes) => Some(Message::Response(Response::FindNode(nodes))),
            None => None,
        }
    } else if tag == 0x84 {
        match read_blob(data, body) {
            Some(value) => Some(Message::Response(Response::FindValue(FoundValue::Value(value)))),
            None => None,
        }
    } else if tag == 0x85 {
        match read_counted_nodes(data, body) {
            Some(nodes) => Some(Message::Response(Response::FindValue(FoundValue::Nodes(nodes)))),
            None => None,
        }
    } else {
        None
    }
}

/// Reads bytes as a packet.
///
/// Fails with `DecodeError` where the bytes are not what a packet is
/// written as: the packet that is read is the one that is written as
/// these bytes.
pub fn decode(data: &[u8]) -> (r: Result<Packet, Error>)
    ensures
        match r {
            Ok(packet) => parse_packet(data@) == Some(packet@) && encodable(packet@)
                && packet_wire(packet@) == data@,
            Err(e) => e == Error::DecodeError && parse_packet(data@) is None,
        },
{
    if data.len() > MAX_PACKET_SIZE {
        return Err(Error::DecodeError);
    }
    let node_id = read_id(data, 0);
    let transaction_id = read_id(data, 40);
    let message = read_message(data, 80);
    proof {
        if parse_packet(data@) is Some {
            lemma_read_is_written(data@);
        }
    }
    match (node_id, transaction_id, message) {
        (Some(node_id), Some(transaction_id), Some(message)) => Ok(
            Packet { message, node_id, transaction_id },
        ),
        _ => Err(Error::DecodeError),
    }
}

} // verus!
