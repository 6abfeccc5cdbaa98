use kademlia::errors::Error;
use kademlia::peers::PeerManager;
use kademlia::structures::{Endpoint, IpAddress, Peer};
use kademlia::utilities::{calculate_xor_distance, sha1_to_bytes};

fn id_of(first: &str) -> String {
    let mut id = String::from(first);
    while id.len() < 40 {
        id.push('0');
    }
    id
}

fn endpoint(n: u32) -> Endpoint {
    Endpoint { ip: IpAddress::V4(0x0a00_0000 + n), port: 16600 }
}

fn table() -> PeerManager {
    PeerManager::new(Vec::new(), &"0".repeat(40)).unwrap()
}

fn ids(peers: &[Peer]) -> Vec<String> {
    peers.iter().map(|peer| peer.node_id.clone()).collect()
}

#[test]
fn a_new_table_has_160_empty_buckets() {
    let table = table();

    assert_eq!(table.len(), 0);
    assert_eq!(table.to_vec(), Vec::new());
    assert_eq!(table.buckets().len(), 160);
    assert_eq!(table.local_node_id(), &"0".repeat(40));
}

#[test]
fn a_table_needs_a_valid_local_identifier() {
    assert!(matches!(PeerManager::new(Vec::new(), "nope"), Err(Error::InvalidId)));
}

#[test]
fn peers_go_to_the_bucket_of_their_first_differing_bit() {
    let mut table = table();
    let mut last = "0".repeat(39);
    last.push('1');

    table.add_peer_at(endpoint(1), &id_of("8"), true, 100).unwrap();
    table.add_peer_at(endpoint(2), &id_of("4"), true, 100).unwrap();
    table.add_peer_at(endpoint(3), &last, true, 100).unwrap();

    let buckets = table.buckets();
    assert_eq!(ids(&buckets[0]), vec![id_of("8")]);
    assert_eq!(ids(&buckets[1]), vec![id_of("4")]);
    assert_eq!(ids(&buckets[159]), vec![last]);
    assert_eq!(table.len(), 3);
}

#[test]
fn a_first_contact_is_recorded() {
    let mut table = table();

    let seen = table.add_peer_at(endpoint(1), &id_of("8"), true, 100).unwrap();
    let unseen = table.add_peer_at(endpoint(2), &id_of("9"), false, 200).unwrap();

    assert_eq!(
        seen,
        Peer {
            active: true,
            address: endpoint(1),
            first_seen: 100,
            last_seen: Some(100),
            node_id: id_of("8")
        }
    );
    assert_eq!(
        unseen,
        Peer {
            active: false,
            address: endpoint(2),
            first_seen: 200,
            last_seen: None,
            node_id: id_of("9")
        }
    );
    assert_eq!(table.get_peer(&id_of("8")), Some(seen));
    assert_eq!(table.get_peer(&id_of("9")), Some(unseen));
    assert_eq!(table.get_peer(&id_of("a")), None);
    assert_eq!(table.get_peer("nope"), None);
    assert_eq!(table.get_peer(&"0".repeat(40)), None);
}

#[test]
fn a_known_peer_is_refreshed_and_moved_to_the_tail() {
    let mut table = table();
    table.add_peer_at(endpoint(1), &id_of("8"), false, 100).unwrap();
    table.add_peer_at(endpoint(2), &id_of("9"), true, 100).unwrap();

    let same_ip_other_port = Endpoint { ip: endpoint(1).ip, port: 1 };
    let refreshed = table.add_peer_at(same_ip_other_port, &id_of("8"), true, 150).unwrap();

    assert_eq!(
        refreshed,
        Peer {
            active: true,
            address: endpoint(1),
            first_seen: 100,
            last_seen: Some(150),
            node_id: id_of("8")
        }
    );
    assert_eq!(ids(&table.buckets()[0]), vec![id_of("9"), id_of("8")]);

    let moved = table.add_peer_at(endpoint(7), &id_of("9"), false, 300).unwrap();

    assert_eq!(
        moved,
        Peer {
            active: true,
            address: endpoint(7),
            first_seen: 100,
            last_seen: Some(100),
            node_id: id_of("9")
        }
    );
    assert_eq!(ids(&table.buckets()[0]), vec![id_of("8"), id_of("9")]);
    assert_eq!(table.len(), 2);
}

#[test]
fn a_contact_before_the_first_one_does_not_go_back_in_time() {
    let mut table = table();
    table.add_peer_at(endpoint(1), &id_of("8"), false, 100).unwrap();

    let refreshed = table.add_peer_at(endpoint(1), &id_of("8"), true, 50).unwrap();

    assert_eq!(refreshed.first_seen, 100);
    assert_eq!(refreshed.last_seen, Some(100));
}

#[test]
fn the_own_identifier_and_invalid_identifiers_are_refused() {
    let mut table = table();

    assert_eq!(
        table.add_peer_at(endpoint(1), &"0".repeat(40), true, 1),
        Err(Error::SameId)
    );
    assert_eq!(table.add_peer_at(endpoint(1), "zz", true, 1), Err(Error::InvalidId));
    assert_eq!(table.len(), 0);
}

#[test]
fn a_bucket_takes_twenty_peers_and_no_more() {
    let mut table = table();
    for n in 0..20 {
        table.add_peer_at(endpoint(n), &id_of(&format!("8{:02x}", n)), true, 1).unwrap();
    }

    assert_eq!(
        table.add_peer_at(endpoint(99), &id_of("8ff"), true, 1),
        Err(Error::BucketFull)
    );
    assert_eq!(table.buckets()[0].len(), 20);
    assert_eq!(table.len(), 20);

    let refreshed = table.add_peer_at(endpoint(0), &id_of("800"), true, 9).unwrap();
    assert_eq!(refreshed.last_seen, Some(9));
    assert_eq!(table.buckets()[0].len(), 20);
    assert_eq!(table.buckets()[0][19].node_id, id_of("800"));

    table.add_peer_at(endpoint(50), &id_of("4"), true, 1).unwrap();
    assert_eq!(table.len(), 21);
}

#[test]
fn add_peer_uses_the_clock() {
    let mut table = table();

    let peer = table.add_peer(endpoint(1), &id_of("8"), true).unwrap();

    assert!(peer.first_seen > 1_600_000_000);
    assert_eq!(peer.last_seen, Some(peer.first_seen));
}

#[test]
fn a_table_is_restored_from_its_buckets() {
    let mut first = table();
    first.add_peer_at(endpoint(1), &id_of("8"), true, 100).unwrap();
    first.add_peer_at(endpoint(2), &id_of("002"), false, 100).unwrap();

    let restored = PeerManager::new(first.buckets(), &"0".repeat(40)).unwrap();

    assert_eq!(restored.to_vec(), first.to_vec());
    assert_eq!(restored.len(), 2);
}

#[test]
fn buckets_that_are_no_routing_table_are_refused() {
    let mut first = table();
    first.add_peer_at(endpoint(1), &id_of("8"), true, 100).unwrap();
    let buckets = first.buckets();

    assert!(matches!(
        PeerManager::new(buckets.clone(), &id_of("f")),
        Err(Error::InvalidState)
    ));
    assert!(matches!(
        PeerManager::new(buckets[..10].to_vec(), &"0".repeat(40)),
        Err(Error::InvalidState)
    ));

    let mut twice = first.buckets();
    let copy = twice[0][0].clone();
    twice[0].push(copy);
    assert!(matches!(PeerManager::new(twice, &"0".repeat(40)), Err(Error::InvalidState)));

    let mut early = first.buckets();
    early[0][0].last_seen = Some(1);
    assert!(matches!(PeerManager::new(early, &"0".repeat(40)), Err(Error::InvalidState)));
}

#[test]
fn two_pass_neighbor_selection() {
    let mut table = table();
    for n in 0..5 {
        table
            .add_peer_at(endpoint(n), &id_of(&format!("002{:x}", n + 1)), true, 100 + n as u64)
            .unwrap();
    }
    for n in 0..20 {
        table.add_peer_at(endpoint(100 + n), &id_of(&format!("001{:02x}", n)), false, 50).unwrap();
    }
    let target = id_of("002f");

    let closest = table.find_closest(&target, 20).unwrap();

    assert_eq!(closest.len(), 20);
    for peer in &closest[..5] {
        assert!(peer.last_seen.is_some());
        assert!(peer.node_id.starts_with("002"));
    }
    for peer in &closest[5..] {
        assert!(peer.last_seen.is_none());
        assert!(peer.node_id.starts_with("001"));
    }
    let expected_unseen: Vec<String> = (0..15).map(|n| id_of(&format!("001{:02x}", n))).collect();
    let mut unseen = ids(&closest[5..]);
    unseen.sort();
    assert_eq!(unseen, expected_unseen);
    assert_eq!(table.nearby_peers(&target).unwrap(), closest);
}

#[test]
fn closest_peers_come_nearest_first_without_the_target_and_without_repeats() {
    let mut table = table();
    let names = ["8", "81", "4", "41", "2", "002", "0021", "001", "0001", "c", "f", "00001"];
    for (n, name) in names.iter().enumerate() {
        table.add_peer_at(endpoint(n as u32), &id_of(name), n % 2 == 0, n as u64).unwrap();
    }
    let target = id_of("002");

    let closest = table.find_closest(&target, 8).unwrap();

    assert_eq!(closest.len(), 8);
    let target_bytes = sha1_to_bytes(&target).unwrap();
    for pair in closest.windows(2) {
        let a = calculate_xor_distance(&target, &pair[0].node_id).unwrap();
        let b = calculate_xor_distance(&target, &pair[1].node_id).unwrap();
        assert!(a < b);
    }
    for peer in &closest {
        assert_ne!(sha1_to_bytes(&peer.node_id).unwrap(), target_bytes);
    }
}

#[test]
fn seen_peers_are_taken_before_unseen_ones() {
    let mut table = table();
    table.add_peer_at(endpoint(1), &id_of("0021"), false, 1).unwrap();
    table.add_peer_at(endpoint(2), &id_of("8"), true, 1).unwrap();
    table.add_peer_at(endpoint(3), &id_of("4"), true, 1).unwrap();

    let closest = table.find_closest(&id_of("002"), 2).unwrap();

    assert_eq!(ids(&closest), vec![id_of("4"), id_of("8")]);

    let closest = table.find_closest(&id_of("002"), 3).unwrap();

    assert_eq!(ids(&closest), vec![id_of("0021"), id_of("4"), id_of("8")]);
}

#[test]
fn buckets_are_visited_below_before_above() {
    let mut table = table();
    table.add_peer_at(endpoint(1), &id_of("004"), true, 1).unwrap();
    table.add_peer_at(endpoint(2), &id_of("001"), true, 1).unwrap();
    table.add_peer_at(endpoint(3), &id_of("002"), true, 1).unwrap();

    assert_eq!(ids(&table.find_closest(&id_of("0021"), 1).unwrap()), vec![id_of("002")]);
    assert_eq!(
        ids(&table.find_closest(&id_of("0021"), 2).unwrap()),
        vec![id_of("002"), id_of("004")]
    );
}

#[test]
fn within_a_bucket_the_most_recently_seen_are_taken() {
    let mut table = table();
    table.add_peer_at(endpoint(1), &id_of("81"), true, 10).unwrap();
    table.add_peer_at(endpoint(2), &id_of("82"), true, 30).unwrap();
    table.add_peer_at(endpoint(3), &id_of("83"), true, 20).unwrap();
    table.add_peer_at(endpoint(4), &id_of("84"), true, 30).unwrap();

    let closest = table.find_closest(&id_of("8"), 2).unwrap();

    assert_eq!(ids(&closest), vec![id_of("82"), id_of("84")]);
}

#[test]
fn a_lookup_of_the_own_identifier_starts_at_the_last_bucket() {
    let mut table = table();
    let mut last = "0".repeat(39);
    last.push('1');
    table.add_peer_at(endpoint(1), &id_of("8"), true, 1).unwrap();
    table.add_peer_at(endpoint(2), &last, true, 1).unwrap();

    let closest = table.find_closest(&"0".repeat(40), 20).unwrap();

    assert_eq!(ids(&closest), vec![last, id_of("8")]);
}

#[test]
fn a_lookup_of_an_invalid_target_fails() {
    let table = table();

    assert_eq!(table.find_closest("nope", 20), Err(Error::InvalidId));
    assert_eq!(table.nearby_peers("nope"), Err(Error::InvalidId));
    assert_eq!(table.find_nearby_peers("nope", true, 20), Err(Error::InvalidId));
}

#[test]
fn a_lookup_for_no_peers_gives_none() {
    let mut table = table();
    table.add_peer_at(endpoint(1), &id_of("8"), true, 1).unwrap();

    assert_eq!(table.find_closest(&id_of("9"), 0).unwrap(), Vec::new());
    assert_eq!(ids(&table.find_nearby_peers(&id_of("9"), true, 5).unwrap()), vec![id_of("8")]);
    assert_eq!(table.find_nearby_peers(&id_of("9"), false, 5).unwrap(), Vec::new());
}
