use kademlia::errors::Error;
use kademlia::hash::{random_sha1_to_string, sha1_to_string};
use kademlia::utilities::{
    bucket_index, bytes_to_sha1, calculate_xor_distance, distance_to_node, id_below, is_closer,
    sha1_to_bytes,
};

fn id_of(first: &str) -> String {
    let mut id = String::from(first);
    while id.len() < 40 {
        id.push('0');
    }
    id
}

#[test]
fn identifiers_are_forty_lowercase_hex_characters() {
    assert!(sha1_to_bytes(&"a".repeat(40)).is_ok());
    assert_eq!(sha1_to_bytes(&"a".repeat(39)), Err(Error::InvalidId));
    assert_eq!(sha1_to_bytes(&"a".repeat(41)), Err(Error::InvalidId));
    assert_eq!(sha1_to_bytes(&"A".repeat(40)), Err(Error::InvalidId));
    assert_eq!(sha1_to_bytes(&"g".repeat(40)), Err(Error::InvalidId));
    assert_eq!(sha1_to_bytes(""), Err(Error::InvalidId));
    assert_eq!(sha1_to_bytes(&"é".repeat(20)), Err(Error::InvalidId));
    assert_eq!(sha1_to_bytes(&format!("+{}", "a".repeat(39))), Err(Error::InvalidId));
}

#[test]
fn identifier_bytes_are_read_most_significant_first() {
    let bytes = sha1_to_bytes("0123456789abcdef0123456789abcdef01234567").unwrap();

    assert_eq!(
        bytes,
        [
            0x01, 0x23, 0x45, 0x67, 0x89, 0xab, 0xcd, 0xef, 0x01, 0x23, 0x45, 0x67, 0x89, 0xab,
            0xcd, 0xef, 0x01, 0x23, 0x45, 0x67
        ]
    );
    assert_eq!(bytes_to_sha1(&bytes), "0123456789abcdef0123456789abcdef01234567");
}

#[test]
fn distance_is_the_xor_of_the_identifiers() {
    let a = sha1_to_bytes(&id_of("ff00")).unwrap();
    let b = sha1_to_bytes(&id_of("0ff0")).unwrap();
    let mut expected = [0u8; 20];
    expected[0] = 0xf0;
    expected[1] = 0xf0;

    assert_eq!(distance_to_node(&a, &b), expected);
    assert_eq!(
        calculate_xor_distance(&id_of("ff00"), &id_of("0ff0")),
        Ok(expected)
    );
}

#[test]
fn distance_is_symmetric_and_zero_to_itself() {
    let a = id_of("3c5a");
    let b = id_of("c3a5ffff");

    assert_eq!(calculate_xor_distance(&a, &b), calculate_xor_distance(&b, &a));
    assert_eq!(calculate_xor_distance(&a, &a), Ok([0u8; 20]));
}

#[test]
fn distance_of_an_invalid_identifier_fails() {
    assert_eq!(calculate_xor_distance("xyz", &id_of("1")), Err(Error::InvalidId));
    assert_eq!(calculate_xor_distance(&id_of("1"), "xyz"), Err(Error::InvalidId));
}

#[test]
fn bucket_assignment() {
    let local = [0u8; 20];

    assert_eq!(bucket_index(&local, &sha1_to_bytes(&id_of("8")).unwrap()), Ok(0));
    assert_eq!(bucket_index(&local, &sha1_to_bytes(&id_of("4")).unwrap()), Ok(1));
    let mut last = "0".repeat(39);
    last.push('1');
    assert_eq!(bucket_index(&local, &sha1_to_bytes(&last).unwrap()), Ok(159));
    assert_eq!(bucket_index(&local, &sha1_to_bytes(&id_of("002")).unwrap()), Ok(10));
    assert_eq!(bucket_index(&local, &sha1_to_bytes(&id_of("001")).unwrap()), Ok(11));
}

#[test]
fn bucket_of_the_own_identifier_is_refused() {
    let id = sha1_to_bytes(&id_of("abc")).unwrap();

    assert_eq!(bucket_index(&id, &id), Err(Error::SameId));
}

#[test]
fn bucket_index_is_the_first_differing_bit() {
    let a = sha1_to_bytes(&id_of("ffff")).unwrap();
    let b = sha1_to_bytes(&id_of("fff7")).unwrap();

    assert_eq!(bucket_index(&a, &b), Ok(12));
    assert_eq!(bucket_index(&b, &a), Ok(12));
}

#[test]
fn closer_means_smaller_xor_distance() {
    let target = sha1_to_bytes(&id_of("10")).unwrap();
    let near = sha1_to_bytes(&id_of("11")).unwrap();
    let far = sha1_to_bytes(&id_of("20")).unwrap();

    assert!(is_closer(&target, &near, &far));
    assert!(!is_closer(&target, &far, &near));
    assert!(!is_closer(&target, &near, &near));
    assert!(id_below(&target, &far));
    assert!(!id_below(&far, &target));
}

#[test]
fn digest_of_known_data_is_its_sha1_in_hex() {
    assert_eq!(sha1_to_string(b"abc"), "a9993e364706816aba3e25717850c26c9cd0d89d");
    assert_eq!(sha1_to_string(b""), "da39a3ee5e6b4b0d3255bfef95601890afd80709");
}

#[test]
fn fresh_identifiers_are_identifiers_and_differ() {
    let a = random_sha1_to_string();
    let b = random_sha1_to_string();

    assert!(sha1_to_bytes(&a).is_ok());
    assert!(sha1_to_bytes(&b).is_ok());
    assert_ne!(a, b);
}

#[test]
fn errors_have_messages() {
    assert_eq!(Error::InvalidId.message(), "Invalid node ID");
    assert_eq!(Error::SameId.message(), "The node ID is the local one");
    assert_eq!(Error::BucketFull.message(), "Bucket is full");
    assert_eq!(Error::DecodeError.message(), "Failed to deserialize packet");
    assert_eq!(Error::DatagramTooLarge.message(), "Packet is larger than a datagram");
    assert_eq!(Error::UnknownTransaction.message(), "Unknown transaction ID");
    assert_eq!(Error::UnexpectedSource.message(), "Unexpected address");
    assert_eq!(
        Error::InvalidState.message(),
        "The persisted peers do not form a routing table"
    );
}
