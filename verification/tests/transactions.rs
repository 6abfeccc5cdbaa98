use kademlia::errors::Error;
use kademlia::structures::{Endpoint, IpAddress, Message, Packet, Request, Response};
use kademlia::transactions::{TransactionTable, WaitStatus, RESPONSE_TIMEOUT};

fn endpoint(n: u32) -> Endpoint {
    Endpoint { ip: IpAddress::V4(0x7f00_0000 + n), port: 16700 }
}

fn pong(transaction: &str) -> Packet {
    Packet {
        message: Message::Response(Response::Pong),
        node_id: "b".repeat(40),
        transaction_id: String::from(transaction),
    }
}

fn is_pending(status: &WaitStatus) -> bool {
    matches!(status, WaitStatus::Pending)
}

#[test]
fn a_response_is_waited_for_five_seconds() {
    assert_eq!(RESPONSE_TIMEOUT, 5000);
}

#[test]
fn timeout() {
    let mut table = TransactionTable::new();
    let id = "1".repeat(40);
    table.register(&id, endpoint(1), 1000);

    assert!(table.contains(&id));
    assert!(is_pending(&table.wait_for_response(&id, true, 1000)));
    assert!(is_pending(&table.wait_for_response(&id, true, 6000)));
    assert!(table.contains(&id));
    assert!(matches!(table.wait_for_response(&id, true, 6001), WaitStatus::Timeout));
    assert!(!table.contains(&id));
    assert_eq!(table.len(), 0);
    assert!(matches!(table.wait_for_response(&id, true, 6002), WaitStatus::Unknown));
}

#[test]
fn a_response_from_the_expected_endpoint_is_handed_over() {
    let mut table = TransactionTable::new();
    let id = "1".repeat(40);
    table.register(&id, endpoint(1), 0);

    assert_eq!(table.deliver(pong(&id), endpoint(1)), Ok(()));

    match table.wait_for_response(&id, true, 10) {
        WaitStatus::Response(packet, source) => {
            assert_eq!(packet, pong(&id));
            assert_eq!(source, endpoint(1));
        }
        _ => panic!("the response was not handed over"),
    }
    assert!(!table.contains(&id));
}

#[test]
fn a_response_that_came_in_time_outlives_the_deadline() {
    let mut table = TransactionTable::new();
    let id = "1".repeat(40);
    table.register(&id, endpoint(1), 0);
    table.deliver(pong(&id), endpoint(1)).unwrap();

    assert!(matches!(table.wait_for_response(&id, true, 99_999), WaitStatus::Response(_, _)));
}

#[test]
fn a_response_from_elsewhere_is_discarded() {
    let mut table = TransactionTable::new();
    let id = "1".repeat(40);
    table.register(&id, endpoint(1), 0);

    assert_eq!(table.deliver(pong(&id), endpoint(2)), Err(Error::UnexpectedSource));
    assert_eq!(
        table.deliver(pong(&id), Endpoint { ip: endpoint(1).ip, port: 1 }),
        Err(Error::UnexpectedSource)
    );
    assert!(is_pending(&table.wait_for_response(&id, true, 10)));
}

#[test]
fn a_response_that_nobody_waits_for_is_discarded() {
    let mut table = TransactionTable::new();
    let id = "1".repeat(40);

    assert_eq!(table.deliver(pong(&id), endpoint(1)), Err(Error::UnknownTransaction));

    table.register(&id, endpoint(1), 0);
    table.deliver(pong(&id), endpoint(1)).unwrap();

    assert_eq!(table.deliver(pong(&id), endpoint(1)), Err(Error::UnknownTransaction));

    let request = Packet {
        message: Message::Request(Request::Ping),
        node_id: "b".repeat(40),
        transaction_id: "2".repeat(40),
    };
    table.register(&"2".repeat(40), endpoint(1), 0);

    assert_eq!(table.deliver(request, endpoint(1)), Err(Error::UnknownTransaction));
}

#[test]
fn shutdown_cancels_every_wait() {
    let mut table = TransactionTable::new();
    let waiting = "1".repeat(40);
    let answered = "2".repeat(40);
    let late = "3".repeat(40);
    table.register(&waiting, endpoint(1), 0);
    table.register(&answered, endpoint(1), 0);
    table.register(&late, endpoint(1), 0);
    table.deliver(pong(&answered), endpoint(1)).unwrap();

    assert!(matches!(table.wait_for_response(&waiting, false, 1), WaitStatus::Canceled));
    assert!(matches!(table.wait_for_response(&answered, false, 1), WaitStatus::Canceled));
    assert!(matches!(table.wait_for_response(&late, false, 9000), WaitStatus::Canceled));
    assert_eq!(table.len(), 0);
}

#[test]
fn registering_again_starts_the_wait_anew() {
    let mut table = TransactionTable::new();
    let id = "1".repeat(40);
    table.register(&id, endpoint(1), 0);
    table.deliver(pong(&id), endpoint(1)).unwrap();
    table.register(&id, endpoint(2), 100);

    assert_eq!(table.len(), 1);
    assert!(is_pending(&table.wait_for_response(&id, true, 5100)));
    assert_eq!(table.deliver(pong(&id), endpoint(1)), Err(Error::UnexpectedSource));
}

#[test]
fn a_deadline_never_overflows() {
    let mut table = TransactionTable::new();
    let id = "1".repeat(40);
    table.register(&id, endpoint(1), u64::MAX - 10);

    assert!(is_pending(&table.wait_for_response(&id, true, u64::MAX)));
}
