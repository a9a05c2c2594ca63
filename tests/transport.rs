use streams::address::{Address, MsgId};
use streams::transport::{received_one, single_message, BucketTransport, Transport, TransportError};

fn address(n: u8) -> Address {
    Address::new(vec![1; 40], MsgId::from_bytes(vec![n; 12]))
}

#[test]
fn single_message_picks_the_only_one() {
    assert_eq!(single_message(vec![vec![1, 2]]), Ok(vec![1, 2]));
    assert_eq!(single_message(vec![]), Err(TransportError::NotFound));
    assert_eq!(single_message(vec![vec![1], vec![2]]), Err(TransportError::NotUnique));
}

#[test]
fn bucket_keeps_messages_per_address_in_order() {
    let mut t = BucketTransport::new();
    t.send_message(&address(1), vec![10]).unwrap();
    t.send_message(&address(2), vec![20]).unwrap();
    t.send_message(&address(1), vec![11]).unwrap();
    assert_eq!(t.recv_messages(&address(1)).unwrap(), vec![vec![10], vec![11]]);
    assert_eq!(t.recv_message(&address(2)).unwrap(), vec![20]);
    assert_eq!(t.recv_message(&address(1)), Err(TransportError::NotUnique));
    assert_eq!(t.recv_message(&address(3)), Err(TransportError::NotFound));
}

#[test]
fn bucket_refuses_an_ambiguous_address_and_keeps_its_messages() {
    let mut t = BucketTransport::new();
    t.send_message(&address(5), vec![1]).unwrap();
    t.send_message(&address(5), vec![2]).unwrap();
    assert_eq!(t.recv_one(&address(5)), Err(TransportError::NotUnique));
    assert_eq!(t.messages(&address(5)), vec![vec![1], vec![2]]);
    assert_eq!(t.recv_one(&address(6)), Err(TransportError::NotFound));
}

#[test]
fn receiving_one_passes_errors_on() {
    assert_eq!(received_one(Err(TransportError::Failed)), Err(TransportError::Failed));
    assert_eq!(received_one(Ok(vec![vec![4]])), Ok(vec![4]));
    assert_eq!(received_one(Ok(vec![])), Err(TransportError::NotFound));
    assert_eq!(received_one(Ok(vec![vec![1], vec![2]])), Err(TransportError::NotUnique));
}
