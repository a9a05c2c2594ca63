use std::cell::RefCell;
use std::rc::Rc;

use crypto::signatures::ed25519;
use streams::address::{Address, MsgId, Topic};
use streams::id::{Identifier, PermissionDuration, Permissioned};
use streams::transport::{BucketTransport, Transport, TransportError};
use streams::user::{
    probe_outcome, Content, Header, Outcome, User, UserError, Wrapped, ANNOUNCEMENT, BRANCH_ANNOUNCEMENT, INIT_MESSAGE_NUM, KEYLOAD,
    SIGNED_PACKET, SUBSCRIPTION, TAGGED_PACKET, UNSUBSCRIPTION,
};

#[derive(Clone)]
struct Shared(Rc<RefCell<BucketTransport>>);

impl Transport for Shared {
    fn send_message(&mut self, address: &Address, msg: Vec<u8>) -> Result<(), TransportError> {
        self.0.borrow_mut().send_message(address, msg)
    }

    fn recv_messages(&mut self, address: &Address) -> Result<Vec<Vec<u8>>, TransportError> {
        self.0.borrow_mut().recv_messages(address)
    }
}

fn key(seed: u8) -> Identifier {
    let pk = ed25519::SecretKey::from_bytes(&[seed; 32]).public_key();
    Identifier::from_ed25519(pk.to_bytes().to_vec())
}

fn msgid(n: u8) -> MsgId {
    MsgId::from_bytes(vec![n; 12])
}

fn topic(name: &str) -> Topic {
    Topic::new(name.to_string())
}

fn wrapped(n: u8) -> Wrapped {
    Wrapped { bytes: vec![n, n, n], snapshot: vec![n; 4] }
}

fn header(message_type: u8, sequence: usize, publisher: &Identifier, t: &str, linked: Option<u8>) -> Header {
    Header {
        message_type,
        sequence,
        publisher: publisher.clone(),
        topic: topic(t),
        linked_msg_address: linked.map(msgid),
    }
}

fn entry_of<T>(user: &User<T>, t: &str, id: &Identifier) -> Option<(Permissioned, usize)> {
    user.cursors_by_topic(&topic(t)).ok()?.into_iter().find(|(p, _)| p.identifier() == id)
}

const BASE: [u8; 40] = [0xA; 40];

fn address(n: u8) -> Address {
    Address::new(BASE.to_vec(), msgid(n))
}

struct Stream {
    author: User<Shared>,
    sub: User<Shared>,
    author_id: Identifier,
    sub_id: Identifier,
}

/// The author announces stream "t"; the subscriber reads the announcement.
fn announced(lean: bool) -> Stream {
    let shared = Shared(Rc::new(RefCell::new(BucketTransport::new())));
    let author_id = key(1);
    let sub_id = key(2);
    let mut author = User::new(Some(author_id.clone()), vec![], shared.clone(), lean);
    let mut sub = User::new(Some(sub_id.clone()), vec![], shared, lean);
    author.create_stream(topic("t"), &address(1), wrapped(1)).unwrap();
    let r = sub.handle_message(
        &address(1),
        &header(ANNOUNCEMENT, 0, &author_id, "t", None),
        Some((Content::Announcement { author_id: author_id.clone(), topic: topic("t") }, vec![1; 4])),
    );
    assert_eq!(r, Ok(Outcome::Handled));
    Stream { author, sub, author_id, sub_id }
}

/// The subscriber subscribes and the author grants it write access on "t".
fn keyloaded() -> Stream {
    let mut s = announced(false);
    let plan = s.sub.prepare_subscription().unwrap();
    assert!(plan.link_to == msgid(1));
    let sub_addr = s.sub.subscribe(msgid(2), wrapped(2)).unwrap();
    let r = s.author.handle_message(
        &sub_addr,
        &header(SUBSCRIPTION, 0, &s.sub_id, "t", Some(1)),
        Some((Content::Subscription { subscriber: s.sub_id.clone() }, vec![2; 4])),
    );
    assert_eq!(r, Ok(Outcome::Handled));
    let rw = Permissioned::ReadWrite(s.sub_id.clone(), PermissionDuration::Perpetual);
    let kl = s.author.send_keyload(&topic("t"), vec![rw.clone()], vec![], msgid(3), wrapped(3)).unwrap();
    let r = s.sub.handle_message(
        &kl,
        &header(KEYLOAD, 2, &s.author_id, "t", Some(1)),
        Some((Content::Keyload { subscribers: vec![rw] }, vec![3; 4])),
    );
    assert_eq!(r, Ok(Outcome::Handled));
    s
}

/// The subscriber sends a signed packet on "t" and the author reads it.
fn packet_sent() -> Stream {
    let mut s = keyloaded();
    let plan = s.sub.prepare_packet(&topic("t")).unwrap();
    assert_eq!(plan.cursor, 2);
    assert!(plan.link_to == msgid(3));
    let a = s.sub.send_signed_packet(&topic("t"), msgid(4), wrapped(4)).unwrap();
    let r = s.author.handle_message(
        &a,
        &header(SIGNED_PACKET, 2, &s.sub_id, "t", Some(3)),
        Some((Content::SignedPacket { public_payload: vec![], masked_payload: vec![0xAA] }, vec![4; 4])),
    );
    assert_eq!(r, Ok(Outcome::Handled));
    s
}

/// The author branches "t2" off "t" and the subscriber reads the branch announcement.
fn branched() -> Stream {
    let mut s = packet_sent();
    let plan = s.author.prepare_packet(&topic("t")).unwrap();
    assert_eq!(plan.cursor, 3);
    let a = s.author.new_branch(&topic("t"), topic("t2"), msgid(5), wrapped(5)).unwrap();
    let r = s.sub.handle_message(
        &a,
        &header(BRANCH_ANNOUNCEMENT, 3, &s.author_id, "t", Some(4)),
        Some((Content::BranchAnnouncement { new_topic: topic("t2") }, vec![5; 4])),
    );
    assert_eq!(r, Ok(Outcome::Handled));
    s
}

#[test]
fn author_creates_stream_and_subscriber_joins_it() {
    let s = announced(false);
    assert!(s.author.stream_address().unwrap() == address(1));
    assert_eq!(s.author.cursor(&topic("t")), Some(INIT_MESSAGE_NUM));
    assert!(s.author.permission(&topic("t")) == Some(Permissioned::Admin(s.author_id.clone())));
    assert!(s.sub.base_branch() == &topic("t"));
    assert!(s.sub.author_identifier() == Some(s.author_id.clone()));
    assert!(s.sub.stream_address().unwrap() == address(1));
    assert!(s.author.snapshot(&msgid(1)) == Some(vec![1; 4]));
}

#[test]
fn author_records_the_subscriber_without_a_cursor() {
    let mut s = announced(false);
    let a = s.sub.subscribe(msgid(2), wrapped(2)).unwrap();
    assert!(a == address(2));
    let r = s.author.handle_message(
        &a,
        &header(SUBSCRIPTION, 0, &s.sub_id, "t", Some(1)),
        Some((Content::Subscription { subscriber: s.sub_id.clone() }, vec![2; 4])),
    );
    assert_eq!(r, Ok(Outcome::Handled));
    assert!(s.author.subscribers().iter().any(|x| x == &s.sub_id));
    assert!(entry_of(&s.author, "t", &s.sub_id).is_none());
    assert!(s.author.snapshot(&msgid(2)).is_none());
}

#[test]
fn keyload_gives_the_subscriber_write_access() {
    let s = keyloaded();
    assert_eq!(s.sub.cursor(&topic("t")), Some(INIT_MESSAGE_NUM));
    assert!(
        s.sub.permission(&topic("t")) == Some(Permissioned::ReadWrite(s.sub_id.clone(), PermissionDuration::Perpetual))
    );
    assert_eq!(entry_of(&s.author, "t", &s.sub_id).unwrap().1, INIT_MESSAGE_NUM);
    assert_eq!(s.author.cursor(&topic("t")), Some(2));
}

#[test]
fn author_reads_the_signed_packet() {
    let s = keyloaded();
    let candidates = s.author.next_candidates();
    assert!(candidates.iter().any(|(t, id, c)| t == &topic("t") && id == &s.sub_id && *c == 2));
    let s = packet_sent();
    assert_eq!(entry_of(&s.author, "t", &s.sub_id).unwrap().1, 2);
    assert_eq!(s.sub.cursor(&topic("t")), Some(2));
    assert!(s.sub.snapshot(&msgid(4)) == Some(vec![4; 4]));
}

#[test]
fn branch_announcement_clones_permissions_at_the_first_cursor() {
    let s = branched();
    let e = entry_of(&s.sub, "t2", &s.sub_id).unwrap();
    assert!(e.0 == Permissioned::ReadWrite(s.sub_id.clone(), PermissionDuration::Perpetual));
    assert_eq!(e.1, INIT_MESSAGE_NUM);
    let a = entry_of(&s.sub, "t2", &s.author_id).unwrap();
    assert!(a.0 == Permissioned::Admin(s.author_id.clone()));
    assert_eq!(a.1, INIT_MESSAGE_NUM);
    assert!(s.sub.topics().iter().any(|t| t == &topic("t2")));
    assert_eq!(entry_of(&s.sub, "t", &s.author_id).unwrap().1, 3);
}

#[test]
fn keyload_omitting_the_subscriber_demotes_it() {
    let mut s = branched();
    let kl = s.author.send_keyload(&topic("t2"), vec![], vec![], msgid(6), wrapped(6)).unwrap();
    let r = s.sub.handle_message(
        &kl,
        &header(KEYLOAD, 2, &s.author_id, "t2", Some(5)),
        Some((Content::Keyload { subscribers: vec![] }, vec![6; 4])),
    );
    assert_eq!(r, Ok(Outcome::Handled));
    let e = entry_of(&s.sub, "t2", &s.sub_id).unwrap();
    assert!(e.0 == Permissioned::Read(s.sub_id.clone()));
    assert_eq!(e.1, INIT_MESSAGE_NUM);
    let sent = s.sub.send_signed_packet(&topic("t2"), msgid(7), wrapped(7));
    assert_eq!(sent.err(), Some(UserError::PermissionDenied));
}

#[test]
fn sent_messages_keep_their_sponge_state() {
    let mut s = keyloaded();
    assert!(s.author.snapshot(&msgid(3)) == Some(vec![3; 4]));
    s.author.send_tagged_packet(&topic("t"), msgid(8), wrapped(8)).unwrap();
    assert!(s.author.snapshot(&msgid(8)) == Some(vec![8; 4]));
    assert_eq!(s.author.cursor(&topic("t")), Some(3));
}

#[test]
fn keyload_for_all_rw_tracks_every_subscriber() {
    let mut s = announced(false);
    s.author.add_subscriber(s.sub_id.clone());
    s.author.send_keyload_for_all_rw(&topic("t"), msgid(9), wrapped(9)).unwrap();
    let e = entry_of(&s.author, "t", &s.sub_id).unwrap();
    assert!(e.0 == Permissioned::ReadWrite(s.sub_id.clone(), PermissionDuration::Perpetual));
    assert_eq!(e.1, INIT_MESSAGE_NUM);
}

#[test]
fn keyload_for_all_gives_read_access_only() {
    let mut s = announced(false);
    s.author.add_subscriber(s.sub_id.clone());
    let (subs, psks) = s.author.keyload_recipients(&topic("t"), false).unwrap();
    assert_eq!(subs.len(), 1);
    assert!(subs[0] == Permissioned::Read(s.sub_id.clone()));
    assert!(psks.is_empty());
    s.author.send_keyload_for_all(&topic("t"), msgid(9), wrapped(9)).unwrap();
    assert!(entry_of(&s.author, "t", &s.sub_id).is_none());
}

#[test]
fn unknown_message_type_is_refused() {
    let mut s = announced(false);
    let r = s.sub.handle_message(&address(9), &header(7, 1, &s.author_id, "t", Some(1)), None);
    assert_eq!(r, Err(UserError::UnknownMessageType(7)));
}

#[test]
fn packet_without_stored_predecessor_is_an_orphan_and_changes_nothing() {
    let mut s = keyloaded();
    let r = s.author.handle_message(
        &address(20),
        &header(TAGGED_PACKET, 2, &s.sub_id, "t", Some(19)),
        Some((Content::TaggedPacket { public_payload: vec![], masked_payload: vec![] }, vec![0; 4])),
    );
    assert_eq!(r, Ok(Outcome::Orphan));
    assert_eq!(entry_of(&s.author, "t", &s.sub_id).unwrap().1, INIT_MESSAGE_NUM);
    assert!(s.author.snapshot(&msgid(20)).is_none());
}

#[test]
fn packet_on_unknown_topic_is_refused() {
    let mut s = keyloaded();
    let r = s.author.handle_message(&address(21), &header(SIGNED_PACKET, 2, &s.sub_id, "nowhere", Some(3)), None);
    assert_eq!(r, Err(UserError::UnknownTopic));
}

#[test]
fn keyload_from_a_non_admin_is_refused() {
    let mut s = keyloaded();
    let r = s.author.handle_message(
        &address(22),
        &header(KEYLOAD, 2, &s.sub_id, "t", Some(1)),
        Some((Content::Keyload { subscribers: vec![] }, vec![0; 4])),
    );
    assert_eq!(r, Err(UserError::PermissionDenied));
}

#[test]
fn unreadable_body_fails_after_the_cursor_moved() {
    let mut s = keyloaded();
    let r = s.author.handle_message(&address(23), &header(SIGNED_PACKET, 2, &s.sub_id, "t", Some(3)), None);
    assert_eq!(r, Err(UserError::MalformedBody));
    assert_eq!(entry_of(&s.author, "t", &s.sub_id).unwrap().1, 2);
}

#[test]
fn creating_a_stream_twice_is_refused() {
    let mut s = announced(false);
    let r = s.author.create_stream(topic("u"), &address(30), wrapped(30));
    assert_eq!(r.err(), Some(UserError::AlreadyJoined));
}

#[test]
fn sending_to_a_taken_address_is_refused() {
    let shared = Shared(Rc::new(RefCell::new(BucketTransport::new())));
    let mut other = shared.clone();
    other.send_message(&address(1), vec![0]).unwrap();
    let mut author = User::new(Some(key(1)), vec![], shared, false);
    let r = author.create_stream(topic("t"), &address(1), wrapped(1));
    assert_eq!(r.err(), Some(UserError::DuplicateAddress));
    assert!(author.stream_address().is_none());
}

#[test]
fn user_without_identity_cannot_create_a_stream() {
    let shared = Shared(Rc::new(RefCell::new(BucketTransport::new())));
    let mut user = User::new(None, vec![], shared, false);
    assert_eq!(user.create_stream(topic("t"), &address(1), wrapped(1)).err(), Some(UserError::NoIdentity));
}

#[test]
fn subscribing_before_joining_is_refused() {
    let shared = Shared(Rc::new(RefCell::new(BucketTransport::new())));
    let mut user = User::new(Some(key(4)), vec![], shared, false);
    assert_eq!(user.subscribe(msgid(2), wrapped(2)).err(), Some(UserError::NotJoined));
}

#[test]
fn lean_mode_drops_the_predecessor_state() {
    let mut s = announced(true);
    let rw = Permissioned::ReadWrite(s.sub_id.clone(), PermissionDuration::Perpetual);
    s.author.send_keyload(&topic("t"), vec![rw], vec![], msgid(3), wrapped(3)).unwrap();
    assert!(s.author.snapshot(&msgid(1)).is_some());
    s.author.send_signed_packet(&topic("t"), msgid(4), wrapped(4)).unwrap();
    assert!(s.author.snapshot(&msgid(3)).is_none());
    assert!(s.author.snapshot(&msgid(4)) == Some(vec![4; 4]));
    assert!(s.author.snapshot(&msgid(1)).is_some());
}

#[test]
fn unsubscription_removes_the_subscriber() {
    let mut s = keyloaded();
    let a = s.sub.unsubscribe(msgid(10), wrapped(10)).unwrap();
    assert!(s.sub.permission(&topic("t")) == Some(Permissioned::Read(s.sub_id.clone())));
    assert_eq!(s.sub.cursor(&topic("t")), Some(2));
    assert!(s.sub.snapshot(&msgid(10)) == Some(vec![10; 4]));
    let r = s.author.handle_message(
        &a,
        &header(UNSUBSCRIPTION, 2, &s.sub_id, "t", Some(3)),
        Some((Content::Unsubscription { subscriber: s.sub_id.clone() }, vec![10; 4])),
    );
    assert_eq!(r, Ok(Outcome::Handled));
    assert!(s.author.subscribers().is_empty());
}

#[test]
fn keyload_with_unknown_psk_is_refused() {
    let mut s = announced(false);
    let r = s.author.prepare_keyload(&topic("t"), &vec![vec![1; 32]]);
    assert_eq!(r.err(), Some(UserError::UnknownPsk));
    s.author.add_psk(vec![1; 32], vec![2; 32]);
    let plan = s.author.prepare_keyload(&topic("t"), &vec![vec![1; 32]]).unwrap();
    assert_eq!(plan.psks, vec![(vec![1; 32], vec![2; 32])]);
    assert_eq!(plan.key.len(), 32);
    assert_eq!(plan.nonce.len(), 16);
}

#[test]
fn psk_store_add_and_remove() {
    let shared = Shared(Rc::new(RefCell::new(BucketTransport::new())));
    let mut user = User::new(None, vec![(vec![5; 32], vec![6; 32])], shared, false);
    assert!(!user.add_psk(vec![5; 32], vec![7; 32]));
    assert!(user.remove_psk(&vec![5; 32]));
    assert!(!user.remove_psk(&vec![5; 32]));
}

#[test]
fn packet_header_without_linked_address_is_refused() {
    let mut s = keyloaded();
    let r = s.author.handle_message(&address(24), &header(SIGNED_PACKET, 2, &s.sub_id, "t", None), None);
    assert_eq!(r, Err(UserError::MissingLinkedAddress));
}

#[test]
fn packet_from_an_untracked_publisher_is_refused() {
    let mut s = keyloaded();
    let stranger = key(9);
    let r = s.author.handle_message(&address(25), &header(SIGNED_PACKET, 1, &stranger, "t", Some(3)), None);
    assert_eq!(r, Err(UserError::MissingCursor));
}

#[test]
fn keyload_before_joining_is_refused() {
    let shared = Shared(Rc::new(RefCell::new(BucketTransport::new())));
    let mut user = User::new(Some(key(5)), vec![], shared, false);
    let r = user.handle_message(&address(3), &header(KEYLOAD, 2, &key(1), "t", Some(1)), None);
    assert_eq!(r, Err(UserError::NotJoined));
    assert_eq!(user.send_keyload(&topic("t"), vec![], vec![], msgid(3), wrapped(3)).err(), Some(UserError::NotJoined));
}

#[test]
fn subscription_plan_names_the_subscription_sequence() {
    let s = announced(false);
    let plan = s.sub.prepare_subscription().unwrap();
    assert_eq!(plan.sequence, 0);
    assert_eq!(plan.unsubscribe_key.len(), 32);
    assert!(plan.topic == topic("t"));
}

#[test]
fn psk_author_gives_no_key_exchange_key() {
    let shared = Shared(Rc::new(RefCell::new(BucketTransport::new())));
    let author_id = Identifier::from_pskid(vec![8; 32]);
    let mut sub = User::new(Some(key(2)), vec![], shared, false);
    let r = sub.handle_message(
        &address(1),
        &header(ANNOUNCEMENT, 0, &author_id, "t", None),
        Some((Content::Announcement { author_id: author_id.clone(), topic: topic("t") }, vec![1; 4])),
    );
    assert_eq!(r, Ok(Outcome::Handled));
    assert_eq!(sub.prepare_subscription().err(), Some(UserError::NoKeyExchangeKey));
}

#[test]
fn sending_on_a_branch_without_cursor_is_refused() {
    let mut s = announced(false);
    assert_eq!(s.sub.send_signed_packet(&topic("t"), msgid(11), wrapped(11)).err(), Some(UserError::MissingCursor));
}

#[test]
fn branching_keeps_the_senders_permission_and_moves_its_cursor() {
    let mut s = keyloaded();
    s.sub.new_branch(&topic("t"), topic("s"), msgid(12), wrapped(12)).unwrap();
    let rw = Permissioned::ReadWrite(s.sub_id.clone(), PermissionDuration::Perpetual);
    assert!(s.sub.permission(&topic("t")) == Some(rw.clone()));
    assert_eq!(s.sub.cursor(&topic("t")), Some(2));
    let e = entry_of(&s.sub, "s", &s.sub_id).unwrap();
    assert!(e.0 == rw);
    assert_eq!(e.1, INIT_MESSAGE_NUM);
    assert_eq!(entry_of(&s.sub, "s", &s.author_id).unwrap().1, INIT_MESSAGE_NUM);
}

#[test]
fn author_branching_moves_its_own_cursor() {
    let s = branched();
    let e = entry_of(&s.author, "t", &s.author_id).unwrap();
    assert!(e.0 == Permissioned::Admin(s.author_id.clone()));
    assert_eq!(e.1, 3);
}

#[test]
fn keyload_keeps_the_cursor_of_a_tracked_writer() {
    let mut s = packet_sent();
    let rw = Permissioned::ReadWrite(s.sub_id.clone(), PermissionDuration::Perpetual);
    let kl = s.author.send_keyload(&topic("t"), vec![rw.clone()], vec![], msgid(13), wrapped(13)).unwrap();
    assert_eq!(entry_of(&s.author, "t", &s.sub_id).unwrap().1, 2);
    assert_eq!(s.author.cursor(&topic("t")), Some(3));
    let r = s.sub.handle_message(
        &kl,
        &header(KEYLOAD, 3, &s.author_id, "t", Some(1)),
        Some((Content::Keyload { subscribers: vec![rw] }, vec![13; 4])),
    );
    assert_eq!(r, Ok(Outcome::Handled));
    assert_eq!(s.sub.cursor(&topic("t")), Some(2));
    assert_eq!(entry_of(&s.sub, "t", &s.author_id).unwrap().1, 3);
}

#[test]
fn keyload_moves_the_publishers_cursor_to_its_sequence() {
    let mut s = announced(true);
    let rw = Permissioned::ReadWrite(s.sub_id.clone(), PermissionDuration::Perpetual);
    let mut bare = User::new(Some(key(6)), vec![], Shared(Rc::new(RefCell::new(BucketTransport::new()))), false);
    let r = bare.handle_message(&address(1), &header(KEYLOAD, 2, &s.author_id, "t", Some(1)), None);
    assert_eq!(r, Err(UserError::NotJoined));
    let r = s.sub.handle_message(
        &address(14),
        &header(KEYLOAD, 2, &s.author_id, "t", Some(1)),
        Some((Content::Keyload { subscribers: vec![rw] }, vec![14; 4])),
    );
    assert_eq!(r, Ok(Outcome::Handled));
    assert_eq!(entry_of(&s.sub, "t", &s.author_id).unwrap().1, 2);
}

#[test]
fn unreadable_branch_announcement_only_moves_the_cursor() {
    let mut s = packet_sent();
    let r = s.sub.handle_message(&address(15), &header(BRANCH_ANNOUNCEMENT, 3, &s.author_id, "t", Some(4)), None);
    assert_eq!(r, Err(UserError::MalformedBody));
    assert_eq!(entry_of(&s.sub, "t", &s.author_id).unwrap().1, 3);
    assert_eq!(s.sub.topics().len(), 1);
}

#[test]
fn branch_announcement_orphan_changes_nothing() {
    let mut s = packet_sent();
    let r = s.sub.handle_message(
        &address(16),
        &header(BRANCH_ANNOUNCEMENT, 3, &s.author_id, "t", Some(40)),
        Some((Content::BranchAnnouncement { new_topic: topic("t9") }, vec![5; 4])),
    );
    assert_eq!(r, Ok(Outcome::Orphan));
    assert_eq!(entry_of(&s.sub, "t", &s.author_id).unwrap().1, 2);
}

#[test]
fn backup_restores_the_same_user() {
    let mut s = branched();
    s.author.add_subscriber(s.sub_id.clone());
    s.author.add_psk(vec![1; 32], vec![2; 32]);
    let bytes = s.author.backup_state();
    let shared = Shared(Rc::new(RefCell::new(BucketTransport::new())));
    let back = User::restore_state(&bytes, shared).ok().unwrap();
    assert!(back.identifier().unwrap() == &s.author_id);
    assert!(back.stream_address().unwrap() == address(1));
    assert!(back.author_identifier() == Some(s.author_id.clone()));
    assert!(back.base_branch() == &topic("t"));
    assert_eq!(back.topics().len(), 2);
    assert_eq!(back.subscribers().len(), 1);
    for t in ["t", "t2"] {
        let mut a = s.author.cursors_by_topic(&topic(t)).unwrap();
        let mut b = back.cursors_by_topic(&topic(t)).unwrap();
        assert_eq!(a.len(), b.len());
        a.retain(|(p, _)| p.identifier() == &s.sub_id);
        b.retain(|(p, _)| p.identifier() == &s.sub_id);
        assert!(a[0].0 == b[0].0);
        assert_eq!(a[0].1, b[0].1);
    }
    for n in [1u8, 3, 4, 5] {
        assert!(back.snapshot(&msgid(n)) == s.author.snapshot(&msgid(n)));
    }
    assert_eq!(back.backup_state().len(), bytes.len());
}

#[test]
fn malformed_backup_is_refused() {
    let s = announced(false);
    let mut bytes = s.author.backup_state();
    bytes.push(0);
    let shared = Shared(Rc::new(RefCell::new(BucketTransport::new())));
    assert_eq!(User::restore_state(&bytes, shared.clone()).err(), Some(UserError::MalformedBackup));
    assert_eq!(User::restore_state(&[1, 2, 3], shared).err(), Some(UserError::MalformedBackup));
}

#[test]
fn a_branch_cannot_take_its_sources_name() {
    let mut s = keyloaded();
    let r = s.author.new_branch(&topic("t"), topic("t"), msgid(17), wrapped(17));
    assert_eq!(r.err(), Some(UserError::SameBranch));
    assert_eq!(s.author.cursor(&topic("t")), Some(2));
}

#[test]
fn keyload_at_the_announcement_id_is_refused() {
    let mut s = announced(false);
    let r = s.author.send_keyload(&topic("t"), vec![], vec![], msgid(1), wrapped(18));
    assert_eq!(r.err(), Some(UserError::DuplicateAddress));
    assert!(s.author.snapshot(&msgid(1)) == Some(vec![1; 4]));
}

#[test]
fn probe_finding_a_message_means_duplicate() {

    assert_eq!(probe_outcome(&Ok(vec![1])), Err(UserError::DuplicateAddress));
    assert_eq!(probe_outcome(&Err(TransportError::NotFound)), Ok(()));
}
