use crypto::signatures::ed25519;
use streams::address::{MsgId, Topic};
use streams::cursor_store::CursorStore;
use streams::id::{Identifier, PermissionDuration, Permissioned};

fn identifier_from_seed(seed: &str) -> Identifier {
    let mut secret = [0u8; 32];
    for (i, b) in seed.bytes().enumerate().take(32) {
        secret[i] = b;
    }
    let pk = ed25519::SecretKey::from_bytes(&secret).public_key();
    Identifier::from_ed25519(pk.to_bytes().to_vec())
}

fn topic(name: &str) -> Topic {
    Topic::new(name.to_string())
}

#[test]
fn branch_store_can_remove_a_cursor_from_all_branches_at_once() {
    let mut branch_store = CursorStore::new();
    let identifier = identifier_from_seed("identifier 1");
    let permission = Permissioned::ReadWrite(identifier.clone(), PermissionDuration::Perpetual);
    let topic_1 = topic("topic 1");
    let topic_2 = topic("topic 2");

    branch_store.new_branch(topic_1.clone());
    branch_store.new_branch(topic_2.clone());

    branch_store.insert_cursor(&topic_1, permission.clone(), 10);
    branch_store.insert_cursor(&topic_2, permission.clone(), 20);

    branch_store.remove(&identifier);

    assert!(branch_store.get_cursor(&topic_1, &identifier).is_none());
    assert!(branch_store.get_cursor(&topic_2, &identifier).is_none());
}

#[test]
fn rebinding_to_another_permission_keeps_the_cursor() {
    let mut store = CursorStore::new();
    let id = identifier_from_seed("rebind");
    let t = topic("t");
    store.new_branch(t.clone());
    assert_eq!(store.insert_cursor(&t, Permissioned::ReadWrite(id.clone(), PermissionDuration::Perpetual), 7), None);
    assert_eq!(store.insert_cursor(&t, Permissioned::Read(id.clone()), 99), None);
    assert_eq!(store.get_cursor(&t, &id), Some(7));
    assert!(store.get_permission(&t, &id) == Some(Permissioned::Read(id.clone())));
}

#[test]
fn same_permission_moves_the_cursor_and_returns_the_old_one() {
    let mut store = CursorStore::new();
    let id = identifier_from_seed("same");
    let t = topic("t");
    store.new_branch(t.clone());
    store.insert_cursor(&t, Permissioned::Admin(id.clone()), 1);
    assert_eq!(store.insert_cursor(&t, Permissioned::Admin(id.clone()), 5), Some(1));
    assert_eq!(store.get_cursor(&t, &id), Some(5));
}

#[test]
fn one_entry_per_identifier_on_a_branch() {
    let mut store = CursorStore::new();
    let id = identifier_from_seed("unique");
    let t = topic("t");
    store.new_branch(t.clone());
    store.insert_cursor(&t, Permissioned::Read(id.clone()), 3);
    store.insert_cursor(&t, Permissioned::Admin(id.clone()), 4);
    store.insert_cursor(&t, Permissioned::ReadWrite(id.clone(), PermissionDuration::UntilSequence(9)), 5);
    let entries = store.cursors_by_topic(&t).unwrap();
    assert_eq!(entries.len(), 1);
    assert!(entries[0].0 == Permissioned::ReadWrite(id.clone(), PermissionDuration::UntilSequence(9)));
    assert_eq!(entries[0].1, 3);
}

#[test]
fn insert_without_branch_changes_nothing() {
    let mut store = CursorStore::new();
    let id = identifier_from_seed("none");
    let t = topic("missing");
    assert_eq!(store.insert_cursor(&t, Permissioned::Admin(id.clone()), 1), None);
    assert!(store.get_cursor(&t, &id).is_none());
    assert!(store.get_latest_link(&t).is_none());
}

#[test]
fn new_branch_reports_whether_the_topic_was_new() {
    let mut store = CursorStore::new();
    let t = topic("t");
    assert!(store.new_branch(t.clone()));
    assert!(!store.new_branch(t.clone()));
    assert!(store.get_latest_link(&t).unwrap() == MsgId::default());
}

#[test]
fn latest_link_is_set_and_creates_missing_branches() {
    let mut store = CursorStore::new();
    let t = topic("fresh");
    let link = MsgId::from_bytes(vec![7; 12]);
    store.set_latest_link(t.clone(), link.clone());
    assert!(store.get_latest_link(&t).unwrap() == link);
    assert_eq!(store.cursors_by_topic(&t).unwrap().len(), 0);
}

#[test]
fn remove_reports_whether_anything_was_removed() {
    let mut store = CursorStore::new();
    let a = identifier_from_seed("a");
    let b = identifier_from_seed("b");
    let t = topic("t");
    store.new_branch(t.clone());
    store.insert_cursor(&t, Permissioned::Admin(a.clone()), 1);
    store.insert_cursor(&t, Permissioned::Read(b.clone()), 2);
    assert!(!store.remove(&identifier_from_seed("c")));
    assert!(store.remove(&a));
    assert_eq!(store.get_cursor(&t, &b), Some(2));
    assert!(!store.remove(&a));
}

#[test]
fn cursors_lists_every_entry_with_its_topic() {
    let mut store = CursorStore::new();
    let a = identifier_from_seed("a");
    let b = identifier_from_seed("b");
    store.new_branch(topic("t1"));
    store.new_branch(topic("t2"));
    store.insert_cursor(&topic("t1"), Permissioned::Admin(a.clone()), 1);
    store.insert_cursor(&topic("t2"), Permissioned::Read(b.clone()), 4);
    let all = store.cursors();
    assert_eq!(all.len(), 2);
    assert!(all.iter().any(|(t, p, c)| t == &topic("t1") && p == &Permissioned::Admin(a.clone()) && *c == 1));
    assert!(all.iter().any(|(t, p, c)| t == &topic("t2") && p == &Permissioned::Read(b.clone()) && *c == 4));
}
