use shared_document::{Event, SharedDocument};

#[test]
fn ping_adds_then_refreshes() {
    let mut doc = SharedDocument::init(0);
    match doc.ping("alice".to_string(), "hi".to_string(), 100) {
        Some(Event::UserPing { addr, last_seen_ms }) => {
            assert_eq!(addr, "alice");
            assert_eq!(last_seen_ms, 100);
        }
        _ => panic!("expected a first ping event"),
    }
    assert!(doc.ping("alice".to_string(), "again".to_string(), 150).is_none());
    let users = doc.get_active_users(None, 150);
    assert_eq!(users.len(), 1);
    assert_eq!(users[0].address, "alice");
    assert_eq!(users[0].last_seen_ms, 150);
    assert_eq!(users[0].payload, "again");
}

#[test]
fn active_users_within_ttl() {
    let mut doc = SharedDocument::init(0);
    doc.ping("a".to_string(), String::new(), 100);
    doc.ping("b".to_string(), String::new(), 200);
    doc.ping("c".to_string(), String::new(), 300);
    let active: Vec<String> =
        doc.get_active_users(Some(100), 300).into_iter().map(|e| e.address).collect();
    assert_eq!(active, vec!["b".to_string(), "c".to_string()]);
    assert_eq!(doc.get_active_users(None, 10_000).len(), 3);
    assert_eq!(doc.get_active_users(Some(u64::MAX), u64::MAX).len(), 3);
}

#[test]
fn purge_drops_stale_entries() {
    let mut doc = SharedDocument::init(0);
    doc.ping("a".to_string(), String::new(), 100);
    doc.ping("b".to_string(), String::new(), 200);
    doc.purge_stale(50, 240);
    let left = doc.get_active_users(None, 240);
    assert_eq!(left.len(), 1);
    assert_eq!(left[0].address, "b");
    assert_eq!(doc.get_document().version, 0);
}
