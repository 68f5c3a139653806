use shared_document::text::code_to_char;
use shared_document::{
    compose_uid, encode_executor_address, fingerprint_of_bytes, make_uid, render_text, AppError,
    DocOp, Element, Event, SharedDocument,
};

const ID: [u8; 3] = [1, 2, 3];

fn ins(index: usize, content: &str) -> DocOp {
    DocOp::Insert { index, content: content.to_string() }
}

fn del(index: usize, len: usize) -> DocOp {
    DocOp::Delete { index, len }
}

fn content_of(doc: &SharedDocument) -> String {
    doc.get_document().content
}

fn created(content: &str) -> SharedDocument {
    let mut doc = SharedDocument::init(10);
    doc.create_document(content.to_string(), 100, &ID).ok().unwrap();
    doc
}

#[test]
fn init_is_empty() {
    let doc = SharedDocument::init(42);
    let v = doc.get_document();
    assert_eq!(v.content, "");
    assert_eq!(v.version, 0);
    assert_eq!(v.updated_ms, 42);
    assert!(v.last_editor.is_none());
}

#[test]
fn create_sets_content_and_bumps_version() {
    let mut doc = SharedDocument::init(0);
    let r = doc.create_document("héllo wörld".to_string(), 7, &ID);
    match r {
        Ok((v, Event::DocumentCreated { content, version })) => {
            assert_eq!(v, 1);
            assert_eq!(version, 1);
            assert_eq!(content, "héllo wörld");
        }
        _ => panic!("expected a created document"),
    }
    let v = doc.get_document();
    assert_eq!(v.content, "héllo wörld");
    assert_eq!(v.version, 1);
    assert_eq!(v.updated_ms, 7);
    assert_eq!(v.last_editor, Some(encode_executor_address(&ID)));
    let r2 = doc.create_document("again".to_string(), 8, &ID);
    assert!(matches!(r2, Ok((2, _))));
    assert_eq!(content_of(&doc), "again");
}

#[test]
fn create_empty_is_refused() {
    let mut doc = created("keep");
    let r = doc.create_document(String::new(), 200, &ID);
    match r {
        Err(AppError::Invalid(m)) => assert_eq!(m, "empty document content"),
        _ => panic!("expected an invalid-input error"),
    }
    let v = doc.get_document();
    assert_eq!(v.content, "keep");
    assert_eq!(v.version, 1);
    assert_eq!(v.updated_ms, 100);
}

#[test]
fn edits_in_uid_order_match_string_model() {
    let mut doc = created("hello");
    let ops = vec![ins(5, " world"), del(0, 1), ins(10, "!")];
    let r = doc.apply_ops(ops, None, 200, &ID);
    assert!(matches!(r, Ok((2, _))));
    let mut model = String::from("hello");
    model.push_str(" world");
    model.remove(0);
    model.push('!');
    assert_eq!(content_of(&doc), model);
    assert_eq!(content_of(&doc), "ello world!");
}

#[test]
fn update_event_carries_content_and_editor() {
    let mut doc = created("ab");
    match doc.apply_ops(vec![ins(2, "c")], Some(1), 300, &ID) {
        Ok((v, Event::DocumentUpdated { content, version, editor })) => {
            assert_eq!(v, 2);
            assert_eq!(version, 2);
            assert_eq!(content, "abc");
            assert_eq!(editor, encode_executor_address(&ID));
        }
        _ => panic!("expected an update"),
    }
    let v = doc.get_document();
    assert_eq!(v.updated_ms, 300);
}

#[test]
fn stale_version_is_refused() {
    let mut doc = created("ab");
    let r = doc.apply_ops(vec![ins(0, "zz")], Some(5), 200, &ID);
    match r {
        Err(AppError::Invalid(m)) => assert_eq!(m, "version mismatch"),
        _ => panic!("expected a version mismatch"),
    }
    let v = doc.get_document();
    assert_eq!(v.content, "ab");
    assert_eq!(v.version, 1);
}

#[test]
fn matching_version_is_accepted() {
    let mut doc = created("ab");
    assert!(matches!(doc.apply_ops(vec![del(0, 1)], Some(1), 200, &ID), Ok((2, _))));
    assert_eq!(content_of(&doc), "b");
}

#[test]
fn delete_past_end_stops_at_end() {
    let mut doc = created("abcd");
    assert!(doc.apply_ops(vec![del(2, 10)], None, 200, &ID).is_ok());
    assert_eq!(content_of(&doc), "ab");
    assert!(doc.apply_ops(vec![del(5, 3)], None, 201, &ID).is_ok());
    assert_eq!(content_of(&doc), "ab");
    assert_eq!(doc.get_document().version, 3);
}

#[test]
fn delete_skips_tombstones() {
    let mut doc = created("abcdef");
    assert!(doc.apply_ops(vec![del(1, 2), del(1, 2)], None, 200, &ID).is_ok());
    assert_eq!(content_of(&doc), "af");
}

#[test]
fn delete_zero_len_changes_nothing() {
    let mut doc = created("abc");
    assert!(doc.apply_ops(vec![del(1, 0)], None, 200, &ID).is_ok());
    assert_eq!(content_of(&doc), "abc");
}

#[test]
fn insert_at_length_appends() {
    let mut doc = created("ab");
    assert!(doc.apply_ops(vec![ins(2, "cd")], None, 200, &ID).is_ok());
    assert_eq!(content_of(&doc), "abcd");
    assert!(doc.apply_ops(vec![ins(99, "e")], None, 201, &ID).is_ok());
    assert_eq!(content_of(&doc), "abcde");
}

#[test]
fn insert_at_zero_prepends_when_stamped_earlier() {
    let mut doc = created("ab");
    assert!(doc.apply_ops(vec![ins(0, "X")], None, 50, &ID).is_ok());
    assert_eq!(content_of(&doc), "Xab");
}

#[test]
fn text_is_ordered_by_uid_not_position() {
    let mut doc = created("ab");
    assert!(doc.apply_ops(vec![ins(0, "X")], None, 200, &ID).is_ok());
    assert_eq!(content_of(&doc), "abX");
}

#[test]
fn example_session() {
    let mut doc = SharedDocument::init(0);
    assert!(matches!(doc.create_document("ab".to_string(), 100, &ID), Ok((1, _))));
    assert_eq!(content_of(&doc), "ab");
    assert!(matches!(doc.apply_ops(vec![ins(1, "X")], Some(1), 200, &ID), Ok((2, _))));
    // X is stamped later than a and b, so it sorts after them.
    assert_eq!(content_of(&doc), "abX");
    assert!(matches!(doc.apply_ops(vec![del(0, 1)], Some(2), 300, &ID), Ok((3, _))));
    // Visible index 0 in buffer order is a.
    assert_eq!(content_of(&doc), "bX");
}

#[test]
fn empty_batch_bumps_version() {
    let mut doc = created("ab");
    assert!(matches!(doc.apply_ops(vec![], None, 200, &ID), Ok((2, _))));
    assert_eq!(content_of(&doc), "ab");
}

#[test]
fn versions_count_batches() {
    let mut doc = created("a");
    for i in 0..3u64 {
        assert!(doc.apply_ops(vec![], None, 200 + i, &ID).is_ok());
    }
    assert_eq!(doc.get_document().version, 4);
}

fn elem(uid: u128, c: char, visible: bool) -> Element {
    Element { uid, ch: c as u32, visible, created_ms: 0, editor: String::new() }
}

#[test]
fn render_sorts_visible_by_uid() {
    let v = vec![elem(30, 'c', true), elem(10, 'a', true), elem(20, 'z', false), elem(15, 'b', true)];
    assert_eq!(render_text(&v), "abc");
}

#[test]
fn render_replaces_invalid_codes() {
    let v = vec![
        elem(1, 'a', true),
        Element { uid: 2, ch: 0xD800, visible: true, created_ms: 0, editor: String::new() },
    ];
    assert_eq!(render_text(&v), "a\u{FFFD}");
    assert_eq!(code_to_char(0x110000), '\u{FFFD}');
    assert_eq!(code_to_char(0x41), 'A');
}

#[test]
fn merge_order_does_not_matter() {
    // Batch A inserted x and y, batch B inserted z and deleted a.
    let a_then_b = vec![
        elem(1, 'a', false),
        elem(5, 'x', true),
        elem(6, 'y', true),
        elem(2, 'b', true),
        elem(7, 'z', true),
    ];
    let b_then_a = vec![
        elem(7, 'z', true),
        elem(2, 'b', true),
        elem(1, 'a', false),
        elem(6, 'y', true),
        elem(5, 'x', true),
    ];
    assert_eq!(render_text(&a_then_b), render_text(&b_then_a));
    assert_eq!(render_text(&a_then_b), "bxyz");
}

#[test]
fn redelivered_tombstone_changes_nothing() {
    let once = vec![elem(1, 'a', false), elem(2, 'b', true)];
    let twice = vec![elem(2, 'b', true), elem(1, 'a', false), elem(1, 'a', false)];
    assert_eq!(render_text(&once), render_text(&twice));
}

#[test]
fn uids_are_distinct_over_dense_loop() {
    let mut seen = std::collections::HashSet::new();
    for now in 0..50u64 {
        for nonce in 0..200u64 {
            assert!(seen.insert(make_uid(now, nonce, "StV1DL6CwTryKyV")));
        }
    }
    assert_eq!(seen.len(), 10000);
}

#[test]
fn uid_layout() {
    assert_eq!(compose_uid(1, 2, 3), (1u128 << 64) | (2u128 << 48) | 3);
    assert_eq!(compose_uid(1, 0x1_0002, 0x1_0000_0000_0003), (1u128 << 64) | (2u128 << 48) | 3);
    assert_eq!(compose_uid(u64::MAX, u64::MAX, u64::MAX), u128::MAX);
}

#[test]
fn fingerprint_takes_bytes_ten_to_fifteen() {
    assert_eq!(fingerprint_of_bytes(&[]), 0);
    let hello = b"hello world";
    assert_eq!(fingerprint_of_bytes(hello), 0x64_0000_0000_00);
    let b: Vec<u8> = (1..=20).collect();
    assert_eq!(fingerprint_of_bytes(&b), 0x0b0c_0d0e_0f10);
}

#[test]
fn make_uid_uses_decoded_editor() {
    assert_eq!(
        make_uid(1, 2, "StV1DL6CwTryKyV"),
        (1u128 << 64) | (2u128 << 48) | 0x64_0000_0000_00
    );
    assert_eq!(make_uid(1, 2, "0OIl"), (1u128 << 64) | (2u128 << 48));
}

#[test]
fn address_is_base58() {
    assert_eq!(encode_executor_address(b"hello world"), "StV1DL6CwTryKyV");
    assert_eq!(encode_executor_address(&[0]), "1");
}
