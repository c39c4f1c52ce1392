use yrb::delta::SeqChange as Run;
use yrb::error::BridgeError;
use yrb::ydoc::YDoc;
use yrb::ytransaction::{ChangePayload, ObserverEvent, TextDeltaItem};
use yrb::yvalue::HostPair;
use yrb::yvalue::HostValue;

/// Replays a text payload against the old contents, reconstructing the
/// new text (characters only).
fn decode_text_payload(old: &str, payload: &[Run<TextDeltaItem>]) -> String {
    let old_chars: Vec<char> = old.chars().collect();
    let mut out = String::new();
    let mut cursor = 0usize;
    for run in payload {
        match run {
            Run::Added(items) => {
                for it in items {
                    if let HostValue::Str(s) = &it.value {
                        out.push_str(s);
                    }
                }
            }
            Run::Retained(k) => {
                for c in &old_chars[cursor..cursor + *k] {
                    out.push(*c);
                }
                cursor += *k;
            }
            Run::Removed(k) => {
                cursor += *k;
            }
        }
    }
    for c in &old_chars[cursor..] {
        out.push(*c);
    }
    out
}

#[test]
fn container_aliasing_between_proxies() {
    let mut doc = YDoc::ydoc_new(Some(1));
    let p1 = doc.ydoc_get_or_insert_array("a").unwrap();
    let p2 = doc.ydoc_get_or_insert_array("a").unwrap();
    let tx = doc.ydoc_transact().unwrap();
    p1.yarray_insert(&mut doc, &tx, 0, &HostValue::Int(42)).unwrap();
    tx.ytransaction_commit(&mut doc).unwrap();
    let tx2 = doc.ydoc_transact().unwrap();
    assert_eq!(p2.yarray_length(&doc, &tx2).unwrap(), 1);
    assert_eq!(p2.yarray_get(&doc, &tx2, 0).unwrap(), HostValue::Int(42));
    tx2.ytransaction_free(&mut doc);
}

#[test]
fn transaction_single_writer() {
    let mut doc = YDoc::ydoc_new(None);
    let tx1 = doc.ydoc_transact().unwrap();
    match doc.ydoc_transact() {
        Err(BridgeError::TransactionState(_)) => {}
        other => panic!("expected a transaction-state error, got {:?}", other.err()),
    }
    tx1.ytransaction_commit(&mut doc).unwrap();
    let tx2 = doc.ydoc_transact().unwrap();
    tx2.ytransaction_free(&mut doc);
    let tx3 = doc.ydoc_transact().unwrap();
    tx3.ytransaction_free(&mut doc);
}

#[test]
fn disposed_handle_guard() {
    let mut doc = YDoc::ydoc_new(Some(7));
    let arr = doc.ydoc_get_or_insert_array("a").unwrap();
    let text = doc.ydoc_get_or_insert_text("t").unwrap();
    let map = doc.ydoc_get_or_insert_map("m").unwrap();
    let tx = doc.ydoc_transact().unwrap();
    tx.ytransaction_free(&mut doc);
    // Every reading or mutating container operation with the disposed
    // handle fails with a transaction-state error, never crashes.
    assert!(matches!(
        arr.yarray_insert(&mut doc, &tx, 0, &HostValue::Nil),
        Err(BridgeError::TransactionState(_))
    ));
    assert!(matches!(
        arr.yarray_length(&doc, &tx),
        Err(BridgeError::TransactionState(_))
    ));
    assert!(matches!(
        text.ytext_insert(&mut doc, &tx, 0, "x"),
        Err(BridgeError::TransactionState(_))
    ));
    assert!(matches!(
        text.ytext_to_s(&doc, &tx),
        Err(BridgeError::TransactionState(_))
    ));
    assert!(matches!(
        map.ymap_insert(&mut doc, &tx, &HostValue::Str(String::from("k")), &HostValue::Nil),
        Err(BridgeError::TransactionState(_))
    ));
    assert!(matches!(
        map.ymap_get(&doc, &tx, &HostValue::Str(String::from("k"))),
        Err(BridgeError::TransactionState(_))
    ));
}

#[test]
fn sequence_bounds() {
    let mut doc = YDoc::ydoc_new(Some(3));
    let arr = doc.ydoc_get_or_insert_array("a").unwrap();
    let tx = doc.ydoc_transact().unwrap();
    for i in 0..3u32 {
        arr.yarray_insert(&mut doc, &tx, i, &HostValue::Int(i as i64)).unwrap();
    }
    // Removing outside the contents is a bounds error.
    assert!(matches!(
        arr.yarray_remove_range(&mut doc, &tx, 5, 1),
        Err(BridgeError::Bounds(_))
    ));
    // Inserting at index == length is a valid append.
    arr.yarray_insert(&mut doc, &tx, 3, &HostValue::Int(3)).unwrap();
    assert_eq!(arr.yarray_length(&doc, &tx).unwrap(), 4);
    // Inserting past the length is a bounds error.
    assert!(matches!(
        arr.yarray_insert(&mut doc, &tx, 6, &HostValue::Nil),
        Err(BridgeError::Bounds(_))
    ));
    // A zero-length removal is a no-op.
    arr.yarray_remove_range(&mut doc, &tx, 2, 0).unwrap();
    assert_eq!(arr.yarray_length(&doc, &tx).unwrap(), 4);
    arr.yarray_remove(&mut doc, &tx, 0).unwrap();
    assert_eq!(arr.yarray_to_a(&doc, &tx).unwrap(), vec![
        HostValue::Int(1),
        HostValue::Int(2),
        HostValue::Int(3),
    ]);
    tx.ytransaction_commit(&mut doc).unwrap();
}

#[test]
fn map_key_normalization() {
    let mut doc = YDoc::ydoc_new(Some(4));
    let map = doc.ydoc_get_or_insert_map("m").unwrap();
    let tx = doc.ydoc_transact().unwrap();
    // Insert under a symbol-like key, read under a string-like key.
    let prior = map
        .ymap_insert(&mut doc, &tx, &HostValue::Sym(String::from("x")), &HostValue::Int(9))
        .unwrap();
    assert_eq!(prior, HostValue::Nil);
    assert_eq!(
        map.ymap_get(&doc, &tx, &HostValue::Str(String::from("x"))).unwrap(),
        HostValue::Int(9)
    );
    // And the other way round.
    map.ymap_insert(&mut doc, &tx, &HostValue::Str(String::from("y")), &HostValue::Int(5))
        .unwrap();
    assert_eq!(
        map.ymap_get(&doc, &tx, &HostValue::Sym(String::from("y"))).unwrap(),
        HostValue::Int(5)
    );
    // Insert-overwrite returns the prior value.
    let prior = map
        .ymap_insert(&mut doc, &tx, &HostValue::Str(String::from("x")), &HostValue::Int(10))
        .unwrap();
    assert_eq!(prior, HostValue::Int(9));
    // All enumerated keys are strings.
    match map.ymap_to_h(&doc, &tx).unwrap() {
        HostValue::Dict(pairs) => {
            assert_eq!(pairs.len(), 2);
            for p in &pairs {
                assert!(matches!(&p.key, HostValue::Str(_)));
            }
        }
        other => panic!("expected a map, got {:?}", other),
    }
    // Removing an absent key returns nil rather than failing.
    assert_eq!(
        map.ymap_remove(&mut doc, &tx, &HostValue::Str(String::from("absent"))).unwrap(),
        HostValue::Nil
    );
    // Removing a present key returns its value.
    assert_eq!(
        map.ymap_remove(&mut doc, &tx, &HostValue::Sym(String::from("x"))).unwrap(),
        HostValue::Int(10)
    );
    assert_eq!(map.ymap_size(&doc, &tx).unwrap(), 1);
    assert_eq!(
        map.ymap_contains(&doc, &tx, &HostValue::Str(String::from("y"))).unwrap(),
        true
    );
    assert_eq!(
        map.ymap_contains(&doc, &tx, &HostValue::Int(3)).unwrap(),
        false
    );
    tx.ytransaction_commit(&mut doc).unwrap();
}

#[test]
fn observer_delivery_order_and_content() {
    let mut doc = YDoc::ydoc_new(Some(5));
    let text = doc.ydoc_get_or_insert_text("t").unwrap();
    let sub1 = text.ytext_observe(&mut doc).unwrap();
    let sub2 = text.ytext_observe(&mut doc).unwrap();
    assert!(sub1 < sub2);
    let tx = doc.ydoc_transact().unwrap();
    text.ytext_insert(&mut doc, &tx, 0, "ab").unwrap();
    text.ytext_insert(&mut doc, &tx, 2, "cd").unwrap();
    text.ytext_remove_range(&mut doc, &tx, 1, 1).unwrap();
    assert_eq!(text.ytext_to_s(&doc, &tx).unwrap(), String::from("acd"));
    let events: Vec<ObserverEvent> = tx.ytransaction_commit(&mut doc).unwrap();
    // Both observers fire exactly once, in registration order.
    assert_eq!(events.len(), 2);
    assert_eq!(events[0].subscription, sub1);
    assert_eq!(events[1].subscription, sub2);
    for ev in &events {
        match &ev.payload {
            ChangePayload::Text(runs) => {
                assert_eq!(decode_text_payload("", runs), String::from("acd"));
            }
            _ => panic!("expected a text payload"),
        }
    }
    // After unobserving, a change fires only the remaining observer.
    text.ytext_unobserve(&mut doc, sub1);
    let tx2 = doc.ydoc_transact().unwrap();
    text.ytext_push(&mut doc, &tx2, "!").unwrap();
    let events2 = tx2.ytransaction_commit(&mut doc).unwrap();
    assert_eq!(events2.len(), 1);
    assert_eq!(events2[0].subscription, sub2);
    // Unobserving an unknown subscription is a no-op.
    text.ytext_unobserve(&mut doc, 999);
}

#[test]
fn observers_survive_proxy_reacquisition() {
    let mut doc = YDoc::ydoc_new(Some(6));
    let text = doc.ydoc_get_or_insert_text("t").unwrap();
    let sub = text.ytext_observe(&mut doc).unwrap();
    // Re-obtain the container by name; the subscription still fires.
    let again = doc.ydoc_get_or_insert_text("t").unwrap();
    let tx = doc.ydoc_transact().unwrap();
    again.ytext_insert(&mut doc, &tx, 0, "hi").unwrap();
    let events = tx.ytransaction_commit(&mut doc).unwrap();
    assert_eq!(events.len(), 1);
    assert_eq!(events[0].subscription, sub);
}

#[test]
fn array_observer_payload() {
    let mut doc = YDoc::ydoc_new(Some(8));
    let arr = doc.ydoc_get_or_insert_array("a").unwrap();
    let sub = arr.yarray_observe(&mut doc).unwrap();
    let tx = doc.ydoc_transact().unwrap();
    arr.yarray_push_back(&mut doc, &tx, &HostValue::Int(1)).unwrap();
    arr.yarray_push_back(&mut doc, &tx, &HostValue::Int(2)).unwrap();
    let events = tx.ytransaction_commit(&mut doc).unwrap();
    assert_eq!(events.len(), 1);
    assert_eq!(events[0].subscription, sub);
    match &events[0].payload {
        ChangePayload::Sequence(runs) => {
            let mut added: Vec<HostValue> = Vec::new();
            for run in runs {
                if let Run::Added(vs) = run {
                    for v in vs {
                        match v {
                            HostValue::Int(i) => added.push(HostValue::Int(*i)),
                            other => panic!("unexpected value {:?}", other),
                        }
                    }
                }
            }
            assert_eq!(added, vec![HostValue::Int(1), HostValue::Int(2)]);
        }
        _ => panic!("expected a sequence payload"),
    }
}

#[test]
fn update_round_trip_converges() {
    let mut doc1 = YDoc::ydoc_new(Some(11));
    let mut doc2 = YDoc::ydoc_new(Some(12));
    let t1 = doc1.ydoc_get_or_insert_text("shared").unwrap();
    let t2 = doc2.ydoc_get_or_insert_text("shared").unwrap();

    // A scripted sequence of inserts and removes on doc1.
    let tx1 = doc1.ydoc_transact().unwrap();
    t1.ytext_push(&mut doc1, &tx1, "hello, world").unwrap();
    t1.ytext_insert(&mut doc1, &tx1, 0, "H").unwrap();
    t1.ytext_remove_range(&mut doc1, &tx1, 1, 1).unwrap();
    t1.ytext_push(&mut doc1, &tx1, "!").unwrap();
    let s1 = t1.ytext_to_s(&doc1, &tx1).unwrap();
    assert_eq!(s1, String::from("Hello, world!"));

    // doc2 tells doc1 how much it has seen; doc1 answers with a diff.
    let tx2 = doc2.ydoc_transact().unwrap();
    let sv2 = tx2.ytransaction_state_vector(&doc2).unwrap();
    let update = doc1.ydoc_encode_diff_v1(&tx1, &sv2).unwrap();
    tx1.ytransaction_commit(&mut doc1).unwrap();

    // Applying the diff converges doc2's container to doc1's contents.
    tx2.ytransaction_apply_update(&mut doc2, &update).unwrap();
    let s2 = t2.ytext_to_s(&doc2, &tx2).unwrap();
    assert_eq!(s2, String::from("Hello, world!"));
    tx2.ytransaction_commit(&mut doc2).unwrap();
}

#[test]
fn malformed_update_is_a_decode_error() {
    let mut doc = YDoc::ydoc_new(Some(13));
    let tx = doc.ydoc_transact().unwrap();
    let garbage = vec![255u8, 254, 253, 7, 9];
    match tx.ytransaction_apply_update(&mut doc, &garbage) {
        Err(BridgeError::Decode(_)) => {}
        other => panic!("expected a decode error, got {:?}", other.err()),
    }
    tx.ytransaction_free(&mut doc);
}

#[test]
fn root_name_kind_conflict_is_rejected() {
    let mut doc = YDoc::ydoc_new(Some(14));
    doc.ydoc_get_or_insert_array("a").unwrap();
    match doc.ydoc_get_or_insert_text("a") {
        Err(BridgeError::Conversion(_)) => {}
        other => panic!("expected a conversion error, got {:?}", other.err()),
    }
}

#[test]
fn text_lengths_count_code_points() {
    let mut doc = YDoc::ydoc_new(Some(15));
    let text = doc.ydoc_get_or_insert_text("t").unwrap();
    let tx = doc.ydoc_transact().unwrap();
    text.ytext_insert(&mut doc, &tx, 0, "héllo").unwrap();
    assert_eq!(text.ytext_length(&doc, &tx).unwrap(), 5);
    text.ytext_remove_range(&mut doc, &tx, 1, 1).unwrap();
    assert_eq!(text.ytext_to_s(&doc, &tx).unwrap(), String::from("hllo"));
    tx.ytransaction_commit(&mut doc).unwrap();
}

#[test]
fn awareness_local_state_lifecycle() {
    let mut aw = yrb::yawareness::YAwareness::yawareness_new();
    assert!(aw.yawareness_local_state().is_none());
    let s1 = aw.yawareness_on_update().unwrap();
    let s2 = aw.yawareness_on_update().unwrap();
    let notified = aw.yawareness_set_local_state(String::from("{\"cursor\":1}"));
    assert_eq!(notified, vec![s1, s2]);
    assert_eq!(
        aw.yawareness_local_state(),
        Some(String::from("{\"cursor\":1}"))
    );
    aw.yawareness_remove_on_update(s1);
    let notified = aw.yawareness_clean_local_state();
    assert_eq!(notified, vec![s2]);
    assert!(aw.yawareness_local_state().is_none());
    // Removing an unknown subscription is a no-op.
    aw.yawareness_remove_on_update(12345);
}

#[test]
fn embeds_and_formatting() {
    let mut doc = YDoc::ydoc_new(Some(16));
    let text = doc.ydoc_get_or_insert_text("t").unwrap();
    let tx = doc.ydoc_transact().unwrap();
    text.ytext_insert(&mut doc, &tx, 0, "ab").unwrap();
    // An embedded payload occupies one position unit and renders no text.
    text.ytext_insert_embed(&mut doc, &tx, 1, &HostValue::Int(7)).unwrap();
    assert_eq!(text.ytext_length(&doc, &tx).unwrap(), 3);
    assert_eq!(text.ytext_to_s(&doc, &tx).unwrap(), String::from("ab"));
    // Formatting keeps the content.
    let attrs = HostValue::Dict(vec![HostPair {
        key: HostValue::Str(String::from("bold")),
        val: HostValue::Bool(true),
    }]);
    text.ytext_format(&mut doc, &tx, 0, 2, &attrs).unwrap();
    assert_eq!(text.ytext_to_s(&doc, &tx).unwrap(), String::from("ab"));
    assert_eq!(text.ytext_length(&doc, &tx).unwrap(), 3);
    // Inserting with attributes keeps the characters.
    text.ytext_insert_with_attributes(&mut doc, &tx, 3, "c", &attrs).unwrap();
    assert_eq!(text.ytext_to_s(&doc, &tx).unwrap(), String::from("abc"));
    // Formatting outside the contents is a bounds error.
    assert!(matches!(
        text.ytext_format(&mut doc, &tx, 3, 5, &attrs),
        Err(BridgeError::Bounds(_))
    ));
    // Non-map attributes are a conversion error.
    assert!(matches!(
        text.ytext_format(&mut doc, &tx, 0, 1, &HostValue::Int(1)),
        Err(BridgeError::Conversion(_))
    ));
    let events = tx.ytransaction_commit(&mut doc).unwrap();
    assert!(events.is_empty());
}

#[test]
fn array_insert_range_and_push_front() {
    let mut doc = YDoc::ydoc_new(Some(17));
    let arr = doc.ydoc_get_or_insert_array("a").unwrap();
    let tx = doc.ydoc_transact().unwrap();
    arr.yarray_push_front(&mut doc, &tx, &HostValue::Int(2)).unwrap();
    arr.yarray_push_front(&mut doc, &tx, &HostValue::Int(0)).unwrap();
    arr.yarray_insert_range(
        &mut doc,
        &tx,
        1,
        &vec![HostValue::Int(1), HostValue::Str(String::from("x"))],
    )
    .unwrap();
    assert_eq!(arr.yarray_to_a(&doc, &tx).unwrap(), vec![
        HostValue::Int(0),
        HostValue::Int(1),
        HostValue::Str(String::from("x")),
        HostValue::Int(2),
    ]);
    tx.ytransaction_commit(&mut doc).unwrap();
}

#[test]
fn update_subscriber_receives_bytes() {
    let mut doc = YDoc::ydoc_new(Some(18));
    let text = doc.ydoc_get_or_insert_text("t").unwrap();
    let sub = doc.ydoc_observe_update().unwrap();
    let tx = doc.ydoc_transact().unwrap();
    text.ytext_push(&mut doc, &tx, "hi").unwrap();
    let events = tx.ytransaction_commit(&mut doc).unwrap();
    let mut saw_update = false;
    for ev in &events {
        if let ChangePayload::Update(bytes) = &ev.payload {
            assert_eq!(ev.subscription, sub);
            assert!(!bytes.is_empty());
            saw_update = true;
        }
    }
    assert!(saw_update);
}

#[test]
fn transaction_getters_find_existing_roots() {
    let mut doc = YDoc::ydoc_new(Some(19));
    doc.ydoc_get_or_insert_text("t").unwrap();
    doc.ydoc_get_or_insert_map("m").unwrap();
    let tx = doc.ydoc_transact().unwrap();
    assert!(tx.ytransaction_get_text(&doc, "t").is_some());
    assert!(tx.ytransaction_get_map(&doc, "m").is_some());
    assert!(tx.ytransaction_get_array(&doc, "nope").is_none());
    tx.ytransaction_free(&mut doc);
}

#[test]
fn text_diff_reports_content_and_attributes() {
    let mut doc = YDoc::ydoc_new(Some(20));
    let text = doc.ydoc_get_or_insert_text("t").unwrap();
    let tx = doc.ydoc_transact().unwrap();
    let attrs = HostValue::Dict(vec![HostPair {
        key: HostValue::Str(String::from("bold")),
        val: HostValue::Bool(true),
    }]);
    text.ytext_insert(&mut doc, &tx, 0, "a").unwrap();
    text.ytext_insert_with_attributes(&mut doc, &tx, 1, "b", &attrs).unwrap();
    let diff = text.ytext_diff(&doc, &tx).unwrap();
    assert_eq!(diff.len(), 2);
    assert_eq!(diff[0].ydiff_insert(), &HostValue::Str(String::from("a")));
    assert!(diff[0].ydiff_attrs().is_none());
    assert_eq!(diff[1].ydiff_insert(), &HostValue::Str(String::from("b")));
    match diff[1].ydiff_attrs() {
        Some(HostValue::Dict(pairs)) => {
            assert_eq!(pairs.len(), 1);
            assert_eq!(pairs[0].key, HostValue::Str(String::from("bold")));
            assert_eq!(pairs[0].val, HostValue::Bool(true));
        }
        other => panic!("expected attributes, got {:?}", other),
    }
    tx.ytransaction_free(&mut doc);
}

#[test]
fn map_clear_empties_the_container() {
    let mut doc = YDoc::ydoc_new(Some(21));
    let map = doc.ydoc_get_or_insert_map("m").unwrap();
    let tx = doc.ydoc_transact().unwrap();
    for (k, v) in [("a", 1i64), ("b", 2), ("c", 3)] {
        map.ymap_insert(&mut doc, &tx, &HostValue::Str(String::from(k)), &HostValue::Int(v))
            .unwrap();
    }
    assert_eq!(map.ymap_size(&doc, &tx).unwrap(), 3);
    map.ymap_clear(&mut doc, &tx).unwrap();
    assert_eq!(map.ymap_size(&doc, &tx).unwrap(), 0);
    assert_eq!(
        map.ymap_get(&doc, &tx, &HostValue::Str(String::from("a"))).unwrap(),
        HostValue::Nil
    );
    tx.ytransaction_commit(&mut doc).unwrap();
}

#[test]
fn insert_beyond_length_is_a_bounds_error() {
    let mut doc = YDoc::ydoc_new(Some(7));
    let arr = doc.ydoc_get_or_insert_array("a").unwrap();
    let text = doc.ydoc_get_or_insert_text("t").unwrap();
    let tx = doc.ydoc_transact().unwrap();
    match arr.yarray_insert(&mut doc, &tx, 3, &HostValue::Int(1)) {
        Err(BridgeError::Bounds(_)) => {}
        other => panic!("expected a bounds error, got {:?}", other),
    }
    match text.ytext_insert(&mut doc, &tx, 3, "x") {
        Err(BridgeError::Bounds(_)) => {}
        other => panic!("expected a bounds error, got {:?}", other),
    }
    tx.ytransaction_free(&mut doc);
}

#[test]
fn freeing_reopens_the_writer_slot() {
    let mut doc = YDoc::ydoc_new(Some(8));
    let tx1 = doc.ydoc_transact().unwrap();
    tx1.ytransaction_free(&mut doc);
    let tx2 = doc.ydoc_transact().unwrap();
    // Freeing a stale handle leaves the open transaction in place.
    tx1.ytransaction_free(&mut doc);
    let t = doc.ydoc_get_or_insert_text("t");
    assert!(t.is_err());
    tx2.ytransaction_free(&mut doc);
    assert!(doc.ydoc_get_or_insert_text("t").is_ok());
}

#[test]
fn xml_element_observers_register_and_retire() {
    let mut doc = YDoc::ydoc_new(Some(9));
    let el = yrb::yxml::YXmlElement {
        name: String::from("root"),
    };
    let sub = el.yxml_element_observe(&mut doc).unwrap();
    el.yxml_element_unobserve(&mut doc, sub);
    // A retired or unknown identifier is a no-op.
    el.yxml_element_unobserve(&mut doc, sub);
    el.yxml_element_unobserve(&mut doc, 404);
}
