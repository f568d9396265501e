use wiki::cache::{IndexRecord, RootCache};

fn record(doc_type: &str, id: &str, tags: &[&str], from_id: &str, to_id: &str) -> IndexRecord {
    IndexRecord {
        doc_type: doc_type.to_string(),
        id: id.to_string(),
        tags: tags.iter().map(|t| t.to_string()).collect(),
        from_id: from_id.to_string(),
        to_id: to_id.to_string(),
    }
}

fn drain_only(cache: &mut RootCache<(), ()>, id: &str) -> bool {
    let drained = cache.drain_dirty_pool();
    drained.iter().any(|s| s == id)
}

#[test]
fn mark_pool_dirty_inserts() {
    let mut cache: RootCache<(), ()> = RootCache::new();
    let id = "test-dirty-mark-x-unique-1";
    cache.mark_pool_dirty(id);
    let drained = cache.drain_dirty_pool();
    assert!(drained.iter().any(|s| s == id), "marked id should appear in drain");
}

#[test]
fn drain_clears_set() {
    let mut cache: RootCache<(), ()> = RootCache::new();
    let id = "test-dirty-clear-y-unique-2";
    cache.mark_pool_dirty(id);
    let first = cache.drain_dirty_pool();
    assert!(first.iter().any(|s| s == id));
    let second = cache.drain_dirty_pool();
    assert!(!second.iter().any(|s| s == id), "second drain leaked id");
}

#[test]
fn on_doc_changed_marks_dirty() {
    let mut cache: RootCache<(), ()> = RootCache::new();
    let id = "test-on-changed-z-unique-3";
    cache.on_doc_changed(id, "thoughts");
    assert!(drain_only(&mut cache, id), "on_doc_changed must mark dirty");
}

#[test]
fn on_doc_deleted_marks_dirty() {
    let mut cache: RootCache<(), ()> = RootCache::new();
    let id = "test-on-deleted-w-unique-4";
    cache.on_doc_deleted(id, "thoughts");
    assert!(drain_only(&mut cache, id), "on_doc_deleted must mark dirty");
}

#[test]
fn tag_index_returns_docs_with_tag() {
    let mut cache: RootCache<(), ()> = RootCache::new();
    cache.set_index_records(vec![
        record("thoughts", "a", &["x"], "", ""),
        record("thoughts", "b", &["x"], "", ""),
        record("thoughts", "c", &["y"], "", ""),
    ]);
    let hits = cache.tag_index_lookup("x").unwrap();
    assert_eq!(hits.len(), 2);
    assert!(hits.iter().all(|d| d.doc_type == "thoughts"));
}

#[test]
fn tag_index_invalidated_on_create() {
    let mut cache: RootCache<(), ()> = RootCache::new();
    let mut records = vec![record("thoughts", "a", &["t"], "", "")];
    cache.set_index_records(records.clone());
    assert_eq!(cache.tag_index_lookup("t").unwrap().len(), 1);
    records.push(record("thoughts", "b", &["t"], "", ""));
    cache.on_doc_changed("b", "thoughts");
    assert!(cache.tag_index_lookup("t").is_none());
    cache.set_index_records(records);
    assert_eq!(cache.tag_index_lookup("t").unwrap().len(), 2);
}

#[test]
fn tag_index_invalidated_on_delete() {
    let mut cache: RootCache<(), ()> = RootCache::new();
    cache.set_index_records(vec![record("thoughts", "d", &["k"], "", "")]);
    assert_eq!(cache.tag_index_lookup("k").unwrap().len(), 1);
    cache.on_doc_deleted("d", "thoughts");
    assert!(cache.tag_index_lookup("k").is_none());
    cache.set_index_records(vec![]);
    assert_eq!(cache.tag_index_lookup("k").unwrap().len(), 0);
}

#[test]
fn reason_index_from_and_to() {
    let mut cache: RootCache<(), ()> = RootCache::new();
    cache.set_index_records(vec![
        record("entities", "a", &[], "", ""),
        record("entities", "b", &[], "", ""),
        record("reasons", "r", &["reason"], "a", "b"),
    ]);
    let from_a = cache.reason_index_lookup("a").unwrap();
    let to_b = cache.reason_index_lookup("b").unwrap();
    assert!(from_a.from.contains(&"r".to_string()), "expected from-edge on A");
    assert!(to_b.to.contains(&"r".to_string()), "expected to-edge on B");
}

#[test]
fn hash_index_finds_question_by_q_tag() {
    let mut cache: RootCache<(), ()> = RootCache::new();
    cache.set_index_records(vec![record("questions", "q1", &["question", "q-deadbeef"], "", "")]);
    let hits = cache.hash_index_lookup("q-deadbeef").unwrap();
    assert_eq!(hits.len(), 1);
    assert_eq!(hits[0].id, "q1");
    assert_eq!(hits[0].doc_type, "questions");
    assert!(cache.hash_index_lookup("q-nothere").unwrap().is_empty());
}

fn check_purpose_cap_blocks_new_raises() {
    let mut cache: RootCache<(), ()> = RootCache::new();
    let mut records = Vec::new();
    for i in 0..3 {
        let title = format!("Open question #{}?", i);
        let hash = wiki::learn::infra::fnv_question_id(&title);
        records.push(record("questions", &format!("q{}", i), &["question", "phyons", &hash], "", ""));
    }
    cache.set_index_records(records.clone());
    assert_eq!(wiki::learn::raise::count_open_questions_in_purpose(&cache, Some("phyons")), Some(3));
    let hash = wiki::learn::infra::fnv_question_id("Resolved Q?");
    records.push(record("questions", "r", &["question", "phyons", &hash, "resolved"], "", ""));
    cache.set_index_records(records);
    assert_eq!(wiki::learn::raise::count_open_questions_in_purpose(&cache, Some("phyons")), Some(3));
    let cap = wiki::config::count_setting(Some("3"), 25);
    assert_eq!(wiki::learn::raise::raise_slots(cap, 3), 0);
}

#[test]
fn learn_purpose_cap_blocks_new_raises() {
    check_purpose_cap_blocks_new_raises();
}

#[test]
fn raise_purpose_cap_blocks_new_raises() {
    check_purpose_cap_blocks_new_raises();
}
