use clip_history::record::Record;
use clip_history::store::{SqliteDB, StoreError, Write, MAX_ID};

fn contents(rs: &[Record]) -> Vec<String> {
    rs.iter().map(|r| r.content.clone()).collect()
}

#[test]
fn test_sqlite_insert() {
    let mut db = SqliteDB::new();
    let r = Record {
        content: "123456".to_string(),
        md5: "e10adc3949ba59abbe56e057f20f883e".to_string(),
        create_time: 1234568,
        ..Default::default()
    };
    assert_eq!(db.insert_record(r).unwrap(), 1_i64)
}

#[test]
fn test_find_by_md5() {
    let b = SqliteDB::new().find_by_key("r".to_string(), 10);
    println!("{:?}", b);
    assert!(b.is_empty());
}

#[test]
fn insert_record_fills_fields_and_refuses_duplicates() {
    let mut db = SqliteDB::new();
    let r = Record { content: "123456".to_string(), is_favorite: true, ..Default::default() };
    assert_eq!(db.insert_record(r), Ok(1));
    assert_eq!(db.add(), 1);
    let all = db.find_all();
    assert_eq!(all.len(), 1);
    assert_eq!(all[0].md5, "e10adc3949ba59abbe56e057f20f883e");
    assert!(all[0].is_favorite);
    let again = Record { content: "123456".to_string(), ..Default::default() };
    assert_eq!(db.insert_record(again), Err(StoreError::DuplicateFingerprint));
    assert_eq!(db.count(), 1);
}

#[test]
fn two_contents_one_repeated() {
    let mut db = SqliteDB::new();
    db.insert_or_touch("a".to_string(), 10).unwrap();
    db.insert_or_touch("b".to_string(), 20).unwrap();
    let w = db.insert_or_touch("a".to_string(), 30).unwrap();
    assert_eq!(w, Write::Touched { id: 1, create_time: 30 });
    let all = db.find_all();
    assert_eq!(all.len(), 2);
    assert_eq!(contents(&all), vec!["a".to_string(), "b".to_string()]);
    assert_eq!(all[0].id, 1);
    assert_eq!(all[0].create_time, 30);
    assert_eq!(all[1].id, 2);
}

#[test]
fn saving_twice_keeps_one_row() {
    let mut db = SqliteDB::new();
    let first = db.insert_or_touch("hello".to_string(), 100).unwrap();
    let id = match first {
        Write::Inserted { record } => {
            assert_eq!(record.create_time, 100);
            assert!(!record.is_favorite);
            record.id
        }
        Write::Touched { .. } => panic!("first save must insert"),
    };
    let second = db.insert_or_touch("hello".to_string(), 250).unwrap();
    assert_eq!(second, Write::Touched { id, create_time: 250 });
    let all = db.find_all();
    assert_eq!(all.len(), 1);
    assert_eq!(all[0].id, id);
    assert_eq!(all[0].create_time, 250);
}

#[test]
fn insert_if_not_exist_uses_the_clock() {
    let mut db = SqliteDB::new();
    let r = Record { content: "clip".to_string(), ..Default::default() };
    db.insert_if_not_exist(r).unwrap();
    let r = Record { content: "clip".to_string(), ..Default::default() };
    match db.insert_if_not_exist(r).unwrap() {
        Write::Touched { id, .. } => assert_eq!(id, 1),
        Write::Inserted { .. } => panic!("second save must touch"),
    }
    assert_eq!(db.count(), 1);
}

#[test]
fn listing_is_newest_first_with_ties_by_id() {
    let mut db = SqliteDB::new();
    db.insert_or_touch("old".to_string(), 5).unwrap();
    db.insert_or_touch("tie1".to_string(), 50).unwrap();
    db.insert_or_touch("tie2".to_string(), 50).unwrap();
    db.insert_or_touch("mid".to_string(), 20).unwrap();
    let all = db.find_all();
    assert_eq!(contents(&all), vec!["tie2", "tie1", "mid", "old"]);
    for w in all.windows(2) {
        assert!(w[0].create_time >= w[1].create_time);
    }
    assert!(all.iter().all(|r| r.content_highlight.is_none()));
}

#[test]
fn search_filters_limits_and_highlights() {
    let mut db = SqliteDB::new();
    db.insert_or_touch("banana".to_string(), 1).unwrap();
    db.insert_or_touch("apple".to_string(), 2).unwrap();
    db.insert_or_touch("cherry".to_string(), 3).unwrap();
    db.insert_or_touch("grape".to_string(), 4).unwrap();
    let hits = db.find_by_key("a".to_string(), 10);
    assert_eq!(contents(&hits), vec!["grape", "apple", "banana"]);
    assert_eq!(hits[2].content_highlight.as_deref(), Some("b<mark>a</mark>n<mark>a</mark>n<mark>a</mark>"));
    assert_eq!(hits[0].content_highlight.as_deref(), Some("gr<mark>a</mark>pe"));
    let two = db.find_by_key("a".to_string(), 2);
    assert_eq!(contents(&two), vec!["grape", "apple"]);
    assert!(db.find_by_key("zzz".to_string(), 10).is_empty());
    assert!(db.find_by_key("a".to_string(), 0).is_empty());
}

#[test]
fn search_with_empty_key_matches_every_row() {
    let mut db = SqliteDB::new();
    db.insert_or_touch("x".to_string(), 1).unwrap();
    db.insert_or_touch("y".to_string(), 2).unwrap();
    db.insert_or_touch("z".to_string(), 3).unwrap();
    let hits = db.find_by_key(String::new(), 2);
    assert_eq!(contents(&hits), vec!["z", "y"]);
    assert_eq!(hits[0].content_highlight.as_deref(), Some("z"));
}

#[test]
fn search_is_literal_and_case_sensitive() {
    let mut db = SqliteDB::new();
    db.insert_or_touch("100%".to_string(), 1).unwrap();
    db.insert_or_touch("Hello".to_string(), 2).unwrap();
    assert_eq!(contents(&db.find_by_key("%".to_string(), 10)), vec!["100%"]);
    assert!(db.find_by_key("hello".to_string(), 10).is_empty());
    assert!(db.find_by_key("_".to_string(), 10).is_empty());
}

#[test]
fn eviction_of_151_rows_to_capacity_100() {
    let mut db = SqliteDB::new();
    for i in 0..151u64 {
        db.insert_or_touch(format!("item {}", i), i).unwrap();
    }
    let evicted = db.delete_over_limit(100);
    assert_eq!(db.count(), 100);
    assert_eq!(evicted, (1..=51).collect::<Vec<u64>>());
    let ids: Vec<u64> = db.find_all().iter().map(|r| r.id).collect();
    assert_eq!(*ids.iter().min().unwrap(), 52);
    assert_eq!(*ids.iter().max().unwrap(), 151);
}

#[test]
fn eviction_waits_for_the_margin() {
    let mut db = SqliteDB::new();
    for i in 0..150u64 {
        db.insert_or_touch(format!("item {}", i), i).unwrap();
    }
    assert!(db.delete_over_limit(100).is_empty());
    assert_eq!(db.count(), 150);
    assert!(db.delete_over_limit(200).is_empty());
    assert_eq!(db.count(), 150);
}

#[test]
fn touched_row_survives_when_margin_not_exceeded() {
    let mut db = SqliteDB::new();
    db.insert_or_touch("x".to_string(), 1).unwrap();
    for i in 0..60u64 {
        db.insert_or_touch(format!("other {}", i), 10 + i).unwrap();
    }
    assert_eq!(db.insert_or_touch("x".to_string(), 1000).unwrap(), Write::Touched { id: 1, create_time: 1000 });
    assert!(db.delete_over_limit(50).is_empty());
    assert_eq!(db.count(), 61);
    let all = db.find_all();
    assert_eq!(all[0].content, "x");
    assert_eq!(all[0].id, 1);
}

#[test]
fn eviction_by_id_drops_a_recently_touched_row() {
    let mut db = SqliteDB::new();
    db.insert_or_touch("x".to_string(), 1).unwrap();
    for i in 0..110u64 {
        db.insert_or_touch(format!("other {}", i), 10 + i).unwrap();
    }
    db.insert_or_touch("x".to_string(), 1000).unwrap();
    let evicted = db.delete_over_limit(50);
    assert_eq!(evicted.len(), 61);
    assert_eq!(evicted[0], 1);
    assert_eq!(db.count(), 50);
    assert!(db.find_all().iter().all(|r| r.content != "x"));
}

#[test]
fn favorites_are_one_way_and_survive_touches() {
    let mut db = SqliteDB::new();
    db.insert_or_touch("a".to_string(), 1).unwrap();
    db.insert_or_touch("b".to_string(), 2).unwrap();
    assert!(db.mark_favorite(1));
    assert!(db.mark_favorite(1));
    db.insert_or_touch("a".to_string(), 3).unwrap();
    let all = db.find_all();
    assert_eq!(all[0].content, "a");
    assert!(all[0].is_favorite);
    assert!(!all[1].is_favorite);
    assert!(db.find_by_key("a".to_string(), 5)[0].is_favorite);
}

#[test]
fn favorite_of_unknown_id_changes_nothing() {
    let mut db = SqliteDB::new();
    db.insert_or_touch("a".to_string(), 1).unwrap();
    assert!(!db.mark_favorite(42));
    assert!(!db.find_all()[0].is_favorite);
}

#[test]
fn clear_keeps_the_id_counter() {
    let mut db = SqliteDB::new();
    db.insert_or_touch("a".to_string(), 1).unwrap();
    db.insert_or_touch("b".to_string(), 2).unwrap();
    db.clear_data();
    assert_eq!(db.count(), 0);
    assert!(db.find_all().is_empty());
    match db.insert_or_touch("a".to_string(), 3).unwrap() {
        Write::Inserted { record } => assert_eq!(record.id, 3),
        Write::Touched { .. } => panic!("a cleared row cannot be touched"),
    }
}

#[test]
fn ids_run_out_at_the_largest_rowid() {
    let mut db = SqliteDB::with_next_id(MAX_ID);
    assert_eq!(db.insert_or_touch("a".to_string(), 1), Err(StoreError::IdsExhausted));
    assert_eq!(db.count(), 0);
    let r = Record { content: "a".to_string(), ..Default::default() };
    assert_eq!(db.insert_record(r), Err(StoreError::IdsExhausted));
}

#[test]
fn restore_checks_order_and_fingerprints() {
    let mut db = SqliteDB::with_next_id(1);
    let row = |id: u64, c: &str| Record {
        id,
        content: c.to_string(),
        create_time: id * 10,
        is_favorite: id == 7,
        ..Default::default()
    };
    assert_eq!(db.restore_row(row(3, "a")), Ok(()));
    assert_eq!(db.restore_row(row(7, "b")), Ok(()));
    assert_eq!(db.restore_row(row(5, "c")), Err(StoreError::RowOutOfOrder));
    assert_eq!(db.restore_row(row(9, "a")), Err(StoreError::DuplicateFingerprint));
    assert_eq!(db.restore_row(row(MAX_ID, "d")), Err(StoreError::RowOutOfOrder));
    let all = db.find_all();
    assert_eq!(contents(&all), vec!["b", "a"]);
    assert!(all[0].is_favorite);
    assert_eq!(all[1].md5, clip_history::text::fingerprint("a"));
    match db.insert_or_touch("new".to_string(), 100).unwrap() {
        Write::Inserted { record } => assert_eq!(record.id, 8),
        Write::Touched { .. } => panic!("new content must insert"),
    }
}

#[test]
fn find_by_id_in_returns_rows_in_id_order() {
    let mut db = SqliteDB::new();
    for c in ["a", "b", "c", "d"] {
        db.insert_or_touch(c.to_string(), 1).unwrap();
    }
    let rows = db.find_by_id_in(&vec![4, 2, 9]);
    assert_eq!(rows.iter().map(|r| r.id).collect::<Vec<u64>>(), vec![2, 4]);
    assert!(db.find_by_id_in(&vec![]).is_empty());
}
