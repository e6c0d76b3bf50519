use feather_db::entry::{DEFAULT_CONTEXT_TYPE, DEFAULT_IMPORTANCE, DEFAULT_TIMESTAMP};
use feather_db::DbError;
use feather_db::DB;

fn bits(v: &[f32]) -> Vec<u32> {
    v.iter().map(|x| x.to_bits()).collect()
}

fn floats(v: &[u32]) -> Vec<f32> {
    v.iter().map(|x| f32::from_bits(*x)).collect()
}

#[test]
fn new_database_is_empty() {
    let db = DB::new(3);
    assert_eq!(db.dim(), 3);
    assert!(db.get("text", 0).is_none());
    assert_eq!(db.links().len(), 0);
}

#[test]
fn add_stores_default_metadata() {
    let mut db = DB::new(3);
    assert_eq!(db.add(7, &bits(&[1.0, 2.0, 3.0])), Ok(()));
    let e = db.get("text", 7).unwrap();
    assert_eq!(e.id, 7);
    assert_eq!(floats(&e.embedding), vec![1.0, 2.0, 3.0]);
    assert_eq!(e.timestamp, 0);
    assert_eq!(f32::from_bits(e.importance), 1.0);
    assert_eq!(e.context_type, 0);
    assert_eq!(e.source, None);
    assert_eq!(e.content, None);
    assert_eq!(e.modality, "text");
    assert_eq!(DEFAULT_IMPORTANCE, 1.0f32.to_bits());
    assert_eq!(DEFAULT_TIMESTAMP, 0);
    assert_eq!(DEFAULT_CONTEXT_TYPE, 0);
}

#[test]
fn add_with_wrong_length_fails_and_changes_nothing() {
    let mut db = DB::new(3);
    db.add(1, &bits(&[1.0, 2.0, 3.0])).unwrap();
    db.link(1, 2);
    let before = db.save();
    assert_eq!(db.add(2, &bits(&[1.0, 2.0])), Err(DbError::DimensionMismatch));
    assert_eq!(db.add(1, &bits(&[1.0, 2.0, 3.0, 4.0])), Err(DbError::DimensionMismatch));
    assert_eq!(db.add(3, &[]), Err(DbError::DimensionMismatch));
    assert_eq!(
        db.add_with_meta(4, &bits(&[1.0]), 5, 0, 1, Some("web"), Some("x"), "image"),
        Err(DbError::DimensionMismatch)
    );
    assert_eq!(db.save(), before);
    assert!(db.get("text", 2).is_none());
    assert!(db.get("image", 4).is_none());
    assert_eq!(floats(&db.get("text", 1).unwrap().embedding), vec![1.0, 2.0, 3.0]);
}

#[test]
fn adding_an_id_twice_keeps_the_second() {
    let mut db = DB::new(2);
    db.add(5, &bits(&[1.0, 1.0])).unwrap();
    db.add(5, &bits(&[9.0, 8.0])).unwrap();
    assert_eq!(floats(&db.get("text", 5).unwrap().embedding), vec![9.0, 8.0]);
    let (ids, dists) = db.search(&bits(&[9.0, 8.0]), 5, "text", |_, _| 0).unwrap();
    assert_eq!(ids, vec![5, 0, 0, 0, 0]);
    assert_eq!(dists, vec![0, 0, 0, 0, 0]);
    let (ids, _) = db.search(&bits(&[9.0, 8.0]), 5, "text", |_, _| 3).unwrap();
    assert_eq!(ids.iter().filter(|id| **id == 5).count(), 1);
}

#[test]
fn overwrite_replaces_the_metadata_too() {
    let mut db = DB::new(1);
    db.add_with_meta(5, &bits(&[1.0]), 10, 2.0f32.to_bits(), 3, Some("web"), Some("first"), "text")
        .unwrap();
    db.add(5, &bits(&[4.0])).unwrap();
    let e = db.get("text", 5).unwrap();
    assert_eq!(floats(&e.embedding), vec![4.0]);
    assert_eq!(e.timestamp, 0);
    assert_eq!(f32::from_bits(e.importance), 1.0);
    assert_eq!(e.context_type, 0);
    assert_eq!(e.source, None);
    assert_eq!(e.content, None);
}

#[test]
fn add_with_meta_stores_what_it_is_given() {
    let mut db = DB::new(2);
    let r = db.add_with_meta(
        42,
        &bits(&[0.5, -0.5]),
        -1_700_000_000,
        0.25f32.to_bits(),
        9,
        Some("cli"),
        Some("hello world"),
        "audio",
    );
    assert_eq!(r, Ok(()));
    let e = db.get("audio", 42).unwrap();
    assert_eq!(e.id, 42);
    assert_eq!(floats(&e.embedding), vec![0.5, -0.5]);
    assert_eq!(e.timestamp, -1_700_000_000);
    assert_eq!(f32::from_bits(e.importance), 0.25);
    assert_eq!(e.context_type, 9);
    assert_eq!(e.source.as_deref(), Some("cli"));
    assert_eq!(e.content.as_deref(), Some("hello world"));
    assert_eq!(e.modality, "audio");
    assert!(db.get("text", 42).is_none());
}

#[test]
fn absent_and_empty_text_stay_distinct() {
    let mut db = DB::new(1);
    db.add_with_meta(1, &[0], 0, 0, 0, None, Some(""), "text").unwrap();
    db.add_with_meta(2, &[0], 0, 0, 0, Some(""), None, "text").unwrap();
    assert_eq!(db.get("text", 1).unwrap().source, None);
    assert_eq!(db.get("text", 1).unwrap().content, Some(String::new()));
    assert_eq!(db.get("text", 2).unwrap().source, Some(String::new()));
    assert_eq!(db.get("text", 2).unwrap().content, None);
}

#[test]
fn ids_are_unique_per_modality_only() {
    let mut db = DB::new(1);
    db.add_with_meta(1, &bits(&[1.0]), 0, 0, 0, None, None, "text").unwrap();
    db.add_with_meta(1, &bits(&[2.0]), 0, 0, 0, None, None, "image").unwrap();
    assert_eq!(floats(&db.get("text", 1).unwrap().embedding), vec![1.0]);
    assert_eq!(floats(&db.get("image", 1).unwrap().embedding), vec![2.0]);
    db.add_with_meta(1, &bits(&[3.0]), 0, 0, 0, None, None, "image").unwrap();
    assert_eq!(floats(&db.get("text", 1).unwrap().embedding), vec![1.0]);
    assert_eq!(floats(&db.get("image", 1).unwrap().embedding), vec![3.0]);
}

#[test]
fn entries_can_be_added_in_any_order() {
    let mut db = DB::new(1);
    let ids = [50u64, 3, 77, 0, u64::MAX, 12, 3, 51, 49, 77];
    for (n, id) in ids.iter().enumerate() {
        db.add(*id, &[n as u32]).unwrap();
    }
    assert_eq!(db.get("text", 50).unwrap().embedding, vec![0]);
    assert_eq!(db.get("text", 3).unwrap().embedding, vec![6]);
    assert_eq!(db.get("text", 77).unwrap().embedding, vec![9]);
    assert_eq!(db.get("text", 0).unwrap().embedding, vec![3]);
    assert_eq!(db.get("text", u64::MAX).unwrap().embedding, vec![4]);
    assert_eq!(db.get("text", 12).unwrap().embedding, vec![5]);
    assert_eq!(db.get("text", 51).unwrap().embedding, vec![7]);
    assert_eq!(db.get("text", 49).unwrap().embedding, vec![8]);
    assert!(db.get("text", 1).is_none());
    assert!(db.get("text", 52).is_none());
}

#[test]
fn dimension_zero_takes_empty_vectors_only() {
    let mut db = DB::new(0);
    assert_eq!(db.add(1, &[]), Ok(()));
    assert_eq!(db.add(2, &[1]), Err(DbError::DimensionMismatch));
    assert_eq!(db.get("text", 1).unwrap().embedding, Vec::<u32>::new());
}

#[test]
fn modality_names_are_exact() {
    let mut db = DB::new(1);
    db.add_with_meta(1, &[1], 0, 0, 0, None, None, "").unwrap();
    db.add_with_meta(1, &[2], 0, 0, 0, None, None, "Text").unwrap();
    db.add_with_meta(1, &[3], 0, 0, 0, None, None, "t\u{e9}xt").unwrap();
    assert!(db.get("text", 1).is_none());
    assert_eq!(db.get("", 1).unwrap().embedding, vec![1]);
    assert_eq!(db.get("Text", 1).unwrap().embedding, vec![2]);
    assert_eq!(db.get("t\u{e9}xt", 1).unwrap().embedding, vec![3]);
}

#[test]
fn close_releases_without_saving() {
    let mut db = DB::new(1);
    db.add(1, &[1]).unwrap();
    db.close();
}

#[test]
fn error_messages_name_the_failure() {
    assert_eq!(DbError::OpenError.message(), "cannot open database");
    assert_eq!(
        DbError::DimensionMismatch.message(),
        "vector length differs from the database dimension"
    );
    assert_eq!(DbError::CorruptData.message(), "stored database is corrupt");
}
