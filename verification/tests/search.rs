use feather_db::DbError;
use feather_db::DB;

fn bits(v: &[f32]) -> Vec<u32> {
    v.iter().map(|x| x.to_bits()).collect()
}

fn squared_distance(a: &Vec<u32>, b: &Vec<u32>) -> u32 {
    let mut sum = 0.0f32;
    for i in 0..a.len() {
        let d = f32::from_bits(a[i]) - f32::from_bits(b[i]);
        sum += d * d;
    }
    sum.to_bits()
}

fn distances(scores: &[u32]) -> Vec<f32> {
    scores.iter().map(|s| f32::from_bits(*s)).collect()
}

fn sample() -> DB {
    let mut db = DB::new(2);
    db.add_with_meta(1, &bits(&[0.0, 0.0]), 0, 0, 2, Some("web"), None, "text").unwrap();
    db.add_with_meta(2, &bits(&[3.0, 4.0]), 0, 0, 2, Some("cli"), None, "text").unwrap();
    db.add_with_meta(3, &bits(&[1.0, 0.0]), 0, 0, 1, Some("web"), None, "text").unwrap();
    db.add_with_meta(4, &bits(&[0.0, 1.0]), 0, 0, 1, None, None, "text").unwrap();
    db.add_with_meta(5, &bits(&[0.0, 0.0]), 0, 0, 2, Some("web"), None, "image").unwrap();
    db
}

#[test]
fn search_pads_with_sentinels() {
    let mut db = DB::new(2);
    db.add(10, &bits(&[1.0, 0.0])).unwrap();
    db.add(20, &bits(&[0.0, 2.0])).unwrap();
    let (ids, dists) = db.search(&bits(&[0.0, 0.0]), 5, "text", squared_distance).unwrap();
    assert_eq!(ids, vec![10, 20, 0, 0, 0]);
    assert_eq!(distances(&dists), vec![1.0, 4.0, 0.0, 0.0, 0.0]);
    assert_eq!(&dists[2..], &[0, 0, 0]);
}

#[test]
fn search_ranks_by_distance_then_id() {
    let db = sample();
    let (ids, dists) = db.search(&bits(&[0.0, 0.0]), 4, "text", squared_distance).unwrap();
    assert_eq!(ids, vec![1, 3, 4, 2]);
    assert_eq!(distances(&dists), vec![0.0, 1.0, 1.0, 25.0]);
    let (ids, dists) = db.search(&bits(&[0.0, 0.0]), 2, "text", squared_distance).unwrap();
    assert_eq!(ids, vec![1, 3]);
    assert_eq!(distances(&dists), vec![0.0, 1.0]);
}

#[test]
fn search_with_wrong_length_fails() {
    let db = sample();
    let before = db.save();
    assert_eq!(
        db.search(&bits(&[0.0]), 3, "text", squared_distance),
        Err(DbError::DimensionMismatch)
    );
    assert_eq!(
        db.search(&bits(&[0.0, 0.0, 0.0]), 3, "text", squared_distance),
        Err(DbError::DimensionMismatch)
    );
    assert_eq!(
        db.search_with_filter(&Vec::new(), 3, Some(2), Some("web"), "text", squared_distance),
        Err(DbError::DimensionMismatch)
    );
    assert_eq!(
        db.search(&bits(&[0.0]), 0, "nothing", squared_distance),
        Err(DbError::DimensionMismatch)
    );
    assert_eq!(db.save(), before);
}

#[test]
fn search_with_k_zero_is_empty() {
    let db = sample();
    let (ids, dists) = db.search(&bits(&[0.0, 0.0]), 0, "text", squared_distance).unwrap();
    assert!(ids.is_empty());
    assert!(dists.is_empty());
}

#[test]
fn search_is_scoped_to_the_modality() {
    let db = sample();
    let (ids, _) = db.search(&bits(&[0.0, 0.0]), 3, "image", squared_distance).unwrap();
    assert_eq!(ids, vec![5, 0, 0]);
    let (ids, dists) = db.search(&bits(&[0.0, 0.0]), 3, "audio", squared_distance).unwrap();
    assert_eq!(ids, vec![0, 0, 0]);
    assert_eq!(dists, vec![0, 0, 0]);
}

#[test]
fn search_filters_conjunctively() {
    let db = sample();
    let q = bits(&[0.0, 0.0]);
    let (ids, _) =
        db.search_with_filter(&q, 4, Some(2), Some("cli"), "text", squared_distance).unwrap();
    assert_eq!(ids, vec![2, 0, 0, 0]);
    let (ids, _) =
        db.search_with_filter(&q, 4, Some(2), Some("web"), "text", squared_distance).unwrap();
    assert_eq!(ids, vec![1, 0, 0, 0]);
    let (ids, _) = db.search_with_filter(&q, 4, Some(2), None, "text", squared_distance).unwrap();
    assert_eq!(ids, vec![1, 2, 0, 0]);
    let (ids, _) =
        db.search_with_filter(&q, 4, None, Some("web"), "text", squared_distance).unwrap();
    assert_eq!(ids, vec![1, 3, 0, 0]);
    let (ids, _) =
        db.search_with_filter(&q, 4, Some(1), Some("cli"), "text", squared_distance).unwrap();
    assert_eq!(ids, vec![0, 0, 0, 0]);
    let (ids, _) =
        db.search_with_filter(&q, 4, Some(7), None, "text", squared_distance).unwrap();
    assert_eq!(ids, vec![0, 0, 0, 0]);
}

#[test]
fn search_without_filters_equals_plain_search() {
    let db = sample();
    let q = bits(&[0.5, 0.5]);
    let plain = db.search(&q, 6, "text", squared_distance).unwrap();
    let none = db.search_with_filter(&q, 6, None, None, "text", squared_distance).unwrap();
    let sentinel = db.search_with_filter(&q, 6, Some(255), None, "text", squared_distance).unwrap();
    assert_eq!(plain, none);
    assert_eq!(plain, sentinel);
    assert_eq!(plain.0, vec![1, 3, 4, 2, 0, 0]);
}

#[test]
fn empty_source_filter_matches_only_an_empty_source() {
    let mut db = sample();
    db.add_with_meta(9, &bits(&[9.0, 9.0]), 0, 0, 0, Some(""), None, "text").unwrap();
    let q = bits(&[0.0, 0.0]);
    let (ids, _) = db.search_with_filter(&q, 3, None, Some(""), "text", squared_distance).unwrap();
    assert_eq!(ids, vec![9, 0, 0]);
}

#[test]
fn a_real_match_at_distance_zero_with_id_zero_is_the_sentinel_pair() {
    let mut db = DB::new(1);
    db.add(0, &bits(&[2.0])).unwrap();
    db.add(1, &bits(&[3.0])).unwrap();
    let (ids, dists) = db.search(&bits(&[2.0]), 3, "text", squared_distance).unwrap();
    assert_eq!(ids, vec![0, 1, 0]);
    assert_eq!(dists, vec![0, 1.0f32.to_bits(), 0]);
}

#[test]
fn search_passes_query_and_stored_embedding_to_the_metric() {
    let mut db = DB::new(2);
    db.add(1, &[10, 20]).unwrap();
    db.add(2, &[30, 40]).unwrap();
    let q = vec![1, 2];
    let (ids, dists) = db
        .search(&q, 2, "text", |a: &Vec<u32>, b: &Vec<u32>| 1000 * a[0] + 100 * a[1] + b[0] + b[1])
        .unwrap();
    assert_eq!(ids, vec![1, 2]);
    assert_eq!(dists, vec![1230, 1270]);
    let (ids, dists) =
        db.search(&q, 2, "text", |_: &Vec<u32>, b: &Vec<u32>| 100 - b[0]).unwrap();
    assert_eq!(ids, vec![2, 1]);
    assert_eq!(dists, vec![70, 90]);
}

#[test]
fn search_over_many_entries_returns_the_nearest() {
    let mut db = DB::new(1);
    for i in 0..100u64 {
        db.add(i, &bits(&[i as f32])).unwrap();
    }
    let (ids, dists) = db.search(&bits(&[41.5]), 4, "text", squared_distance).unwrap();
    assert_eq!(ids, vec![41, 42, 40, 43]);
    assert_eq!(distances(&dists), vec![0.25, 0.25, 2.25, 2.25]);
}
