use feather_db::codec::serialize;
use feather_db::decoder::deserialize;
use feather_db::format::{
    from_bits, read_opt_text, read_text, read_u32, read_u64, read_u8, to_bits, write_opt_text,
    write_text, write_u32, write_u64,
};
use feather_db::DbError;
use feather_db::DB;

fn bits(v: &[f32]) -> Vec<u32> {
    v.iter().map(|x| x.to_bits()).collect()
}

fn squared_distance(a: &Vec<u32>, b: &Vec<u32>) -> u32 {
    let mut sum = 0.0f32;
    for i in 0..a.len() {
        let d = f32::from_bits(a[i]) - f32::from_bits(b[i]);
        sum += d * d;
    }
    sum.to_bits()
}

const MAGIC: [u8; 8] = [0x46, 0x45, 0x41, 0x54, 0x48, 0x45, 0x52, 0x01];

fn u64_le(x: u64) -> Vec<u8> {
    x.to_le_bytes().to_vec()
}

fn populated(n: u64, links: u64) -> DB {
    let mut db = DB::new(3);
    for i in 0..n {
        let v = bits(&[i as f32, (i % 7) as f32, 1.0]);
        if i % 2 == 0 {
            db.add_with_meta(i, &v, i as i64 - 50, 0.5f32.to_bits(), (i % 3) as u8, Some("web"), None, "text")
                .unwrap();
        } else {
            db.add_with_meta(i, &v, 0, 1.0f32.to_bits(), (i % 3) as u8, None, Some("picture"), "image")
                .unwrap();
        }
    }
    for j in 0..links {
        db.link(j % 5, (j * 3) % 11);
    }
    db
}

fn same_answers(a: &DB, b: &DB) {
    assert_eq!(a.dim(), b.dim());
    let probes = [[0.0f32, 0.0, 0.0], [10.0, 3.0, 1.0], [99.0, 1.0, 1.0], [-4.0, 2.5, 0.0]];
    for probe in probes {
        let q = bits(&probe);
        for modality in ["text", "image", "audio"] {
            for k in [0usize, 1, 5, 150] {
                assert_eq!(
                    a.search(&q, k, modality, squared_distance),
                    b.search(&q, k, modality, squared_distance)
                );
                assert_eq!(
                    a.search_with_filter(&q, k, Some(1), None, modality, squared_distance),
                    b.search_with_filter(&q, k, Some(1), None, modality, squared_distance)
                );
                assert_eq!(
                    a.search_with_filter(&q, k, None, Some("web"), modality, squared_distance),
                    b.search_with_filter(&q, k, None, Some("web"), modality, squared_distance)
                );
            }
        }
    }
    assert_eq!(a.links().edges(), b.links().edges());
    for id in 0..12u64 {
        assert_eq!(a.links_from(id), b.links_from(id));
        assert_eq!(a.links_to(id), b.links_to(id));
    }
    assert_eq!(a.save(), b.save());
}

#[test]
fn round_trip_of_an_empty_database() {
    let db = populated(0, 0);
    let back = deserialize(&serialize(&db)).unwrap();
    same_answers(&db, &back);
    let linked = populated(0, 4);
    let back = deserialize(&serialize(&linked)).unwrap();
    same_answers(&linked, &back);
    assert_eq!(back.links().len(), 4);
}

#[test]
fn round_trip_of_one_entry() {
    let db = populated(1, 3);
    let back = deserialize(&serialize(&db)).unwrap();
    same_answers(&db, &back);
    let e = back.get("text", 0).unwrap();
    assert_eq!(e.timestamp, -50);
    assert_eq!(f32::from_bits(e.importance), 0.5);
    assert_eq!(e.source.as_deref(), Some("web"));
    assert_eq!(e.content, None);
    assert_eq!(e.modality, "text");
}

#[test]
fn round_trip_of_a_hundred_entries() {
    let db = populated(100, 20);
    let bytes = db.save();
    let back = DB::open(Some(&bytes), 3).unwrap();
    same_answers(&db, &back);
    for i in 0..100u64 {
        let modality = if i % 2 == 0 { "text" } else { "image" };
        let other = if i % 2 == 0 { "image" } else { "text" };
        let e = back.get(modality, i).unwrap();
        assert_eq!(e.embedding, bits(&[i as f32, (i % 7) as f32, 1.0]));
        assert_eq!(e.context_type, (i % 3) as u8);
        assert!(back.get(other, i).is_none());
    }
    let (ids, _) = back.search(&bits(&[10.0, 3.0, 1.0]), 3, "text", squared_distance).unwrap();
    assert_eq!(ids, vec![10, 8, 12]);
}

#[test]
fn round_trip_keeps_absent_and_empty_text_apart() {
    let mut db = DB::new(1);
    db.add_with_meta(1, &[0], 0, 0, 0, None, Some(""), "text").unwrap();
    db.add_with_meta(2, &[0], 0, 0, 0, Some(""), None, "text").unwrap();
    db.add_with_meta(3, &[0], i64::MIN, u32::MAX, 255, Some("gr\u{fc}n \u{1f600}"), Some("\0"), "\u{4e2d}")
        .unwrap();
    let back = deserialize(&db.save()).unwrap();
    assert_eq!(back.get("text", 1).unwrap().source, None);
    assert_eq!(back.get("text", 1).unwrap().content, Some(String::new()));
    assert_eq!(back.get("text", 2).unwrap().source, Some(String::new()));
    assert_eq!(back.get("text", 2).unwrap().content, None);
    let e = back.get("\u{4e2d}", 3).unwrap();
    assert_eq!(e.timestamp, i64::MIN);
    assert_eq!(e.importance, u32::MAX);
    assert_eq!(e.context_type, 255);
    assert_eq!(e.source.as_deref(), Some("gr\u{fc}n \u{1f600}"));
    assert_eq!(e.content.as_deref(), Some("\0"));
    assert_eq!(back.save(), db.save());
}

#[test]
fn empty_database_has_these_bytes() {
    let db = DB::new(3);
    let mut expected = MAGIC.to_vec();
    expected.extend(u64_le(3));
    expected.extend(u64_le(0));
    expected.extend(u64_le(0));
    assert_eq!(serialize(&db), expected);
    assert_eq!(
        db.save(),
        vec![
            0x46, 0x45, 0x41, 0x54, 0x48, 0x45, 0x52, 0x01, 3, 0, 0, 0, 0, 0, 0, 0, 0, 0, 0, 0, 0,
            0, 0, 0, 0, 0, 0, 0, 0, 0, 0, 0
        ]
    );
}

#[test]
fn small_database_has_these_bytes() {
    let mut db = DB::new(1);
    db.add_with_meta(7, &bits(&[1.0]), -1, 0.5f32.to_bits(), 2, Some("web"), None, "img").unwrap();
    db.link(1, 2);
    let expected: Vec<u8> = vec![
        0x46, 0x45, 0x41, 0x54, 0x48, 0x45, 0x52, 0x01, // magic
        1, 0, 0, 0, 0, 0, 0, 0, // dimension
        1, 0, 0, 0, 0, 0, 0, 0, // partitions
        3, 0, 0, 0, 0, 0, 0, 0, 0x69, 0x6d, 0x67, // modality
        1, 0, 0, 0, 0, 0, 0, 0, // entries
        7, 0, 0, 0, 0, 0, 0, 0, // id
        0xff, 0xff, 0xff, 0xff, 0xff, 0xff, 0xff, 0xff, // timestamp
        0x00, 0x00, 0x00, 0x3f, // importance
        2,    // context type
        1, 3, 0, 0, 0, 0, 0, 0, 0, 0x77, 0x65, 0x62, // source
        0,    // content
        0x00, 0x00, 0x80, 0x3f, // embedding
        1, 0, 0, 0, 0, 0, 0, 0, // links
        1, 0, 0, 0, 0, 0, 0, 0, 2, 0, 0, 0, 0, 0, 0, 0,
    ];
    assert_eq!(db.save(), expected);
    let back = deserialize(&expected).unwrap();
    assert_eq!(back.get("img", 7).unwrap().timestamp, -1);
    assert_eq!(back.links_from(1), vec![2]);
}

#[test]
fn every_truncation_is_corrupt() {
    let bytes = populated(5, 3).save();
    for cut in 0..bytes.len() {
        assert_eq!(deserialize(&bytes[..cut]).err(), Some(DbError::CorruptData));
    }
    assert!(deserialize(&bytes).is_ok());
}

#[test]
fn trailing_bytes_are_corrupt() {
    let mut bytes = populated(2, 1).save();
    bytes.push(0);
    assert_eq!(deserialize(&bytes).err(), Some(DbError::CorruptData));
}

#[test]
fn wrong_magic_is_corrupt() {
    let mut bytes = DB::new(2).save();
    bytes[7] = 2;
    assert_eq!(deserialize(&bytes).err(), Some(DbError::CorruptData));
    let mut bytes = DB::new(2).save();
    bytes[0] = 0x47;
    assert_eq!(deserialize(&bytes).err(), Some(DbError::CorruptData));
    assert_eq!(deserialize(&[]).err(), Some(DbError::CorruptData));
    assert_eq!(deserialize(b"not a database at all, just text").err(), Some(DbError::CorruptData));
}

fn file(dim: u64, partitions: &[(&[u8], &[u64])], links: &[(u64, u64)]) -> Vec<u8> {
    let mut out = MAGIC.to_vec();
    out.extend(u64_le(dim));
    out.extend(u64_le(partitions.len() as u64));
    for (name, ids) in partitions {
        out.extend(u64_le(name.len() as u64));
        out.extend_from_slice(name);
        out.extend(u64_le(ids.len() as u64));
        for id in ids.iter() {
            out.extend(u64_le(*id));
            out.extend(u64_le(0));
            out.extend(1.0f32.to_bits().to_le_bytes());
            out.push(0);
            out.push(0);
            out.push(0);
            for _ in 0..dim {
                out.extend(0.0f32.to_bits().to_le_bytes());
            }
        }
    }
    out.extend(u64_le(links.len() as u64));
    for (from, to) in links {
        out.extend(u64_le(*from));
        out.extend(u64_le(*to));
    }
    out
}

#[test]
fn hand_written_file_is_read() {
    let bytes = file(2, &[(b"text", &[1, 5, 9]), (b"image", &[5])], &[(1, 5), (1, 9), (5, 1)]);
    let db = deserialize(&bytes).unwrap();
    assert_eq!(db.dim(), 2);
    assert_eq!(db.get("text", 5).unwrap().embedding, vec![0, 0]);
    assert_eq!(f32::from_bits(db.get("image", 5).unwrap().importance), 1.0);
    assert!(db.get("image", 1).is_none());
    assert_eq!(db.links_from(1), vec![5, 9]);
    assert_eq!(db.save(), bytes);
}

#[test]
fn duplicate_or_descending_ids_are_corrupt() {
    assert!(deserialize(&file(1, &[(b"text", &[1, 2])], &[])).is_ok());
    assert_eq!(deserialize(&file(1, &[(b"text", &[2, 2])], &[])).err(), Some(DbError::CorruptData));
    assert_eq!(deserialize(&file(1, &[(b"text", &[3, 2])], &[])).err(), Some(DbError::CorruptData));
    assert_eq!(
        deserialize(&file(1, &[(b"text", &[1, 2, 3, 3])], &[])).err(),
        Some(DbError::CorruptData)
    );
}

#[test]
fn repeated_modality_is_corrupt() {
    assert_eq!(
        deserialize(&file(1, &[(b"text", &[1]), (b"image", &[1]), (b"text", &[2])], &[])).err(),
        Some(DbError::CorruptData)
    );
    assert!(deserialize(&file(1, &[(b"text", &[1]), (b"image", &[1]), (b"Text", &[2])], &[])).is_ok());
}

#[test]
fn duplicate_or_descending_links_are_corrupt() {
    assert!(deserialize(&file(1, &[], &[(1, 2), (1, 3), (2, 0)])).is_ok());
    assert_eq!(deserialize(&file(1, &[], &[(1, 2), (1, 2)])).err(), Some(DbError::CorruptData));
    assert_eq!(deserialize(&file(1, &[], &[(1, 3), (1, 2)])).err(), Some(DbError::CorruptData));
    assert_eq!(deserialize(&file(1, &[], &[(2, 0), (1, 9)])).err(), Some(DbError::CorruptData));
}

#[test]
fn invalid_utf8_is_corrupt() {
    assert_eq!(
        deserialize(&file(1, &[(&[0xff, 0xfe], &[1])], &[])).err(),
        Some(DbError::CorruptData)
    );
    assert_eq!(
        deserialize(&file(1, &[(&[0xc3], &[1])], &[])).err(),
        Some(DbError::CorruptData)
    );
    assert_eq!(
        deserialize(&file(1, &[(&[0xed, 0xa0, 0x80], &[1])], &[])).err(),
        Some(DbError::CorruptData)
    );
    let ok = deserialize(&file(1, &[(&[0xc3, 0xa9], &[1])], &[])).unwrap();
    assert_eq!(ok.get("\u{e9}", 1).unwrap().modality, "\u{e9}");
}

#[test]
fn bad_option_tag_is_corrupt() {
    let good = file(1, &[(b"text", &[1])], &[]);
    assert!(deserialize(&good).is_ok());
    let source_tag = 8 + 8 + 8 + 8 + 4 + 8 + 8 + 8 + 4 + 1;
    assert_eq!(good[source_tag], 0);
    let mut bad = good.clone();
    bad[source_tag] = 2;
    assert_eq!(deserialize(&bad).err(), Some(DbError::CorruptData));
}

#[test]
fn counts_beyond_the_input_are_corrupt() {
    let mut bytes = MAGIC.to_vec();
    bytes.extend(u64_le(4));
    bytes.extend(u64_le(u64::MAX));
    bytes.extend(u64_le(0));
    assert_eq!(deserialize(&bytes).err(), Some(DbError::CorruptData));
    let mut bytes = MAGIC.to_vec();
    bytes.extend(u64_le(4));
    bytes.extend(u64_le(0));
    bytes.extend(u64_le(3));
    bytes.extend(u64_le(1));
    bytes.extend(u64_le(2));
    assert_eq!(deserialize(&bytes).err(), Some(DbError::CorruptData));
    let mut bytes = MAGIC.to_vec();
    bytes.extend(u64_le(1));
    bytes.extend(u64_le(1));
    bytes.extend(u64_le(u64::MAX));
    bytes.extend_from_slice(b"text");
    bytes.extend(u64_le(0));
    bytes.extend(u64_le(0));
    assert_eq!(deserialize(&bytes).err(), Some(DbError::CorruptData));
}

#[test]
fn open_without_stored_bytes_creates_an_empty_database() {
    let db = DB::open(None, 6).unwrap();
    assert_eq!(db.dim(), 6);
    assert_eq!(db.save(), DB::new(6).save());
    let zero = DB::open(None, 0).unwrap();
    assert_eq!(zero.dim(), 0);
}

#[test]
fn open_checks_the_dimension() {
    let bytes = populated(4, 2).save();
    assert_eq!(DB::open(Some(&bytes), 3).unwrap().dim(), 3);
    assert_eq!(DB::open(Some(&bytes), 0).unwrap().dim(), 3);
    assert_eq!(DB::open(Some(&bytes), 4).err(), Some(DbError::OpenError));
    assert_eq!(DB::open(Some(&bytes), 2).err(), Some(DbError::OpenError));
}

#[test]
fn open_of_corrupt_bytes_is_an_open_error() {
    let bytes = populated(4, 2).save();
    assert_eq!(DB::open(Some(&bytes[..bytes.len() - 1]), 3).err(), Some(DbError::OpenError));
    assert_eq!(DB::open(Some(&bytes[..bytes.len() - 1]), 0).err(), Some(DbError::OpenError));
    assert_eq!(DB::open(Some(&[]), 0).err(), Some(DbError::OpenError));
    assert_eq!(DB::open(Some(&[1, 2, 3]), 3).err(), Some(DbError::OpenError));
}

#[test]
fn saved_database_goes_on_after_reopening() {
    let mut db = DB::open(None, 2).unwrap();
    db.add(1, &bits(&[1.0, 1.0])).unwrap();
    let mut db = DB::open(Some(&db.save()), 0).unwrap();
    db.add(2, &bits(&[2.0, 2.0])).unwrap();
    db.add(1, &bits(&[5.0, 5.0])).unwrap();
    db.link(1, 2);
    let db = DB::open(Some(&db.save()), 2).unwrap();
    assert_eq!(db.get("text", 1).unwrap().embedding, bits(&[5.0, 5.0]));
    assert_eq!(db.get("text", 2).unwrap().embedding, bits(&[2.0, 2.0]));
    assert_eq!(db.links_from(1), vec![2]);
}

#[test]
fn integers_are_little_endian() {
    let mut out = vec![9u8];
    write_u32(&mut out, 0x0102_0304);
    assert_eq!(out, vec![9, 4, 3, 2, 1]);
    let mut out = Vec::new();
    write_u64(&mut out, 0x0102_0304_0506_0708);
    assert_eq!(out, vec![8, 7, 6, 5, 4, 3, 2, 1]);
    assert_eq!(read_u64(&out, 0), Some((0x0102_0304_0506_0708, 8)));
    assert_eq!(read_u32(&out, 4), Some((0x0102_0304, 8)));
    assert_eq!(read_u32(&out, 5), None);
    assert_eq!(read_u64(&out, 1), None);
    assert_eq!(read_u64(&out, 9), None);
    assert_eq!(read_u8(&out, 7), Some((1, 8)));
    assert_eq!(read_u8(&out, 8), None);
    let mut out = Vec::new();
    write_u64(&mut out, u64::MAX);
    write_u32(&mut out, u32::MAX);
    assert_eq!(out, vec![0xff; 12]);
    assert_eq!(read_u64(&out, 0), Some((u64::MAX, 8)));
    assert_eq!(read_u32(&out, 8), Some((u32::MAX, 12)));
}

#[test]
fn signed_values_are_twos_complement() {
    assert_eq!(to_bits(0), 0);
    assert_eq!(to_bits(1), 1);
    assert_eq!(to_bits(-1), u64::MAX);
    assert_eq!(to_bits(i64::MIN), 1u64 << 63);
    assert_eq!(to_bits(i64::MAX), (1u64 << 63) - 1);
    assert_eq!(from_bits(u64::MAX), -1);
    assert_eq!(from_bits(1u64 << 63), i64::MIN);
    assert_eq!(from_bits((1u64 << 63) - 1), i64::MAX);
    for t in [0i64, 5, -5, 1_700_000_000, -1_700_000_000, i64::MIN, i64::MAX] {
        assert_eq!(from_bits(to_bits(t)), t);
        assert_eq!(to_bits(t), u64::from_le_bytes(t.to_le_bytes()));
    }
}

#[test]
fn text_is_length_prefixed_utf8() {
    let mut out = Vec::new();
    write_text(&mut out, "h\u{e9}");
    assert_eq!(out, vec![3, 0, 0, 0, 0, 0, 0, 0, 0x68, 0xc3, 0xa9]);
    assert_eq!(read_text(&out, 0), Some(("h\u{e9}".to_string(), 11)));
    assert_eq!(read_text(&out[..10], 0), None);
    assert_eq!(read_text(&out, 1), None);
    let mut out = Vec::new();
    write_text(&mut out, "");
    assert_eq!(out, vec![0; 8]);
    assert_eq!(read_text(&out, 0), Some((String::new(), 8)));
    let broken = vec![1, 0, 0, 0, 0, 0, 0, 0, 0x80];
    assert_eq!(read_text(&broken, 0), None);
}

#[test]
fn optional_text_has_a_tag() {
    let mut out = Vec::new();
    write_opt_text(&mut out, None);
    write_opt_text(&mut out, Some(""));
    write_opt_text(&mut out, Some("a"));
    assert_eq!(
        out,
        vec![0, 1, 0, 0, 0, 0, 0, 0, 0, 0, 1, 1, 0, 0, 0, 0, 0, 0, 0, 0x61]
    );
    assert_eq!(read_opt_text(&out, 0), Some((None, 1)));
    assert_eq!(read_opt_text(&out, 1), Some((Some(String::new()), 10)));
    assert_eq!(read_opt_text(&out, 10), Some((Some("a".to_string()), 20)));
    assert_eq!(read_opt_text(&out, 20), None);
    assert_eq!(read_opt_text(&[2], 0), None);
}
