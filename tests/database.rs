use zeta::block::BLOCK_SIZE;
use zeta::database::Database;
use zeta::error::{InsertError, LoadError, QueryError};

fn frame(data: &[u8]) -> Vec<u8> {
    let mut encoder = lz4_flex::frame::FrameEncoder::new(Vec::new());
    std::io::Write::write_all(&mut encoder, data).unwrap();
    encoder.finish().unwrap()
}

fn u64_le(n: u64) -> Vec<u8> {
    n.to_le_bytes().to_vec()
}

fn texts(v: &[&String]) -> Vec<String> {
    v.iter().map(|s| s.to_string()).collect()
}

fn query(db: &Database, q: &str) -> Vec<String> {
    texts(&db.get(q).expect("every block is in memory"))
}

#[test]
fn scenario_query_both_records() {
    let mut db = Database::new();
    db.insert(String::from("the quick fox")).unwrap();
    db.insert(String::from("the lazy dog")).unwrap();
    assert_eq!(db.block_count(), 1);
    assert_eq!(query(&db, "the"), vec!["the quick fox", "the lazy dog"]);
}

#[test]
fn scenario_save_load_fox() {
    let mut db = Database::new();
    db.insert(String::from("the quick fox")).unwrap();
    db.insert(String::from("the lazy dog")).unwrap();
    let saved = db.save();

    let mut fresh = Database::default();
    fresh.load(&saved.bloom, &saved.index).expect("artifacts load");
    assert_eq!(fresh.block_count(), 1);
    assert!(!fresh.block(0).is_resident());
    assert_eq!(fresh.get("fox").unwrap_err(), QueryError::NotResident(0));
    let records = saved.records[0].as_ref().expect("block 0 was in memory");
    fresh.materialize(0, records).expect("records load");
    assert!(fresh.block(0).is_resident());
    assert_eq!(query(&fresh, "fox"), vec!["the quick fox"]);
}

#[test]
fn index_lists_ordinals() {
    let mut db = Database::new();
    db.insert(String::from("a b")).unwrap();
    db.insert(String::from("b c")).unwrap();
    let postings = db.block(0).postings();
    assert_eq!(postings.get("b"), Some(&vec![0usize, 1]));
    assert_eq!(postings.get("a"), Some(&vec![0usize]));
    assert_eq!(postings.get("c"), Some(&vec![1usize]));
    assert_eq!(postings.get("d"), None);
}

#[test]
fn repeated_word_is_indexed_once() {
    let mut db = Database::new();
    db.insert(String::from("echo echo echo")).unwrap();
    assert_eq!(db.block(0).postings().get("echo"), Some(&vec![0usize]));
    assert_eq!(query(&db, "echo"), vec!["echo echo echo"]);
}

#[test]
fn query_absent_word_is_empty() {
    let mut db = Database::new();
    db.insert(String::from("the quick fox")).unwrap();
    db.insert(String::from("the lazy dog")).unwrap();
    assert!(query(&db, "zebra").is_empty());
    assert!(query(&Database::new(), "zebra").is_empty());
}

#[test]
fn block_fill_boundary() {
    let mut db = Database::new();
    for i in 0..(BLOCK_SIZE + 1) {
        db.insert(format!("record {i}")).unwrap();
    }
    assert_eq!(db.block_count(), 2);
    assert_eq!(db.block(0).len(), BLOCK_SIZE);
    assert_eq!(db.block(1).len(), 1);
    assert_eq!(query(&db, &format!("{}", BLOCK_SIZE)), vec![format!("record {}", BLOCK_SIZE)]);
}

#[test]
fn query_goes_newest_block_first() {
    let mut db = Database::new();
    for i in 0..(BLOCK_SIZE + 1) {
        if i == 3 {
            db.insert(String::from("needle old")).unwrap();
        } else {
            db.insert(format!("filler {i}")).unwrap();
        }
    }
    db.insert(String::from("needle new")).unwrap();
    assert_eq!(query(&db, "needle"), vec!["needle new", "needle old"]);
}

#[test]
fn multi_word_query_lists_record_per_word() {
    let mut db = Database::new();
    db.insert(String::from("red fox")).unwrap();
    db.insert(String::from("red hen")).unwrap();
    db.insert(String::from("blue fox")).unwrap();
    assert_eq!(
        query(&db, "fox red"),
        vec!["red fox", "blue fox", "red fox", "red hen"]
    );
}

#[test]
fn query_strips_punctuation() {
    let mut db = Database::new();
    db.insert(String::from("Hello, world!")).unwrap();
    assert_eq!(query(&db, "world?"), vec!["Hello, world!"]);
    assert_eq!(query(&db, "Hello"), vec!["Hello, world!"]);
    assert!(query(&db, "hello").is_empty());
}

#[test]
fn words_pass_filter_after_insert() {
    let mut db = Database::new();
    let words: Vec<String> = (0..500).map(|i| format!("w{i}")).collect();
    for w in &words {
        db.insert(w.clone()).unwrap();
    }
    for w in &words {
        assert!(db.block(0).bloom_contains(w));
    }
}

#[test]
fn false_positive_rate_is_small() {
    let mut db = Database::new();
    let n = 5000;
    for i in 0..n {
        db.insert(format!("in{i}")).unwrap();
    }
    let block = db.block(0);
    let sample = 20000;
    let hits = (0..sample).filter(|i| block.bloom_contains(&format!("out{i}"))).count();
    let rate = hits as f64 / sample as f64;
    let m = 128_966f64;
    let k = 3f64;
    let expected = (1.0 - (-k * n as f64 / m).exp()).powf(k);
    assert!(rate < expected * 3.0 + 0.001, "rate {rate}, expected about {expected}");
}

#[test]
fn round_trip_gives_same_answers() {
    let mut db = Database::new();
    for i in 0..(BLOCK_SIZE + 10) {
        db.insert(format!("item {} group{}", i, i % 7)).unwrap();
    }
    db.insert(String::from("unicode café naïve")).unwrap();
    let saved = db.save();
    let mut fresh = Database::new();
    fresh.load(&saved.bloom, &saved.index).unwrap();
    assert_eq!(fresh.block_count(), db.block_count());
    for i in 0..fresh.block_count() {
        fresh.materialize(i, saved.records[i].as_ref().unwrap()).unwrap();
    }
    for q in ["group3", "item", "café", "9000", "naïve group1", "absent"] {
        assert_eq!(query(&fresh, q), query(&db, q));
    }
}

#[test]
fn materialize_twice_is_noop() {
    let mut db = Database::new();
    db.insert(String::from("one")).unwrap();
    let saved = db.save();
    let mut fresh = Database::new();
    fresh.load(&saved.bloom, &saved.index).unwrap();
    let records = saved.records[0].as_ref().unwrap();
    fresh.materialize(0, records).unwrap();
    fresh.materialize(0, &[1, 2, 3]).unwrap();
    assert_eq!(query(&fresh, "one"), vec!["one"]);
}

#[test]
fn cold_last_block_is_loaded_before_insert() {
    let mut db = Database::new();
    db.insert(String::from("first")).unwrap();
    let saved = db.save();
    let mut fresh = Database::new();
    fresh.load(&saved.bloom, &saved.index).unwrap();
    assert_eq!(fresh.insert(String::from("second")), Err(InsertError::NotResident(0)));
    assert_eq!(fresh.block_count(), 1);
    fresh.materialize(0, saved.records[0].as_ref().unwrap()).unwrap();
    fresh.insert(String::from("second")).unwrap();
    assert_eq!(fresh.block_count(), 1);
    assert_eq!(fresh.block(0).len(), 2);
    assert_eq!(fresh.block(0).postings().get("second"), Some(&vec![1usize]));
    assert_eq!(query(&fresh, "second"), vec!["second"]);
}

#[test]
fn cold_block_has_no_records_artifact_on_save() {
    let mut db = Database::new();
    db.insert(String::from("first")).unwrap();
    let saved = db.save();
    let mut fresh = Database::new();
    fresh.load(&saved.bloom, &saved.index).unwrap();
    let again = fresh.save();
    assert!(again.records[0].is_none());
    assert_eq!(again.bloom, saved.bloom);
}

#[test]
fn load_rejects_bad_bloom() {
    let mut db = Database::new();
    db.insert(String::from("x")).unwrap();
    let saved = db.save();
    let mut fresh = Database::new();
    let short = &saved.bloom[..saved.bloom.len() - 1];
    assert_eq!(fresh.load(short, &saved.index), Err(LoadError::Layout));
    let mut long = saved.bloom.clone();
    long.push(0);
    assert_eq!(fresh.load(&long, &saved.index), Err(LoadError::Layout));
    assert_eq!(fresh.block_count(), 0);
}

#[test]
fn load_rejects_bad_frame() {
    let mut db = Database::new();
    db.insert(String::from("x")).unwrap();
    let saved = db.save();
    let mut fresh = Database::new();
    assert_eq!(fresh.load(&saved.bloom, &[1, 2, 3, 4, 5]), Err(LoadError::Frame));
}

#[test]
fn load_rejects_more_index_blocks_than_filters() {
    let mut one = Database::new();
    one.insert(String::from("x")).unwrap();
    let mut two = Database::new();
    for i in 0..(BLOCK_SIZE + 1) {
        two.insert(format!("{i}")).unwrap();
    }
    let a = one.save();
    let b = two.save();
    let mut fresh = Database::new();
    assert_eq!(fresh.load(&a.bloom, &b.index), Err(LoadError::UnknownBlock));
}

#[test]
fn materialize_errors() {
    let mut db = Database::new();
    db.insert(String::from("a b c")).unwrap();
    db.insert(String::from("d")).unwrap();
    let saved = db.save();
    let mut small = Database::new();
    small.insert(String::from("a")).unwrap();
    let small_saved = small.save();

    let mut fresh = Database::new();
    fresh.load(&saved.bloom, &saved.index).unwrap();
    assert_eq!(fresh.materialize(5, &[]), Err(LoadError::NoSuchBlock));
    assert_eq!(fresh.materialize(0, &[9, 9, 9]), Err(LoadError::Frame));
    assert_eq!(fresh.materialize(0, &frame(&[1, 0, 0])), Err(LoadError::Layout));
    assert_eq!(
        fresh.materialize(0, small_saved.records[0].as_ref().unwrap()),
        Err(LoadError::MissingRecord)
    );
    assert!(!fresh.block(0).is_resident());
}

#[test]
fn load_rejects_unordered_or_repeated_index() {
    let mut db = Database::new();
    db.insert(String::from("x")).unwrap();
    let saved = db.save();
    let mut fresh = Database::new();

    let mut plain = u64_le(1);
    plain.extend(u64_le(1));
    plain.extend(u64_le(1));
    plain.extend(b"x");
    plain.extend(u64_le(2));
    plain.extend(u64_le(1));
    plain.extend(u64_le(0));
    assert_eq!(fresh.load(&saved.bloom, &frame(&plain)), Err(LoadError::BadIndex));

    let mut plain = u64_le(1);
    plain.extend(u64_le(2));
    for _ in 0..2 {
        plain.extend(u64_le(1));
        plain.extend(b"x");
        plain.extend(u64_le(1));
        plain.extend(u64_le(0));
    }
    assert_eq!(fresh.load(&saved.bloom, &frame(&plain)), Err(LoadError::BadIndex));

    let mut plain = u64_le(1);
    plain.extend(u64_le(1));
    plain.extend(u64_le(2));
    plain.extend([0xff, 0xfe]);
    plain.extend(u64_le(0));
    assert_eq!(fresh.load(&saved.bloom, &frame(&plain)), Err(LoadError::Layout));
    assert_eq!(fresh.block_count(), 0);
}

#[test]
fn load_accepts_fewer_index_blocks() {
    let mut db = Database::new();
    for i in 0..(BLOCK_SIZE + 1) {
        db.insert(format!("{i}")).unwrap();
    }
    let saved = db.save();
    let mut fresh = Database::new();
    fresh.load(&saved.bloom, &frame(&u64_le(0))).unwrap();
    assert_eq!(fresh.block_count(), 2);
    assert!(fresh.block(1).postings().is_empty());
}

#[test]
fn saved_bloom_layout() {
    let mut db = Database::new();
    db.insert(String::from("x")).unwrap();
    let saved = db.save();
    assert_eq!(saved.bloom.len(), 8 + 1008 * 16);
    assert_eq!(&saved.bloom[..8], &u64_le(1)[..]);
    assert!(saved.bloom[8..].iter().any(|b| *b != 0));
}

#[test]
fn saved_records_layout() {
    let mut db = Database::new();
    db.insert(String::from("ab")).unwrap();
    db.insert(String::from("é")).unwrap();
    let saved = db.save();
    let framed = saved.records[0].as_ref().unwrap();
    let mut plain = Vec::new();
    std::io::Read::read_to_end(&mut lz4_flex::frame::FrameDecoder::new(&framed[..]), &mut plain).unwrap();
    let mut expected = u64_le(2);
    expected.extend(u64_le(2));
    expected.extend(b"ab");
    expected.extend(u64_le(2));
    expected.extend("é".as_bytes());
    assert_eq!(plain, expected);
    assert_ne!(framed, &expected);
}

#[test]
fn saved_index_layout() {
    let mut db = Database::new();
    db.insert(String::from("a a")).unwrap();
    let saved = db.save();
    let mut plain = Vec::new();
    std::io::Read::read_to_end(&mut lz4_flex::frame::FrameDecoder::new(&saved.index[..]), &mut plain).unwrap();
    let mut expected = u64_le(1);
    expected.extend(u64_le(1));
    expected.extend(u64_le(1));
    expected.extend(b"a");
    expected.extend(u64_le(1));
    expected.extend(u64_le(0));
    assert_eq!(plain, expected);
}

#[test]
fn empty_query_passes_every_block() {
    let mut db = Database::new();
    db.insert(String::from("x")).unwrap();
    assert!(query(&db, "").is_empty());
    let saved = db.save();
    let mut fresh = Database::new();
    fresh.load(&saved.bloom, &saved.index).unwrap();
    assert_eq!(fresh.get("...").unwrap_err(), QueryError::NotResident(0));
}
