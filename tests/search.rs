use chromasearch::beam::Beam;
use chromasearch::{ConfigurationError, Database, DatabaseConfiguration, Feature, Fraction, QueryResult};

fn run_query(db: &Database, query: &[u64]) -> Vec<QueryResult> {
    let mut q = db.new_query();
    for f in query {
        assert!(q.has_capacity());
        q.update(Feature::from(*f));
    }
    q.finalize()
}

fn key_a() -> Vec<u64> {
    vec![0x1f, 0x3e0, 0x7c00, 0xf8000, 0x1f0_0000, 0x3e00_0000]
}

fn features(v: &[u64]) -> Vec<Feature> {
    v.iter().map(|x| Feature::from(*x)).collect()
}

#[test]
fn test_feature_distance() {
    let f1 = Feature::from(0b1010u64);
    let f2 = Feature::from(0b1100u64);
    assert_eq!(f1.distance(&f2), 2);

    let f3 = Feature::from(0u64);
    let f4 = Feature::from(u64::MAX);
    assert_eq!(f3.distance(&f4), 64);
}

#[test]
fn self_and_complement_distance() {
    for x in [0u64, 1, 0xdead_beef, u64::MAX, 0x8000_0000_0000_0000] {
        let f = Feature::from(x);
        assert_eq!(f.distance(&f), 0);
        assert_eq!(f.distance(&Feature::from(!x)), 64);
    }
}

#[test]
fn fraction_order() {
    let a = Fraction { n: 1, d: 2 };
    let b = Fraction { n: 2, d: 3 };
    assert!(a.less_than(&b));
    assert!(!b.less_than(&a));
    let c = Fraction { n: 2, d: 4 };
    assert!(!a.less_than(&c));
    assert!(!c.less_than(&a));
    let big = Fraction { n: u32::MAX, d: u32::MAX };
    let one = Fraction { n: 1, d: 1 };
    assert!(!big.less_than(&one));
}

#[test]
fn fraction_equality_is_by_value() {
    assert_eq!(Fraction { n: 1, d: 2 }, Fraction { n: 2, d: 4 });
    assert_ne!(Fraction { n: 1, d: 2 }, Fraction { n: 2, d: 3 });
    assert_eq!(Fraction { n: u32::MAX, d: u32::MAX }, Fraction { n: 1, d: 1 });
}

#[test]
fn result_equality_compares_score_values() {
    let a = QueryResult { uuid: 4, score: Fraction { n: 1, d: 2 }, key_start: 0, key_end: 3, query_start: 1 };
    let b = QueryResult { score: Fraction { n: 50, d: 100 }, ..a };
    let c = QueryResult { key_end: 2, ..a };
    assert_eq!(a, b);
    assert_ne!(a, c);
}

#[test]
fn database_rejects_invalid_configuration() {
    let mut cfg = DatabaseConfiguration::default_configuration();
    assert!(Database::with_configuration(cfg).is_ok());
    cfg.search_beam_count = 0;
    assert_eq!(Database::with_configuration(cfg).err(), Some(ConfigurationError::InvalidConfiguration));
    let mut cfg = DatabaseConfiguration::default_configuration();
    cfg.search_window_size = 0;
    assert!(Database::with_configuration(cfg).is_err());
}

#[test]
fn beam_ends() {
    let b = Beam { query_start: 2, path: vec![3, 5, 6] };
    assert_eq!(b.key_start(), 3);
    assert_eq!(b.key_end(), 6);
}

#[test]
fn configuration_validation() {
    assert!(DatabaseConfiguration::new(11500, 2048, 1000, 3, 3, 100).is_ok());
    assert!(DatabaseConfiguration::new(11500, 2048, 0, 3, 3, 100).is_err());
    assert!(DatabaseConfiguration::new(11500, 2048, 1000, 0, 3, 100).is_err());
    let d = DatabaseConfiguration::default_configuration();
    assert_eq!(d.search_beam_count, 1000);
    assert_eq!(d.search_score_penalty, 100);
}

#[test]
fn empty_database_gives_no_results() {
    let db = Database::new(DatabaseConfiguration::default_configuration());
    let r = run_query(&db, &key_a());
    assert!(r.is_empty());
}

#[test]
fn empty_query_gives_no_results() {
    let mut db = Database::new(DatabaseConfiguration::default_configuration());
    db.insert(1, features(&key_a()));
    let r = run_query(&db, &[]);
    assert!(r.is_empty());
}

#[test]
fn self_match_recall() {
    let mut db = Database::new(DatabaseConfiguration::default_configuration());
    db.insert(7, features(&key_a()));
    let r = run_query(&db, &key_a());
    let top = r[0];
    assert_eq!(top.uuid, 7);
    assert_eq!(top.query_start, 0);
    assert!(top.key_start <= 1);
    assert_eq!(top.key_start, 0);
    assert_eq!(top.key_end - top.key_start, key_a().len() - 1);
    // a perfect alignment of six steps: 100 / (3 + 6)
    assert_eq!(top.score, Fraction { n: 100, d: 9 });
}

#[test]
fn matching_key_ranks_first() {
    let mut db = Database::new(DatabaseConfiguration::default_configuration());
    let other: Vec<u64> = key_a().iter().map(|x| !x).collect();
    db.insert(1, features(&other));
    db.insert(2, features(&key_a()));
    let r = run_query(&db, &key_a());
    assert_eq!(r[0].uuid, 2);
    for x in r.iter().filter(|x| x.uuid == 1) {
        assert!(r[0].score.less_than(&x.score));
    }
}

#[test]
fn results_sorted_best_first() {
    let mut db = Database::new(DatabaseConfiguration::default_configuration());
    db.insert(1, features(&[0, 3, 0xff, 0x0f0f, 7, 0]));
    db.insert(2, features(&key_a()));
    let r = run_query(&db, &[0x1f, 0xff, 0x3e0]);
    assert!(!r.is_empty());
    for w in r.windows(2) {
        assert!(!w[1].score.less_than(&w[0].score));
    }
}

#[test]
fn beams_per_key_bounded_and_distinct_ends() {
    let cfg = DatabaseConfiguration::new(11500, 2048, 2, 3, 3, 100).unwrap();
    let mut db = Database::new(cfg);
    db.insert(5, features(&key_a()));
    let r = run_query(&db, &[0x1f, 0x3e0, 0x7c00]);
    assert!(r.len() <= 2);
    if r.len() == 2 {
        assert_ne!(r[0].key_end, r[1].key_end);
    }
    for x in &r {
        assert!(x.key_start <= x.key_end);
    }
}

#[test]
fn extension_score_grows_by_distance() {
    // one key of two fingerprints; the beam seeded at 0 extends to 1
    let cfg = DatabaseConfiguration::new(11500, 2048, 1, 3, 3, 100).unwrap();
    let mut db = Database::new(cfg);
    db.insert(9, features(&[0, 0b111]));
    let r = run_query(&db, &[0, 0b1]);
    assert_eq!(r.len(), 1);
    // seed (100 + 0) / 4, then extension adds distance 2: (100 + 2) / 5
    assert_eq!(r[0].score, Fraction { n: 102, d: 5 });
    assert_eq!(r[0].key_start, 0);
    assert_eq!(r[0].key_end, 1);
    assert_eq!(r[0].query_start, 0);
}

#[test]
fn insert_replaces_existing_key() {
    let mut db = Database::new(DatabaseConfiguration::default_configuration());
    db.insert(3, features(&[u64::MAX, u64::MAX]));
    db.insert(3, features(&key_a()));
    assert_eq!(db.len(), 1);
    let r = run_query(&db, &key_a());
    assert_eq!(r[0].uuid, 3);
    assert_eq!(r[0].score, Fraction { n: 100, d: 9 });
}

#[test]
fn whole_search_matches_streaming_query() {
    let mut db = Database::new(DatabaseConfiguration::default_configuration());
    db.insert(1, features(&[0, 3, 0xff, 0x0f0f, 7, 0]));
    db.insert(2, features(&key_a()));
    let query = [0x1f, 0xff, 0x3e0, 7];
    assert!(db.can_search(query.len()));
    let whole = db.search(&features(&query));
    assert_eq!(whole, run_query(&db, &query));
    assert_eq!(whole[0].uuid, 2);
}

#[test]
fn search_capacity_limit() {
    let cfg = DatabaseConfiguration::new(11500, 2048, 10, 3, 3, 100).unwrap();
    let db = Database::new(cfg);
    assert!(db.can_search(0));
    assert!(db.can_search(1000));
    // 100 + 64 * n must stay within 32 bits
    assert!(db.can_search(67_108_862));
    assert!(!db.can_search(67_108_863));
}

#[test]
fn identical_runs_identical_results() {
    let mut db = Database::new(DatabaseConfiguration::default_configuration());
    db.insert(1, features(&[0, 3, 0xff, 0x0f0f, 7, 0]));
    db.insert(2, features(&key_a()));
    let a = run_query(&db, &[0x1f, 0xff, 0x3e0, 7]);
    let b = run_query(&db, &[0x1f, 0xff, 0x3e0, 7]);
    assert_eq!(a, b);
}
